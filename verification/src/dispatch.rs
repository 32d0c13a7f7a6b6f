//! The retrying dispatcher: one logical operation against the external
//! service, through the key pool.
//!
//! One attempt asks the pool for a credential (or uses a pinned one),
//! performs the transport call, and classifies the outcome: a rate-limit
//! response puts the credential on cooldown and the next attempt follows,
//! up to three in all; any other response, and any transport-level failure,
//! ends the operation at once. The transport outcomes enter as values, one
//! per attempt, so the whole control flow is a function the verifier sees;
//! a caller that talks to a live transport makes the same decisions one
//! attempt at a time through the pool's methods and `classify_status`.

use vstd::prelude::*;
use crate::pool::KeyManager;
use crate::pool::sat_add64;
use crate::pool::sat_inc64;

verus! {

/// Most attempts one dispatched operation makes.
pub const MAX_ATTEMPTS: usize = 3;

/// One transport outcome, as the dispatcher sees it: either the call
/// failed below HTTP, or a response arrived with its status code, the
/// retry hint of a rate-limit response, and the body.
#[derive(Debug, Clone, PartialEq)]
pub enum TransportEvent {
    Failed,
    Response { status: u16, retry_after: Option<u64>, body: String },
}

/// How a dispatched operation fails.
#[derive(Debug, Clone, PartialEq)]
pub enum ApiError {
    /// Every credential is marked invalid; nothing can be dispatched.
    NoValidKeys,
    /// Every attempt saw a rate limit.
    RateLimited,
    /// A response with a non-success status other than a rate limit.
    Upstream { status: u16, body: String },
    /// The transport itself failed; nothing is known about the request.
    Transport,
}

/// What one attempt writes to the audit trail: the credential used and the
/// status seen, absent for a transport-level failure.
#[derive(Debug, Clone, Copy, PartialEq)]
pub struct AttemptLog {
    pub key_index: usize,
    pub status: Option<u16>,
}

/// The status code a transport outcome carries, if it carries one.
pub open spec fn event_status(e: TransportEvent) -> Option<u16> {
    match e {
        TransportEvent::Failed => None,
        TransportEvent::Response { status, .. } => Some(status),
    }
}

/// A response that only signals rate limiting; the one outcome that is
/// retried.
pub open spec fn is_rate_limit_event(e: TransportEvent) -> bool {
    event_status(e) == Some(429u16)
}

/// A status code that counts as success.
pub open spec fn is_success_status(s: u16) -> bool {
    200 <= s < 300
}

/// The attempt index of the first outcome that ends the operation — the
/// first that is not a plain rate limit — or `max` when none does within
/// `max` attempts.
pub open spec fn first_decisive(events: Seq<TransportEvent>, max: nat) -> int
    decreases max,
{
    if max == 0 {
        0
    } else if !is_rate_limit_event(events[0]) {
        0
    } else {
        1 + first_decisive(events.drop_first(), (max - 1) as nat)
    }
}

/// How many attempts a dispatched operation makes against these outcomes.
pub open spec fn dispatch_attempts(events: Seq<TransportEvent>) -> int {
    if first_decisive(events, MAX_ATTEMPTS as nat) < MAX_ATTEMPTS {
        first_decisive(events, MAX_ATTEMPTS as nat) + 1
    } else {
        MAX_ATTEMPTS as int
    }
}

proof fn lemma_first_decisive(events: Seq<TransportEvent>, max: nat, j: int)
    requires
        0 <= j <= max,
        max <= events.len(),
        forall|k: int| 0 <= k < j ==> is_rate_limit_event(#[trigger] events[k]),
    ensures
        j < max && !is_rate_limit_event(events[j]) ==> first_decisive(events, max) == j,
        j == max ==> first_decisive(events, max) == max,
    decreases j,
{
    if j > 0 {
        assert(is_rate_limit_event(events[0]));
        lemma_first_decisive(events.drop_first(), (max - 1) as nat, j - 1);
        assert(forall|k: int| 0 <= k < j - 1
            ==> #[trigger] events.drop_first()[k] == events[k + 1]);
        if j < max {
            assert(events.drop_first()[j - 1] == events[j]);
        }
    }
}

/// A transport that answers nothing but rate limits exhausts all three
/// attempts, and the operation ends rate limited.
pub proof fn lemma_all_rate_limited(events: Seq<TransportEvent>)
    requires
        events.len() >= MAX_ATTEMPTS,
        forall|k: int| 0 <= k < MAX_ATTEMPTS ==> is_rate_limit_event(#[trigger] events[k]),
    ensures
        first_decisive(events, MAX_ATTEMPTS as nat) == MAX_ATTEMPTS,
        dispatch_attempts(events) == MAX_ATTEMPTS,
{
    lemma_first_decisive(events, MAX_ATTEMPTS as nat, MAX_ATTEMPTS as int);
}

/// A first outcome that is not a rate limit — a success, an upstream
/// error, or a transport failure — ends the operation after exactly one
/// attempt.
pub proof fn lemma_immediate_outcome(events: Seq<TransportEvent>)
    requires
        events.len() >= MAX_ATTEMPTS,
        !is_rate_limit_event(events[0]),
    ensures
        first_decisive(events, MAX_ATTEMPTS as nat) == 0,
        dispatch_attempts(events) == 1,
{
}

/// How one response status is classified.
#[derive(Debug, Clone, Copy, PartialEq, Eq, Structural)]
pub enum ResponseClass {
    /// HTTP 429: put the credential on cooldown and retry if attempts remain.
    RateLimited,
    /// A success status: record the success and return the payload.
    Success,
    /// Any other status: fail at once, without retrying.
    Upstream,
}

/// Classifies one response status the way the dispatcher does.
pub fn classify_status(status: u16) -> (r: ResponseClass)
    ensures
        r == ResponseClass::RateLimited <==> status == 429,
        r == ResponseClass::Success <==> (is_success_status(status) && status != 429),
        r == ResponseClass::Upstream <==> (!is_success_status(status) && status != 429),
{
    if status == 429 {
        ResponseClass::RateLimited
    } else if 200 <= status && status < 300 {
        ResponseClass::Success
    } else {
        ResponseClass::Upstream
    }
}

/// How many of these attempts rate-limited credential `i`: one cooldown
/// mark per logged 429 on it.
pub open spec fn rate_limit_marks(logs: Seq<AttemptLog>, i: int) -> nat
    decreases logs.len(),
{
    if logs.len() == 0 {
        0
    } else {
        rate_limit_marks(logs.drop_last(), i) + (
            if logs.last().key_index == i && logs.last().status == Some(429u16) {
                1nat
            } else {
                0nat
            }
        )
    }
}

proof fn lemma_marks_push(logs: Seq<AttemptLog>, e: AttemptLog)
    ensures
        forall|i: int| #[trigger] rate_limit_marks(logs.push(e), i) == rate_limit_marks(logs, i)
            + (if e.key_index == i && e.status == Some(429u16) { 1nat } else { 0nat }),
{
    assert forall|i: int| #[trigger] rate_limit_marks(logs.push(e), i) == rate_limit_marks(logs, i)
        + (if e.key_index == i && e.status == Some(429u16) { 1nat } else { 0nat }) by {
        assert(logs.push(e).drop_last() =~= logs);
        assert(logs.push(e).last() == e);
    }
}

proof fn lemma_marks_bound(logs: Seq<AttemptLog>)
    ensures
        forall|i: int| #[trigger] rate_limit_marks(logs, i) <= logs.len(),
    decreases logs.len(),
{
    if logs.len() > 0 {
        lemma_marks_bound(logs.drop_last());
        assert forall|i: int| #[trigger] rate_limit_marks(logs, i) <= logs.len() by {
            assert(rate_limit_marks(logs.drop_last(), i) <= logs.drop_last().len());
        }
    }
}

/// Runs one logical operation, the transport outcomes given as values, one
/// per attempt: up to three attempts, each selecting a credential (or using
/// the pinned one), then classifying that attempt's outcome. A rate limit
/// marks the credential and retries; a success records it and returns the
/// response body; anything else fails at once. One log record is produced
/// per attempt, carrying the credential used and the status seen, if any.
///
/// The pool changes exactly as the attempts say: each logged rate limit
/// puts one cooldown and one error count on its credential, the successful
/// attempt's credential gets its request and success counters bumped and
/// its cooldown cleared, and every other record — in particular on a
/// transport failure or an upstream error with no rate limits before it —
/// is left as it was.
pub fn issue(pool: &mut KeyManager, pinned: Option<usize>, events: &Vec<TransportEvent>, start: u64)
    -> (r: (Result<String, ApiError>, Vec<AttemptLog>))
    requires
        old(pool).wf(),
        events@.len() >= MAX_ATTEMPTS,
        pinned matches Some(p) ==> p < old(pool).key_count(),
    ensures
        final(pool).wf(),
        final(pool).key_count() == old(pool).key_count(),
        forall|i: int| 0 <= i < final(pool).key_count()
            ==> final(pool).credential(i) == old(pool).credential(i)
                && final(pool).rec(i).valid == old(pool).rec(i).valid,
        final(pool).last_validated() == old(pool).last_validated(),
        final(pool).version() == old(pool).version(),
        final(pool).stale_entries() == old(pool).stale_entries(),
        pinned is None && !old(pool).has_valid() ==> {
            &&& r.0 == Err::<String, ApiError>(ApiError::NoValidKeys)
            &&& r.1@.len() == 0
            &&& *final(pool) == *old(pool)
        },
        pinned is Some || old(pool).has_valid() ==> {
            let fd = first_decisive(events@, MAX_ATTEMPTS as nat);
            &&& r.1@.len() == dispatch_attempts(events@)
            &&& (forall|k: int| 0 <= k < r.1@.len()
                ==> (#[trigger] r.1@[k]).status == event_status(events@[k])
                    && r.1@[k].key_index < old(pool).key_count()
                    && (pinned matches Some(p) ==> r.1@[k].key_index == p))
            &&& (fd == MAX_ATTEMPTS ==> r.0 == Err::<String, ApiError>(ApiError::RateLimited))
            &&& (fd < MAX_ATTEMPTS ==> match events@[fd] {
                TransportEvent::Failed => r.0 == Err::<String, ApiError>(ApiError::Transport),
                TransportEvent::Response { status, body, .. } => {
                    if is_success_status(status) {
                        r.0 matches Ok(b) && b@ == body@
                    } else {
                        r.0 matches Err(e) && e matches ApiError::Upstream { status: s, body: b }
                            && s == status && b@ == body@
                    }
                },
            })
            &&& (r.0 matches Ok(_) ==> ({
                let lk = r.1@.last().key_index as int;
                &&& final(pool).rec(lk).cooldown_until is None
                &&& final(pool).rec(lk).usage.success
                    == sat_inc64(old(pool).rec(lk).usage.success)
                &&& final(pool).rec(lk).usage.requests
                    == sat_inc64(old(pool).rec(lk).usage.requests)
            }))
            &&& (r.0 == Err::<String, ApiError>(ApiError::RateLimited)
                ==> final(pool).rec(r.1@.last().key_index as int).cooldown_until is Some)
            &&& (forall|i: int| 0 <= i < old(pool).key_count()
                    && rate_limit_marks(r.1@, i) == 0
                    && !(r.0 is Ok && i == r.1@.last().key_index as int)
                ==> #[trigger] final(pool).rec(i) == old(pool).rec(i))
            &&& (forall|i: int| 0 <= i < old(pool).key_count()
                    && !(r.0 is Ok && i == r.1@.last().key_index as int)
                ==> (#[trigger] final(pool).rec(i)).usage.success
                        == old(pool).rec(i).usage.success
                    && final(pool).rec(i).usage.requests == old(pool).rec(i).usage.requests)
            &&& (forall|i: int| 0 <= i < old(pool).key_count()
                ==> (#[trigger] final(pool).rec(i)).usage.errors
                    == sat_add64(old(pool).rec(i).usage.errors, rate_limit_marks(r.1@, i) as u64))
            &&& (forall|i: int| 0 <= i < old(pool).key_count()
                    && rate_limit_marks(r.1@, i) > 0
                    && !(r.0 is Ok && i == r.1@.last().key_index as int)
                ==> (#[trigger] final(pool).rec(i)).cooldown_until is Some)
        },
    {
        let ghost pre = *pool;
        let mut logs: Vec<AttemptLog> = Vec::new();
        let mut now = start;
        let mut attempt: usize = 0;
        while attempt < MAX_ATTEMPTS
            invariant
                pre == *old(pool),
                pool.wf(),
                events@.len() >= MAX_ATTEMPTS,
                pinned matches Some(p) ==> p < pool.key_count(),
                attempt <= 2,
                logs@.len() == attempt,
                pool.key_count() == pre.key_count(),
                forall|i: int| 0 <= i < pool.key_count()
                    ==> pool.credential(i) == pre.credential(i)
                        && (#[trigger] pool.rec(i)).valid == pre.rec(i).valid
                        && pool.rec(i).usage.success == pre.rec(i).usage.success
                        && pool.rec(i).usage.requests == pre.rec(i).usage.requests
                        && pool.rec(i).usage.errors
                            == sat_add64(pre.rec(i).usage.errors, rate_limit_marks(logs@, i) as u64),
                forall|i: int| 0 <= i < pool.key_count() && rate_limit_marks(logs@, i) == 0
                    ==> #[trigger] pool.rec(i) == pre.rec(i),
                forall|i: int| 0 <= i < pool.key_count() && rate_limit_marks(logs@, i) > 0
                    ==> (#[trigger] pool.rec(i)).cooldown_until is Some,
                pool.last_validated() == pre.last_validated(),
                pool.version() == pre.version(),
                pool.stale_entries() == pre.stale_entries(),
                attempt == 0 ==> *pool == pre,
                attempt > 0 ==> pre.has_valid() || pinned is Some,
                forall|k: int| 0 <= k < attempt ==> is_rate_limit_event(#[trigger] events@[k]),
                forall|k: int| 0 <= k < attempt
                    ==> (#[trigger] logs@[k]).status == event_status(events@[k])
                        && logs@[k].key_index < pre.key_count()
                        && (pinned matches Some(p) ==> logs@[k].key_index == p),
            decreases MAX_ATTEMPTS - attempt,
        {
            let idx: usize;
            match pinned {
                Some(p) => {
                    idx = p;
                },
                None => {
                    let ghost before = *pool;
                    match pool.get_next_key(now) {
                        Ok(sel) => {
                            now = sel.ready_at;
                            idx = sel.index;
                            proof {
                                assert(before.has_valid());
                                assert(pre.has_valid()) by {
                                    let w = choose|i: int| 0 <= i < before.key_count()
                                        && #[trigger] before.valid_at(i);
                                    assert(pre.valid_at(w));
                                }
                            }
                        },
                        Err(_) => {
                            proof {
                                assert(!before.has_valid());
                                if pre.has_valid() {
                                    let w = choose|i: int| 0 <= i < pre.key_count()
                                        && #[trigger] pre.valid_at(i);
                                    assert(before.valid_at(w));
                                }
                                assert(attempt == 0);
                            }
                            return (Err(ApiError::NoValidKeys), logs);
                        },
                    }
                },
            }
            let ghost logs_before = logs@;
            match &events[attempt] {
                TransportEvent::Failed => {
                    logs.push(AttemptLog { key_index: idx, status: None });
                    proof {
                        lemma_first_decisive(events@, MAX_ATTEMPTS as nat, attempt as int);
                        lemma_marks_push(logs_before, AttemptLog { key_index: idx, status: None });
                    }
                    return (Err(ApiError::Transport), logs);
                },
                TransportEvent::Response { status, retry_after, body } => {
                    let st: u16 = *status;
                    logs.push(AttemptLog { key_index: idx, status: Some(st) });
                    proof {
                        lemma_marks_push(logs_before, AttemptLog { key_index: idx, status: Some(st) });
                        lemma_marks_bound(logs@);
                    }
                    if st == 429 {
                        pool.mark_rate_limited(idx, *retry_after, now);
                        if attempt == 2 {
                            proof {
                                lemma_first_decisive(events@, MAX_ATTEMPTS as nat, MAX_ATTEMPTS as int);
                            }
                            return (Err(ApiError::RateLimited), logs);
                        }
                    } else {
                        proof {
                            lemma_first_decisive(events@, MAX_ATTEMPTS as nat, attempt as int);
                        }
                        if 200 <= st && st < 300 {
                            pool.record_success(idx);
                            return (Ok(body.clone()), logs);
                        } else {
                            return (Err(ApiError::Upstream { status: st, body: body.clone() }), logs);
                        }
                    }
                },
            }
            attempt += 1;
        }
        proof {
            assert(false);
        }
        (Err(ApiError::Transport), logs)
    }


/// What one poll of a long-running operation decides.
#[derive(Debug, Clone, Copy, PartialEq, Eq, Structural)]
pub enum PollAction {
    /// The task finished; its result is ready.
    Done,
    /// The task failed; surface its error.
    Failed,
    /// The task was canceled.
    Canceled,
    /// Anything else: keep polling.
    Continue,
}

/// Decides how one status word of a long-running operation is acted on.
pub fn research_poll_action(status: &str) -> (r: PollAction)
    ensures
        r == PollAction::Done <==> status@ == "completed"@,
        r == PollAction::Failed <==> status@ == "failed"@,
        r == PollAction::Canceled <==> status@ == "canceled"@,
        r == PollAction::Continue <==> (status@ != "completed"@ && status@ != "failed"@
            && status@ != "canceled"@),
{
    proof {
        reveal_strlit("completed");
        reveal_strlit("failed");
        reveal_strlit("canceled");
        assert("completed"@.len() == 9);
        assert("failed"@.len() == 6);
        assert("canceled"@.len() == 8);
        assert("completed"@ != "failed"@);
        assert("completed"@ != "canceled"@);
        assert("failed"@ != "canceled"@);
    }
    let s = String::from_str(status);
    if s == String::from_str("completed") {
        PollAction::Done
    } else if s == String::from_str("failed") {
        PollAction::Failed
    } else if s == String::from_str("canceled") {
        PollAction::Canceled
    } else {
        PollAction::Continue
    }
}

} // verus!
