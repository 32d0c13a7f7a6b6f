//! The key pool: scheduling state for a set of interchangeable credentials.
//!
//! Each credential is identified by its position in the configured list.
//! A record per credential tracks an optional cooldown instant, a validity
//! flag, and usage counters. Selection walks the credentials in round-robin
//! order from a persisted cursor, preferring the least-used credential that
//! is off cooldown; when every valid credential is cooling down, the
//! selection names the credential whose cooldown expires first and the
//! instant at which it becomes ready.

use vstd::prelude::*;
use crate::logger::LogPlan;
use crate::logger::MAX_LOG_SIZE;
use crate::logger::format_log_line;
use crate::logger::log_line_of;
use crate::logger::needs_rotation;

verus! {

/// Cooldown, in seconds, applied when a rate-limit response carries no hint.
pub const DEFAULT_COOLDOWN_SECS: u64 = 60;

/// Age of the last validation sweep, in seconds, beyond which the pool state
/// counts as stale.
pub const STALE_THRESHOLD_SECS: u64 = 24 * 60 * 60;

/// Monotonically non-decreasing usage counters for one credential.
#[derive(Debug, Clone, Copy, PartialEq, Eq, Structural)]
pub struct UsageStats {
    pub requests: u64,
    pub success: u64,
    pub errors: u64,
}

impl UsageStats {
    /// All counters at zero.
    pub open spec fn zeroed() -> UsageStats {
        UsageStats { requests: 0, success: 0, errors: 0 }
    }
}

impl Default for UsageStats {
    fn default() -> (r: Self)
        ensures
            r == UsageStats::zeroed(),
    {
        UsageStats { requests: 0, success: 0, errors: 0 }
    }
}

/// Scheduling record for one credential. An absent cooldown and a cooldown
/// instant in the past mean the same thing: eligible now.
#[derive(Debug, Clone, Copy, PartialEq)]
pub struct KeyInfo {
    pub cooldown_until: Option<u64>,
    pub valid: bool,
    pub usage: UsageStats,
}

impl KeyInfo {
    /// The record a credential starts with: valid, no cooldown, no usage.
    pub open spec fn fresh() -> KeyInfo {
        KeyInfo { cooldown_until: None, valid: true, usage: UsageStats::zeroed() }
    }
}

/// A record is considered valid when the persisted document does not say
/// otherwise.
pub fn default_valid() -> (r: bool)
    ensures
        r == KeyInfo::fresh().valid,
{
    true
}

impl Default for KeyInfo {
    fn default() -> (r: Self)
        ensures
            r == KeyInfo::fresh(),
    {
        KeyInfo { cooldown_until: None, valid: true, usage: UsageStats { requests: 0, success: 0, errors: 0 } }
    }
}

/// The whole persisted scheduling state: a schema version, the round-robin
/// cursor, the instant of the last validation sweep, one record per
/// configured credential index, and the stored records whose indices lie
/// beyond the configured list — harmless, ignored by scheduling, and
/// carried through so a load–save cycle keeps them.
#[derive(Debug, Clone, PartialEq)]
pub struct KeyState {
    pub version: u32,
    pub current_index: usize,
    pub last_validated: u64,
    pub keys: Vec<KeyInfo>,
    pub stale: Vec<(usize, KeyInfo)>,
}

/// A persisted document as read back from disk, before it is merged with the
/// live credential list. `entries` pairs each stored index with its record;
/// indices beyond the configured credential list are tolerated and ignored.
pub struct LoadedState {
    pub version: u32,
    pub current_index: usize,
    pub last_validated: u64,
    pub entries: Vec<(usize, KeyInfo)>,
}

/// The record that merging `entries` yields for credential index `i`:
/// the last stored entry for `i`, or a fresh record when none is stored.
pub open spec fn merged_record(entries: Seq<(usize, KeyInfo)>, i: int) -> KeyInfo
    decreases entries.len(),
{
    if entries.len() == 0 {
        KeyInfo::fresh()
    } else if entries.last().0 == i {
        entries.last().1
    } else {
        merged_record(entries.drop_last(), i)
    }
}

/// The stored entries whose indices lie beyond the configured credential
/// list: retained across a load-save cycle, ignored by scheduling.
pub open spec fn stale_records(entries: Seq<(usize, KeyInfo)>, count: nat) -> Seq<(usize, KeyInfo)>
    decreases entries.len(),
{
    if entries.len() == 0 {
        Seq::empty()
    } else {
        let rest = stale_records(entries.drop_last(), count);
        if entries.last().0 >= count {
            rest.push(entries.last())
        } else {
            rest
        }
    }
}

/// `a + b`, saturating at `u64::MAX`.
pub open spec fn sat_add64(a: u64, b: u64) -> u64 {
    if a + b <= u64::MAX {
        (a + b) as u64
    } else {
        u64::MAX
    }
}

pub(crate) fn sat_add_u64(a: u64, b: u64) -> (r: u64)
    ensures
        r == sat_add64(a, b),
{
    if a <= u64::MAX - b {
        a + b
    } else {
        u64::MAX
    }
}

/// `n + 1`, saturating at `u64::MAX`; used for usage counters.
pub open spec fn sat_inc64(n: u64) -> u64 {
    sat_add64(n, 1)
}

/// True when a cooldown no longer excludes a credential at time `now`:
/// either no cooldown is set, or its instant has been reached.
pub open spec fn cooldown_expired(cd: Option<u64>, now: u64) -> bool {
    match cd {
        None => true,
        Some(t) => t <= now,
    }
}

/// Failure of a selection: every credential has been marked invalid.
#[derive(Debug, Clone, Copy, PartialEq, Eq, Structural)]
pub enum PoolError {
    NoValidKeys,
}

/// The outcome of a selection: which credential to use, its secret, and the
/// instant from which it may be used. `ready_at == now` means no waiting.
#[derive(Debug, Clone, PartialEq)]
pub struct KeySelection {
    pub index: usize,
    pub key: String,
    pub ready_at: u64,
}

/// Outcome of probing one credential against the external service.
#[derive(Debug, Clone, Copy, PartialEq, Eq, Structural)]
pub enum ProbeOutcome {
    /// The probe came back with this HTTP status code.
    Status(u16),
    /// The probe failed at the transport level; it proves nothing.
    TransportFailed,
}

/// True when a probe outcome shows the credential is not authorized.
pub open spec fn probe_unauthorized(p: ProbeOutcome) -> bool {
    match p {
        ProbeOutcome::Status(s) => s == 401 || s == 403,
        ProbeOutcome::TransportFailed => false,
    }
}

/// Masks a credential, keeping only its last 3 characters.
pub open spec fn mask_of(s: Seq<char>) -> Seq<char> {
    if s.len() <= 3 {
        seq!['*', '*', '*']
    } else {
        seq!['.', '.', '.'] + s.subrange(s.len() - 3, s.len() as int)
    }
}

/// Masks an API key, showing only the last 3 characters.
pub fn mask_key(key: &str) -> (r: String)
    ensures
        r@ == mask_of(key@),
{
    let n = key.unicode_len();
    if n <= 3 {
        let r = String::from_str("***");
        proof {
            reveal_strlit("***");
            assert(r@ =~= mask_of(key@));
        }
        r
    } else {
        let mut r = String::from_str("...");
        let tail = key.substring_char(n - 3, n);
        r.append(tail);
        proof {
            reveal_strlit("...");
            assert(r@ =~= mask_of(key@));
        }
        r
    }
}

/// The in-memory pool: the configured credential secrets plus the
/// scheduling state, merged at construction time.
#[derive(Debug)]
pub struct KeyManager {
    keys: Vec<String>,
    state: KeyState,
    pub verbose: bool,
    log_enabled: bool,
}

impl KeyManager {
    /// How many credentials are configured.
    pub closed spec fn key_count(&self) -> nat {
        self.keys@.len()
    }

    /// The secret of credential `i`.
    pub closed spec fn credential(&self, i: int) -> Seq<char> {
        self.keys@[i]@
    }

    /// The scheduling record of credential `i`.
    pub closed spec fn rec(&self, i: int) -> KeyInfo {
        self.state.keys@[i]
    }

    /// The round-robin cursor.
    pub closed spec fn cursor(&self) -> int {
        self.state.current_index as int
    }

    /// Instant of the last validation sweep.
    pub closed spec fn last_validated(&self) -> u64 {
        self.state.last_validated
    }

    /// Schema version of the persisted state.
    pub closed spec fn version(&self) -> u32 {
        self.state.version
    }

    /// Whether request logging is switched on.
    pub closed spec fn logging_enabled(&self) -> bool {
        self.log_enabled
    }

    /// Whether verbose reporting was asked for.
    pub closed spec fn is_verbose(&self) -> bool {
        self.verbose
    }

    /// The retained stored records with indices beyond the credential list.
    pub closed spec fn stale_entries(&self) -> Seq<(usize, KeyInfo)> {
        self.state.stale@
    }

    /// Well-formedness: at least one credential, one record per credential,
    /// the cursor inside the credential list, and retained stale records
    /// only for indices beyond it.
    pub closed spec fn wf(&self) -> bool {
        &&& self.keys@.len() >= 1
        &&& self.state.keys@.len() == self.keys@.len()
        &&& self.state.current_index < self.keys@.len()
        &&& forall|j: int| 0 <= j < self.state.stale@.len()
            ==> (#[trigger] self.state.stale@[j]).0 >= self.keys@.len()
    }

    /// Credential `i` has not been marked invalid.
    pub open spec fn valid_at(&self, i: int) -> bool {
        self.rec(i).valid
    }

    /// Credential `i` may be used right now: valid and off cooldown.
    pub open spec fn usable_at(&self, i: int, now: u64) -> bool {
        self.valid_at(i) && cooldown_expired(self.rec(i).cooldown_until, now)
    }

    /// Some credential has not been marked invalid.
    pub open spec fn has_valid(&self) -> bool {
        exists|i: int| 0 <= i < self.key_count() && #[trigger] self.valid_at(i)
    }

    /// Some credential may be used right now.
    pub open spec fn has_usable(&self, now: u64) -> bool {
        exists|i: int| 0 <= i < self.key_count() && #[trigger] self.usable_at(i, now)
    }

    /// Cumulative request count of credential `i`.
    pub open spec fn requests_at(&self, i: int) -> u64 {
        self.rec(i).usage.requests
    }

    /// Wraps an index in `[0, 2 * key_count)` back into the credential list.
    pub open spec fn wrap(&self, i: int) -> int {
        if i < self.key_count() {
            i
        } else {
            i - self.key_count()
        }
    }

    /// The credential index reached after `o` steps of the round-robin scan
    /// that starts at the cursor.
    pub open spec fn offset_index(&self, o: int) -> int {
        self.wrap(self.cursor() + o)
    }

    /// The best usable candidate among the first `o` steps of the scan:
    /// lowest cumulative request count, earliest scan position on ties.
    pub open spec fn best_upto(&self, now: u64, o: nat) -> Option<int>
        decreases o,
    {
        if o == 0 {
            None
        } else {
            let prev = self.best_upto(now, (o - 1) as nat);
            let i = self.offset_index(o - 1);
            if self.usable_at(i, now) {
                match prev {
                    None => Some(i),
                    Some(b) => if self.requests_at(i) < self.requests_at(b) {
                        Some(i)
                    } else {
                        Some(b)
                    },
                }
            } else {
                prev
            }
        }
    }

    /// The credential a selection picks when something is usable now.
    pub open spec fn chosen_usable(&self, now: u64) -> Option<int> {
        self.best_upto(now, self.key_count())
    }

    /// Among the first `o` credential indices, the valid record with the
    /// earliest set cooldown instant; lowest index on ties.
    pub open spec fn earliest_upto(&self, o: nat) -> Option<int>
        decreases o,
    {
        if o == 0 {
            None
        } else {
            let prev = self.earliest_upto((o - 1) as nat);
            let i = (o - 1) as int;
            if self.valid_at(i) && self.rec(i).cooldown_until is Some {
                match prev {
                    None => Some(i),
                    Some(b) => if cd_instant(self.rec(i).cooldown_until)
                        < cd_instant(self.rec(b).cooldown_until) {
                        Some(i)
                    } else {
                        Some(b)
                    },
                }
            } else {
                prev
            }
        }
    }

    /// The credential a selection falls back to when every valid credential
    /// is cooling down: the one whose cooldown expires first.
    pub open spec fn chosen_waiting(&self) -> Option<int> {
        self.earliest_upto(self.key_count())
    }

    /// The index a selection at time `now` returns, if any.
    pub open spec fn spec_selected(&self, now: u64) -> Option<int> {
        if self.chosen_usable(now) is Some {
            self.chosen_usable(now)
        } else {
            self.chosen_waiting()
        }
    }

    /// The instant from which the selected credential may be used.
    pub open spec fn spec_ready_at(&self, now: u64) -> u64 {
        if self.chosen_usable(now) is Some {
            now
        } else {
            match self.chosen_waiting() {
                Some(i) => cd_instant(self.rec(i).cooldown_until),
                None => now,
            }
        }
    }

    /// Where the cursor stands after selecting credential `i`.
    pub open spec fn next_cursor(&self, i: int) -> int {
        self.wrap(i + 1)
    }
}

/// The instant stored in a cooldown, `0` when none is set.
pub open spec fn cd_instant(cd: Option<u64>) -> u64 {
    match cd {
        None => 0,
        Some(t) => t,
    }
}

impl KeyManager {
    /// Builds a pool from the configured credential secrets and the state
    /// read back from disk, if any. Stored records are matched to the live
    /// credential list by index; missing records start fresh, stored indices
    /// beyond the list are ignored, and the stored cursor is wrapped into
    /// range. Without a stored document the pool starts fresh, with `now` as
    /// the instant of the last validation sweep.
    pub fn new(keys: Vec<String>, loaded: Option<LoadedState>, log_enabled: bool, verbose: bool, now: u64) -> (r: KeyManager)
        requires
            keys@.len() >= 1,
        ensures
            r.wf(),
            r.key_count() == keys@.len(),
            forall|i: int| 0 <= i < keys@.len() ==> r.credential(i) == keys@[i]@,
            r.logging_enabled() == log_enabled,
            r.is_verbose() == verbose,
            match loaded {
                None => {
                    &&& r.version() == 1
                    &&& r.cursor() == 0
                    &&& r.last_validated() == now
                    &&& forall|i: int| 0 <= i < keys@.len() ==> r.rec(i) == KeyInfo::fresh()
                    &&& r.stale_entries() == Seq::<(usize, KeyInfo)>::empty()
                },
                Some(l) => {
                    &&& r.version() == l.version
                    &&& r.cursor() == l.current_index as int % keys@.len() as int
                    &&& r.last_validated() == l.last_validated
                    &&& forall|i: int| 0 <= i < keys@.len() ==> r.rec(i) == merged_record(l.entries@, i)
                    &&& r.stale_entries() == stale_records(l.entries@, keys@.len())
                },
            },
    {
        let n = keys.len();
        let mut recs: Vec<KeyInfo> = Vec::new();
        while recs.len() < n
            invariant
                recs@.len() <= n,
                forall|i: int| 0 <= i < recs@.len() ==> recs@[i] == KeyInfo::fresh(),
            decreases n - recs@.len(),
        {
            recs.push(KeyInfo { cooldown_until: None, valid: true, usage: UsageStats { requests: 0, success: 0, errors: 0 } });
        }
        match loaded {
            None => {
                let r = KeyManager {
                    keys,
                    state: KeyState {
                        version: 1,
                        current_index: 0,
                        last_validated: now,
                        keys: recs,
                        stale: Vec::new(),
                    },
                    verbose,
                    log_enabled,
                };
                proof {
                    assert(r.stale_entries() =~= Seq::<(usize, KeyInfo)>::empty());
                }
                r
            },
            Some(l) => {
                let mut extras: Vec<(usize, KeyInfo)> = Vec::new();
                let mut j: usize = 0;
                while j < l.entries.len()
                    invariant
                        j <= l.entries@.len(),
                        recs@.len() == n,
                        forall|i: int| 0 <= i < n ==> recs@[i] == merged_record(l.entries@.take(j as int), i),
                        extras@ == stale_records(l.entries@.take(j as int), n as nat),
                        forall|k: int| 0 <= k < extras@.len() ==> (#[trigger] extras@[k]).0 >= n,
                    decreases l.entries@.len() - j,
                {
                    let e = l.entries[j];
                    if e.0 < n {
                        recs[e.0] = e.1;
                    } else {
                        extras.push(e);
                    }
                    proof {
                        let pre = l.entries@.take(j as int);
                        let post = l.entries@.take(j + 1int);
                        assert(post.last() == l.entries@[j as int]);
                        assert(post.drop_last() =~= pre);
                        assert(forall|i: int| 0 <= i < n ==> recs@[i] == merged_record(post, i));
                        assert(extras@ == stale_records(post, n as nat));
                    }
                    j += 1;
                }
                proof {
                    assert(l.entries@.take(l.entries@.len() as int) =~= l.entries@);
                }
                KeyManager {
                    keys,
                    state: KeyState {
                        version: l.version,
                        current_index: l.current_index % n,
                        last_validated: l.last_validated,
                        keys: recs,
                        stale: extras,
                    },
                    verbose,
                    log_enabled,
                }
            },
        }
    }

    /// Hands out the state to persist: an exact snapshot of the pool's
    /// scheduling state.
    pub fn save_state(&self) -> (r: &KeyState)
        requires
            self.wf(),
        ensures
            r.version == self.version(),
            r.current_index as int == self.cursor(),
            r.last_validated == self.last_validated(),
            r.keys@.len() == self.key_count(),
            forall|i: int| 0 <= i < self.key_count() ==> r.keys@[i] == self.rec(i),
            r.stale@ == self.stale_entries(),
    {
        &self.state
    }

    /// True iff the last validation sweep lies more than the staleness
    /// threshold in the past.
    pub fn is_state_stale(&self, now: u64) -> (r: bool)
        ensures
            r == (self.last_validated() + STALE_THRESHOLD_SECS < now),
    {
        now > STALE_THRESHOLD_SECS && self.state.last_validated < now - STALE_THRESHOLD_SECS
    }

    /// Puts credential `key_idx` on cooldown until `now` plus the retry hint
    /// (or the default cooldown when the hint is absent), and counts one
    /// error against it. Nothing else changes.
    pub fn mark_rate_limited(&mut self, key_idx: usize, retry_after: Option<u64>, now: u64)
        requires
            old(self).wf(),
            key_idx < old(self).key_count(),
        ensures
            final(self).wf(),
            final(self).key_count() == old(self).key_count(),
            forall|i: int| 0 <= i < final(self).key_count() ==> final(self).credential(i) == old(self).credential(i),
            final(self).cursor() == old(self).cursor(),
            final(self).last_validated() == old(self).last_validated(),
            final(self).version() == old(self).version(),
            final(self).logging_enabled() == old(self).logging_enabled(),
            final(self).is_verbose() == old(self).is_verbose(),
            final(self).stale_entries() == old(self).stale_entries(),
            ({
                let secs = match retry_after {
                    Some(s) => s,
                    None => DEFAULT_COOLDOWN_SECS,
                };
                final(self).rec(key_idx as int) == (KeyInfo {
                    cooldown_until: Some(sat_add64(now, secs)),
                    valid: old(self).rec(key_idx as int).valid,
                    usage: UsageStats {
                        requests: old(self).rec(key_idx as int).usage.requests,
                        success: old(self).rec(key_idx as int).usage.success,
                        errors: sat_inc64(old(self).rec(key_idx as int).usage.errors),
                    },
                })
            }),
            forall|i: int| 0 <= i < final(self).key_count() && i != key_idx ==> final(self).rec(i) == old(self).rec(i),
    {
        let secs = match retry_after {
            Some(s) => s,
            None => DEFAULT_COOLDOWN_SECS,
        };
        let until = sat_add_u64(now, secs);
        let info = self.state.keys[key_idx];
        self.state.keys[key_idx] = KeyInfo {
            cooldown_until: Some(until),
            valid: info.valid,
            usage: UsageStats {
                requests: info.usage.requests,
                success: info.usage.success,
                errors: sat_add_u64(info.usage.errors, 1),
            },
        };
    }

    /// Records one successful request on credential `key_idx`: bumps its
    /// request and success counters and clears any cooldown, stale or not.
    /// A valid credential is usable at every instant afterwards.
    pub fn record_success(&mut self, key_idx: usize)
        requires
            old(self).wf(),
            key_idx < old(self).key_count(),
        ensures
            final(self).wf(),
            final(self).key_count() == old(self).key_count(),
            forall|i: int| 0 <= i < final(self).key_count() ==> final(self).credential(i) == old(self).credential(i),
            final(self).cursor() == old(self).cursor(),
            final(self).last_validated() == old(self).last_validated(),
            final(self).version() == old(self).version(),
            final(self).logging_enabled() == old(self).logging_enabled(),
            final(self).is_verbose() == old(self).is_verbose(),
            final(self).stale_entries() == old(self).stale_entries(),
            final(self).rec(key_idx as int) == (KeyInfo {
                cooldown_until: None,
                valid: old(self).rec(key_idx as int).valid,
                usage: UsageStats {
                    requests: sat_inc64(old(self).rec(key_idx as int).usage.requests),
                    success: sat_inc64(old(self).rec(key_idx as int).usage.success),
                    errors: old(self).rec(key_idx as int).usage.errors,
                },
            }),
            forall|i: int| 0 <= i < final(self).key_count() && i != key_idx ==> final(self).rec(i) == old(self).rec(i),
            old(self).valid_at(key_idx as int) ==> forall|t: u64| final(self).usable_at(key_idx as int, t),
    {
        let info = self.state.keys[key_idx];
        self.state.keys[key_idx] = KeyInfo {
            cooldown_until: None,
            valid: info.valid,
            usage: UsageStats {
                requests: sat_add_u64(info.usage.requests, 1),
                success: sat_add_u64(info.usage.success, 1),
                errors: info.usage.errors,
            },
        };
    }

    /// Marks credential `key_idx` invalid: it is excluded from every future
    /// selection until the configuration changes. Nothing else changes.
    pub fn mark_invalid(&mut self, key_idx: usize)
        requires
            old(self).wf(),
            key_idx < old(self).key_count(),
        ensures
            final(self).wf(),
            final(self).key_count() == old(self).key_count(),
            forall|i: int| 0 <= i < final(self).key_count() ==> final(self).credential(i) == old(self).credential(i),
            final(self).cursor() == old(self).cursor(),
            final(self).last_validated() == old(self).last_validated(),
            final(self).version() == old(self).version(),
            final(self).logging_enabled() == old(self).logging_enabled(),
            final(self).is_verbose() == old(self).is_verbose(),
            final(self).stale_entries() == old(self).stale_entries(),
            final(self).rec(key_idx as int) == (KeyInfo {
                cooldown_until: old(self).rec(key_idx as int).cooldown_until,
                valid: false,
                usage: old(self).rec(key_idx as int).usage,
            }),
            forall|i: int| 0 <= i < final(self).key_count() && i != key_idx ==> final(self).rec(i) == old(self).rec(i),
    {
        let info = self.state.keys[key_idx];
        self.state.keys[key_idx] = KeyInfo { cooldown_until: info.cooldown_until, valid: false, usage: info.usage };
    }

    /// Clears every record's cooldown and usage counters and puts the cursor
    /// back to the first credential. Validity marks survive a reset.
    pub fn reset(&mut self)
        requires
            old(self).wf(),
        ensures
            final(self).wf(),
            final(self).key_count() == old(self).key_count(),
            forall|i: int| 0 <= i < final(self).key_count() ==> final(self).credential(i) == old(self).credential(i),
            final(self).cursor() == 0,
            final(self).last_validated() == old(self).last_validated(),
            final(self).version() == old(self).version(),
            final(self).logging_enabled() == old(self).logging_enabled(),
            final(self).is_verbose() == old(self).is_verbose(),
            forall|i: int| 0 <= i < final(self).key_count() ==> final(self).rec(i) == (KeyInfo {
                cooldown_until: None,
                valid: old(self).rec(i).valid,
                usage: UsageStats::zeroed(),
            }),
            final(self).stale_entries().len() == old(self).stale_entries().len(),
            forall|j: int| 0 <= j < final(self).stale_entries().len()
                ==> (#[trigger] final(self).stale_entries()[j]) == (
                    old(self).stale_entries()[j].0,
                    KeyInfo {
                        cooldown_until: None,
                        valid: old(self).stale_entries()[j].1.valid,
                        usage: UsageStats::zeroed(),
                    },
                ),
    {
        let ghost pre = *self;
        let n = self.state.keys.len();
        let mut j: usize = 0;
        while j < n
            invariant
                n == pre.state.keys@.len(),
                j <= n,
                self.keys == pre.keys,
                self.verbose == pre.verbose,
                self.log_enabled == pre.log_enabled,
                self.state.version == pre.state.version,
                self.state.current_index == pre.state.current_index,
                self.state.last_validated == pre.state.last_validated,
                self.state.stale == pre.state.stale,
                self.state.keys@.len() == n,
                forall|i: int| 0 <= i < j ==> self.state.keys@[i] == (KeyInfo {
                    cooldown_until: None,
                    valid: pre.state.keys@[i].valid,
                    usage: UsageStats::zeroed(),
                }),
                forall|i: int| j <= i < n ==> self.state.keys@[i] == pre.state.keys@[i],
            decreases n - j,
        {
            let info = self.state.keys[j];
            self.state.keys[j] = KeyInfo {
                cooldown_until: None,
                valid: info.valid,
                usage: UsageStats { requests: 0, success: 0, errors: 0 },
            };
            j += 1;
        }
        let m = self.state.stale.len();
        let mut k: usize = 0;
        while k < m
            invariant
                n == pre.state.keys@.len(),
                m == pre.state.stale@.len(),
                k <= m,
                self.keys == pre.keys,
                self.verbose == pre.verbose,
                self.log_enabled == pre.log_enabled,
                self.state.version == pre.state.version,
                self.state.current_index == pre.state.current_index,
                self.state.last_validated == pre.state.last_validated,
                self.state.keys@.len() == n,
                forall|i: int| 0 <= i < n ==> self.state.keys@[i] == (KeyInfo {
                    cooldown_until: None,
                    valid: pre.state.keys@[i].valid,
                    usage: UsageStats::zeroed(),
                }),
                self.state.stale@.len() == m,
                forall|i: int| 0 <= i < k ==> (#[trigger] self.state.stale@[i]) == (
                    pre.state.stale@[i].0,
                    KeyInfo {
                        cooldown_until: None,
                        valid: pre.state.stale@[i].1.valid,
                        usage: UsageStats::zeroed(),
                    },
                ),
                forall|i: int| k <= i < m ==> self.state.stale@[i] == pre.state.stale@[i],
            decreases m - k,
        {
            let e = self.state.stale[k];
            self.state.stale[k] = (e.0, KeyInfo {
                cooldown_until: None,
                valid: e.1.valid,
                usage: UsageStats { requests: 0, success: 0, errors: 0 },
            });
            k += 1;
        }
        proof {
            assert forall|i: int| 0 <= i < self.state.stale@.len()
                implies (#[trigger] self.state.stale@[i]).0 >= self.keys@.len() by {
                assert(pre.state.stale@[i].0 >= pre.keys@.len());
            }
        }
        self.state.current_index = 0;
    }

    /// How many credentials are configured.
    pub fn num_keys(&self) -> (r: usize)
        ensures
            r == self.key_count(),
    {
        self.keys.len()
    }

    /// Direct lookup of a credential secret by index; used to pin follow-up
    /// requests of a multi-step operation to the credential that started it.
    pub fn get_key_by_index(&self, idx: usize) -> (r: Option<String>)
        ensures
            match r {
                Some(k) => idx < self.key_count() && k@ == self.credential(idx as int),
                None => idx >= self.key_count(),
            },
    {
        if idx < self.keys.len() {
            Some(self.keys[idx].clone())
        } else {
            None
        }
    }

    /// Applies the outcome of a validation sweep, one probe per configured
    /// credential, but only when the state is stale; otherwise nothing
    /// changes. An unauthorized probe invalidates its credential; any other
    /// outcome leaves it as it was. The sweep instant is recorded
    /// unconditionally once the sweep ran. Returns whether the sweep ran.
    pub fn validate_keys_if_stale(&mut self, probes: &Vec<ProbeOutcome>, now: u64) -> (applied: bool)
        requires
            old(self).wf(),
            probes@.len() == old(self).key_count(),
        ensures
            final(self).wf(),
            final(self).key_count() == old(self).key_count(),
            forall|i: int| 0 <= i < final(self).key_count() ==> final(self).credential(i) == old(self).credential(i),
            applied == (old(self).last_validated() + STALE_THRESHOLD_SECS < now),
            !applied ==> *final(self) == *old(self),
            applied ==> {
                &&& final(self).cursor() == old(self).cursor()
                &&& final(self).version() == old(self).version()
                &&& final(self).logging_enabled() == old(self).logging_enabled()
                &&& final(self).is_verbose() == old(self).is_verbose()
                &&& final(self).stale_entries() == old(self).stale_entries()
                &&& final(self).last_validated() == now
                &&& forall|i: int| 0 <= i < final(self).key_count() ==> final(self).rec(i) == (KeyInfo {
                    cooldown_until: old(self).rec(i).cooldown_until,
                    valid: old(self).rec(i).valid && !probe_unauthorized(probes@[i]),
                    usage: old(self).rec(i).usage,
                })
            },
    {
        if !self.is_state_stale(now) {
            return false;
        }
        let ghost pre = *self;
        let n = self.state.keys.len();
        let mut j: usize = 0;
        while j < n
            invariant
                n == pre.state.keys@.len(),
                n == probes@.len(),
                j <= n,
                self.keys == pre.keys,
                self.verbose == pre.verbose,
                self.log_enabled == pre.log_enabled,
                self.state.version == pre.state.version,
                self.state.current_index == pre.state.current_index,
                self.state.last_validated == pre.state.last_validated,
                self.state.stale == pre.state.stale,
                self.state.keys@.len() == n,
                forall|i: int| 0 <= i < j ==> self.state.keys@[i] == (KeyInfo {
                    cooldown_until: pre.state.keys@[i].cooldown_until,
                    valid: pre.state.keys@[i].valid && !probe_unauthorized(probes@[i]),
                    usage: pre.state.keys@[i].usage,
                }),
                forall|i: int| j <= i < n ==> self.state.keys@[i] == pre.state.keys@[i],
            decreases n - j,
        {
            let unauthorized = match probes[j] {
                ProbeOutcome::Status(s) => s == 401 || s == 403,
                ProbeOutcome::TransportFailed => false,
            };
            let info = self.state.keys[j];
            self.state.keys[j] = KeyInfo {
                cooldown_until: info.cooldown_until,
                valid: info.valid && !unauthorized,
                usage: info.usage,
            };
            j += 1;
        }
        self.state.last_validated = now;
        true
    }
}


impl KeyManager {
    /// The candidate that `best_upto` names is a usable credential in range;
    /// when it names none, no scanned position is usable.
    proof fn lemma_best_upto_props(self, now: u64, o: nat)
        requires
            self.wf(),
            o <= self.key_count(),
        ensures
            match self.best_upto(now, o) {
                Some(b) => 0 <= b < self.key_count() && self.usable_at(b, now),
                None => forall|o2: int| 0 <= o2 < o ==> !self.usable_at(#[trigger] self.offset_index(o2), now),
            },
        decreases o,
    {
        if o > 0 {
            self.lemma_best_upto_props(now, (o - 1) as nat);
        }
    }

    /// The candidate that `earliest_upto` names is a valid credential on
    /// cooldown with the earliest expiry among the first `o` indices; when it
    /// names none, no such credential exists among them.
    proof fn lemma_earliest_props(self, o: nat)
        requires
            self.wf(),
            o <= self.key_count(),
        ensures
            match self.earliest_upto(o) {
                Some(b) => {
                    &&& 0 <= b < o
                    &&& self.valid_at(b)
                    &&& self.rec(b).cooldown_until is Some
                    &&& forall|i: int| 0 <= i < o && self.valid_at(i)
                        && (#[trigger] self.rec(i)).cooldown_until is Some
                        ==> cd_instant(self.rec(b).cooldown_until) <= cd_instant(self.rec(i).cooldown_until)
                },
                None => forall|i: int| 0 <= i < o
                    ==> !(self.valid_at(i) && (#[trigger] self.rec(i)).cooldown_until is Some),
            },
        decreases o,
    {
        if o > 0 {
            self.lemma_earliest_props((o - 1) as nat);
        }
    }

    /// When the scan names no usable candidate, no credential at all is
    /// usable at `now`.
    proof fn lemma_none_usable(self, now: u64)
        requires
            self.wf(),
            self.chosen_usable(now) is None,
        ensures
            forall|i: int| 0 <= i < self.key_count() ==> !self.usable_at(i, now),
            !self.has_usable(now),
    {
        self.lemma_best_upto_props(now, self.key_count());
        assert forall|i: int| 0 <= i < self.key_count() implies !self.usable_at(i, now) by {
            let c = self.cursor();
            let o2: int = if i >= c {
                i - c
            } else {
                i + self.key_count() - c
            };
            assert(self.offset_index(o2) == i);
            assert(0 <= o2 < self.key_count());
        }
    }

    /// Selects the next credential to use at time `now`.
    ///
    /// Fails exactly when every credential has been marked invalid. A
    /// returned selection names the chosen index and secret, and the instant
    /// from which the credential may be used: `now` itself whenever some
    /// valid credential is off cooldown, otherwise the earliest cooldown
    /// expiry among the valid credentials. The credential is never handed
    /// out ready before its own cooldown has expired, and the cursor moves
    /// to just past the chosen index; the records themselves do not change.
    pub fn get_next_key(&mut self, now: u64) -> (r: Result<KeySelection, PoolError>)
        requires
            old(self).wf(),
        ensures
            final(self).wf(),
            final(self).key_count() == old(self).key_count(),
            forall|i: int| 0 <= i < final(self).key_count()
                ==> final(self).credential(i) == old(self).credential(i),
            final(self).last_validated() == old(self).last_validated(),
            final(self).version() == old(self).version(),
            final(self).logging_enabled() == old(self).logging_enabled(),
            final(self).is_verbose() == old(self).is_verbose(),
            final(self).stale_entries() == old(self).stale_entries(),
            forall|i: int| 0 <= i < final(self).key_count() ==> final(self).rec(i) == old(self).rec(i),
            r is Err <==> !old(self).has_valid(),
            r is Err ==> *final(self) == *old(self) && r->Err_0 == PoolError::NoValidKeys,
            r matches Ok(sel) ==> {
                &&& old(self).spec_selected(now) == Some(sel.index as int)
                &&& sel.index < old(self).key_count()
                &&& sel.key@ == old(self).credential(sel.index as int)
                &&& sel.ready_at == old(self).spec_ready_at(now)
                &&& sel.ready_at >= now
                &&& cooldown_expired(old(self).rec(sel.index as int).cooldown_until, sel.ready_at)
                &&& final(self).cursor() == old(self).next_cursor(sel.index as int)
            },
            old(self).has_usable(now) ==> r is Ok && r->Ok_0.ready_at == now,
            r is Ok ==> selection_step(*old(self), *final(self), now),
    {
        let ghost pre = *self;
        let n = self.keys.len();
        let cur = self.state.current_index;

        let mut o: usize = 0;
        let mut best: Option<usize> = None;
        while o < n
            invariant
                *self == pre,
                pre.wf(),
                n == pre.key_count(),
                cur as int == pre.cursor(),
                o <= n,
                match best {
                    Some(b) => pre.best_upto(now, o as nat) == Some(b as int) && b < n,
                    None => pre.best_upto(now, o as nat) is None,
                },
            decreases n - o,
        {
            let idx = if o < n - cur {
                cur + o
            } else {
                o - (n - cur)
            };
            proof {
                assert(idx as int == pre.offset_index(o as int));
            }
            let info = self.state.keys[idx];
            let usable = info.valid && (match info.cooldown_until {
                Some(t) => t <= now,
                None => true,
            });
            if usable {
                best = match best {
                    Some(b) => {
                        if self.state.keys[idx].usage.requests < self.state.keys[b].usage.requests {
                            Some(idx)
                        } else {
                            Some(b)
                        }
                    },
                    None => Some(idx),
                };
            }
            o += 1;
        }

        match best {
            Some(idx) => {
                proof {
                    pre.lemma_best_upto_props(now, n as nat);
                }
                self.state.current_index = if idx + 1 < n {
                    idx + 1
                } else {
                    0
                };
                let key = self.keys[idx].clone();
                Ok(KeySelection { index: idx, key, ready_at: now })
            },
            None => {
                proof {
                    pre.lemma_none_usable(now);
                }
                let mut j: usize = 0;
                let mut wait: Option<(usize, u64)> = None;
                while j < n
                    invariant
                        *self == pre,
                        pre.wf(),
                        n == pre.key_count(),
                        j <= n,
                        match wait {
                            Some(p) => pre.earliest_upto(j as nat) == Some(p.0 as int) && p.0 < n
                                && pre.rec(p.0 as int).cooldown_until == Some(p.1),
                            None => pre.earliest_upto(j as nat) is None,
                        },
                    decreases n - j,
                {
                    let info = self.state.keys[j];
                    if info.valid {
                        if let Some(t) = info.cooldown_until {
                            wait = match wait {
                                Some(p) => {
                                    if t < p.1 {
                                        Some((j, t))
                                    } else {
                                        Some(p)
                                    }
                                },
                                None => Some((j, t)),
                            };
                        }
                    }
                    j += 1;
                }
                match wait {
                    Some(p) => {
                        proof {
                            pre.lemma_earliest_props(n as nat);
                            pre.lemma_none_usable(now);
                            assert(!pre.usable_at(p.0 as int, now));
                        }
                        self.state.current_index = if p.0 + 1 < n {
                            p.0 + 1
                        } else {
                            0
                        };
                        let key = self.keys[p.0].clone();
                        Ok(KeySelection { index: p.0, key, ready_at: p.1 })
                    },
                    None => {
                        proof {
                            pre.lemma_earliest_props(n as nat);
                            assert forall|i: int| 0 <= i < n implies !pre.valid_at(i) by {
                                if pre.valid_at(i) {
                                    assert(!pre.usable_at(i, now));
                                    assert(pre.rec(i).cooldown_until is Some);
                                }
                            }
                        }
                        Err(PoolError::NoValidKeys)
                    },
                }
            },
        }
    }
}


/// Every credential is valid, off cooldown at `now`, and equally used.
pub open spec fn all_ready_equal(m: KeyManager, now: u64) -> bool {
    forall|i: int| 0 <= i < m.key_count()
        ==> #[trigger] m.usable_at(i, now) && m.requests_at(i) == m.requests_at(0)
}

/// The index reached from cursor `c` after `k` selection steps in a list of
/// `n` credentials.
pub open spec fn rotate(c: int, k: int, n: int) -> int {
    if c + k < n {
        c + k
    } else {
        c + k - n
    }
}

/// One selection step at time `now`: `m2` relates to `m1` exactly as a
/// successful `get_next_key` call at `now` promises — same credentials and
/// records, the cursor moved to just past the selected index.
pub open spec fn selection_step(m1: KeyManager, m2: KeyManager, now: u64) -> bool {
    &&& m2.key_count() == m1.key_count()
    &&& (forall|i: int| 0 <= i < m1.key_count() ==> m2.rec(i) == m1.rec(i))
    &&& (m1.spec_selected(now) matches Some(s) && m2.cursor() == m1.next_cursor(s))
}

impl KeyManager {
    proof fn lemma_best_upto_uniform(self, now: u64, o: nat)
        requires
            self.wf(),
            all_ready_equal(self, now),
            1 <= o <= self.key_count(),
        ensures
            self.best_upto(now, o) == Some(self.cursor()),
        decreases o,
    {
        if o == 1 {
            assert(self.offset_index(0) == self.cursor());
            assert(self.usable_at(self.cursor(), now));
        } else {
            self.lemma_best_upto_uniform(now, (o - 1) as nat);
            let i = self.offset_index(o - 1);
            assert(0 <= i < self.key_count());
            assert(self.usable_at(i, now) && self.requests_at(i) == self.requests_at(0));
            assert(self.usable_at(self.cursor(), now) && self.requests_at(self.cursor()) == self.requests_at(0));
        }
    }
}

/// A credential still cooling down at `now` is never handed out ready
/// early: if the selection at `now` names it at all, the instant at which
/// it may be used lies at or after its cooldown expiry. Together with the
/// cooldown that `mark_rate_limited` promises, a credential rate limited at
/// `t` with hint `s` is not usable again before `t + s`.
pub proof fn lemma_cooldown_blocks_selection(m: KeyManager, i: int, now: u64)
    requires
        m.wf(),
        0 <= i < m.key_count(),
        m.rec(i).cooldown_until is Some,
        now < cd_instant(m.rec(i).cooldown_until),
    ensures
        m.spec_selected(now) == Some(i)
            ==> m.spec_ready_at(now) >= cd_instant(m.rec(i).cooldown_until),
{
    if m.spec_selected(now) == Some(i) {
        if m.chosen_usable(now) is Some {
            m.lemma_best_upto_props(now, m.key_count());
            assert(m.usable_at(i, now));
            assert(false);
        }
    }
}

/// In a pool where every credential is valid, off cooldown, and equally
/// used, the selection picks exactly the credential under the cursor, and it
/// is ready at once.
pub proof fn lemma_uniform_selects_cursor(m: KeyManager, now: u64)
    requires
        m.wf(),
        all_ready_equal(m, now),
    ensures
        m.spec_selected(now) == Some(m.cursor()),
        m.spec_ready_at(now) == now,
{
    m.lemma_best_upto_uniform(now, m.key_count());
}

/// One selection step from a pool whose credentials are all valid, off
/// cooldown, and equally used leaves it that way and moves the cursor one
/// step onward.
proof fn lemma_step_preserves_uniform(m1: KeyManager, m2: KeyManager, now: u64)
    requires
        m1.wf(),
        m2.wf(),
        all_ready_equal(m1, now),
        selection_step(m1, m2, now),
    ensures
        all_ready_equal(m2, now),
        m2.cursor() == m1.next_cursor(m1.cursor()),
{
    lemma_uniform_selects_cursor(m1, now);
    assert forall|i: int| 0 <= i < m2.key_count()
        implies #[trigger] m2.usable_at(i, now) && m2.requests_at(i) == m2.requests_at(0) by {
        assert(m2.rec(i) == m1.rec(i));
        assert(m2.rec(0) == m1.rec(0));
        assert(m1.usable_at(i, now) && m1.requests_at(i) == m1.requests_at(0));
    }
}

/// Along a chain of selection steps that starts from a pool whose
/// credentials are all valid, off cooldown, and equally used, the pool stays
/// that way, and the `k`-th selection picks the index `k` steps past the
/// starting cursor.
pub proof fn lemma_round_robin_rotation(ms: Seq<KeyManager>, now: u64, k: int)
    requires
        ms.len() >= 1,
        0 <= k < ms.len(),
        ms.len() <= ms[0].key_count() + 1,
        forall|l: int| 0 <= l < ms.len() ==> (#[trigger] ms[l]).wf(),
        all_ready_equal(ms[0], now),
        forall|l: int| 0 <= l < ms.len() - 1 ==> selection_step(#[trigger] ms[l], ms[l + 1], now),
    ensures
        all_ready_equal(ms[k], now),
        ms[k].cursor() == rotate(ms[0].cursor(), k, ms[0].key_count() as int),
        ms[k].spec_selected(now) == Some(rotate(ms[0].cursor(), k, ms[0].key_count() as int)),
    decreases k,
{
    let n = ms[0].key_count() as int;
    if k == 0 {
        lemma_uniform_selects_cursor(ms[0], now);
    } else {
        lemma_round_robin_rotation(ms, now, k - 1);
        let l = k - 1;
        assert(selection_step(ms[l], ms[l + 1], now));
        assert(ms[k - 1].key_count() == n) by {
            lemma_chain_same_count(ms, now, k - 1);
        }
        lemma_step_preserves_uniform(ms[k - 1], ms[k], now);
        assert(ms[k].cursor() == rotate(ms[0].cursor(), k, n));
        lemma_uniform_selects_cursor(ms[k], now);
    }
}

/// Every pool along a chain of selection steps keeps the credential count
/// of the first.
proof fn lemma_chain_same_count(ms: Seq<KeyManager>, now: u64, k: int)
    requires
        ms.len() >= 1,
        0 <= k < ms.len(),
        forall|l: int| 0 <= l < ms.len() - 1 ==> selection_step(#[trigger] ms[l], ms[l + 1], now),
    ensures
        ms[k].key_count() == ms[0].key_count(),
    decreases k,
{
    if k > 0 {
        lemma_chain_same_count(ms, now, k - 1);
        let l = k - 1;
        assert(selection_step(ms[l], ms[l + 1], now));
    }
}

/// Round-robin fairness: along such a chain, two different selections pick
/// two different credentials — over `key_count` consecutive selections every
/// credential is returned exactly once.
pub proof fn lemma_round_robin_distinct(ms: Seq<KeyManager>, now: u64, j: int, k: int)
    requires
        ms.len() >= 1,
        0 <= j < k < ms.len(),
        k < ms[0].key_count(),
        ms.len() <= ms[0].key_count() + 1,
        forall|l: int| 0 <= l < ms.len() ==> (#[trigger] ms[l]).wf(),
        all_ready_equal(ms[0], now),
        forall|l: int| 0 <= l < ms.len() - 1 ==> selection_step(#[trigger] ms[l], ms[l + 1], now),
    ensures
        ms[j].spec_selected(now) != ms[k].spec_selected(now),
{
    lemma_round_robin_rotation(ms, now, j);
    lemma_round_robin_rotation(ms, now, k);
}


impl KeyManager {
    /// Plans one audit-trail entry for a request made with credential
    /// `key_idx`: nothing when logging is disabled; otherwise whether the
    /// log file of the given size must rotate first, and the line to
    /// append, with the credential masked.
    pub fn log_request(&self, key_idx: usize, cmd: &str, status: u16, now: u64, log_size: u64) -> (r: Option<LogPlan>)
        requires
            self.wf(),
            self.logging_enabled() ==> key_idx < self.key_count(),
        ensures
            r is Some <==> self.logging_enabled(),
            r matches Some(p) ==> p.rotate == (log_size >= MAX_LOG_SIZE)
                && p.line@ == log_line_of(now, mask_of(self.credential(key_idx as int)), cmd@, status),
    {
        if !self.log_enabled {
            return None;
        }
        let masked = mask_key(self.keys[key_idx].as_str());
        let line = format_log_line(now, masked.as_str(), cmd, status);
        Some(LogPlan { rotate: needs_rotation(log_size), line })
    }
}


impl KeyManager {
    /// Whether credential `idx` may be used at `now`: valid and off
    /// cooldown.
    pub fn is_ready(&self, idx: usize, now: u64) -> (r: bool)
        requires
            self.wf(),
            idx < self.key_count(),
        ensures
            r == self.usable_at(idx as int, now),
    {
        let info = self.state.keys[idx];
        info.valid && (match info.cooldown_until {
            Some(t) => t <= now,
            None => true,
        })
    }

    /// How long credential `idx` still cools down at `now`; nothing when it
    /// is already eligible.
    pub fn cooldown_remaining(&self, idx: usize, now: u64) -> (r: Option<u64>)
        requires
            self.wf(),
            idx < self.key_count(),
        ensures
            r == (match self.rec(idx as int).cooldown_until {
                Some(t) => if t > now {
                    Some((t - now) as u64)
                } else {
                    None::<u64>
                },
                None => None::<u64>,
            }),
    {
        match self.state.keys[idx].cooldown_until {
            Some(t) => if t > now {
                Some(t - now)
            } else {
                None
            },
            None => None,
        }
    }
}

} // verus!
