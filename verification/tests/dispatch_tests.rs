use exa_pool::dispatch::ApiError;
use exa_pool::dispatch::ResponseClass;
use exa_pool::dispatch::TransportEvent;
use exa_pool::dispatch::classify_status;
use exa_pool::dispatch::research_poll_action;
use exa_pool::dispatch::PollAction;
use exa_pool::dispatch::issue;
use exa_pool::pool::KeyManager;

fn pool(n: usize) -> KeyManager {
    let keys = (0..n).map(|i| format!("key-{}", i)).collect();
    KeyManager::new(keys, None, false, false, 0)
}

fn resp(status: u16, body: &str) -> TransportEvent {
    TransportEvent::Response {
        status,
        retry_after: Some(1),
        body: body.to_string(),
    }
}

#[test]
fn always_rate_limited_makes_three_attempts_then_fails() {
    let mut p = pool(2);
    let events = vec![resp(429, ""), resp(429, ""), resp(429, "")];
    let (r, logs) = issue(&mut p, None, &events, 1_000);
    assert_eq!(r, Err(ApiError::RateLimited));
    assert_eq!(logs.len(), 3);
    for l in &logs {
        assert_eq!(l.status, Some(429));
    }
    // Every rate-limited credential is cooling down with one error counted
    // per mark, and no success was ever recorded.
    let st = p.save_state();
    let mut marks = vec![0u64; 2];
    for l in &logs {
        marks[l.key_index] += 1;
    }
    for i in 0..2 {
        assert_eq!(st.keys[i].usage.errors, marks[i]);
        assert_eq!(st.keys[i].usage.success, 0);
        assert_eq!(st.keys[i].usage.requests, 0);
        if marks[i] > 0 {
            assert!(st.keys[i].cooldown_until.is_some());
        }
    }
}

#[test]
fn single_upstream_error_makes_one_attempt() {
    let mut p = pool(2);
    let before = p.save_state().clone();
    let events = vec![resp(500, "boom"), resp(200, "never"), resp(200, "never")];
    let (r, logs) = issue(&mut p, None, &events, 1_000);
    assert_eq!(r, Err(ApiError::Upstream { status: 500, body: "boom".to_string() }));
    assert_eq!(logs.len(), 1);
    assert_eq!(logs[0].status, Some(500));
    // No cooldown, no counter moved: only the cursor differs.
    let after = p.save_state();
    assert_eq!(after.keys, before.keys);
}

#[test]
fn transport_failure_leaves_every_record_unchanged() {
    let mut p = pool(2);
    let before = p.save_state().clone();
    let events = vec![TransportEvent::Failed, resp(200, ""), resp(200, "")];
    let (r, _) = issue(&mut p, None, &events, 1_000);
    assert_eq!(r, Err(ApiError::Transport));
    assert_eq!(p.save_state().keys, before.keys);
}

#[test]
fn success_returns_the_body_and_counts_it() {
    let mut p = pool(1);
    let events = vec![resp(200, "the payload"), resp(200, ""), resp(200, "")];
    let (r, logs) = issue(&mut p, None, &events, 1_000);
    assert_eq!(r, Ok("the payload".to_string()));
    assert_eq!(logs.len(), 1);
    assert_eq!(logs[0].key_index, 0);
    let st = p.save_state();
    assert_eq!(st.keys[0].usage.requests, 1);
    assert_eq!(st.keys[0].usage.success, 1);
}

#[test]
fn rate_limit_then_success_recovers_on_the_second_attempt() {
    let mut p = pool(2);
    let events = vec![resp(429, ""), resp(200, "ok now"), resp(200, "")];
    let (r, logs) = issue(&mut p, None, &events, 1_000);
    assert_eq!(r, Ok("ok now".to_string()));
    assert_eq!(logs.len(), 2);
    assert_eq!(logs[0].status, Some(429));
    assert_eq!(logs[1].status, Some(200));
    // The first attempt's credential went on cooldown, with one error counted.
    let st = p.save_state();
    let limited = &st.keys[logs[0].key_index];
    assert_eq!(limited.usage.errors, 1);
}

#[test]
fn transport_failure_ends_the_operation_at_once() {
    let mut p = pool(2);
    let events = vec![TransportEvent::Failed, resp(200, ""), resp(200, "")];
    let (r, logs) = issue(&mut p, None, &events, 1_000);
    assert_eq!(r, Err(ApiError::Transport));
    assert_eq!(logs.len(), 1);
    assert_eq!(logs[0].status, None);
}

#[test]
fn no_valid_keys_fails_without_attempts() {
    let mut p = pool(1);
    p.mark_invalid(0);
    let events = vec![resp(200, ""), resp(200, ""), resp(200, "")];
    let (r, logs) = issue(&mut p, None, &events, 1_000);
    assert_eq!(r, Err(ApiError::NoValidKeys));
    assert_eq!(logs.len(), 0);
}

#[test]
fn pinned_operations_stick_to_one_credential() {
    let mut p = pool(3);
    let events = vec![resp(429, ""), resp(429, ""), resp(200, "done")];
    let (r, logs) = issue(&mut p, Some(2), &events, 1_000);
    assert_eq!(r, Ok("done".to_string()));
    assert_eq!(logs.len(), 3);
    for l in &logs {
        assert_eq!(l.key_index, 2);
    }
}

#[test]
fn status_classification_matches_the_dispatcher() {
    assert_eq!(classify_status(429), ResponseClass::RateLimited);
    assert_eq!(classify_status(200), ResponseClass::Success);
    assert_eq!(classify_status(299), ResponseClass::Success);
    assert_eq!(classify_status(300), ResponseClass::Upstream);
    assert_eq!(classify_status(199), ResponseClass::Upstream);
    assert_eq!(classify_status(500), ResponseClass::Upstream);
    assert_eq!(classify_status(401), ResponseClass::Upstream);
}

#[test]
fn poll_actions_follow_the_status_word() {
    assert_eq!(research_poll_action("completed"), PollAction::Done);
    assert_eq!(research_poll_action("failed"), PollAction::Failed);
    assert_eq!(research_poll_action("canceled"), PollAction::Canceled);
    assert_eq!(research_poll_action("running"), PollAction::Continue);
    assert_eq!(research_poll_action(""), PollAction::Continue);
}
