use exa_pool::pool::KeyInfo;
use exa_pool::pool::KeyManager;
use exa_pool::pool::LoadedState;
use exa_pool::pool::PoolError;
use exa_pool::pool::ProbeOutcome;
use exa_pool::pool::UsageStats;
use exa_pool::pool::mask_key;

fn keys(n: usize) -> Vec<String> {
    (0..n).map(|i| format!("secret-key-number-{}", i)).collect()
}

fn fresh(n: usize, now: u64) -> KeyManager {
    KeyManager::new(keys(n), None, false, false, now)
}

fn with_records(records: Vec<(usize, KeyInfo)>, n: usize, cursor: usize, now: u64) -> KeyManager {
    let loaded = LoadedState {
        version: 1,
        current_index: cursor,
        last_validated: now,
        entries: records,
    };
    KeyManager::new(keys(n), Some(loaded), false, false, now)
}

fn info(cooldown_until: Option<u64>, valid: bool, requests: u64) -> KeyInfo {
    KeyInfo {
        cooldown_until,
        valid,
        usage: UsageStats { requests, success: 0, errors: 0 },
    }
}

#[test]
fn test_mask_key() {
    assert_eq!(mask_key("abc123def"), "...def");
    assert_eq!(mask_key("ab"), "***");
    assert_eq!(mask_key(""), "***");
    assert_eq!(mask_key("abcdefghijklmnop"), "...nop");
}

#[test]
fn selects_without_waiting_when_one_key_is_ready() {
    // An expired cooldown counts as ready: the selection happens at `now`.
    let now: u64 = 1_000;
    let mut m = with_records(vec![(0, info(Some(now - 1), true, 0))], 1, 0, now);
    let sel = m.get_next_key(now).unwrap();
    assert_eq!(sel.index, 0);
    assert_eq!(sel.ready_at, now);
}

#[test]
fn rate_limited_key_is_not_returned_before_cooldown() {
    let t: u64 = 5_000;
    let mut m = fresh(2, t);
    m.mark_rate_limited(0, Some(30), t);
    // Another key is ready, so every selection before t + 30 avoids index 0.
    let sel = m.get_next_key(t + 29).unwrap();
    assert_eq!(sel.index, 1);
    assert_eq!(sel.ready_at, t + 29);
    // From t + 30 on, index 0 is eligible again.
    let sel2 = m.get_next_key(t + 30).unwrap();
    assert_eq!(sel2.index, 0);
    assert_eq!(sel2.ready_at, t + 30);
}

#[test]
fn rate_limited_sole_key_is_deferred_to_cooldown_expiry() {
    let t: u64 = 5_000;
    let mut m = fresh(1, t);
    m.mark_rate_limited(0, Some(30), t);
    let sel = m.get_next_key(t + 10).unwrap();
    assert_eq!(sel.index, 0);
    assert_eq!(sel.ready_at, t + 30);
}

#[test]
fn round_robin_returns_each_index_once() {
    let now: u64 = 100;
    let mut m = fresh(3, now);
    let mut seen = Vec::new();
    for _ in 0..3 {
        let sel = m.get_next_key(now).unwrap();
        assert_eq!(sel.ready_at, now);
        seen.push(sel.index);
    }
    seen.sort();
    assert_eq!(seen, vec![0, 1, 2]);
}

#[test]
fn success_clears_cooldown_at_once() {
    let t: u64 = 9_000;
    let mut m = fresh(1, t);
    m.mark_rate_limited(0, Some(600), t);
    m.record_success(0);
    // The cooldown is gone: a subsequent selection returns the key ready now.
    let sel = m.get_next_key(t + 1).unwrap();
    assert_eq!(sel.index, 0);
    assert_eq!(sel.ready_at, t + 1);
    let st = m.save_state();
    assert_eq!(st.keys[0].cooldown_until, None);
    assert_eq!(st.keys[0].usage.requests, 1);
    assert_eq!(st.keys[0].usage.success, 1);
}

#[test]
fn expired_cooldown_beats_pending_cooldown() {
    // Index 0 expired 10 s ago, index 1 expires in 100 s, cursor at 0.
    let now: u64 = 10_000;
    let records = vec![
        (0, info(Some(now - 10), true, 0)),
        (1, info(Some(now + 100), true, 0)),
    ];
    let mut m = with_records(records, 2, 0, now);
    let sel = m.get_next_key(now).unwrap();
    assert_eq!(sel.index, 0);
    assert_eq!(sel.ready_at, now);
    assert_eq!(m.save_state().current_index, 1);
}

#[test]
fn all_on_cooldown_waits_for_the_earliest() {
    // Index 0 expires in 2 s, index 1 in 5 s: the selection names index 0
    // and defers it by those 2 s.
    let now: u64 = 20_000;
    let records = vec![
        (0, info(Some(now + 2), true, 0)),
        (1, info(Some(now + 5), true, 0)),
    ];
    let mut m = with_records(records, 2, 0, now);
    let sel = m.get_next_key(now).unwrap();
    assert_eq!(sel.index, 0);
    assert_eq!(sel.ready_at, now + 2);
    assert_eq!(m.save_state().current_index, 1);
}

#[test]
fn no_valid_keys_fails_selection() {
    let now: u64 = 50;
    let records = vec![(0, info(None, false, 0)), (1, info(None, false, 0))];
    let mut m = with_records(records, 2, 0, now);
    assert_eq!(m.get_next_key(now), Err(PoolError::NoValidKeys));
}

#[test]
fn invalid_keys_are_skipped() {
    let now: u64 = 50;
    let mut m = fresh(2, now);
    m.mark_invalid(0);
    let sel = m.get_next_key(now).unwrap();
    assert_eq!(sel.index, 1);
    let sel2 = m.get_next_key(now).unwrap();
    assert_eq!(sel2.index, 1);
}

#[test]
fn selection_prefers_least_used_from_cursor() {
    let now: u64 = 300;
    let records = vec![
        (0, info(None, true, 5)),
        (1, info(None, true, 2)),
        (2, info(None, true, 5)),
    ];
    let mut m = with_records(records, 3, 0, now);
    let sel = m.get_next_key(now).unwrap();
    assert_eq!(sel.index, 1);
    assert_eq!(m.save_state().current_index, 2);
}

#[test]
fn usage_tie_is_broken_by_scan_order_from_cursor() {
    let now: u64 = 300;
    let records = vec![
        (0, info(None, true, 3)),
        (1, info(None, true, 3)),
        (2, info(None, true, 3)),
    ];
    let mut m = with_records(records, 3, 2, now);
    let sel = m.get_next_key(now).unwrap();
    assert_eq!(sel.index, 2);
    assert_eq!(m.save_state().current_index, 0);
}

#[test]
fn reset_zeroes_usage_cooldowns_and_cursor() {
    let t: u64 = 40_000;
    let records = vec![
        (0, KeyInfo {
            cooldown_until: Some(t + 50),
            valid: true,
            usage: UsageStats { requests: 7, success: 5, errors: 2 },
        }),
        (1, KeyInfo {
            cooldown_until: None,
            valid: false,
            usage: UsageStats { requests: 3, success: 3, errors: 0 },
        }),
    ];
    let mut m = with_records(records, 2, 1, t);
    m.reset();
    let st = m.save_state();
    assert_eq!(st.current_index, 0);
    for rec in &st.keys {
        assert_eq!(rec.cooldown_until, None);
        assert_eq!(rec.usage, UsageStats { requests: 0, success: 0, errors: 0 });
    }
    // Validity marks survive a reset.
    assert!(st.keys[0].valid);
    assert!(!st.keys[1].valid);
}

#[test]
fn default_cooldown_is_sixty_seconds() {
    let t: u64 = 70_000;
    let mut m = fresh(1, t);
    m.mark_rate_limited(0, None, t);
    let st = m.save_state();
    assert_eq!(st.keys[0].cooldown_until, Some(t + 60));
    assert_eq!(st.keys[0].usage.errors, 1);
}

#[test]
fn merge_tolerates_stale_and_missing_records() {
    let now: u64 = 123;
    let loaded = LoadedState {
        version: 4,
        current_index: 7,
        last_validated: 99,
        entries: vec![
            (1, info(Some(5), false, 9)),
            (6, info(None, true, 1)), // beyond the credential list: ignored
        ],
    };
    let m = KeyManager::new(keys(3), Some(loaded), false, false, now);
    let st = m.save_state();
    assert_eq!(st.version, 4);
    assert_eq!(st.current_index, 1); // 7 wrapped into [0, 3)
    assert_eq!(st.last_validated, 99);
    assert_eq!(st.keys.len(), 3);
    assert_eq!(st.keys[0], KeyInfo::default());
    assert_eq!(st.keys[1], info(Some(5), false, 9));
    assert_eq!(st.keys[2], KeyInfo::default());
    // The out-of-range record is retained for the next save, not dropped.
    assert_eq!(st.stale, vec![(6, info(None, true, 1))]);
}

#[test]
fn reset_clears_retained_stale_records_too() {
    let t: u64 = 500;
    let loaded = LoadedState {
        version: 1,
        current_index: 0,
        last_validated: t,
        entries: vec![(9, info(Some(t + 5), true, 4))],
    };
    let mut m = KeyManager::new(keys(2), Some(loaded), false, false, t);
    m.reset();
    let st = m.save_state();
    assert_eq!(st.stale.len(), 1);
    assert_eq!(st.stale[0].0, 9);
    assert_eq!(st.stale[0].1, info(None, true, 0));
}

#[test]
fn staleness_threshold_is_a_day() {
    let m = fresh(1, 1_000_000);
    assert!(!m.is_state_stale(1_000_000 + 24 * 60 * 60));
    assert!(m.is_state_stale(1_000_000 + 24 * 60 * 60 + 1));
}

#[test]
fn validation_sweep_marks_unauthorized_keys() {
    let t0: u64 = 1_000;
    let stale_now = t0 + 24 * 60 * 60 + 1;
    let mut m = fresh(4, t0);
    let probes = vec![
        ProbeOutcome::Status(200),
        ProbeOutcome::Status(401),
        ProbeOutcome::Status(403),
        ProbeOutcome::TransportFailed,
    ];
    // Not stale yet: nothing happens.
    assert!(!m.validate_keys_if_stale(&probes, t0 + 10));
    assert!(m.save_state().keys[1].valid);
    // Stale: 401 and 403 invalidate, everything else is left alone.
    assert!(m.validate_keys_if_stale(&probes, stale_now));
    let st = m.save_state();
    assert!(st.keys[0].valid);
    assert!(!st.keys[1].valid);
    assert!(!st.keys[2].valid);
    assert!(st.keys[3].valid);
    assert_eq!(st.last_validated, stale_now);
}

#[test]
fn get_key_by_index_pins_a_credential() {
    let m = fresh(2, 5);
    assert_eq!(m.get_key_by_index(1), Some("secret-key-number-1".to_string()));
    assert_eq!(m.get_key_by_index(2), None);
}

#[test]
fn log_request_masks_key_and_formats_line() {
    let m = KeyManager::new(vec!["secretkey123".to_string()], None, true, false, 0);
    let plan = m.log_request(0, "search", 200, 42, 100).unwrap();
    assert!(!plan.rotate);
    assert_eq!(plan.line, "{\"ts\":42,\"key\":\"...123\",\"cmd\":\"search\",\"status\":200}");
    let plan2 = m.log_request(0, "search", 429, 42, 5 * 1024 * 1024).unwrap();
    assert!(plan2.rotate);
}

#[test]
fn log_request_is_disabled_by_default() {
    let m = fresh(1, 0);
    assert!(m.log_request(0, "search", 200, 42, 0).is_none());
}

#[test]
fn readiness_and_remaining_cooldown_are_reported() {
    let t: u64 = 2_000;
    let mut m = fresh(2, t);
    assert!(m.is_ready(0, t));
    m.mark_rate_limited(0, Some(45), t);
    assert!(!m.is_ready(0, t));
    assert_eq!(m.cooldown_remaining(0, t + 40), Some(5));
    assert_eq!(m.cooldown_remaining(0, t + 45), None);
    assert!(m.is_ready(0, t + 45));
    assert_eq!(m.cooldown_remaining(1, t), None);
    assert_eq!(m.num_keys(), 2);
}
