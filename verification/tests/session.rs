use gamerobotfactory::session::{SessionRegistry, RECONNECT_GRACE_PERIOD_MS};

const NOW: u64 = 1_000_000;
const SECOND: u64 = 1_000;

#[test]
fn fresh_session_is_within_grace_period() {
    let mut registry = SessionRegistry::new();
    let now = NOW;
    let id = registry.start_session(now);
    assert!(registry.is_within_grace_period(id, now));
}

#[test]
fn session_expires_after_grace_period() {
    let mut registry = SessionRegistry::new();
    let now = NOW;
    let id = registry.start_session(now);
    let later = now + RECONNECT_GRACE_PERIOD_MS + SECOND;
    assert!(!registry.is_within_grace_period(id, later));
}

#[test]
fn touch_extends_the_grace_period() {
    let mut registry = SessionRegistry::new();
    let now = NOW;
    let id = registry.start_session(now);

    let mid = now + 20 * SECOND;
    registry.touch(id, mid);

    let later = mid + 20 * SECOND; // 40s after start, but only 20s after touch
    assert!(registry.is_within_grace_period(id, later));
}

#[test]
fn unknown_session_is_never_within_grace_period() {
    let registry = SessionRegistry::new();
    assert!(!registry.is_within_grace_period(uuid::Uuid::new_v4().as_u128(), NOW));
}

#[test]
fn evict_expired_removes_only_stale_sessions() {
    let mut registry = SessionRegistry::new();
    let now = NOW;
    let fresh = registry.start_session(now);
    let stale = registry.start_session(now - RECONNECT_GRACE_PERIOD_MS - SECOND);

    registry.evict_expired(now);

    assert!(registry.is_within_grace_period(fresh, now));
    assert!(!registry.is_within_grace_period(stale, now));
}

#[test]
fn a_session_is_resumable_until_just_before_the_grace_period_ends() {
    let mut registry = SessionRegistry::new();
    let id = registry.start_session(NOW);
    assert!(registry.is_within_grace_period(id, NOW + RECONNECT_GRACE_PERIOD_MS - 1));
    assert!(!registry.is_within_grace_period(id, NOW + RECONNECT_GRACE_PERIOD_MS));
    // A clock reading from before the session was seen counts as no time passed.
    assert!(registry.is_within_grace_period(id, NOW - 5 * SECOND));
}

#[test]
fn touching_an_unknown_session_does_not_create_it() {
    let mut registry = SessionRegistry::new();
    registry.touch(42, NOW);
    assert!(!registry.is_within_grace_period(42, NOW));
}

#[test]
fn started_sessions_get_distinct_ids() {
    let mut registry = SessionRegistry::new();
    let a = registry.start_session(NOW);
    let b = registry.start_session(NOW);
    assert_ne!(a, b);
    assert!(registry.is_within_grace_period(a, NOW));
    assert!(registry.is_within_grace_period(b, NOW));
}

#[test]
fn resume_within_grace_period_refreshes_the_session() {
    let mut registry = SessionRegistry::new();
    let id = registry.start_session(NOW);
    let mid = NOW + 20 * SECOND;
    assert!(registry.resume(id, mid));
    // 40s after start, 20s after the resume: still live.
    assert!(registry.is_within_grace_period(id, mid + 20 * SECOND));
}

#[test]
fn resume_after_grace_period_is_refused_and_changes_nothing() {
    let mut registry = SessionRegistry::new();
    let id = registry.start_session(NOW);
    let late = NOW + RECONNECT_GRACE_PERIOD_MS;
    assert!(!registry.resume(id, late));
    assert!(!registry.is_within_grace_period(id, late));
    assert!(!registry.resume(7, NOW));
    assert!(!registry.is_within_grace_period(7, NOW));
}

#[test]
fn an_evicted_session_cannot_be_touched_back_to_life() {
    let mut registry = SessionRegistry::new();
    let id = registry.start_session(NOW);
    let late = NOW + RECONNECT_GRACE_PERIOD_MS + SECOND;
    registry.evict_expired(late);
    registry.touch(id, late);
    assert!(!registry.is_within_grace_period(id, late));
    assert!(!registry.resume(id, late));
}
