use botcore::rate_limiter::RateLimiter;

#[test]
fn quota_within_sliding_window() {
    let mut rl = RateLimiter::new();
    rl.add_limit("cmd", 3, 10_000);
    // Three calls in quick succession are admitted, the fourth is not.
    assert!(rl.check("cmd", 7, 0));
    assert!(rl.check("cmd", 7, 1));
    assert!(rl.check("cmd", 7, 2));
    assert!(!rl.check("cmd", 7, 3));
    // Once the oldest admissions age past the window, there is room again.
    assert!(rl.check("cmd", 7, 10_001));
}

#[test]
fn rejected_call_is_not_recorded() {
    let mut rl = RateLimiter::new();
    rl.add_limit("cmd", 1, 1_000);
    assert!(rl.check("cmd", 1, 0));
    assert!(!rl.check("cmd", 1, 1));
    assert!(!rl.check("cmd", 1, 2));
    // Only the admission at 0 counts: at 1_000 it has aged out, however
    // many rejected calls came after it.
    assert!(rl.check("cmd", 1, 1_000));
}

#[test]
fn missing_rule_admits_and_records_nothing() {
    let mut rl = RateLimiter::new();
    assert!(rl.check("free", 1, 0));
    assert!(rl.check("free", 1, 1));
    assert_eq!(rl.get_remaining("free", 1, 2), None);
    // Installing a rule afterwards shows the full quota: the unrestricted
    // calls populated no usage window.
    rl.add_limit("free", 2, 1_000);
    assert_eq!(rl.get_remaining("free", 1, 2), Some(2));
}

#[test]
fn zero_quota_rejects_always() {
    let mut rl = RateLimiter::new();
    rl.add_limit("shut", 0, 1_000);
    assert!(!rl.check("shut", 1, 0));
    assert!(!rl.check("shut", 1, 5_000));
}

#[test]
fn add_limit_replaces_rule() {
    let mut rl = RateLimiter::new();
    rl.add_limit("cmd", 1, 1_000);
    assert!(rl.check("cmd", 1, 0));
    assert!(!rl.check("cmd", 1, 1));
    // Last write wins: the wider rule holds from now on.
    rl.add_limit("cmd", 3, 1_000);
    assert!(rl.check("cmd", 1, 2));
    assert!(rl.check("cmd", 1, 3));
    assert!(!rl.check("cmd", 1, 4));
}

#[test]
fn subjects_are_limited_independently() {
    let mut rl = RateLimiter::new();
    rl.add_limit("cmd", 1, 10_000);
    assert!(rl.check("cmd", 1, 0));
    assert!(rl.check("cmd", 2, 1));
    assert!(!rl.check("cmd", 1, 2));
    assert!(!rl.check("cmd", 2, 3));
}

#[test]
fn get_remaining_reports_without_consuming() {
    let mut rl = RateLimiter::new();
    rl.add_limit("cmd", 3, 10_000);
    assert_eq!(rl.get_remaining("cmd", 9, 0), Some(3));
    assert!(rl.check("cmd", 9, 0));
    assert!(rl.check("cmd", 9, 1));
    assert_eq!(rl.get_remaining("cmd", 9, 2), Some(1));
    // Reading twice changes nothing.
    assert_eq!(rl.get_remaining("cmd", 9, 2), Some(1));
    assert!(rl.check("cmd", 9, 3));
    assert_eq!(rl.get_remaining("cmd", 9, 4), Some(0));
}

#[test]
fn reset_forgets_a_subjects_usage() {
    let mut rl = RateLimiter::new();
    rl.add_limit("cmd", 1, 60_000);
    assert!(rl.check("cmd", 4, 0));
    assert!(!rl.check("cmd", 4, 1));
    rl.reset("cmd", 4);
    assert!(rl.check("cmd", 4, 2));
}

#[test]
fn clean_up_prunes_aged_windows() {
    let mut rl = RateLimiter::new();
    rl.add_limit("cmd", 2, 1_000);
    assert!(rl.check("cmd", 5, 0));
    assert!(rl.check("cmd", 5, 500));
    assert_eq!(rl.get_remaining("cmd", 5, 600), Some(0));
    rl.clean_up(1_200);
    // The admission at 0 aged out; the one at 500 still counts.
    assert_eq!(rl.get_remaining("cmd", 5, 1_200), Some(1));
}
