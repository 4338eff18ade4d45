use logguard::failed_login::FailedLogins;

/// Drives a detector with a clock that the test sets.
struct MockTimeTracker {
    failed_logins: FailedLogins,
    now: u64,
}

impl MockTimeTracker {
    fn new(min_threshold: usize, sec_threshold: usize, window_mins: u64, window_secs: u64) -> Self {
        let now = 1700000000;
        Self {
            failed_logins: FailedLogins::new_at(min_threshold, sec_threshold, window_mins, window_secs, 60, now),
            now,
        }
    }

    fn register_attempt(&mut self, ip: u128) -> bool {
        self.failed_logins.register_attempt_at(ip, self.now)
    }

    fn advance_time(&mut self, secs: u64) {
        self.now += secs;
    }
}

fn mock_ip() -> u128 {
    // 192.168.1.1
    0xC0A8_0101
}

#[test]
fn test_ban_after_three_attempts_in_a_minute() {
    let mut tracker = MockTimeTracker::new(3, 5, 1, 1);
    let ip = mock_ip();

    assert_eq!(tracker.register_attempt(ip), false);
    assert_eq!(tracker.register_attempt(ip), false);
    assert_eq!(tracker.register_attempt(ip), true);
}

#[test]
fn test_ban_after_five_attempts_in_ten_seconds() {
    let mut tracker = MockTimeTracker::new(10, 5, 1, 1);
    let ip = mock_ip();

    for _ in 0..4 {
        assert_eq!(tracker.register_attempt(ip), false);
    }
    assert_eq!(tracker.register_attempt(ip), true);
}

#[test]
fn test_no_ban_if_attempts_are_spread_out() {
    let mut tracker = MockTimeTracker::new(5, 10, 1, 1);
    let ip = mock_ip();

    for _ in 0..4 {
        tracker.register_attempt(ip);
        tracker.advance_time(20);
    }

    tracker.advance_time(120);
    assert_eq!(tracker.register_attempt(ip), false);
}

#[test]
fn test_expired_attempts_dont_contribute_to_ban() {
    let mut tracker = MockTimeTracker::new(5, 10, 1, 1);
    let ip = mock_ip();

    for _ in 0..4 {
        tracker.register_attempt(ip);
    }

    tracker.advance_time(61);
    assert_eq!(tracker.register_attempt(ip), false);
}

#[test]
fn test_burst_attack_gets_caught() {
    let mut tracker = MockTimeTracker::new(10, 5, 1, 1);
    let ip = mock_ip();

    for _ in 0..4 {
        tracker.register_attempt(ip);
        tracker.advance_time(2);
    }

    assert_eq!(tracker.register_attempt(ip), true);
}

#[test]
fn flagged_on_every_attempt_from_the_threshold_on() {
    let mut d = FailedLogins::new_at(3, 100, 2, 1, 60, 6000);
    let results: Vec<bool> = (0..6).map(|_| d.register_attempt_at(7, 6000)).collect();
    assert_eq!(results, vec![false, false, true, true, true, true]);
}

#[test]
fn flagged_origin_returns_to_unflagged_after_the_window() {
    let mut d = FailedLogins::new_at(3, 100, 1, 1, 60, 6000);
    for _ in 0..3 {
        d.register_attempt_at(7, 6000);
    }
    assert!(d.register_attempt_at(7, 6001));
    // two minute buckets later, the earlier attempts lie outside the window
    assert_eq!(d.register_attempt_at(7, 6125), false);
    assert_eq!(d.register_attempt_at(7, 6125), false);
    assert_eq!(d.register_attempt_at(7, 6125), true);
}

#[test]
fn origins_are_counted_apart() {
    let mut d = FailedLogins::new_at(2, 100, 1, 1, 60, 0);
    assert_eq!(d.register_attempt_at(1, 30), false);
    assert_eq!(d.register_attempt_at(2, 30), false);
    assert_eq!(d.register_attempt_at(1, 30), true);
    assert_eq!(d.register_attempt_at(3, 30), false);
}

#[test]
fn wider_window_keeps_earlier_minutes() {
    let mut d = FailedLogins::new_at(3, 100, 3, 1, 1_000_000, 0);
    assert_eq!(d.register_attempt_at(9, 0), false);
    assert_eq!(d.register_attempt_at(9, 60), false);
    assert_eq!(d.register_attempt_at(9, 120), true);
    // the first minute falls out of a three-minute window at minute 3
    assert_eq!(d.register_attempt_at(9, 180), true);
    assert_eq!(d.register_attempt_at(9, 300), false);
}

#[test]
fn housekeeping_drops_stale_origins() {
    let mut d = FailedLogins::new_at(5, 5, 1, 1, 60, 1000);
    d.register_attempt_at(1, 1000);
    d.register_attempt_at(2, 1010);
    assert_eq!(d.per_minute.entries.len(), 2);
    // more than a cleanup interval later: housekeeping runs before the attempt is counted
    d.register_attempt_at(3, 1200);
    assert_eq!(d.last_cleanup, 1200);
    assert_eq!(d.per_minute.entries.len(), 1);
    assert_eq!(d.per_minute.entries[0].origin, 3);
    assert_eq!(d.per_10_seconds.entries.len(), 1);
}

#[test]
fn explicit_cleanup_keeps_window_counts() {
    let mut d = FailedLogins::new_at(3, 100, 1, 1, 1_000_000, 0);
    d.register_attempt_at(4, 600);
    d.register_attempt_at(4, 600);
    d.cleanup_old_attempts_at(610);
    assert_eq!(d.per_minute.capped_total(4, 610 / 60, 1), 2);
    assert_eq!(d.register_attempt_at(4, 610), true);
}

#[test]
fn zero_width_windows_count_nothing() {
    let mut d = FailedLogins::new_at(1, 1, 0, 0, 60, 0);
    assert_eq!(d.register_attempt_at(5, 10), false);
    let mut z = FailedLogins::new_at(0, 9, 0, 0, 60, 0);
    assert_eq!(z.register_attempt_at(5, 10), true);
}

#[test]
fn detector_with_real_clock_counts_attempts() {
    let mut d = FailedLogins::new(2, 100, 5, 1, 60);
    assert_eq!(d.register_attempt(11), false);
    assert_eq!(d.register_attempt(11), true);
}

#[test]
fn attempt_lands_in_the_current_buckets() {
    let mut d = FailedLogins::new_at(100, 100, 5, 5, 1_000_000, 0);
    d.register_attempt_at(8, 125);
    d.register_attempt_at(8, 125);
    d.register_attempt_at(8, 185);
    assert_eq!(d.per_minute.entries.len(), 1);
    assert_eq!(d.per_minute.entries[0].buckets, vec![(2, 2), (3, 1)]);
    assert_eq!(d.per_10_seconds.entries[0].buckets, vec![(12, 2), (18, 1)]);
}

#[test]
fn second_cleanup_at_the_same_second_changes_nothing() {
    let mut d = FailedLogins::new_at(100, 100, 2, 2, 1_000_000, 0);
    d.register_attempt_at(1, 0);
    d.register_attempt_at(1, 100);
    d.register_attempt_at(2, 130);
    d.cleanup_old_attempts_at(150);
    let minutes: Vec<(u128, Vec<(u64, usize)>)> =
        d.per_minute.entries.iter().map(|e| (e.origin, e.buckets.clone())).collect();
    assert_eq!(minutes, vec![(1, vec![(1, 1)]), (2, vec![(2, 1)])]);
    // ten-second buckets 0, 10 and 13 all lie outside the two buckets up to 15
    assert_eq!(d.per_10_seconds.entries.len(), 0);
    d.cleanup_old_attempts_at(150);
    let again: Vec<(u128, Vec<(u64, usize)>)> =
        d.per_minute.entries.iter().map(|e| (e.origin, e.buckets.clone())).collect();
    assert_eq!(again, minutes);
}
