use direct_http::{Limiter, MutexLimiter};

#[test]
fn ten_requests_pass_and_the_eleventh_fails() {
    let mut limiter = Limiter::new(10, 100);
    for _ in 0..10 {
        assert!(limiter.client_allow("10.0.0.1".to_string()));
    }
    assert!(!limiter.client_allow("10.0.0.1".to_string()));
    limiter.decrease_all();
    assert!(limiter.client_allow("10.0.0.1".to_string()));
    assert!(!limiter.client_allow("10.0.0.1".to_string()));
}

#[test]
fn clients_are_counted_apart() {
    let mut limiter = Limiter::new(10, 1000);
    for _ in 0..10 {
        assert!(limiter.client_allow("a".to_string()));
    }
    assert!(!limiter.client_allow("a".to_string()));
    for _ in 0..10 {
        assert!(limiter.client_allow("b".to_string()));
    }
    assert!(!limiter.client_allow("b".to_string()));
    assert!(limiter.client_allow("".to_string()));
}

#[test]
fn server_counter_has_its_own_limit() {
    let mut limiter = Limiter::new(10, 25);
    for _ in 0..25 {
        assert!(limiter.server_allow());
    }
    assert!(!limiter.server_allow());
    assert!(limiter.client_allow("a".to_string()));
    limiter.decrease_all();
    assert!(limiter.server_allow());
    assert!(limiter.server_allow());
    assert!(!limiter.server_allow());
}

#[test]
fn small_limits_are_raised_to_ten() {
    let mut limiter = Limiter::new(3, -5);
    assert_eq!(limiter.limit_per_client(), 10);
    assert_eq!(limiter.limit_per_server(), 10);
    for _ in 0..10 {
        assert!(limiter.server_allow());
        assert!(limiter.client_allow("a".to_string()));
    }
    assert!(!limiter.server_allow());
    assert!(!limiter.client_allow("a".to_string()));
    let limiter = Limiter::new(10, 11);
    assert_eq!(limiter.limit_per_client(), 10);
    assert_eq!(limiter.limit_per_server(), 11);
}

#[test]
fn decay_step_is_a_tenth_of_the_limit() {
    let mut limiter = Limiter::new(57, 1000);
    for _ in 0..57 {
        assert!(limiter.client_allow("a".to_string()));
    }
    assert!(!limiter.client_allow("a".to_string()));
    limiter.decrease_all();
    for _ in 0..5 {
        assert!(limiter.client_allow("a".to_string()));
    }
    assert!(!limiter.client_allow("a".to_string()));
}

#[test]
fn decay_stops_at_zero() {
    let mut limiter = Limiter::new(30, 30);
    for _ in 0..4 {
        assert!(limiter.client_allow("a".to_string()));
        assert!(limiter.server_allow());
    }
    limiter.decrease_all();
    limiter.decrease_all();
    limiter.decrease_all();
    for _ in 0..30 {
        assert!(limiter.client_allow("a".to_string()));
        assert!(limiter.server_allow());
    }
    assert!(!limiter.client_allow("a".to_string()));
    assert!(!limiter.server_allow());
}

#[test]
fn sweep_drops_only_the_drained_clients() {
    let mut limiter = Limiter::new(10, 1000);
    for _ in 0..10 {
        assert!(limiter.client_allow("busy".to_string()));
    }
    assert!(limiter.client_allow("idle".to_string()));
    limiter.decrease_all();
    limiter.remove_empty_clients();
    assert!(limiter.client_allow("busy".to_string()));
    assert!(!limiter.client_allow("busy".to_string()));
    for _ in 0..10 {
        assert!(limiter.client_allow("idle".to_string()));
    }
    assert!(!limiter.client_allow("idle".to_string()));
    limiter.remove_empty_clients();
    assert!(!limiter.client_allow("idle".to_string()));
}

#[test]
fn a_client_turned_away_is_not_counted() {
    let mut limiter = Limiter::new(10, 1000);
    for _ in 0..10 {
        assert!(limiter.client_allow("a".to_string()));
    }
    for _ in 0..50 {
        assert!(!limiter.client_allow("a".to_string()));
    }
    limiter.decrease_all();
    assert!(limiter.client_allow("a".to_string()));
}

#[test]
fn shared_limiter_counts_across_handles() {
    let limiter = MutexLimiter::new(10, 10);
    let other = limiter.clone();
    for _ in 0..5 {
        assert!(limiter.server_allow());
        assert!(other.server_allow());
    }
    assert!(!limiter.server_allow());
    other.decrease_all();
    assert!(limiter.server_allow());
    assert!(!other.server_allow());
}

#[test]
fn shared_limiter_counts_clients() {
    let limiter = MutexLimiter::new(10, 100);
    let other = limiter.clone();
    for _ in 0..10 {
        assert!(other.client_allow("a".to_string()));
    }
    assert!(!limiter.client_allow("a".to_string()));
    limiter.decrease_all();
    limiter.remove_empty_clients();
    assert!(other.client_allow("a".to_string()));
    assert!(!other.client_allow("a".to_string()));
}

#[test]
fn a_full_server_leaves_the_client_uncounted() {
    let mut limiter = Limiter::new(10, 100);
    for _ in 0..100 {
        assert!(limiter.server_allow());
    }
    for _ in 0..10 {
        assert!(!limiter.allow("a".to_string()));
    }
    limiter.decrease_all();
    for _ in 0..10 {
        assert!(limiter.allow("a".to_string()));
    }
    assert!(!limiter.allow("a".to_string()));
}

#[test]
fn a_full_client_is_still_counted_for_the_server() {
    let mut limiter = Limiter::new(10, 12);
    for _ in 0..10 {
        assert!(limiter.allow("a".to_string()));
    }
    assert!(!limiter.allow("a".to_string()));
    assert!(!limiter.allow("a".to_string()));
    assert!(!limiter.allow("b".to_string()));
    assert!(!limiter.server_allow());
    limiter.decrease_all();
    assert!(limiter.allow("b".to_string()));
    assert!(!limiter.allow("b".to_string()));
}

#[test]
fn shared_limiter_asks_the_server_first() {
    let limiter = MutexLimiter::new(10, 10);
    let other = limiter.clone();
    for _ in 0..10 {
        assert!(limiter.server_allow());
    }
    for _ in 0..10 {
        assert!(!other.allow("a".to_string()));
    }
    for _ in 0..10 {
        limiter.decrease_all();
    }
    for _ in 0..10 {
        assert!(other.allow("a".to_string()));
    }
    assert!(!limiter.allow("a".to_string()));
}
