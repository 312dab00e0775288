use nearest_airport::limiter::{RateLimiter, TokenBucket, BURST_MILLITOKENS, COST_MILLITOKENS};

#[test]
fn bucket_starts_full() {
    let b = TokenBucket::new_full(0);
    assert_eq!(b.available(0), BURST_MILLITOKENS);
    assert_eq!(b.available(123456), BURST_MILLITOKENS);
}

#[test]
fn bucket_refills_continuously_and_caps() {
    let b = TokenBucket { millitokens: 0, last_refill_ms: 0 };
    assert_eq!(b.available(0), 0);
    assert_eq!(b.available(1), 2);
    assert_eq!(b.available(500), 1000);
    assert_eq!(b.available(9999), 19998);
    assert_eq!(b.available(10000), 20000);
    assert_eq!(b.available(1000000), 20000);
}

#[test]
fn bucket_ignores_clock_regression() {
    let b = TokenBucket { millitokens: 700, last_refill_ms: 5000 };
    assert_eq!(b.available(4000), 700);
}

#[test]
fn take_one_withdraws_exactly_one_token() {
    let b = TokenBucket::new_full(0);
    let (b2, ok) = b.take_one(0);
    assert!(ok);
    assert_eq!(b2.millitokens, BURST_MILLITOKENS - COST_MILLITOKENS);
    assert_eq!(b2.last_refill_ms, 0);
}

#[test]
fn burst_then_reject_then_half_second_refill() {
    // Bucket (refill = 2/s, burst = 20): 20 requests at instant 0 succeed,
    // the 21st at instant 0 is rejected, and after 0.5 s of silence exactly
    // one more fits.
    let mut limiter = RateLimiter::new();
    let ip = String::from("203.0.113.7");
    for _ in 0..20 {
        assert!(limiter.check(&ip, 0));
    }
    assert!(!limiter.check(&ip, 0));
    // 499 ms later only 0.998 tokens have accrued: still rejected.
    assert!(!limiter.check(&ip, 499));
    // At 999 ms, 500 ms have passed since the last touch at 499 ms: the
    // bucket holds exactly one token again.
    assert!(limiter.check(&ip, 999));
    assert!(!limiter.check(&ip, 999));
}

#[test]
fn twenty_five_requests_admit_exactly_twenty() {
    // 25 rapid-fire requests from one client: 20 succeed, 5 are rejected.
    let mut limiter = RateLimiter::new();
    let ip = String::from("198.51.100.9");
    let mut admitted = 0;
    let mut rejected = 0;
    for k in 0..25u64 {
        // All within 200 ms: the refill adds less than one token in total.
        if limiter.check(&ip, k * 8) {
            admitted += 1;
        } else {
            rejected += 1;
        }
    }
    assert_eq!(admitted, 20);
    assert_eq!(rejected, 5);
}

#[test]
fn distinct_clients_have_distinct_buckets() {
    let mut limiter = RateLimiter::new();
    let a = String::from("10.0.0.1");
    let b = String::from("10.0.0.2");
    for _ in 0..20 {
        assert!(limiter.check(&a, 0));
    }
    assert!(!limiter.check(&a, 0));
    assert!(limiter.check(&b, 0));
    assert_eq!(limiter.len(), 2);
}

#[test]
fn sweep_reclaims_only_fully_refilled_entries() {
    let mut limiter = RateLimiter::new();
    let idle = String::from("10.0.0.1");
    let busy = String::from("10.0.0.2");
    assert!(limiter.check(&idle, 0));
    assert!(limiter.check(&busy, 9000));
    assert_eq!(limiter.len(), 2);
    // At 9400 ms the idle bucket has long refilled its one missing token
    // (500 ms suffices); the busy one, touched at 9000 ms, has not.
    limiter.sweep(9400);
    assert_eq!(limiter.len(), 1);
    // The busy client's bucket survived untouched: 19.8 tokens at 9400 ms,
    // so exactly 19 more admissions fit at that instant.
    for _ in 0..19 {
        assert!(limiter.check(&busy, 9400));
    }
    assert!(!limiter.check(&busy, 9400));
    // The idle client starts over with a full bucket.
    for _ in 0..20 {
        assert!(limiter.check(&idle, 9400));
    }
    assert!(!limiter.check(&idle, 9400));
}
