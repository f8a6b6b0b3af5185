use fingermouse::clock::{Span, Timestamp};
use fingermouse::rate_limit::{
    oldest_of, ClientAddr, RateLimitError, RateLimitSettings, RateLimiter,
};

const BASE: i64 = 1_700_000_000;

fn at(offset: i64) -> Timestamp {
    Timestamp {
        secs: BASE + offset,
        nanos: 250_000_000,
    }
}

fn settings(max_requests: u32, window_secs: u64, max_entries: usize) -> RateLimitSettings {
    RateLimitSettings {
        max_requests,
        window: Span::from_secs(window_secs),
        max_entries,
    }
}

fn v4(octets: [u8; 4]) -> ClientAddr {
    ClientAddr::V4(u32::from_be_bytes(octets))
}

fn total(span: Span) -> u128 {
    u128::from(span.secs) * 1_000_000_000 + u128::from(span.nanos)
}

#[test]
fn allows_requests_up_to_limit() {
    let mut limiter = RateLimiter::new(settings(2, 60, 16));
    let ip = v4([192, 0, 2, 1]);
    assert!(limiter.check_at(at(0), ip).is_ok());
    assert!(limiter.check_at(at(0), ip).is_ok());
}

#[test]
fn enforces_limit() {
    let mut limiter = RateLimiter::new(settings(1, 60, 8));
    let ip = v4([198, 51, 100, 2]);
    assert!(limiter.check_at(at(0), ip).is_ok());
    let outcome = limiter.check_at(at(5), ip);
    assert!(matches!(
        outcome,
        Err(RateLimitError::LimitExceeded { retry_in }) if total(retry_in) <= 60_000_000_000
    ));
    assert_eq!(
        outcome,
        Err(RateLimitError::LimitExceeded {
            retry_in: Span::from_secs(55)
        })
    );
}

#[test]
fn resets_after_window() {
    let mut limiter = RateLimiter::new(settings(1, 10, 16));
    let ip = v4([203, 0, 113, 5]);
    assert!(limiter.check_at(at(0), ip).is_ok());
    assert!(limiter.check_at(at(15), ip).is_ok());
}

#[test]
fn evicts_stale_entries() {
    let mut limiter = RateLimiter::new(settings(5, 60, 16));
    let first_ip = v4([198, 18, 0, 1]);
    let second_ip = v4([198, 18, 0, 2]);
    assert!(limiter.check_at(at(0), first_ip).is_ok());
    assert!(limiter.check_at(at(0), second_ip).is_ok());
    assert!(limiter.tracks(first_ip));
    assert!(limiter.check_at(at(120), first_ip).is_ok());
    assert!(
        !limiter.tracks(second_ip),
        "stale entry should be evicted after window lapse"
    );
}

#[test]
fn enforces_capacity_limit() {
    let mut limiter = RateLimiter::new(settings(5, 300, 2));
    let ip1 = v4([203, 0, 113, 1]);
    let ip2 = v4([203, 0, 113, 2]);
    let ip3 = v4([203, 0, 113, 3]);
    assert!(limiter.check_at(at(0), ip1).is_ok());
    assert!(limiter.check_at(at(1), ip2).is_ok());
    assert_eq!(limiter.entry_count(), 2);
    assert!(limiter.check_at(at(2), ip3).is_ok());
    assert_eq!(limiter.entry_count(), 2);
    assert!(
        !limiter.tracks(ip1),
        "oldest entry should be discarded when capacity exceeded"
    );
    assert!(limiter.tracks(ip2));
    assert!(limiter.tracks(ip3));
}

#[test]
fn window_admits_exactly_the_quota() {
    let mut limiter = RateLimiter::new(settings(3, 60, 4));
    let ip = ClientAddr::V6(1);
    let outcomes: Vec<bool> = (0..6)
        .map(|offset| limiter.check_at(at(offset), ip).is_ok())
        .collect();
    assert_eq!(outcomes, [true, true, true, false, false, false]);
}

#[test]
fn waiting_as_told_is_enough() {
    let mut limiter = RateLimiter::new(settings(1, 60, 4));
    let ip = v4([10, 0, 0, 1]);
    assert!(limiter.check_at(at(0), ip).is_ok());
    let now = Timestamp {
        secs: BASE + 10,
        nanos: 500_000_000,
    };
    let Err(RateLimitError::LimitExceeded { retry_in }) = limiter.check_at(now, ip) else {
        panic!("the window is used up");
    };
    assert_eq!(
        retry_in,
        Span {
            secs: 49,
            nanos: 750_000_000
        }
    );
    assert!(limiter.check_at(at(59), ip).is_err());
    assert!(limiter.check_at(at(60), ip).is_ok());
}

#[test]
fn refused_requests_do_not_prolong_the_window() {
    let mut limiter = RateLimiter::new(settings(1, 10, 4));
    let ip = v4([10, 0, 0, 2]);
    assert!(limiter.check_at(at(0), ip).is_ok());
    for offset in 1..10 {
        assert!(limiter.check_at(at(offset), ip).is_err());
    }
    assert!(limiter.check_at(at(10), ip).is_ok());
}

#[test]
fn clients_do_not_share_their_quota() {
    let mut limiter = RateLimiter::new(settings(1, 60, 8));
    assert!(limiter.check_at(at(0), ClientAddr::V4(1)).is_ok());
    assert!(limiter.check_at(at(0), ClientAddr::V6(1)).is_ok());
    assert!(limiter.check_at(at(0), ClientAddr::V4(2)).is_ok());
    assert!(limiter.check_at(at(0), ClientAddr::V4(1)).is_err());
    assert_eq!(limiter.entry_count(), 3);
    assert!(ClientAddr::V4(1).key() != ClientAddr::V6(1).key());
}

#[test]
fn nobody_passes_a_limit_of_zero() {
    let mut limiter = RateLimiter::new(settings(0, 60, 8));
    let ip = ClientAddr::V4(1);
    for (offset, wait) in [(0, 60), (5, 55), (59, 1), (60, 60), (70, 50), (200, 60)] {
        assert_eq!(
            limiter.check_at(at(offset), ip),
            Err(RateLimitError::LimitExceeded {
                retry_in: Span::from_secs(wait)
            })
        );
        assert!(limiter.tracks(ip));
        assert_eq!(limiter.entry_count(), 1);
    }
}

#[test]
fn capacity_is_at_least_one() {
    let mut limiter = RateLimiter::new(settings(1, 60, 0));
    assert!(limiter.check_at(at(0), ClientAddr::V4(1)).is_ok());
    assert_eq!(limiter.entry_count(), 1);
    assert!(limiter.check_at(at(1), ClientAddr::V4(2)).is_ok());
    assert_eq!(limiter.entry_count(), 1);
    assert!(limiter.tracks(ClientAddr::V4(2)));
}

#[test]
fn overlong_window_becomes_one_second() {
    let mut limiter = RateLimiter::new(settings(1, u64::MAX, 4));
    assert!(limiter.check_at(at(0), ClientAddr::V4(1)).is_ok());
    assert_eq!(
        limiter.check_at(at(0), ClientAddr::V4(1)),
        Err(RateLimitError::LimitExceeded {
            retry_in: Span::from_secs(1)
        })
    );
    assert!(limiter.check_at(at(1), ClientAddr::V4(1)).is_ok());
}

#[test]
fn clock_that_runs_backwards_lengthens_the_wait() {
    let mut limiter = RateLimiter::new(settings(1, 60, 4));
    let ip = ClientAddr::V4(1);
    assert!(limiter.check_at(at(0), ip).is_ok());
    assert_eq!(
        limiter.check_at(at(-5), ip),
        Err(RateLimitError::LimitExceeded {
            retry_in: Span::from_secs(65)
        })
    );
}

#[test]
fn system_clock_drives_check() {
    let mut limiter = RateLimiter::new(settings(1, 3600, 4));
    let ip = ClientAddr::V4(7);
    assert!(limiter.check(ip).is_ok());
    let Err(RateLimitError::LimitExceeded { retry_in }) = limiter.check(ip) else {
        panic!("the window is used up");
    };
    assert!(total(retry_in) <= 3_600_000_000_000);
    assert!(limiter.tracks(ip));
}

#[test]
fn oldest_entry_is_found() {
    let items = vec![
        ((false, 1), Some(at(3))),
        ((false, 2), Some(at(1))),
        ((false, 3), Some(at(2))),
        ((false, 4), Some(at(1))),
        ((false, 5), None),
    ];
    assert_eq!(oldest_of(&items, None), Some((false, 2)));
    assert_eq!(oldest_of(&items, Some((false, 2))), Some((false, 4)));
    assert_eq!(oldest_of(&items[..1].to_vec(), Some((false, 1))), None);
    assert_eq!(oldest_of(&items[4..].to_vec(), None), None);
    assert_eq!(oldest_of(&Vec::new(), None), None);
}

#[test]
fn limit_message() {
    let err = RateLimitError::LimitExceeded {
        retry_in: Span::from_millis(1500),
    };
    assert_eq!(err.message(), "too many requests; retry in 1.5s");
}

#[test]
fn spans_of_milliseconds() {
    assert_eq!(
        Span::from_millis(2_345),
        Span {
            secs: 2,
            nanos: 345_000_000
        }
    );
    assert_eq!(Span::from_millis(3000), Span::from_secs(3));
}

#[test]
fn other_clients_in_between_change_no_quota() {
    let mut limiter = RateLimiter::new(settings(2, 60, 16));
    let ip = ClientAddr::V4(1);
    let mut admitted = Vec::new();
    for offset in 0..4 {
        admitted.push(limiter.check_at(at(offset), ip).is_ok());
        for other in 2..5 {
            let _ = limiter.check_at(at(offset), ClientAddr::V4(other));
        }
    }
    assert_eq!(admitted, [true, true, false, false]);
}

#[test]
fn crowded_out_clients_start_anew() {
    let mut limiter = RateLimiter::new(settings(1, 60, 1));
    assert!(limiter.check_at(at(0), ClientAddr::V4(1)).is_ok());
    assert!(limiter.check_at(at(1), ClientAddr::V4(2)).is_ok());
    assert!(limiter.check_at(at(2), ClientAddr::V4(1)).is_ok());
}

#[test]
fn windows_that_leave_the_calendar_are_noticed() {
    let ordinary = RateLimiter::new(settings(1, 60, 4));
    assert!(ordinary.covers(at(0)));
    assert!(!ordinary.covers(Timestamp {
        secs: i64::MAX,
        nanos: 0
    }));
    assert!(!ordinary.covers(Timestamp {
        secs: 0,
        nanos: 1_000_000_000
    }));
    let endless = RateLimiter::new(settings(1, 9_000_000_000_000, 4));
    assert!(!endless.covers(Timestamp { secs: 0, nanos: 0 }));
    let mut longest = RateLimiter::new(settings(1, 8_334_601_228_800, 4));
    let epoch = Timestamp { secs: 0, nanos: 0 };
    assert!(longest.covers(epoch));
    assert!(longest.check_at(epoch, ClientAddr::V4(1)).is_ok());
}

#[test]
fn the_window_slides() {
    let mut limiter = RateLimiter::new(settings(2, 10, 16));
    let ip = v4([192, 0, 2, 1]);
    assert!(limiter.check_at(at(0), ip).is_ok());
    assert!(limiter.check_at(at(9), ip).is_ok());
    assert!(limiter.check_at(at(11), ip).is_ok());
    assert_eq!(
        limiter.check_at(at(12), ip),
        Err(RateLimitError::LimitExceeded {
            retry_in: Span::from_secs(7)
        })
    );
    assert!(limiter.check_at(at(18), ip).is_err());
    assert!(limiter.check_at(at(19), ip).is_ok());
    assert_eq!(
        limiter.check_at(at(19), ip),
        Err(RateLimitError::LimitExceeded {
            retry_in: Span::from_secs(2)
        })
    );
}

#[test]
fn no_window_holds_more_than_the_quota() {
    for quota in 1..4_u32 {
        let mut limiter = RateLimiter::new(settings(quota, 7, 16));
        let ip = ClientAddr::V4(9);
        let mut admitted: Vec<i64> = Vec::new();
        let mut now = 0;
        for step in 0..200 {
            now += [0, 1, 3, 0, 2][step % 5];
            let room = admitted.iter().filter(|t| now - **t < 7).count() < quota as usize;
            assert_eq!(limiter.check_at(at(now), ip).is_ok(), room);
            if room {
                admitted.push(now);
            }
        }
        for end in 0..now {
            let held = admitted.iter().filter(|t| end - 7 < **t && **t <= end).count();
            assert!(held <= quota as usize);
        }
    }
}

#[test]
fn clients_stay_on_file_while_a_request_may_count() {
    let mut limiter = RateLimiter::new(settings(2, 10, 16));
    let (ip, other) = (ClientAddr::V4(1), ClientAddr::V4(2));
    assert!(limiter.check_at(at(0), ip).is_ok());
    assert!(limiter.check_at(at(8), ip).is_ok());
    assert!(limiter.check_at(at(18), other).is_ok());
    assert!(limiter.tracks(ip));
    assert!(limiter.check_at(at(19), other).is_ok());
    assert!(!limiter.tracks(ip));
}
