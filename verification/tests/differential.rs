use semver_rs::differential::{
    answer, batch, batch_len, invalid_version, number, query, range, same_answer, valid_version,
    version, Answer, Query, Rng, Tally, BATCH,
};

#[test]
fn zero_seed_is_replaced() {
    assert_eq!(Rng::new(0).0, 0x2545F4914F6CDD1D);
    assert_eq!(Rng::new(5).0, 5);
}

#[test]
fn generator_outputs_are_xorshift_scrambled() {
    let mut r = Rng::new(1);
    assert_eq!(r.next(), 5180492295206395165);
    assert_eq!(r.next(), 12380297144915551517);
    assert_eq!(r.below(10), 3);
    assert!(r.chance(50));
    let mut r = Rng::new(42);
    assert_eq!(r.next(), 6255019084209693600);
    assert_eq!(r.below(0), 0);
}

#[test]
fn generated_numbers_replay() {
    assert_eq!(number(&mut Rng::new(1)), "9007199254740991");
    assert_eq!(number(&mut Rng::new(42)), "0");
    assert_eq!(number(&mut Rng::new(7)), "8");
}

#[test]
fn generated_versions_replay() {
    assert_eq!(valid_version(&mut Rng::new(1)), "9007199254740991.03.928-beta");
    assert_eq!(
        valid_version(&mut Rng::new(42)),
        "0.4294967295.9007199254740992-00.next.canary"
    );
    assert_eq!(valid_version(&mut Rng::new(7)), "8.671918.1-0a.dev.1");
    assert_eq!(invalid_version(&mut Rng::new(1)), format!("1.2.3-{}", "a".repeat(300)));
    assert_eq!(invalid_version(&mut Rng::new(42)), "");
    assert_eq!(invalid_version(&mut Rng::new(7)), "1.2.3 4.5.6");
}

#[test]
fn generated_ranges_replay() {
    assert_eq!(range(&mut Rng::new(1)), "413.4294967295.1 >=578.x || <=759");
    assert_eq!(range(&mut Rng::new(42)), "*");
    assert_eq!(range(&mut Rng::new(7)), "<9007199254740992.9007199254740991.x || 069.868557");
}

#[test]
fn generated_queries_replay() {
    let mut r = Rng::new(1);
    match query(&mut r) {
        Query::ValidRange { r, loose, ip } => {
            assert_eq!(r, "<=1.661.170005");
            assert!(!loose);
            assert!(ip);
        }
        _ => panic!("expected a validRange query"),
    }
    match query(&mut r) {
        Query::Valid { v, loose } => {
            assert_eq!(v, "578.6.9007199254740992+a-b");
            assert!(!loose);
        }
        _ => panic!("expected a valid query"),
    }
    match query(&mut r) {
        Query::Compare { a, b, loose } => {
            assert_eq!(a, "888.027.520");
            assert_eq!(b, "V4.417010.1");
            assert!(loose);
        }
        _ => panic!("expected a compare query"),
    }
}

#[test]
fn local_answers_follow_the_library() {
    let q = Query::Valid { v: " v1.2.3 ".to_string(), loose: true };
    assert!(matches!(answer(&q), Answer::Str(s) if s == "1.2.3"));
    let q = Query::Valid { v: "9007199254740992.0.0".to_string(), loose: false };
    assert!(matches!(answer(&q), Answer::Null));
    let q = Query::Compare { a: "1.2.3".to_string(), b: "1.2.4".to_string(), loose: false };
    assert!(matches!(answer(&q), Answer::Int(-1)));
    let q = Query::Compare { a: "1.2".to_string(), b: "1.2.4".to_string(), loose: false };
    assert!(matches!(answer(&q), Answer::Null));
    let q = Query::ValidRange { r: "^1.2".to_string(), loose: false, ip: false };
    assert!(matches!(answer(&q), Answer::Str(s) if s == ">=1.2.0 <2.0.0-0"));
    let q = Query::Satisfies {
        v: "1.3.0-beta".to_string(),
        r: "^1.2".to_string(),
        loose: false,
        ip: true,
    };
    assert!(matches!(answer(&q), Answer::Bool(true)));
}

#[test]
fn batches_pair_queries_with_answers() {
    let (qs, xs) = batch(&mut Rng::new(7), 3);
    assert_eq!(qs.len(), 3);
    assert_eq!(xs.len(), 3);
    match &qs[2] {
        Query::ValidRange { r, loose, ip } => {
            assert_eq!(
                r,
                ">045.9007199254740991 ~>9007199254740991 || >=092.4.9007199254740991-a.pre || ~>1.4294967295"
            );
            assert!(!loose && !ip);
        }
        _ => panic!("expected a validRange query"),
    }
    // Strict mode refuses the leading zero in `045`.
    assert!(matches!(xs[2], Answer::Null));
    let _ = version(&mut Rng::new(3));
}

#[test]
fn answers_compare_by_value() {
    assert!(same_answer(&Answer::Null, &Answer::Null));
    assert!(same_answer(&Answer::Str("1.2.3".to_string()), &Answer::Str("1.2.3".to_string())));
    assert!(!same_answer(&Answer::Str("1.2.3".to_string()), &Answer::Str("1.2.4".to_string())));
    assert!(!same_answer(&Answer::Int(0), &Answer::Bool(false)));
    assert!(same_answer(&Answer::Int(-1), &Answer::Int(-1)));
}

#[test]
fn tally_counts_and_keeps_the_first_divergences() {
    let mut t = Tally::new();
    assert!(!t.record(&Answer::Null, &Answer::Null));
    for _ in 0..25 {
        let keep = t.record(&Answer::Bool(true), &Answer::Bool(false));
        assert_eq!(keep, t.shown <= 20 && t.divergences <= 20);
    }
    assert_eq!(t.checked, 26);
    assert_eq!(t.divergences, 25);
    assert_eq!(t.shown, 20);
}

#[test]
fn batch_sizes() {
    assert_eq!(batch_len(0, 10_000, false), BATCH);
    assert_eq!(batch_len(9_000, 10_000, false), 1000);
    assert_eq!(batch_len(10_000, 10_000, false), 0);
    assert_eq!(batch_len(123, 0, true), BATCH);
}
