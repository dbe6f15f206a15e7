use chorus::engine::{Action, Aggregator, ConfigError};

fn agg(threshold: usize, ttl: u64) -> Aggregator {
    match Aggregator::new(threshold, ttl) {
        Ok(a) => a,
        Err(_) => panic!("configuration was valid"),
    }
}

#[test]
fn rejects_zero_threshold() {
    assert!(matches!(Aggregator::new(0, 10), Err(ConfigError::ZeroThreshold)));
}

#[test]
fn rejects_zero_ttl() {
    assert!(matches!(Aggregator::new(3, 0), Err(ConfigError::ZeroTtl)));
}

#[test]
fn rejects_both_zero_as_threshold() {
    assert!(matches!(Aggregator::new(0, 0), Err(ConfigError::ZeroThreshold)));
}

#[test]
fn config_is_kept() {
    let a = agg(7, 42);
    assert_eq!(a.threshold(), 7);
    assert_eq!(a.ttl_seconds(), 42);
    assert_eq!(a.tracked_count(), 0);
}

#[test]
fn describe_names_the_misconfiguration() {
    assert_eq!(
        ConfigError::ZeroThreshold.describe(),
        "threshold must be at least 1"
    );
    assert_eq!(ConfigError::ZeroTtl.describe(), "ttl must be at least 1 second");
}

#[test]
fn fires_once_at_threshold_then_restarts() {
    // threshold=3, ttl=10: (u1,"hi"), (u2,"HI"), (u3,"hi") within 1s fire
    // exactly one Speak("hi") immediately after the third distinct author;
    // a later (u4,"hi") starts a brand-new entry with one contributor.
    let mut a = agg(3, 10);
    assert_eq!(a.ingest("u1".to_string(), "hi", 0), vec![]);
    assert_eq!(a.ingest("u2".to_string(), "HI", 0), vec![]);
    let fired = a.ingest("u3".to_string(), "hi", 1);
    assert_eq!(fired, vec![Action::Speak("hi".to_string())]);
    assert_eq!(a.contributor_count("hi"), None);
    assert_eq!(a.ingest("u4".to_string(), "hi", 1), vec![]);
    assert_eq!(a.contributor_count("hi"), Some(1));
}

#[test]
fn expired_entry_is_dropped_before_the_event_applies() {
    // threshold=3, ttl=5: (u1,"hi") at t=0, (u2,"hi") at t=6: the stale entry
    // (age 6 >= 5) goes first, so the fresh entry holds only u2.
    let mut a = agg(3, 5);
    assert_eq!(a.ingest("u1".to_string(), "hi", 0), vec![]);
    assert_eq!(a.ingest("u2".to_string(), "hi", 6), vec![]);
    assert_eq!(a.contributor_count("hi"), Some(1));
}

#[test]
fn duplicate_author_does_not_count_or_refresh() {
    // u1 repeating "x" at t=3 neither raises the count nor refreshes the
    // stamp: at t=5 the entry is five seconds idle and is evicted.
    let mut a = agg(3, 5);
    a.ingest("u1".to_string(), "x", 0);
    a.ingest("u1".to_string(), "x", 3);
    assert_eq!(a.contributor_count("x"), Some(1));
    a.ingest("u9".to_string(), "other", 5);
    assert_eq!(a.contributor_count("x"), None);
}

#[test]
fn new_contributor_refreshes_the_stamp() {
    // u2 joining "x" at t=3 refreshes the stamp: at t=5 the entry is only
    // two seconds idle and survives.
    let mut a = agg(3, 5);
    a.ingest("u1".to_string(), "x", 0);
    a.ingest("u2".to_string(), "x", 3);
    a.ingest("u9".to_string(), "other", 5);
    assert_eq!(a.contributor_count("x"), Some(2));
}

#[test]
fn case_folding_joins_entries() {
    // "Hello" and "hello" are the identical entry; the spoken text is the
    // folded form.
    let mut a = agg(2, 10);
    assert_eq!(a.ingest("u1".to_string(), "Hello", 0), vec![]);
    let fired = a.ingest("u2".to_string(), "hello", 0);
    assert_eq!(fired, vec![Action::Speak("hello".to_string())]);
}

#[test]
fn action_text_reads_the_spoken_string() {
    let mut a = agg(1, 10);
    let fired = a.ingest("u1".to_string(), "LOUD", 0);
    assert_eq!(fired.len(), 1);
    assert_eq!(fired[0].text(), "loud");
}

#[test]
fn no_second_fire_without_rebuild() {
    // After "go" fires, the text starts over from zero: a single further
    // author does not fire; a second fresh pair does.
    let mut a = agg(2, 100);
    a.ingest("u1".to_string(), "go", 0);
    let first = a.ingest("u2".to_string(), "go", 1);
    assert_eq!(first, vec![Action::Speak("go".to_string())]);
    assert_eq!(a.ingest("u3".to_string(), "go", 2), vec![]);
    assert_eq!(a.contributor_count("go"), Some(1));
    let second = a.ingest("u4".to_string(), "go", 3);
    assert_eq!(second, vec![Action::Speak("go".to_string())]);
}

#[test]
fn eviction_boundary_is_at_exactly_ttl() {
    // age == ttl is evicted; age == ttl - 1 survives.
    let mut a = agg(3, 5);
    a.ingest("u1".to_string(), "old", 0);
    a.ingest("u1".to_string(), "young", 1);
    a.ingest("u9".to_string(), "other", 5);
    assert_eq!(a.contributor_count("old"), None);
    assert_eq!(a.contributor_count("young"), Some(1));
}

#[test]
fn threshold_of_one_fires_immediately() {
    let mut a = agg(1, 10);
    let fired = a.ingest("solo".to_string(), "first!", 0);
    assert_eq!(fired, vec![Action::Speak("first!".to_string())]);
    assert_eq!(a.tracked_count(), 0);
}

#[test]
fn replay_is_deterministic() {
    let events: Vec<(&str, &str, u64)> = vec![
        ("u1", "alpha", 0),
        ("u2", "Alpha", 1),
        ("u3", "beta", 2),
        ("u1", "beta", 2),
        ("u4", "ALPHA", 3),
        ("u5", "beta", 9),
        ("u6", "gamma", 15),
    ];
    let run = || {
        let mut a = agg(3, 6);
        let mut log: Vec<Action> = Vec::new();
        for (user, text, at) in events.iter() {
            log.extend(a.ingest(user.to_string(), text, *at));
        }
        (log, a.tracked_count())
    };
    let (log1, count1) = run();
    let (log2, count2) = run();
    assert_eq!(log1, log2);
    assert_eq!(count1, count2);
    // "alpha" fires at t=3; "beta" (stamp 2) dies at t=9, its successor
    // (stamp 9) dies at t=15; only "gamma" is left.
    assert_eq!(log1, vec![Action::Speak("alpha".to_string())]);
    assert_eq!(count1, 1);
}

#[test]
fn tracked_count_follows_entries() {
    let mut a = agg(2, 100);
    a.ingest("u1".to_string(), "one", 0);
    a.ingest("u1".to_string(), "two", 0);
    assert_eq!(a.tracked_count(), 2);
    a.ingest("u2".to_string(), "one", 1);
    assert_eq!(a.tracked_count(), 1);
}

#[test]
fn clock_tracks_the_last_event() {
    let mut a = agg(2, 100);
    assert_eq!(a.clock(), 0);
    a.ingest("u1".to_string(), "tick", 17);
    assert_eq!(a.clock(), 17);
}

#[test]
fn unrelated_entries_survive_a_fire() {
    let mut a = agg(2, 100);
    a.ingest("u1".to_string(), "stay", 0);
    a.ingest("u1".to_string(), "fire", 0);
    let fired = a.ingest("u2".to_string(), "fire", 1);
    assert_eq!(fired, vec![Action::Speak("fire".to_string())]);
    assert_eq!(a.contributor_count("stay"), Some(1));
}
