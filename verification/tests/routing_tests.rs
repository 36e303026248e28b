use split_bam_by_reads::BucketRouter;
use split_bam_by_reads::IdSet;
use split_bam_by_reads::RouteOutcome;
use split_bam_by_reads::driver::StreamDriver;
use split_bam_by_reads::driver::run_ids;

fn lines(v: &[&str]) -> Vec<String> {
    v.iter().map(|s| s.to_string()).collect()
}

#[test]
fn scenario_five_records() {
    // Stream [a, b, a, c, d] against S1 = {a, c} and S2 = {b, d}.
    let mut router = BucketRouter::new();
    router.add_bucket(IdSet::from_lines(&lines(&["a", "c"])));
    router.add_bucket(IdSet::from_lines(&lines(&["b", "d"])));

    assert_eq!(router.route("a"), RouteOutcome::Matched(0));
    assert_eq!(router.route("b"), RouteOutcome::Matched(1));
    assert_eq!(router.route("a"), RouteOutcome::Unmatched);
    assert_eq!(router.route("c"), RouteOutcome::Matched(0));
    assert_eq!(router.route("d"), RouteOutcome::Matched(1));

    let leftovers = router.leftover_counts();
    assert_eq!(leftovers, vec![0, 0]);
}

#[test]
fn scenario_five_records_run_ids() {
    let mut router = BucketRouter::new();
    router.add_bucket(IdSet::from_lines(&lines(&["a", "c"])));
    router.add_bucket(IdSet::from_lines(&lines(&["b", "d"])));

    let outcomes = run_ids(&mut router, &lines(&["a", "b", "a", "c", "d"]));
    assert_eq!(
        outcomes,
        vec![
            RouteOutcome::Matched(0),
            RouteOutcome::Matched(1),
            RouteOutcome::Unmatched,
            RouteOutcome::Matched(0),
            RouteOutcome::Matched(1),
        ]
    );

    let mut driver = StreamDriver::new();
    for outcome in &outcomes {
        driver.observe(*outcome);
    }
    let summary = driver.finalize(&router);
    assert_eq!(summary.total, 5);
    assert_eq!(summary.matched, 4);
    assert_eq!(summary.unmatched, 1);
    assert_eq!(summary.leftovers, vec![0, 0]);
}

#[test]
fn empty_source_every_record_unmatched() {
    // An empty text source produces an empty set: every record is unmatched,
    // the leftover count is 0, and the unmatched count equals the total.
    let mut router = BucketRouter::new();
    router.add_bucket(IdSet::from_lines(&lines(&[])));

    let mut driver = StreamDriver::new();
    for id in ["r1", "r2", "r3"] {
        let outcome = router.route(id);
        assert_eq!(outcome, RouteOutcome::Unmatched);
        driver.observe(outcome);
    }
    let summary = driver.finalize(&router);
    assert_eq!(summary.total, 3);
    assert_eq!(summary.matched, 0);
    assert_eq!(summary.unmatched, 3);
    assert_eq!(summary.leftovers, vec![0]);
}

#[test]
fn unseen_identifier_stays_leftover() {
    // An identifier requested by a set but never seen in the stream is still
    // in the set when the run ends.
    let mut router = BucketRouter::new();
    router.add_bucket(IdSet::from_lines(&lines(&["seen", "never"])));

    assert_eq!(router.route("seen"), RouteOutcome::Matched(0));
    assert_eq!(router.leftover_counts(), vec![1]);
}

#[test]
fn first_match_priority_two_buckets() {
    // The identifier sits in both sets; the first record goes to bucket 0
    // and consumes its entry there, the second falls through to bucket 1.
    let mut router = BucketRouter::new();
    router.add_bucket(IdSet::from_lines(&lines(&["q"])));
    router.add_bucket(IdSet::from_lines(&lines(&["q"])));

    assert_eq!(router.route("q"), RouteOutcome::Matched(0));
    assert_eq!(router.route("q"), RouteOutcome::Matched(1));
    assert_eq!(router.route("q"), RouteOutcome::Unmatched);
    assert_eq!(router.leftover_counts(), vec![0, 0]);
}

#[test]
fn record_never_written_twice() {
    // A record matches at most one bucket even when its identifier sits in
    // several sets: the scan stops at the first match.
    let mut router = BucketRouter::new();
    router.add_bucket(IdSet::from_lines(&lines(&["x"])));
    router.add_bucket(IdSet::from_lines(&lines(&["x"])));

    assert_eq!(router.route("x"), RouteOutcome::Matched(0));
    // Bucket 1 still holds x: only bucket 0 gave up its entry.
    assert_eq!(router.leftover_counts(), vec![0, 1]);
}

#[test]
fn output_order_is_input_order() {
    // The identifiers written to a bucket keep the input stream's relative
    // order: selecting the records routed to bucket 0 yields [m, k] because
    // m arrived first, regardless of set-load order.
    let mut router = BucketRouter::new();
    router.add_bucket(IdSet::from_lines(&lines(&["k", "m"])));

    let input = lines(&["m", "z", "k"]);
    let outcomes = run_ids(&mut router, &input);
    let written: Vec<&String> = input
        .iter()
        .zip(outcomes.iter())
        .filter(|(_, o)| **o == RouteOutcome::Matched(0))
        .map(|(id, _)| id)
        .collect();
    assert_eq!(written, vec!["m", "k"]);
}

#[test]
fn source_order_fixes_priority() {
    // from_sources keeps the given order: the first source is the first
    // bucket, so an identifier in both goes to the first.
    let sources = vec![lines(&["p"]), lines(&["p", "q"])];
    let mut router = BucketRouter::from_sources(&sources);
    assert_eq!(router.num_buckets(), 2);
    assert_eq!(router.route("q"), RouteOutcome::Matched(1));
    assert_eq!(router.route("p"), RouteOutcome::Matched(0));
    assert_eq!(router.route("p"), RouteOutcome::Matched(1));
}

#[test]
fn leftover_equals_initial_minus_routed() {
    // The bucket asked for 3 identifiers and 2 records were routed to it,
    // so 1 identifier is left over.
    let mut router = BucketRouter::new();
    router.add_bucket(IdSet::from_lines(&lines(&["a", "b", "c"])));

    let outcomes = run_ids(&mut router, &lines(&["a", "x", "c"]));
    let routed = outcomes
        .iter()
        .filter(|o| **o == RouteOutcome::Matched(0))
        .count();
    assert_eq!(routed, 2);
    assert_eq!(router.leftover_counts(), vec![3 - routed]);
}

#[test]
fn route_with_no_buckets() {
    let mut router = BucketRouter::new();
    assert_eq!(router.num_buckets(), 0);
    assert_eq!(router.route("anything"), RouteOutcome::Unmatched);
    assert_eq!(router.leftover_counts(), Vec::<usize>::new());
}

#[test]
fn loading_trims_whitespace() {
    let set = IdSet::from_lines(&lines(&["  read1  ", "\tread2\t", "read3"]));
    assert!(set.contains("read1"));
    assert!(set.contains("read2"));
    assert!(set.contains("read3"));
    assert!(!set.contains("  read1  "));
    assert_eq!(set.len(), 3);
}

#[test]
fn blank_line_becomes_empty_identifier() {
    // A trimmed blank line loads as the empty-string identifier; it is not
    // filtered out.
    let set = IdSet::from_lines(&lines(&["", "a"]));
    assert_eq!(set.len(), 2);
    assert!(set.contains(""));
    assert!(set.contains("a"));
}

#[test]
fn duplicate_lines_collapse() {
    let set = IdSet::from_lines(&lines(&["a", "a", "b", " a"]));
    assert_eq!(set.len(), 2);
    assert!(set.contains("a"));
    assert!(set.contains("b"));
}

#[test]
fn loading_twice_gives_identical_sets() {
    // Two loads of the same source agree on membership and size.
    let source = lines(&["r1", "r2", "  r3"]);
    let first = IdSet::from_lines(&source);
    let second = IdSet::from_lines(&source);
    assert_eq!(first.len(), second.len());
    for id in ["r1", "r2", "r3", "missing", ""] {
        assert_eq!(first.contains(id), second.contains(id));
    }
}

#[test]
fn remove_reports_presence() {
    let mut set = IdSet::from_lines(&lines(&["a", "b"]));
    assert!(set.remove("a"));
    assert!(!set.remove("a"));
    assert!(!set.remove("c"));
    assert_eq!(set.len(), 1);
}

#[test]
fn empty_set_constructor() {
    let set = IdSet::new();
    assert_eq!(set.len(), 0);
    assert!(!set.contains(""));
}

#[test]
fn driver_counts_outcomes() {
    let mut driver = StreamDriver::new();
    driver.observe(RouteOutcome::Matched(7));
    driver.observe(RouteOutcome::Unmatched);
    driver.observe(RouteOutcome::Matched(0));
    let router = BucketRouter::new();
    let summary = driver.finalize(&router);
    assert_eq!(summary.total, 3);
    assert_eq!(summary.matched, 2);
    assert_eq!(summary.unmatched, 1);
    assert!(summary.leftovers.is_empty());
}

#[test]
fn outcome_is_matched() {
    assert!(RouteOutcome::Matched(3).is_matched());
    assert!(!RouteOutcome::Unmatched.is_matched());
}
