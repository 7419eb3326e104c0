use data::pool::{pool_json, Pool, Popularity};

#[test]
fn vote_returns_equal_string() {
    let mut p = Popularity::default();
    let h = p.vote("LATIN SMALL LETTER A");
    assert_eq!(h, "LATIN SMALL LETTER A");
    let h2 = p.vote("LATIN SMALL LETTER A");
    assert_eq!(h2, "LATIN SMALL LETTER A");
}

#[test]
fn report_orders_by_count_then_lexicographic() {
    let mut p = Popularity::default();
    // "beta" twice, "alpha" once, "gamma" three times.
    p.vote("beta");
    p.vote("gamma");
    p.vote("alpha");
    p.vote("gamma");
    p.vote("beta");
    p.vote("gamma");
    let report = p.report();
    assert_eq!(report, vec!["gamma", "beta", "alpha"]);
}

#[test]
fn report_breaks_ties_lexicographically() {
    let mut p = Popularity::default();
    p.vote("zeta");
    p.vote("eta");
    p.vote("theta");
    let report = p.report();
    assert_eq!(report, vec!["eta", "theta", "zeta"]);
}

#[test]
fn pool_use_returns_dense_unique_indices() {
    let mut p = Popularity::default();
    p.vote("one");
    p.vote("two");
    p.vote("two");
    p.vote("three");
    let report = p.report();
    // "two" has two votes; "one" and "three" tie and sort lexicographically.
    assert_eq!(report, vec!["two", "one", "three"]);
    let pool = Pool::from_report(&report);
    let mut seen = vec![false; report.len()];
    for s in &report {
        let idx = pool.use_index(s);
        assert!(idx < report.len());
        assert!(!seen[idx]);
        seen[idx] = true;
    }
    assert_eq!(pool.use_index("two"), 0);
    assert_eq!(pool.use_index("one"), 1);
    assert_eq!(pool.use_index("three"), 2);
}

#[test]
fn pool_json_is_a_json_array_of_the_report() {
    let report = vec![String::from("Control (Cc)"), String::from("Basic Latin")];
    let text = pool_json(&report);
    assert_eq!(text, "[\"Control (Cc)\",\"Basic Latin\"]");
}

#[test]
fn empty_report_is_empty_json_array() {
    let p = Popularity::default();
    let report = p.report();
    assert_eq!(report.len(), 0);
    let text = pool_json(&report);
    assert_eq!(text, "[]");
}
