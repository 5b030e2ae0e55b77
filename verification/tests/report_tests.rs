use rollman_elo::report::recent_fail_count;

#[test]
fn short_records_report_all_failures() {
    let mids: Vec<u32> = (1..=40).collect();
    let fails: Vec<u32> = vec![2, 4, 6];
    assert_eq!(recent_fail_count(&mids, &fails), 3);
}

#[test]
fn long_records_only_count_failures_in_the_recent_window() {
    // 150 played matches with ids 1..=150 and failures at 5 and 120: only
    // the failure at 120 lies among the 100 most recent entries
    let mids: Vec<u32> = (1..=150).filter(|i| *i != 5 && *i != 120).collect();
    let fails: Vec<u32> = vec![5, 120];
    assert_eq!(recent_fail_count(&mids, &fails), 1);
}

#[test]
fn window_boundary_is_exact() {
    // exactly 100 newer played entries push a failure out of the window
    let mids: Vec<u32> = (101..=200).collect();
    let fails: Vec<u32> = vec![100, 150];
    // entries before failure 100: 100 played ids above it, and the failure
    // at 150 -> out; failure 150: 50 played above plus none -> in
    assert_eq!(recent_fail_count(&mids, &fails), 1);
}
