use lottery_stats::stats::{count_runs, group_thousands};

#[test]
fn runs_counts_alternation() {
    // T F T F: four runs
    let seq = [true, false, true, false];
    let (runs, _ones) = count_runs(&seq);
    assert_eq!(runs as u32, 4);
}

#[test]
fn runs_and_ones_of_blocks() {
    assert_eq!(count_runs(&[]), (0, 0));
    assert_eq!(count_runs(&[true]), (1, 1));
    assert_eq!(count_runs(&[true, true, false, false, false, true]), (3, 3));
    assert_eq!(count_runs(&[false; 7]), (1, 0));
}

#[test]
fn thousands_separators() {
    assert_eq!(group_thousands(17721088), "17,721,088");
    assert_eq!(group_thousands(21425712), "21,425,712");
    assert_eq!(group_thousands(1000), "1,000");
    assert_eq!(group_thousands(999), "999");
    assert_eq!(group_thousands(0), "0");
    assert_eq!(group_thousands(100000), "100,000");
    assert_eq!(group_thousands(u64::MAX), "18,446,744,073,709,551,615");
}
