use draugur::window::RecentWindow;

#[test]
fn record_then_most_valuable_returns_it() {
    let mut w = RecentWindow::new();
    w.record(1, 5_000_000, String::from("Pilot"), String::from("Rifter"), 1000);
    let got = w.most_valuable().expect("window must hold the entry");
    assert_eq!(got.0, "Pilot");
    assert_eq!(got.1, "Rifter");
    assert_eq!(got.2, 5_000_000);
}

#[test]
fn empty_window_has_no_most_valuable() {
    let w = RecentWindow::new();
    assert!(w.most_valuable().is_none());
}

#[test]
fn entries_spaced_beyond_horizon_leave_only_the_newest() {
    // Appends more than 10 minutes apart: each append evicts everything
    // older than the trailing horizon, so only the newest entry remains.
    let mut w = RecentWindow::new();
    w.record(1, 10, String::from("a"), String::from("x"), 1_000);
    w.record(2, 20, String::from("b"), String::from("y"), 1_700);
    assert_eq!(w.len(), 1);
    w.record(3, 5, String::from("c"), String::from("z"), 2_400);
    assert_eq!(w.len(), 1);
    let got = w.most_valuable().unwrap();
    assert_eq!(got.0, "c");
    assert_eq!(got.2, 5);
}

#[test]
fn entries_within_horizon_are_kept() {
    let mut w = RecentWindow::new();
    w.record(1, 10, String::from("a"), String::from("x"), 1_000);
    w.record(2, 20, String::from("b"), String::from("y"), 1_100);
    w.record(3, 30, String::from("c"), String::from("z"), 1_500);
    assert_eq!(w.len(), 3);
}

#[test]
fn entry_exactly_at_horizon_is_kept() {
    // An entry exactly 10 minutes old is not yet older than the horizon.
    let mut w = RecentWindow::new();
    w.record(1, 10, String::from("a"), String::from("x"), 1_000);
    w.record(2, 5, String::from("b"), String::from("y"), 1_600);
    assert_eq!(w.len(), 2);
    w.record(3, 1, String::from("c"), String::from("z"), 1_601);
    assert_eq!(w.len(), 2);
}

#[test]
fn ties_go_to_the_first_recorded() {
    let mut w = RecentWindow::new();
    w.record(1, 50, String::from("first"), String::from("x"), 1_000);
    w.record(2, 50, String::from("second"), String::from("y"), 1_010);
    let got = w.most_valuable().unwrap();
    assert_eq!(got.0, "first");
}

#[test]
fn maximum_wins_over_earlier_entries() {
    let mut w = RecentWindow::new();
    w.record(1, 10, String::from("small"), String::from("x"), 1_000);
    w.record(2, 90, String::from("big"), String::from("y"), 1_010);
    w.record(3, 40, String::from("mid"), String::from("z"), 1_020);
    let got = w.most_valuable().unwrap();
    assert_eq!(got.0, "big");
    assert_eq!(got.2, 90);
}
