use coarse_prof::{Profiler, ScopeName};

const HEADER: &str =
    "global[%] local[%] self[%] | mean[ms] last[ms] min[ms] max[ms] std[ms] |";

#[test]
fn report_of_an_empty_profiler_is_the_headings() {
    let p = Profiler::new();
    let expected = format!(" | {} f[Hz] calls\n", HEADER);
    assert_eq!(p.report(1_000), expected);
}

#[test]
fn report_of_one_call() {
    let mut p = Profiler::new();
    p.enter(ScopeName::Borrowed("a"));
    p.leave(1_000_000);
    let expected = format!(
        "{}{}",
        format!("  | {}  f[Hz]  calls\n", HEADER),
        "a |     10.00    10.00  100.00 |     1.00     1.00    1.00    1.00    0.00 | 100.00 1.00e0\n",
    );
    assert_eq!(p.report(10_000_000), expected);
}

#[test]
fn report_of_a_tree() {
    let mut p = Profiler::new();
    for i in 0..4u64 {
        p.enter(ScopeName::Borrowed("frame"));
        p.enter(ScopeName::Borrowed("physics"));
        p.enter(ScopeName::Owned(String::from("collisions")));
        p.leave(1_000_000);
        p.leave(2_000_000 + i * 1_000_000);
        p.enter(ScopeName::Borrowed("render"));
        p.leave(4_000_000);
        p.leave(10_000_000);
    }
    let text = p.report(50_000_000);
    let lines: Vec<&str> = text.lines().collect();
    assert_eq!(lines.len(), 5);
    assert_eq!(
        lines[0],
        format!("               | {} f[Hz]  calls", HEADER)
    );
    assert_eq!(
        lines[1],
        "frame          |     80.00    80.00   25.00 |    10.00    10.00   10.00   10.00    0.00 | 80.00 4.00e0"
    );
    assert_eq!(
        lines[2],
        "  physics      |     28.00    35.00   71.43 |     3.50     5.00    2.00    5.00    1.12 | 80.00 4.00e0"
    );
    assert_eq!(
        lines[3],
        "    collisions |      8.00    28.57  100.00 |     1.00     1.00    1.00    1.00    0.00 | 80.00 4.00e0"
    );
    assert_eq!(
        lines[4],
        "  render       |     32.00    40.00  100.00 |     4.00     4.00    4.00    4.00    0.00 | 80.00 4.00e0"
    );
}

#[test]
fn scopes_without_a_completed_call_are_left_out() {
    let mut p = Profiler::new();
    p.enter(ScopeName::Borrowed("a"));
    p.leave(1_000_000);
    p.enter(ScopeName::Borrowed("open"));
    p.enter(ScopeName::Borrowed("inner"));
    p.leave(2_000_000);
    let text = p.report(10_000_000);
    let lines: Vec<&str> = text.lines().collect();
    assert_eq!(lines.len(), 3);
    assert!(lines[1].starts_with("a "));
    assert!(lines[2].starts_with("  inner "));
    assert!(lines[2].contains(" inf "));
}

#[test]
fn an_open_call_counts_towards_the_frequency() {
    let mut p = Profiler::new();
    p.enter(ScopeName::Borrowed("a"));
    p.leave(1_000_000);
    p.enter(ScopeName::Borrowed("a"));
    let text = p.report(1_000_000_000);
    let lines: Vec<&str> = text.lines().collect();
    assert_eq!(lines.len(), 2);
    assert!(lines[1].ends_with("|  2.00 1.00e0"));
}

#[test]
fn negligible_time_is_all_own_time() {
    let mut p = Profiler::new();
    p.enter(ScopeName::Borrowed("a"));
    p.enter(ScopeName::Borrowed("b"));
    p.leave(10);
    p.leave(10);
    let text = p.report(1_000);
    let lines: Vec<&str> = text.lines().collect();
    assert_eq!(lines.len(), 3);
    assert!(lines[1].starts_with("a   |      1.00     1.00  100.00 |"));
    assert!(lines[2].starts_with("  b |      1.00   100.00  100.00 |"));
}

#[test]
fn children_longer_than_their_parent_leave_no_own_time() {
    let mut p = Profiler::new();
    p.enter(ScopeName::Borrowed("a"));
    p.enter(ScopeName::Borrowed("b"));
    p.leave(3_000);
    p.leave(2_000);
    let text = p.report(4_000);
    let lines: Vec<&str> = text.lines().collect();
    assert!(lines[1].starts_with("a   |     50.00    50.00    0.00 |"));
    assert!(lines[2].starts_with("  b |     75.00   150.00  100.00 |"));
}

#[test]
fn an_empty_window_has_no_ratios() {
    let mut p = Profiler::new();
    p.enter(ScopeName::Borrowed("a"));
    p.leave(0);
    p.enter(ScopeName::Borrowed("b"));
    p.leave(5);
    let text = p.report(0);
    let lines: Vec<&str> = text.lines().collect();
    assert!(lines[1].starts_with("a |       NaN      NaN  100.00 |"));
    assert!(lines[1].ends_with("|   inf 1.00e0"));
    assert!(lines[2].starts_with("b |       inf      inf  100.00 |"));
}

#[test]
fn report_is_the_same_when_nothing_changes() {
    let mut p = Profiler::new();
    p.enter(ScopeName::Borrowed("a"));
    p.enter(ScopeName::Borrowed("b"));
    p.leave(1_234_567);
    p.leave(7_654_321);
    let first = p.report(20_000_000);
    let second = p.report(20_000_000);
    assert_eq!(first, second);
    assert_ne!(first, p.report(20_000_001 * 2));
}

#[test]
fn reset_empties_the_report() {
    let mut p = Profiler::new();
    p.enter(ScopeName::Borrowed("a"));
    p.leave(1_000);
    assert_eq!(p.report(5_000).lines().count(), 2);
    coarse_prof::reset(&mut p);
    assert_eq!(p.report(5_000).lines().count(), 1);
}

#[test]
fn to_string_and_write_give_the_table() {
    let mut p = Profiler::new();
    p.enter(ScopeName::Borrowed("a"));
    p.leave(1_000_000);
    let text = coarse_prof::to_string(&p);
    assert_eq!(text.lines().count(), 2);
    assert!(text.lines().nth(1).unwrap().starts_with("a | "));
    assert!(text.ends_with(" 1.00e0\n"));
    let mut out = String::from("report:\n");
    coarse_prof::write(&p, &mut out);
    assert!(out.starts_with("report:\n  | global[%] local[%] self[%] |"));
    assert_eq!(out.lines().count(), 3);
    assert_eq!(p.to_string().lines().count(), 2);
}
