use stateright::report::ReportData;
use std::time::Duration;

#[test]
fn reports_progress_and_completion() {
    let mut data = ReportData {
        total_states: 1,
        unique_states: 1,
        max_depth: 0,
        out_degrees: vec![],
        in_degrees: vec![],
        duration: Duration::from_millis(2_500),
        done: false,
    };
    // as the original's report test expects before any state is expanded
    assert_eq!(
        data.report_line("", ""),
        "Checking. states=1, unique=1, depth=0, avg out degree=0, avg in degree=0"
    );
    data.total_states = 12;
    data.unique_states = 7;
    data.max_depth = 3;
    data.out_degrees = vec![2, 2, 2];
    data.in_degrees = vec![1, 2];
    data.done = true;
    assert_eq!(
        data.report_line("never used", "1.5"),
        "Done. states=12, unique=7, depth=3, avg out degree=2, avg in degree=1.5, sec=2"
    );
}
