use cmdlog::runner::{run, run_line, RunError};
use cmdlog::store::Store;

fn lines(ls: &[&str]) -> Vec<String> {
    let mut v = Vec::new();
    for l in ls {
        v.push(l.to_string());
    }
    v
}

#[test]
fn end_to_end_scenario() {
    let input = lines(&["SET a 1", "INCR a", "GET a", "DEL a", "GET a", "FLUSH"]);
    let replies = run(&input).unwrap();
    assert_eq!(replies, lines(&["OK", "OK", "2", "OK", "nil", "OK"]));
}

#[test]
fn incr_type_failure_halts_run() {
    // The run halts at the failing line; nothing after it is applied.
    let input = lines(&["SET a hello", "INCR a", "GET a"]);
    match run(&input) {
        Err(RunError::IncrType(_)) => {},
        r => panic!("expected an increment type failure, got {:?}", r),
    }
}

#[test]
fn parse_failure_halts_run() {
    let input = lines(&["SET a 1", "SET b", "GET a"]);
    match run(&input) {
        Err(RunError::Parse(e)) => {
            assert_eq!(e.trail, vec!["command".to_string(), "parse-set".to_string()]);
        },
        r => panic!("expected a parse failure, got {:?}", r),
    }
}

#[test]
fn empty_log_runs_to_no_replies() {
    let replies = run(&Vec::new()).unwrap();
    assert!(replies.is_empty());
}

#[test]
fn run_line_steps_one_store() {
    let mut st = Store::new();
    assert_eq!(run_line(&mut st, "SET k hi").unwrap(), "OK");
    assert_eq!(run_line(&mut st, "GET k").unwrap(), "hi");
    assert!(matches!(run_line(&mut st, "NOPE"), Err(RunError::Parse(_))));
    // A failed line leaves the store as it was.
    assert_eq!(run_line(&mut st, "GET k").unwrap(), "hi");
}
