use boss::outcome::{
    classify, completion_line, decimal_string, status_string, CompletedCmd, ExitOutcome,
};

#[test]
fn exit_status_is_classified() {
    assert_eq!(classify(Some(0)), ExitOutcome::ExitedWithCode(0));
    assert_eq!(classify(Some(3)), ExitOutcome::ExitedWithCode(3));
    assert_eq!(classify(None), ExitOutcome::TerminatedBySignal);
}

#[test]
fn numbers_are_written_in_decimal() {
    assert_eq!(decimal_string(0), "0");
    assert_eq!(decimal_string(7), "7");
    assert_eq!(decimal_string(10), "10");
    assert_eq!(decimal_string(1234567890), "1234567890");
    assert_eq!(decimal_string(u64::MAX), "18446744073709551615");
}

#[test]
fn statuses_are_written_with_their_sign() {
    assert_eq!(status_string(0), "0");
    assert_eq!(status_string(255), "255");
    assert_eq!(status_string(-1), "-1");
    assert_eq!(status_string(i32::MAX), "2147483647");
    assert_eq!(status_string(i32::MIN), "-2147483648");
}

#[test]
fn exit_line_gives_name_status_and_seconds() {
    let line = completion_line(&"web".to_string(), ExitOutcome::ExitedWithCode(0), 2);
    assert_eq!(line, "web: exited with status 0, after 2 sec.");
    let line = completion_line(&"db".to_string(), ExitOutcome::ExitedWithCode(101), 3600);
    assert_eq!(line, "db: exited with status 101, after 3600 sec.");
}

#[test]
fn signal_line_gives_no_number() {
    let line = completion_line(&"web".to_string(), ExitOutcome::TerminatedBySignal, 15);
    assert_eq!(line, "web: terminated by signal, after 15 sec.");
}

#[test]
fn elapsed_counts_from_the_start() {
    let done = CompletedCmd {
        name: "web".to_string(),
        started_at: 1000,
        outcome: ExitOutcome::ExitedWithCode(0),
    };
    assert_eq!(done.elapsed(1002), 2);
    assert_eq!(done.elapsed(1000), 0);
    assert_eq!(done.elapsed(999), 0);
    assert_eq!(done.report(1002), "web: exited with status 0, after 2 sec.");
}
