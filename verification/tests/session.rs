use syscall_profile::{
    exit_code, flush_due, outcome, render, tracer_arguments, RunError, Session, Step,
};

#[test]
fn empty_stream_gives_an_empty_report() {
    let mut session = Session::new(0, 1);
    let report = session.finish();
    assert!(report.is_empty());
    assert!(render(&report).is_empty());
    assert_eq!(session.table().recorded(), 0);
}

#[test]
fn three_lines_end_to_end() {
    let mut session = Session::new(100, 1);
    let input = "open(\"/etc/passwd\", O_RDONLY) = 3 <0.000012>\n\
                 read(3, ...) = 100 <0.000050>\n\
                 open(\"/etc/hosts\", O_RDONLY) = 4 <0.000020>\n";
    assert_eq!(session.on_chunk_at(input.as_bytes(), 100), Step::Continue);
    let report = session.finish();
    assert_eq!(report.len(), 2);
    assert_eq!(report[0].name, "read");
    assert_eq!(report[0].count, 1);
    assert_eq!(report[0].cost, 50_000);
    assert_eq!(report[1].name, "open");
    assert_eq!(report[1].count, 2);
    assert_eq!(report[1].cost, 32_000);
    assert_eq!(
        render(&report),
        vec!["read: called 1, cost 0.00005s", "open: called 2, cost 0.000032s"]
    );
}

#[test]
fn record_split_over_two_reads_is_one_event() {
    let mut session = Session::new(0, 1);
    session.on_chunk_at(b"open(\"/etc", 0);
    session.on_chunk_at(b"/passwd\") = 3 <0.000012>\n", 0);
    let report = session.finish();
    assert_eq!(report.len(), 1);
    assert_eq!(report[0].name, "open");
    assert_eq!(report[0].count, 1);
    assert_eq!(report[0].cost, 12_000);
}

#[test]
fn unterminated_last_line_is_still_counted() {
    let mut session = Session::new(0, 1);
    session.on_chunk_at(b"read(3) = 1 <0.5>\nread(3) = 1 <0.25>", 0);
    assert_eq!(session.report()[0].count, 1);
    let report = session.finish();
    assert_eq!(report[0].count, 2);
    assert_eq!(report[0].cost, 750_000_000);
}

#[test]
fn flush_is_due_after_more_than_the_threshold() {
    assert!(!flush_due(10, 10, 1));
    assert!(!flush_due(10, 11, 1));
    assert!(flush_due(10, 12, 1));
    assert!(!flush_due(12, 10, 1));
    assert!(flush_due(0, 1, 0));
    assert!(flush_due(i64::MIN, i64::MAX, i64::MAX));
    assert!(!flush_due(i64::MAX, i64::MIN, i64::MIN));
    assert!(flush_due(5, 4, -2));
}

#[test]
fn session_reports_at_flush_points() {
    let mut session = Session::new(100, 5);
    assert_eq!(session.on_chunk_at(b"a(1) = 0 <0.1>\n", 103), Step::Continue);
    assert_eq!(session.on_chunk_at(b"a(1) = 0 <0.1>\n", 105), Step::Continue);
    assert_eq!(session.on_chunk_at(b"a(1) = 0 <0.1", 106), Step::Report);
    assert_eq!(session.report()[0].count, 2);
    assert_eq!(session.on_chunk_at(b">\n", 111), Step::Continue);
    assert_eq!(session.on_chunk_at(b"", 112), Step::Report);
    assert_eq!(session.finish()[0].count, 3);
}

#[test]
fn session_reads_the_clock() {
    let mut session = Session::start(i64::MAX);
    assert!(session.can_take(16));
    assert_eq!(session.on_chunk(b"a(1) = 0 <0.1>\n"), Step::Continue);
    assert_eq!(session.table().recorded(), 1);
    let mut eager = Session::new(i64::MIN, 0);
    assert_eq!(eager.on_chunk(b""), Step::Report);
}

#[test]
fn session_knows_its_room() {
    let session = Session::new(0, 1);
    assert!(session.can_take(0));
    assert!(session.can_take(usize::MAX));
}

#[test]
fn tracer_is_called_with_the_timing_flag() {
    let args = vec!["-l".to_string(), "/tmp/a b".to_string()];
    assert_eq!(
        tracer_arguments("ls", &args),
        Some(vec![
            "strace".to_string(),
            "-T".to_string(),
            "ls".to_string(),
            "-l".to_string(),
            "/tmp/a b".to_string()
        ])
    );
    assert_eq!(
        tracer_arguments("/bin/true", &Vec::new()),
        Some(vec!["strace".to_string(), "-T".to_string(), "/bin/true".to_string()])
    );
}

#[test]
fn tracer_needs_a_command() {
    assert_eq!(tracer_arguments("", &vec!["x".to_string()]), None);
}

#[test]
fn exit_codes_tell_the_failures_apart() {
    assert_eq!(exit_code(Ok(())), 0);
    assert_eq!(exit_code(Err(RunError::Resource)), 1);
    assert_eq!(exit_code(Err(RunError::Launch)), 2);
}

#[test]
fn launch_failure_is_no_empty_run() {
    assert_eq!(outcome(Some(127), 0), Err(RunError::Launch));
    assert_eq!(outcome(Some(127), 10), Ok(()));
    assert_eq!(outcome(Some(0), 0), Ok(()));
    assert_eq!(outcome(Some(1), 0), Ok(()));
    assert_eq!(outcome(None, 0), Ok(()));
}

#[test]
fn report_does_not_depend_on_the_cuts() {
    let stream = "open(\"ä\") = 3 <0.000012>\nread(3) = 9 <0.000050>\nopen(b) = 4 <0.000020>\nlast(1) = 0 <0.5>"
        .as_bytes();
    let mut whole = Session::new(0, 1);
    whole.on_chunk_at(stream, 0);
    let expected = render(&whole.finish());
    assert_eq!(
        expected,
        vec![
            "last: called 1, cost 0.5s",
            "read: called 1, cost 0.00005s",
            "open: called 2, cost 0.000032s"
        ]
    );
    for size in 1..=stream.len() {
        let mut session = Session::new(0, 1);
        for chunk in stream.chunks(size) {
            assert!(session.can_take(chunk.len()));
            session.on_chunk_at(chunk, 0);
        }
        assert_eq!(render(&session.finish()), expected);
    }
}
