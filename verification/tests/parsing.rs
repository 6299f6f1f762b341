use syscall_profile::{parse_duration, parse_line, SyscallEvent};

fn event(name: &str, nanos: u64) -> Option<SyscallEvent> {
    Some(SyscallEvent { name: name.to_string(), nanos })
}

#[test]
fn duration_of_a_typical_trace_line() {
    assert_eq!(parse_duration("0.000012"), Some(12_000));
    assert_eq!(parse_duration("0.000050"), Some(50_000));
    assert_eq!(parse_duration("1.5"), Some(1_500_000_000));
}

#[test]
fn duration_without_a_fraction() {
    assert_eq!(parse_duration("3"), Some(3_000_000_000));
    assert_eq!(parse_duration("0"), Some(0));
    assert_eq!(parse_duration("007"), Some(7_000_000_000));
}

#[test]
fn duration_with_a_bare_point() {
    assert_eq!(parse_duration(".5"), Some(500_000_000));
    assert_eq!(parse_duration("7."), Some(7_000_000_000));
    assert_eq!(parse_duration("."), None);
}

#[test]
fn duration_keeps_nine_decimal_places() {
    assert_eq!(parse_duration("0.123456789"), Some(123_456_789));
    assert_eq!(parse_duration("0.1234567899"), Some(123_456_789));
    assert_eq!(parse_duration("0.0000000009"), Some(0));
    assert_eq!(parse_duration("0.000000001"), Some(1));
}

#[test]
fn duration_rejects_what_is_no_plain_decimal() {
    assert_eq!(parse_duration(""), None);
    assert_eq!(parse_duration("-1"), None);
    assert_eq!(parse_duration("+1"), None);
    assert_eq!(parse_duration("1e5"), None);
    assert_eq!(parse_duration("1.2.3"), None);
    assert_eq!(parse_duration("0.5 "), None);
    assert_eq!(parse_duration("abc"), None);
    assert_eq!(parse_duration("inf"), None);
    assert_eq!(parse_duration("\u{0663}"), None);
}

#[test]
fn duration_at_the_limit_of_u64() {
    assert_eq!(parse_duration("18446744073.709551615"), Some(u64::MAX));
    assert_eq!(parse_duration("18446744073.709551616"), None);
    assert_eq!(parse_duration("18446744074"), None);
    assert_eq!(parse_duration("99999999999999999999999999999999"), None);
    assert_eq!(parse_duration("000000000000000000000000000000001"), Some(1_000_000_000));
}

#[test]
fn line_with_name_and_duration() {
    assert_eq!(
        parse_line("open(\"/etc/passwd\", O_RDONLY) = 3 <0.000012>"),
        event("open", 12_000)
    );
    assert_eq!(parse_line("read(3, ...) = 100 <0.000050>"), event("read", 50_000));
}

#[test]
fn line_anchors_on_the_first_markers() {
    assert_eq!(parse_line("f(a(b)) = 0 <0.5> <9>"), event("f", 500_000_000));
    assert_eq!(parse_line("write(1, \"<x>\", 3) = 3 <0.1>"), None);
    assert_eq!(parse_line("<0.25> late("), event("<0.25> late", 250_000_000));
}

#[test]
fn line_without_a_name_fails() {
    assert_eq!(parse_line("(nothing) <0.1>"), None);
    assert_eq!(parse_line("no paren here <0.1>"), None);
    assert_eq!(parse_line(""), None);
}

#[test]
fn line_without_a_duration_fails() {
    assert_eq!(parse_line("exit_group(0) = ?"), None);
    assert_eq!(parse_line("open(x) = 3 <>"), None);
    assert_eq!(parse_line("open(x) = 3 <fast>"), None);
    assert_eq!(parse_line("open(x) = 3 <-0.1>"), None);
    assert_eq!(parse_line("+++ exited with 0 +++"), None);
    assert_eq!(parse_line("--- SIGCHLD {si_signo=SIGCHLD} ---"), None);
}

#[test]
fn line_whose_duration_is_not_closed() {
    assert_eq!(parse_line("open(x) = 3 <0.5"), event("open", 500_000_000));
    assert_eq!(parse_line("open(x) = 3 <"), None);
}

#[test]
fn line_with_text_beyond_ascii() {
    assert_eq!(parse_line("öffne(\"ä\") = 0 <0.002>"), event("öffne", 2_000_000));
}
