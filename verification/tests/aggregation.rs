use syscall_profile::{parse_line, render, report, Framer, Syscall, SyscallEvent, SyscallTable};

fn table_of(lines: &[&str]) -> SyscallTable {
    let mut table = SyscallTable::new();
    for line in lines {
        table.record_line(line);
    }
    table
}

fn totals(table: &SyscallTable, name: &str) -> Option<(u128, u64)> {
    table.get(name).map(|entry| (entry.cost, entry.count))
}

#[test]
fn record_makes_an_entry_for_a_new_name() {
    let mut table = SyscallTable::new();
    table.record(SyscallEvent { name: "open".to_string(), nanos: 12_000 });
    assert_eq!(totals(&table, "open"), Some((12_000, 1)));
    assert_eq!(totals(&table, "read"), None);
    assert_eq!(table.recorded(), 1);
}

#[test]
fn record_adds_to_an_entry_that_exists() {
    let mut table = SyscallTable::new();
    table.record(SyscallEvent { name: "open".to_string(), nanos: 12_000 });
    table.record(SyscallEvent { name: "read".to_string(), nanos: 50_000 });
    table.record(SyscallEvent { name: "open".to_string(), nanos: 20_000 });
    assert_eq!(totals(&table, "open"), Some((32_000, 2)));
    assert_eq!(totals(&table, "read"), Some((50_000, 1)));
    assert_eq!(table.recorded(), 3);
    assert_eq!(table.entries().len(), 2);
}

#[test]
fn record_sums_beyond_u64() {
    let mut table = SyscallTable::new();
    table.record(SyscallEvent { name: "nap".to_string(), nanos: u64::MAX });
    table.record(SyscallEvent { name: "nap".to_string(), nanos: u64::MAX });
    assert_eq!(totals(&table, "nap"), Some((2 * u64::MAX as u128, 2)));
}

#[test]
fn every_name_gets_its_count_and_its_sum() {
    let table = table_of(&[
        "a(1) = 0 <0.000001>",
        "b(1) = 0 <0.000010>",
        "a(2) = 0 <0.000002>",
        "not a call",
        "a(3) = 0 <0.000003>",
        "c(1) = 0 <1>",
        "b(2) = 0 <0.000020>",
    ]);
    assert_eq!(totals(&table, "a"), Some((6_000, 3)));
    assert_eq!(totals(&table, "b"), Some((30_000, 2)));
    assert_eq!(totals(&table, "c"), Some((1_000_000_000, 1)));
    assert_eq!(totals(&table, "not a call"), None);
    assert_eq!(table.recorded(), 6);
}

#[test]
fn lines_that_do_not_parse_change_nothing() {
    let mut table = table_of(&["open(x) = 3 <0.000012>"]);
    let before = table.entries().clone();
    for line in ["open without paren <0.1>", "open(x) = 3", "(x) <0.1>", "open(x) <oops>", ""] {
        assert!(parse_line(line).is_none());
        table.record_line(line);
    }
    assert_eq!(table.entries(), &before);
    assert_eq!(table.recorded(), 1);
}

#[test]
fn report_puts_the_costliest_first() {
    let table = table_of(&[
        "cheap(1) = 0 <0.000001>",
        "dear(1) = 0 <0.5>",
        "middling(1) = 0 <0.001>",
        "cheap(2) = 0 <0.000001>",
    ]);
    let ranked = report(&table);
    let names: Vec<&str> = ranked.iter().map(|entry| entry.name.as_str()).collect();
    assert_eq!(names, vec!["dear", "middling", "cheap"]);
    for pair in ranked.windows(2) {
        assert!(pair[0].cost >= pair[1].cost);
    }
}

#[test]
fn report_orders_equal_costs_by_name() {
    let table = table_of(&[
        "write(1) = 0 <0.25>",
        "close(1) = 0 <0.25>",
        "openat(1) = 0 <0.25>",
        "open(1) = 0 <0.25>",
        "zz(1) = 0 <0.5>",
    ]);
    let ranked = report(&table);
    let names: Vec<&str> = ranked.iter().map(|entry| entry.name.as_str()).collect();
    assert_eq!(names, vec!["zz", "close", "open", "openat", "write"]);
}

#[test]
fn report_of_an_empty_table_is_empty() {
    let table = SyscallTable::new();
    assert!(report(&table).is_empty());
    assert!(render(&report(&table)).is_empty());
}

#[test]
fn entry_is_rendered_as_one_line() {
    let entry = Syscall { name: "open".to_string(), cost: 32_000, count: 2 };
    assert_eq!(entry.to_string(), "open: called 2, cost 0.000032s");
}

#[test]
fn cost_is_rendered_without_trailing_zeros() {
    let line = |cost: u128| Syscall { name: "x".to_string(), cost, count: 1 }.to_string();
    assert_eq!(line(0), "x: called 1, cost 0s");
    assert_eq!(line(1), "x: called 1, cost 0.000000001s");
    assert_eq!(line(50_000), "x: called 1, cost 0.00005s");
    assert_eq!(line(1_500_000_000), "x: called 1, cost 1.5s");
    assert_eq!(line(3_000_000_000), "x: called 1, cost 3s");
    assert_eq!(line(120_000_000_010), "x: called 1, cost 120.00000001s");
    assert_eq!(line(u64::MAX as u128), "x: called 1, cost 18446744073.709551615s");
}

#[test]
fn count_is_rendered_in_decimal() {
    let entry = Syscall { name: "read".to_string(), cost: 0, count: u64::MAX };
    assert_eq!(entry.to_string(), "read: called 18446744073709551615, cost 0s");
    let first = Syscall::new("read".to_string(), 50_000);
    assert_eq!(first.to_string(), "read: called 1, cost 0.00005s");
}

#[test]
fn render_gives_one_line_per_entry() {
    let table = table_of(&["open(a) = 3 <0.000012>", "read(3) = 1 <0.000050>"]);
    assert_eq!(
        render(&report(&table)),
        vec!["read: called 1, cost 0.00005s", "open: called 1, cost 0.000012s"]
    );
}

#[test]
fn framer_joins_a_record_split_over_two_chunks() {
    let mut framer = Framer::new();
    let mut table = SyscallTable::new();
    framer.feed(b"open(\"/etc", &mut table);
    assert_eq!(table.recorded(), 0);
    assert_eq!(framer.buffered(), 10);
    framer.feed(b"/passwd\") = 3 <0.000012>\n", &mut table);
    assert_eq!(table.recorded(), 1);
    assert_eq!(framer.buffered(), 0);
    assert_eq!(totals(&table, "open"), Some((12_000, 1)));
    assert_eq!(table.entries().len(), 1);
}

#[test]
fn framer_does_not_care_where_the_stream_is_cut() {
    let stream = b"open(a) = 3 <0.000012>\nnoise\nread(3) = 9 <0.000050>\nopen(b) = 4 <0.000020>\ntail(";
    let mut whole = SyscallTable::new();
    let mut framer = Framer::new();
    framer.feed(stream, &mut whole);
    let left_over = framer.buffered();
    for cut in 0..=stream.len() {
        let mut table = SyscallTable::new();
        let mut framer = Framer::new();
        framer.feed(&stream[..cut], &mut table);
        framer.feed(&stream[cut..], &mut table);
        assert_eq!(report(&table), report(&whole));
        assert_eq!(framer.buffered(), left_over);
    }
    let mut table = SyscallTable::new();
    let mut framer = Framer::new();
    for byte in stream.iter() {
        framer.feed(&[*byte], &mut table);
    }
    assert_eq!(report(&table), report(&whole));
    assert_eq!(left_over, 5);
}

#[test]
fn framer_keeps_a_line_until_its_newline_comes() {
    let mut framer = Framer::new();
    let mut table = SyscallTable::new();
    framer.push(b"open(a) = 3 <0.5>\nread(3) = 1 <0.2");
    assert_eq!(table.recorded(), 0);
    framer.flush(&mut table);
    assert_eq!(table.recorded(), 1);
    assert_eq!(framer.buffered(), 16);
    framer.flush(&mut table);
    assert_eq!(table.recorded(), 1);
    assert_eq!(framer.buffered(), 16);
    framer.feed(b"5>\n", &mut table);
    assert_eq!(totals(&table, "read"), Some((250_000_000, 1)));
}

#[test]
fn framer_takes_what_is_left_as_a_last_line() {
    let mut framer = Framer::new();
    let mut table = SyscallTable::new();
    framer.feed(b"open(a) = 3 <0.5>\nread(3) = 1 <0.25>", &mut table);
    assert_eq!(table.recorded(), 1);
    framer.finish(&mut table);
    assert_eq!(table.recorded(), 2);
    assert_eq!(framer.buffered(), 0);
    assert_eq!(totals(&table, "read"), Some((250_000_000, 1)));
    framer.finish(&mut table);
    assert_eq!(table.recorded(), 2);
}

#[test]
fn framer_replaces_bytes_that_are_no_text() {
    let mut framer = Framer::new();
    let mut table = SyscallTable::new();
    framer.feed(b"re\xffad(3) = 1 <0.5>\n\xc3\xb6ffne(1) = 0 <0.25>\n", &mut table);
    assert_eq!(totals(&table, "re\u{fffd}ad"), Some((500_000_000, 1)));
    assert_eq!(totals(&table, "öffne"), Some((250_000_000, 1)));
    assert_eq!(table.recorded(), 2);
}

#[test]
fn framer_passes_empty_lines_by() {
    let mut framer = Framer::new();
    let mut table = SyscallTable::new();
    framer.feed(b"\n\n\nopen(a) = 3 <0.5>\n\n", &mut table);
    assert_eq!(table.recorded(), 1);
    assert_eq!(framer.buffered(), 0);
}

#[test]
fn cost_text_reads_back_as_the_cost() {
    for nanos in [0u64, 1, 9, 10, 12_000, 50_000, 999_999_999, 1_000_000_000, 1_000_000_001,
        1_500_000_000, 123_456_789_012_345_678, u64::MAX]
    {
        let line = Syscall { name: "x".to_string(), cost: nanos as u128, count: 1 }.to_string();
        let text = line.strip_prefix("x: called 1, cost ").unwrap().strip_suffix("s").unwrap();
        assert_eq!(syscall_profile::parse_duration(text), Some(nanos));
    }
}

#[test]
fn lines_add_to_the_totals_a_table_held_before() {
    let mut table = table_of(&["open(a) = 3 <0.000012>", "close(3) = 0 <0.000001>"]);
    let mut framer = Framer::new();
    framer.feed(
        b"open(b) = 4 <0.000020>\nnoise\nread(4) = 9 <0.000050>\nopen(c) = 5 <0.000100>\n",
        &mut table,
    );
    assert_eq!(totals(&table, "open"), Some((132_000, 3)));
    assert_eq!(totals(&table, "close"), Some((1_000, 1)));
    assert_eq!(totals(&table, "read"), Some((50_000, 1)));
    assert_eq!(table.entries().len(), 3);
    assert_eq!(table.recorded(), 5);
}

#[test]
fn chunk_without_a_parsable_line_leaves_the_table() {
    let mut table = table_of(&["open(a) = 3 <0.000012>", "read(3) = 1 <0.000050>"]);
    let before = report(&table);
    let mut framer = Framer::new();
    framer.feed(b"noise\nopen(a) = 3\n(x) <0.1>\nopen(a) <slow>\n\n+++ exited with 0 +++\n", &mut table);
    assert_eq!(report(&table), before);
    assert_eq!(table.entries().len(), 2);
    assert_eq!(table.recorded(), 2);
    assert_eq!(framer.buffered(), 0);
    framer.feed(b"read(3) = 1 <0.000050>\n", &mut table);
    assert_eq!(totals(&table, "read"), Some((100_000, 2)));
}
