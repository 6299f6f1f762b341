//! What holds of the pipeline as a whole.

use vstd::prelude::*;
use vstd::arithmetic::div_mod::lemma_breakdown;
use vstd::utf8::{
    encode_utf8, encode_utf8_decode_utf8, encode_utf8_valid_utf8, is_ascii_chars,
    is_ascii_chars_encode_utf8,
};
use crate::duration::{
    all_digits, digit_value, duration_nanos, fraction_digits, fraction_nanos, is_decimal, is_digit,
    place_value, whole_digits, whole_value,
};
use crate::event::{parse_line_spec, EventModel};
use crate::framer::{all_lines, complete_lines, decoded, line_text, partial_line, NEWLINE};
use crate::report::{
    has_entry, lemma_name_irreflexive, lemma_ranks_transitive, ranked, ranks_before,
};
use crate::stat::{
    decimal_digits, digit_char, padded_digits, seconds_text, trim_zeros, Stat, Syscall,
    SyscallModel,
};
use crate::table::{count_events, lists, record_event, record_line, record_lines};
use crate::text::lemma_first_index_is;

verus! {

/// How many of `lines` parse to an event of the system call `name`.
pub open spec fn calls_of(lines: Seq<Seq<char>>, name: Seq<char>) -> nat
    decreases lines.len(),
{
    if lines.len() == 0 {
        0
    } else {
        calls_of(lines.drop_last(), name) + match parse_line_spec(lines.last()) {
            Some(event) => if event.name == name {
                1nat
            } else {
                0nat
            },
            None => 0nat,
        }
    }
}

/// The sum of the durations, in nanoseconds, of the lines of `lines` that
/// parse to an event of the system call `name`.
pub open spec fn cost_of(lines: Seq<Seq<char>>, name: Seq<char>) -> nat
    decreases lines.len(),
{
    if lines.len() == 0 {
        0
    } else {
        cost_of(lines.drop_last(), name) + match parse_line_spec(lines.last()) {
            Some(event) => if event.name == name {
                event.nanos
            } else {
                0nat
            },
            None => 0nat,
        }
    }
}

/// The lines joined again, each followed by a newline.
pub open spec fn joined(lines: Seq<Seq<u8>>) -> Seq<u8>
    decreases lines.len(),
{
    if lines.len() == 0 {
        Seq::empty()
    } else {
        joined(lines.drop_last()) + lines.last().push(NEWLINE)
    }
}

/// The bytes of a sequence of chunks, one chunk after the other.
pub open spec fn stream_of(chunks: Seq<Seq<u8>>) -> Seq<u8>
    decreases chunks.len(),
{
    if chunks.len() == 0 {
        Seq::empty()
    } else {
        stream_of(chunks.drop_last()) + chunks.last()
    }
}

/// The buffer and the table after a framer that held `pending` has been fed
/// `chunks`, one at a time.
pub open spec fn after_chunks(
    pending: Seq<u8>,
    table: Map<Seq<char>, Stat>,
    chunks: Seq<Seq<u8>>,
) -> (Seq<u8>, Map<Seq<char>, Stat>)
    decreases chunks.len(),
{
    if chunks.len() == 0 {
        (pending, table)
    } else {
        let (kept, earlier) = after_chunks(pending, table, chunks.drop_last());
        (
            partial_line(kept + chunks.last()),
            record_lines(earlier, decoded(complete_lines(kept + chunks.last()))),
        )
    }
}

/// The totals that `table` holds for `name`: those of its entry, or none.
pub open spec fn totals_in(table: Map<Seq<char>, Stat>, name: Seq<char>) -> Stat {
    if table.contains_key(name) {
        table[name]
    } else {
        Stat { cost: 0, count: 0 }
    }
}

/// The lines of the stream that `chunks` make, as text.
pub open spec fn stream_lines(chunks: Seq<Seq<u8>>) -> Seq<Seq<char>> {
    decoded(all_lines(stream_of(chunks)))
}

/// The table at the end of a session that was fed `chunks`, one at a time,
/// and then ended.
pub open spec fn session_table(chunks: Seq<Seq<u8>>) -> Map<Seq<char>, Stat> {
    let (kept, fed) = after_chunks(Seq::empty(), Map::empty(), chunks);
    record_lines(fed, decoded(all_lines(kept)))
}

/// Whatever a table holds before: after a sequence of lines it holds a name
/// exactly when it held the name before or some line parses to a call of
/// it, and the entry of the name has gained the number of those lines as
/// calls and the sum of their durations as cost.
pub proof fn law_totals_from(table: Map<Seq<char>, Stat>, lines: Seq<Seq<char>>, name: Seq<char>)
    ensures
        record_lines(table, lines).contains_key(name) <==> table.contains_key(name) || calls_of(
            lines,
            name,
        ) > 0,
        totals_in(record_lines(table, lines), name) == (Stat {
            cost: totals_in(table, name).cost + cost_of(lines, name),
            count: totals_in(table, name).count + calls_of(lines, name),
        }),
        calls_of(lines, name) == 0 ==> cost_of(lines, name) == 0,
    decreases lines.len(),
{
    if lines.len() > 0 {
        law_totals_from(table, lines.drop_last(), name);
        let earlier = record_lines(table, lines.drop_last());
        let after = record_lines(table, lines);
        match parse_line_spec(lines.last()) {
            Some(event) => {
                if event.name == name {
                    assert(after.contains_key(name));
                    assert(after[name] == (Stat {
                        cost: totals_in(earlier, name).cost + event.nanos,
                        count: totals_in(earlier, name).count + 1,
                    }));
                } else {
                    assert(after.contains_key(name) == earlier.contains_key(name));
                    assert(totals_in(after, name) == totals_in(earlier, name));
                }
            },
            None => {},
        }
    }
}

/// Lines of which none parses leave every table as it is: no entry is
/// altered, none is made, and no event is counted.
pub proof fn law_unparsed_lines_change_nothing(table: Map<Seq<char>, Stat>, lines: Seq<Seq<char>>)
    requires
        forall|i: int| 0 <= i < lines.len() ==> parse_line_spec(#[trigger] lines[i]) is None,
    ensures
        record_lines(table, lines) == table,
        count_events(lines) == 0,
    decreases lines.len(),
{
    if lines.len() > 0 {
        assert(parse_line_spec(lines[lines.len() - 1]) is None);
        assert forall|i: int| 0 <= i < lines.drop_last().len() implies parse_line_spec(
            #[trigger] lines.drop_last()[i],
        ) is None by {
            assert(lines.drop_last()[i] == lines[i]);
        }
        law_unparsed_lines_change_nothing(table, lines.drop_last());
    }
}

/// For every sequence of lines and every name: the table made from the
/// lines holds the name exactly when some line parses to a call of it, and
/// then holds the number of those lines as its count and the sum of their
/// durations as its cost.
pub proof fn law_totals(lines: Seq<Seq<char>>, name: Seq<char>)
    ensures
        record_lines(Map::empty(), lines).contains_key(name) <==> calls_of(lines, name) > 0,
        calls_of(lines, name) > 0 ==> record_lines(Map::empty(), lines)[name] == (Stat {
            cost: cost_of(lines, name),
            count: calls_of(lines, name),
        }),
        calls_of(lines, name) == 0 ==> cost_of(lines, name) == 0,
    decreases lines.len(),
{
    if lines.len() > 0 {
        law_totals(lines.drop_last(), name);
        let earlier = record_lines(Map::empty(), lines.drop_last());
        match parse_line_spec(lines.last()) {
            Some(event) => {
                if event.name == name {
                    assert(record_lines(Map::empty(), lines)[name] == (Stat {
                        cost: cost_of(lines, name),
                        count: calls_of(lines, name),
                    }));
                } else {
                    assert(record_lines(Map::empty(), lines).contains_key(name)
                        == earlier.contains_key(name));
                }
            },
            None => {},
        }
    }
}

/// Recording two runs of lines one after the other is recording their
/// concatenation.
pub proof fn law_record_lines_concat(
    table: Map<Seq<char>, Stat>,
    first: Seq<Seq<char>>,
    second: Seq<Seq<char>>,
)
    ensures
        record_lines(table, first + second) == record_lines(record_lines(table, first), second),
        count_events(first + second) == count_events(first) + count_events(second),
    decreases second.len(),
{
    if second.len() == 0 {
        assert(first + second == first);
    } else {
        assert((first + second).drop_last() == first + second.drop_last());
        law_record_lines_concat(table, first, second.drop_last());
    }
}

/// A line that does not parse, wherever it stands among the lines, neither
/// changes an entry nor makes one: the table is what it is without the line.
pub proof fn law_unparsed_line_is_skipped(
    table: Map<Seq<char>, Stat>,
    before: Seq<Seq<char>>,
    line: Seq<char>,
    after: Seq<Seq<char>>,
)
    requires
        parse_line_spec(line) is None,
    ensures
        record_line(table, line) == table,
        record_lines(table, before.push(line) + after) == record_lines(table, before + after),
{
    law_record_lines_concat(table, before.push(line), after);
    law_record_lines_concat(table, before, after);
    assert(before.push(line).drop_last() == before);
}

/// A stream without bytes has no lines, so it leaves every table as it is;
/// and the report of an empty table is empty.
pub proof fn law_empty_stream(table: Map<Seq<char>, Stat>, entries: Seq<Syscall>)
    ensures
        all_lines(Seq::empty()) == Seq::<Seq<u8>>::empty(),
        record_lines(table, decoded(all_lines(Seq::empty()))) == table,
        lists(entries, Map::empty()) ==> entries.len() == 0,
{
    assert(decoded(Seq::empty()) == Seq::<Seq<char>>::empty());
    if lists(entries, Map::empty()) && entries.len() > 0 {
        assert(Map::<Seq<char>, Stat>::empty().contains_key(entries[0].name@));
    }
}

/// The lines of a stream do not depend on where it is cut into chunks:
/// after `head`, the bytes `tail` complete the lines that they complete
/// after what `head` left over.
pub proof fn law_lines_of_chunks(head: Seq<u8>, tail: Seq<u8>)
    ensures
        complete_lines(head + tail) == complete_lines(head) + complete_lines(
            partial_line(head) + tail,
        ),
        partial_line(head + tail) == partial_line(partial_line(head) + tail),
    decreases tail.len(),
{
    if tail.len() == 0 {
        assert(head + tail == head);
        assert(partial_line(head) + tail == partial_line(head));
        lemma_partial_line_is_whole(head);
    } else {
        assert((head + tail).drop_last() == head + tail.drop_last());
        assert((partial_line(head) + tail).drop_last() == partial_line(head) + tail.drop_last());
        law_lines_of_chunks(head, tail.drop_last());
    }
}

/// What no newline has completed holds no newline: it completes no line and
/// is left over whole.
pub proof fn lemma_partial_line_is_whole(bytes: Seq<u8>)
    ensures
        !partial_line(bytes).contains(NEWLINE),
        complete_lines(partial_line(bytes)) == Seq::<Seq<u8>>::empty(),
        partial_line(partial_line(bytes)) == partial_line(bytes),
    decreases bytes.len(),
{
    if bytes.len() > 0 && bytes.last() != NEWLINE {
        let rest = partial_line(bytes.drop_last());
        lemma_partial_line_is_whole(bytes.drop_last());
        assert(partial_line(bytes).drop_last() == rest);
        assert forall|i: int| 0 <= i < partial_line(bytes).len() implies partial_line(bytes)[i]
            != NEWLINE by {
            if i < rest.len() {
                assert(rest.contains(rest[i]));
            }
        }
    }
}

/// A record that is split over two chunks is one line: feeding `first` and
/// then `second` records what feeding the two as one chunk records, and
/// leaves the same bytes buffered.
pub proof fn law_feed_split(
    table: Map<Seq<char>, Stat>,
    pending: Seq<u8>,
    first: Seq<u8>,
    second: Seq<u8>,
)
    ensures
        partial_line(partial_line(pending + first) + second) == partial_line(
            pending + (first + second),
        ),
        record_lines(
            record_lines(table, decoded(complete_lines(pending + first))),
            decoded(complete_lines(partial_line(pending + first) + second)),
        ) == record_lines(table, decoded(complete_lines(pending + (first + second)))),
{
    let head = pending + first;
    assert(head + second == pending + (first + second));
    law_lines_of_chunks(head, second);
    let a = complete_lines(head);
    let b = complete_lines(partial_line(head) + second);
    assert(decoded(a + b) == decoded(a) + decoded(b));
    law_record_lines_concat(table, decoded(a), decoded(b));
}

/// However a stream is cut into chunks, feeding the chunks one at a time
/// records what feeding the whole stream at once records, and leaves the
/// same bytes buffered. (Without any chunk nothing is fed, so the law then
/// speaks of a buffer that holds no complete line.)
pub proof fn law_chunking_is_irrelevant(
    pending: Seq<u8>,
    table: Map<Seq<char>, Stat>,
    chunks: Seq<Seq<u8>>,
)
    requires
        chunks.len() > 0 || !pending.contains(NEWLINE),
    ensures
        after_chunks(pending, table, chunks) == (
            partial_line(pending + stream_of(chunks)),
            record_lines(table, decoded(complete_lines(pending + stream_of(chunks)))),
        ),
    decreases chunks.len(),
{
    if chunks.len() == 0 {
        assert(pending + stream_of(chunks) == pending);
        lemma_without_newline(pending);
        assert(decoded(Seq::empty()) == Seq::<Seq<char>>::empty());
    } else if chunks.len() == 1 {
        assert(stream_of(chunks.drop_last()) == Seq::<u8>::empty());
        assert(stream_of(chunks) =~= chunks.last());
        assert(after_chunks(pending, table, chunks.drop_last()) == (pending, table));
    } else {
        let earlier = chunks.drop_last();
        law_chunking_is_irrelevant(pending, table, earlier);
        law_feed_split(table, pending, stream_of(earlier), chunks.last());
    }
}

/// Bytes without a newline complete no line and are left over whole.
pub proof fn lemma_without_newline(bytes: Seq<u8>)
    requires
        !bytes.contains(NEWLINE),
    ensures
        complete_lines(bytes) == Seq::<Seq<u8>>::empty(),
        partial_line(bytes) == bytes,
    decreases bytes.len(),
{
    if bytes.len() > 0 {
        let rest = bytes.drop_last();
        assert(bytes.contains(bytes.last()));
        assert forall|i: int| 0 <= i < rest.len() implies rest[i] != NEWLINE by {
            assert(bytes.contains(bytes[i]));
        }
        lemma_without_newline(rest);
        assert(rest.push(bytes.last()) == bytes);
    }
}

/// A whole session: chunks fed one at a time to an empty framer and an
/// empty table, and the stream then ended. For every name, the table holds
/// it exactly when some line of the stream parses to a call of it, with the
/// number of those lines as its count and the sum of their durations as its
/// cost.
pub proof fn law_session_totals(chunks: Seq<Seq<u8>>, name: Seq<char>)
    ensures
        session_table(chunks) == record_lines(Map::empty(), stream_lines(chunks)),
        session_table(chunks).contains_key(name) <==> calls_of(stream_lines(chunks), name) > 0,
        calls_of(stream_lines(chunks), name) > 0 ==> session_table(chunks)[name] == (Stat {
            cost: cost_of(stream_lines(chunks), name),
            count: calls_of(stream_lines(chunks), name),
        }),
{
    let stream = stream_of(chunks);
    let nothing = Seq::<u8>::empty();
    law_chunking_is_irrelevant(nothing, Map::empty(), chunks);
    assert(nothing + stream == stream);
    let kept = partial_line(stream);
    lemma_partial_line_is_whole(stream);
    let complete = decoded(complete_lines(stream));
    let rest = decoded(all_lines(kept));
    assert(all_lines(stream) == complete_lines(stream) + all_lines(kept));
    assert(decoded(all_lines(stream)) == complete + rest);
    law_record_lines_concat(Map::empty(), complete, rest);
    law_totals(decoded(all_lines(stream)), name);
}

/// The final report of a session, however its stream was cut into chunks:
/// it has one entry for every name to which some line of the stream parses,
/// with the number of those lines as its count and the sum of their
/// durations as its cost, and it has no other entry.
pub proof fn law_session_report(chunks: Seq<Seq<u8>>, report: Seq<Syscall>)
    requires
        lists(report, session_table(chunks)),
    ensures
        forall|i: int|
            0 <= i < report.len() ==> {
                let entry = #[trigger] report[i];
                &&& calls_of(stream_lines(chunks), entry.name@) > 0
                &&& entry.count == calls_of(stream_lines(chunks), entry.name@)
                &&& entry.cost == cost_of(stream_lines(chunks), entry.name@)
            },
        forall|name: Seq<char>| #[trigger]
            calls_of(stream_lines(chunks), name) > 0 ==> exists|i: int|
                0 <= i < report.len() && (#[trigger] report[i]).name@ == name,
        forall|i: int, j: int|
            0 <= i < j < report.len() ==> (#[trigger] report[i]).name@ != (
            #[trigger] report[j]).name@,
{
    let table = session_table(chunks);
    assert forall|i: int| 0 <= i < report.len() implies {
        let entry = #[trigger] report[i];
        &&& calls_of(stream_lines(chunks), entry.name@) > 0
        &&& entry.count == calls_of(stream_lines(chunks), entry.name@)
        &&& entry.cost == cost_of(stream_lines(chunks), entry.name@)
    } by {
        law_session_totals(chunks, report[i].name@);
        assert(table.contains_key(report[i].name@));
    }
    assert forall|name: Seq<char>| #[trigger]
        calls_of(stream_lines(chunks), name) > 0 implies exists|i: int|
        0 <= i < report.len() && (#[trigger] report[i]).name@ == name by {
        law_session_totals(chunks, name);
        assert(table.contains_key(name));
    }
}

/// Two sessions that read the same stream, cut into chunks at different
/// places, end with the same table and make the same report.
pub proof fn law_same_stream_same_report(
    first_chunks: Seq<Seq<u8>>,
    second_chunks: Seq<Seq<u8>>,
    first_report: Seq<Syscall>,
    second_report: Seq<Syscall>,
)
    requires
        stream_of(first_chunks) == stream_of(second_chunks),
        lists(first_report, session_table(first_chunks)),
        ranked(first_report),
        lists(second_report, session_table(second_chunks)),
        ranked(second_report),
    ensures
        session_table(first_chunks) == session_table(second_chunks),
        first_report.len() == second_report.len(),
        forall|i: int|
            0 <= i < first_report.len() ==> (#[trigger] first_report[i])@ == second_report[i]@,
{
    law_session_totals(first_chunks, Seq::empty());
    law_session_totals(second_chunks, Seq::empty());
    law_report_is_determined(session_table(first_chunks), first_report, second_report);
}

/// The bytes of `bytes` as characters, one for one.
pub open spec fn ascii_text(bytes: Seq<u8>) -> Seq<char> {
    Seq::new(bytes.len(), |i: int| bytes[i] as char)
}

/// A line of ASCII bytes is taken as it is: its text is its bytes, each as
/// the character of the same number.
pub proof fn law_ascii_line_is_kept(bytes: Seq<u8>)
    requires
        forall|i: int| 0 <= i < bytes.len() ==> bytes[i] < 128,
    ensures
        line_text(bytes) == ascii_text(bytes),
{
    let chars = ascii_text(bytes);
    assert(is_ascii_chars(chars)) by {
        assert forall|i: int| 0 <= i < chars.len() implies '\0' <= #[trigger] chars[i]
            <= '\u{7f}' by {
            assert(bytes[i] < 128);
        }
    }
    is_ascii_chars_encode_utf8(chars);
    assert(encode_utf8(chars) =~= bytes) by {
        assert forall|i: int| 0 <= i < bytes.len() implies encode_utf8(chars)[i] == bytes[i] by {
            assert(chars[i] as u8 == encode_utf8(chars)[i]);
        }
    }
    encode_utf8_valid_utf8(chars);
    encode_utf8_decode_utf8(chars);
}

/// In a ranked report no entry costs more than any entry before it.
pub proof fn law_report_descends(entries: Seq<Syscall>, i: int, j: int)
    requires
        ranked(entries),
        0 <= i <= j < entries.len(),
    ensures
        entries[i].cost >= entries[j].cost,
{
    if i < j {
        assert(ranks_before(entries[i]@, entries[j]@));
    }
}

/// Two ranked sequences that hold the same entries are the same sequence.
proof fn lemma_ranked_is_unique(a: Seq<Syscall>, b: Seq<Syscall>)
    requires
        ranked(a),
        ranked(b),
        forall|m: SyscallModel| has_entry(a, m) == has_entry(b, m),
    ensures
        a.len() == b.len(),
        forall|i: int| 0 <= i < a.len() ==> (#[trigger] a[i])@ == b[i]@,
    decreases a.len() + b.len(),
{
    if a.len() == 0 {
        if b.len() > 0 {
            assert(has_entry(b, b[0]@));
        }
    } else if b.len() == 0 {
        assert(has_entry(a, a[0]@));
    } else {
        assert(has_entry(a, a[0]@));
        assert(has_entry(b, b[0]@));
        let j = choose|j: int| 0 <= j < b.len() && (#[trigger] b[j])@ == a[0]@;
        let i = choose|i: int| 0 <= i < a.len() && (#[trigger] a[i])@ == b[0]@;
        lemma_name_irreflexive(a[0]@.name);
        if i > 0 && j > 0 {
            assert(ranks_before(a[0]@, a[i]@));
            assert(ranks_before(b[0]@, b[j]@));
            lemma_ranks_transitive(a[0]@, b[0]@, a[0]@);
        } else if i > 0 {
            assert(ranks_before(a[0]@, a[i]@));
        }
        assert(a[0]@ == b[0]@);
        let rest_a = a.skip(1);
        let rest_b = b.skip(1);
        assert forall|m: SyscallModel| has_entry(rest_a, m) == has_entry(rest_b, m) by {
            lemma_has_entry_skip(a, m);
            lemma_has_entry_skip(b, m);
        }
        assert(ranked(rest_a)) by {
            assert forall|x: int, y: int| 0 <= x < y < rest_a.len() implies ranks_before(
                (#[trigger] rest_a[x])@,
                (#[trigger] rest_a[y])@,
            ) by {
                assert(ranks_before(a[x + 1]@, a[y + 1]@));
            }
        }
        assert(ranked(rest_b)) by {
            assert forall|x: int, y: int| 0 <= x < y < rest_b.len() implies ranks_before(
                (#[trigger] rest_b[x])@,
                (#[trigger] rest_b[y])@,
            ) by {
                assert(ranks_before(b[x + 1]@, b[y + 1]@));
            }
        }
        lemma_ranked_is_unique(rest_a, rest_b);
        assert forall|k: int| 0 <= k < a.len() implies (#[trigger] a[k])@ == b[k]@ by {
            if k > 0 {
                assert(rest_a[k - 1]@ == rest_b[k - 1]@);
            }
        }
    }
}

/// After the first entry of a ranked sequence come the other entries, and
/// not the first again.
proof fn lemma_has_entry_skip(a: Seq<Syscall>, m: SyscallModel)
    requires
        ranked(a),
        a.len() > 0,
    ensures
        has_entry(a.skip(1), m) == (has_entry(a, m) && m != a[0]@),
{
    let rest = a.skip(1);
    lemma_name_irreflexive(a[0]@.name);
    if has_entry(rest, m) {
        let k = choose|k: int| 0 <= k < rest.len() && (#[trigger] rest[k])@ == m;
        assert(a[k + 1]@ == m);
        assert(ranks_before(a[0]@, a[k + 1]@));
    }
    if has_entry(a, m) && m != a[0]@ {
        let k = choose|k: int| 0 <= k < a.len() && (#[trigger] a[k])@ == m;
        assert(rest[k - 1]@ == m);
    }
}

/// The report of a table is determined by the table: two ranked sequences
/// that both list the same table agree entry by entry.
pub proof fn law_report_is_determined(
    table: Map<Seq<char>, Stat>,
    first: Seq<Syscall>,
    second: Seq<Syscall>,
)
    requires
        lists(first, table),
        ranked(first),
        lists(second, table),
        ranked(second),
    ensures
        first.len() == second.len(),
        forall|i: int| 0 <= i < first.len() ==> (#[trigger] first[i])@ == second[i]@,
{
    assert forall|m: SyscallModel| has_entry(first, m) == has_entry(second, m) by {
        lemma_lists_has_entry(table, first, m);
        lemma_lists_has_entry(table, second, m);
    }
    lemma_ranked_is_unique(first, second);
}

/// A listing of a table holds exactly the table's entries.
proof fn lemma_lists_has_entry(table: Map<Seq<char>, Stat>, entries: Seq<Syscall>, m: SyscallModel)
    requires
        lists(entries, table),
    ensures
        has_entry(entries, m) == (table.contains_key(m.name) && table[m.name] == m.stat),
{
    if has_entry(entries, m) {
        let k = choose|k: int| 0 <= k < entries.len() && (#[trigger] entries[k])@ == m;
        assert(table.contains_key(entries[k].name@));
    }
    if table.contains_key(m.name) && table[m.name] == m.stat {
        let k = choose|k: int| 0 <= k < entries.len() && (#[trigger] entries[k]).name@ == m.name;
        assert(entries[k]@ == m);
    }
}

/// Every recorded event changes the table.
pub proof fn law_record_changes_table(table: Map<Seq<char>, Stat>, event: EventModel)
    ensures
        record_event(table, event) != table,
{
    let after = record_event(table, event);
    if table.contains_key(event.name) {
        assert(after[event.name].count == table[event.name].count + 1);
    } else {
        assert(after.contains_key(event.name));
    }
}

/// The complete lines of a stream, each with its newline put back, and then
/// what is left over, are the stream; and no line holds a newline.
pub proof fn law_lines_rejoin(bytes: Seq<u8>)
    ensures
        joined(complete_lines(bytes)) + partial_line(bytes) == bytes,
        forall|i: int|
            0 <= i < complete_lines(bytes).len() ==> !(#[trigger] complete_lines(bytes)[i]).contains(
                NEWLINE,
            ),
        !partial_line(bytes).contains(NEWLINE),
    decreases bytes.len(),
{
    lemma_partial_line_is_whole(bytes);
    if bytes.len() > 0 {
        let rest = bytes.drop_last();
        law_lines_rejoin(rest);
        lemma_partial_line_is_whole(rest);
        if bytes.last() == NEWLINE {
            let lines = complete_lines(bytes);
            assert(lines.drop_last() == complete_lines(rest));
            assert(joined(lines) == joined(complete_lines(rest)) + partial_line(rest).push(NEWLINE));
            assert(joined(complete_lines(rest)) + partial_line(rest).push(NEWLINE) =~= (joined(
                complete_lines(rest),
            ) + partial_line(rest)).push(NEWLINE));
            assert(rest.push(NEWLINE) =~= bytes);
            assert(joined(lines) + partial_line(bytes) =~= joined(lines));
        } else {
            assert(joined(complete_lines(rest)) + partial_line(rest).push(bytes.last()) =~= (joined(
                complete_lines(rest),
            ) + partial_line(rest)).push(bytes.last()));
            assert(rest.push(bytes.last()) =~= bytes);
        }
    }
}

/// Ten to the power `w`, for the widths that a fraction of a second has.
spec fn tens(w: int) -> nat {
    if w == 0 {
        1
    } else if w == 1 {
        10
    } else if w == 2 {
        100
    } else if w == 3 {
        1_000
    } else if w == 4 {
        10_000
    } else if w == 5 {
        100_000
    } else if w == 6 {
        1_000_000
    } else if w == 7 {
        10_000_000
    } else if w == 8 {
        100_000_000
    } else {
        1_000_000_000
    }
}

proof fn lemma_digit_char(d: nat)
    requires
        d <= 9,
    ensures
        is_digit(digit_char(d)),
        digit_value(digit_char(d)) == d,
{
}

proof fn lemma_decimal_digits(n: nat)
    ensures
        decimal_digits(n).len() >= 1,
        all_digits(decimal_digits(n)),
        whole_value(decimal_digits(n)) == n,
    decreases n,
{
    let digits = decimal_digits(n);
    lemma_digit_char(n % 10);
    if n < 10 {
        assert(digits.drop_last() =~= Seq::<char>::empty());
        assert(whole_value(digits.drop_last()) == 0);
    } else {
        lemma_decimal_digits(n / 10);
        assert(digits.drop_last() =~= decimal_digits(n / 10));
    }
}

proof fn lemma_padded_digits(n: nat, w: nat)
    requires
        w <= 9,
    ensures
        padded_digits(n, w).len() == w,
        all_digits(padded_digits(n, w)),
        fraction_nanos(padded_digits(n, w)) == (n % tens(w as int)) * tens(9 - w),
    decreases w,
{
    if w > 0 {
        let digits = padded_digits(n, w);
        let shorter = padded_digits(n / 10, (w - 1) as nat);
        lemma_digit_char(n % 10);
        lemma_padded_digits(n / 10, (w - 1) as nat);
        assert(digits.drop_last() =~= shorter);
        assert(digits.last() == digit_char(n % 10));
        let a = tens(w - 1) as int;
        let b = tens(9 - w) as int;
        let x = ((n / 10) % tens(w - 1)) as int;
        let r = (n % 10) as int;
        assert(fraction_nanos(digits) == fraction_nanos(shorter) + r * place_value(w - 1));
        assert(place_value(w - 1) == b && tens(10 - w) == 10 * b && tens(w as int) == 10 * a);
        assert(fraction_nanos(shorter) == x * (10 * b));
        lemma_breakdown(n as int, 10, a);
        assert(n as int % (10 * a) == 10 * x + r);
        assert(x * (10 * b) + r * b == (10 * x + r) * b) by (nonlinear_arith);
    }
}

proof fn lemma_trim_zeros(s: Seq<char>)
    requires
        all_digits(s),
    ensures
        all_digits(trim_zeros(s)),
        fraction_nanos(trim_zeros(s)) == fraction_nanos(s),
    decreases s.len(),
{
    if s.len() > 0 && s.last() == '0' {
        lemma_trim_zeros(s.drop_last());
    }
}

/// A cost reads back as it was written: the text that a report gives for a
/// number of nanoseconds is a decimal number, and the duration parser finds
/// that number of nanoseconds in it.
pub proof fn law_cost_reads_back(nanos: nat)
    ensures
        is_decimal(seconds_text(nanos)),
        duration_nanos(seconds_text(nanos)) == nanos,
{
    let whole = decimal_digits(nanos / 1_000_000_000);
    let rest = nanos % 1_000_000_000;
    lemma_decimal_digits(nanos / 1_000_000_000);
    assert forall|j: int| 0 <= j < whole.len() implies whole[j] != '.' by {
        assert(is_digit(whole[j]));
    }
    if rest == 0 {
        lemma_first_index_is(whole, '.', whole.len() as int);
        assert(whole_digits(whole) =~= whole);
        assert(fraction_digits(whole) =~= Seq::<char>::empty());
        assert(seconds_text(nanos) == whole);
        assert(duration_nanos(whole) == (nanos / 1_000_000_000) * 1_000_000_000);
    } else {
        lemma_padded_digits(rest, 9);
        lemma_trim_zeros(padded_digits(rest, 9));
        let fraction = trim_zeros(padded_digits(rest, 9));
        let text = whole + seq!['.'] + fraction;
        assert forall|j: int| 0 <= j < whole.len() implies text[j] != '.' by {
            assert(text[j] == whole[j]);
        }
        lemma_first_index_is(text, '.', whole.len() as int);
        assert(whole_digits(text) =~= whole);
        assert(fraction_digits(text) =~= fraction);
        assert(seconds_text(nanos) == text);
        assert(fraction_nanos(fraction) == rest);
    }
}

} // verus!
