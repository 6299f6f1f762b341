//! One parsed trace line, and the parser that produces it.

use vstd::prelude::*;
use crate::duration::{duration_nanos, is_decimal, parse_decimal};
use crate::text::{chars_of, first_index, lemma_first_index_is, string_of};

verus! {

/// One completed system call as a trace line reports it.
#[derive(Clone, Debug, PartialEq, Eq)]
pub struct SyscallEvent {
    /// The name of the system call.
    pub name: String,
    /// How long the call took, in nanoseconds.
    pub nanos: u64,
}

/// The mathematical value of a [`SyscallEvent`].
pub struct EventModel {
    pub name: Seq<char>,
    pub nanos: nat,
}

impl View for SyscallEvent {
    type V = EventModel;

    open spec fn view(&self) -> EventModel {
        EventModel { name: self.name@, nanos: self.nanos as nat }
    }
}

/// The name on a trace line: everything before its first `(`.
pub open spec fn line_name(line: Seq<char>) -> Seq<char> {
    line.take(first_index(line, '('))
}

/// The duration text on a trace line: what follows its first `<`, up to the
/// next `>` or, where none follows, up to the end of the line.
pub open spec fn line_duration(line: Seq<char>) -> Seq<char> {
    let rest = line.skip(first_index(line, '<') + 1);
    rest.take(first_index(rest, '>'))
}

/// Whether a line carries a system call: it has a `(` with a non-empty name
/// before it, and a `<` followed by a decimal duration that fits in `u64`
/// nanoseconds.
pub open spec fn line_is_event(line: Seq<char>) -> bool {
    &&& 0 < first_index(line, '(') < line.len()
    &&& first_index(line, '<') < line.len()
    &&& is_decimal(line_duration(line))
    &&& duration_nanos(line_duration(line)) <= u64::MAX
}

/// What a trace line parses to.
pub open spec fn parse_line_spec(line: Seq<char>) -> Option<EventModel> {
    if line_is_event(line) {
        Some(EventModel { name: line_name(line), nanos: duration_nanos(line_duration(line)) })
    } else {
        None
    }
}

/// The position of the first `x` in `chars[from..]`, or `chars.len()`.
fn find_char(chars: &[char], from: usize, x: char) -> (at: usize)
    requires
        from <= chars@.len(),
    ensures
        from <= at <= chars@.len(),
        at - from == first_index(chars@.skip(from as int), x),
{
    let ghost rest = chars@.skip(from as int);
    let mut at: usize = from;
    while at < chars.len() && chars[at] != x
        invariant
            from <= at <= chars@.len(),
            rest == chars@.skip(from as int),
            forall|j: int| 0 <= j < at - from ==> rest[j] != x,
        decreases chars@.len() - at,
    {
        at += 1;
    }
    proof {
        lemma_first_index_is(rest, x, at - from);
    }
    at
}

/// Parses one line of trace text.
///
/// The name is what stands before the first `(`; the duration is what stands
/// between the first `<` and the `>` after it. Text between the two, and
/// after them, is not looked at. A line without a name, without a duration,
/// or with a duration that is no decimal number yields `None`.
pub fn parse_line(text: &str) -> (out: Option<SyscallEvent>)
    ensures
        match out {
            Some(event) => parse_line_spec(text@) == Some(event@),
            None => parse_line_spec(text@) is None,
        },
{
    let chars = chars_of(text);
    let paren = find_char(&chars, 0, '(');
    assert(chars@.skip(0) == chars@);
    if paren == 0 || paren == chars.len() {
        return None;
    }
    let open = find_char(&chars, 0, '<');
    if open == chars.len() {
        return None;
    }
    let close = find_char(&chars, open + 1, '>');
    assert(chars@.subrange(open + 1, close as int) == line_duration(chars@));
    match parse_decimal(&chars, open + 1, close) {
        None => None,
        Some(nanos) => {
            let name = string_of(&chars, 0, paren);
            assert(chars@.subrange(0, paren as int) == line_name(chars@));
            Some(SyscallEvent { name, nanos })
        },
    }
}

} // verus!
