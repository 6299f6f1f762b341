//! Framing of the tracer's byte stream into lines.
//!
//! Bytes arrive in chunks of any size; a line may be split over several of
//! them. The framer buffers what has arrived, hands every line that a newline
//! has completed to the parser and the table, in order, and keeps what
//! follows the last newline for the next chunk.

use vstd::prelude::*;
use vstd::utf8::{decode_utf8, valid_utf8};
use crate::table::{count_events, record_lines, SyscallTable};
use crate::text::{decode_lossy, utf8_lossy};

verus! {

/// The byte that ends a line.
pub const NEWLINE: u8 = 10;

/// The lines of `bytes` that a newline has completed, in order, each without
/// its newline.
pub open spec fn complete_lines(bytes: Seq<u8>) -> Seq<Seq<u8>>
    decreases bytes.len(),
{
    if bytes.len() == 0 {
        Seq::empty()
    } else if bytes.last() == NEWLINE {
        complete_lines(bytes.drop_last()).push(partial_line(bytes.drop_last()))
    } else {
        complete_lines(bytes.drop_last())
    }
}

/// What follows the last newline of `bytes`: the beginning of a line that
/// is not complete yet.
pub open spec fn partial_line(bytes: Seq<u8>) -> Seq<u8>
    decreases bytes.len(),
{
    if bytes.len() == 0 {
        Seq::empty()
    } else if bytes.last() == NEWLINE {
        Seq::empty()
    } else {
        partial_line(bytes.drop_last()).push(bytes.last())
    }
}

/// The lines of a stream that has ended with `bytes`: the complete lines
/// and, where bytes follow the last newline, those bytes as a last line.
pub open spec fn all_lines(bytes: Seq<u8>) -> Seq<Seq<u8>> {
    if partial_line(bytes).len() == 0 {
        complete_lines(bytes)
    } else {
        complete_lines(bytes).push(partial_line(bytes))
    }
}

/// The text of a line: the characters that its bytes encode where they are
/// valid UTF-8, and what lossy decoding makes of them where they are not.
pub open spec fn line_text(bytes: Seq<u8>) -> Seq<char> {
    if valid_utf8(bytes) {
        decode_utf8(bytes)
    } else {
        utf8_lossy(bytes)
    }
}

/// Each line decoded to text.
pub open spec fn decoded(lines: Seq<Seq<u8>>) -> Seq<Seq<char>> {
    Seq::new(lines.len(), |i: int| line_text(lines[i]))
}

/// Buffer of the bytes that no newline has completed into a line yet.
///
/// The view is the buffered bytes.
pub struct Framer {
    pending: Vec<u8>,
}

impl View for Framer {
    type V = Seq<u8>;

    closed spec fn view(&self) -> Seq<u8> {
        self.pending@
    }
}

impl Framer {
    /// A framer with nothing buffered.
    pub fn new() -> (out: Framer)
        ensures
            out@ == Seq::<u8>::empty(),
    {
        Framer { pending: Vec::new() }
    }

    /// How many bytes are buffered.
    pub fn buffered(&self) -> (n: usize)
        ensures
            n == self@.len(),
    {
        self.pending.len()
    }

    /// Appends a chunk to the buffer and forwards nothing.
    pub fn push(&mut self, chunk: &[u8])
        ensures
            final(self)@ == old(self)@ + chunk@,
    {
        self.pending.extend_from_slice(chunk);
    }

    /// Forwards every complete line in the buffer to `table`, in order, and
    /// keeps what follows the last newline.
    pub fn flush(&mut self, table: &mut SyscallTable)
        requires
            old(table).spec_recorded() + old(self)@.len() <= u64::MAX,
        ensures
            final(self)@ == partial_line(old(self)@),
            final(table)@ == record_lines(old(table)@, decoded(complete_lines(old(self)@))),
            final(table).spec_recorded() == old(table).spec_recorded() + count_events(
                decoded(complete_lines(old(self)@)),
            ),
            final(table).spec_recorded() + final(self)@.len()
                <= old(table).spec_recorded() + old(self)@.len(),
    {
        let ghost bytes = self.pending@;
        let ghost table0 = *table;
        let mut line: Vec<u8> = Vec::new();
        let mut i: usize = 0;
        while i < self.pending.len()
            invariant
                i <= bytes.len(),
                self.pending@ == bytes,
                line@ == partial_line(bytes.take(i as int)),
                table@ == record_lines(table0@, decoded(complete_lines(bytes.take(i as int)))),
                table.spec_recorded() == table0.spec_recorded() + count_events(
                    decoded(complete_lines(bytes.take(i as int))),
                ),
                table.spec_recorded() + line@.len() <= table0.spec_recorded() + i,
                table0.spec_recorded() + bytes.len() <= u64::MAX,
            decreases bytes.len() - i,
        {
            let ghost seen = bytes.take(i as int);
            let ghost next = bytes.take(i + 1);
            assert(next.drop_last() == seen);
            assert(next.last() == bytes[i as int]);
            let byte = self.pending[i];
            if byte == NEWLINE {
                let text = decode_lossy(line.as_slice());
                table.record_line(text.as_str());
                proof {
                    let lines = decoded(complete_lines(next));
                    assert(lines.drop_last() == decoded(complete_lines(seen)));
                    assert(lines.last() == text@);
                }
                line = Vec::new();
            } else {
                line.push(byte);
            }
            i += 1;
        }
        assert(bytes.take(bytes.len() as int) == bytes);
        self.pending = line;
    }

    /// Takes one chunk of the stream: appends it to the buffer, forwards
    /// every line that is now complete, and keeps the rest.
    pub fn feed(&mut self, chunk: &[u8], table: &mut SyscallTable)
        requires
            old(table).spec_recorded() + old(self)@.len() + chunk@.len() <= u64::MAX,
        ensures
            final(self)@ == partial_line(old(self)@ + chunk@),
            final(table)@ == record_lines(
                old(table)@,
                decoded(complete_lines(old(self)@ + chunk@)),
            ),
            final(table).spec_recorded() == old(table).spec_recorded() + count_events(
                decoded(complete_lines(old(self)@ + chunk@)),
            ),
            final(table).spec_recorded() + final(self)@.len()
                <= old(table).spec_recorded() + old(self)@.len() + chunk@.len(),
    {
        self.push(chunk);
        self.flush(table);
    }

    /// Ends the stream: forwards every complete line and then, where bytes
    /// follow the last newline, those bytes as a last line. Nothing stays
    /// buffered.
    pub fn finish(&mut self, table: &mut SyscallTable)
        requires
            old(table).spec_recorded() + old(self)@.len() <= u64::MAX,
        ensures
            final(self)@ == Seq::<u8>::empty(),
            final(table)@ == record_lines(old(table)@, decoded(all_lines(old(self)@))),
            final(table).spec_recorded() == old(table).spec_recorded() + count_events(
                decoded(all_lines(old(self)@)),
            ),
    {
        let ghost bytes = self.pending@;
        self.flush(table);
        if self.pending.len() > 0 {
            let text = decode_lossy(self.pending.as_slice());
            table.record_line(text.as_str());
            proof {
                let lines = decoded(all_lines(bytes));
                assert(lines.drop_last() == decoded(complete_lines(bytes)));
                assert(lines.last() == text@);
            }
            self.pending = Vec::new();
        }
    }
}

} // verus!
