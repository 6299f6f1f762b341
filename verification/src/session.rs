//! One trace session: what the supervisor of the traced process decides
//! between two reads of the pipe.
//!
//! The supervisor itself (spawning the tracer, reading the pipe) lives
//! outside this crate. It hands every chunk it reads to [`Session::on_chunk`]
//! and, when the stream has ended, calls [`Session::finish`].

use vstd::prelude::*;
use crate::clock::wall_clock_seconds;
use crate::framer::{all_lines, complete_lines, decoded, partial_line, Framer};
use crate::report::{ranked, report};
use crate::stat::{Stat, Syscall};
use crate::table::{count_events, lists, record_lines, SyscallTable};

verus! {

/// What the supervisor does after it has handed over a chunk.
#[derive(Clone, Copy, Debug, PartialEq, Eq)]
pub enum Step {
    /// Go on reading.
    Continue,
    /// A periodic flush is due: emit a report of the table as it stands,
    /// then go on reading.
    Report,
}

/// The mathematical value of a [`Session`].
pub struct SessionModel {
    /// The bytes that no newline has completed into a line yet.
    pub pending: Seq<u8>,
    /// The totals so far.
    pub table: Map<Seq<char>, Stat>,
    /// How many events the table has recorded.
    pub recorded: nat,
    /// The time of the last periodic flush, in seconds.
    pub last_flush: int,
    /// The number of seconds that must have passed for a flush to be due.
    pub threshold: int,
}

/// Whether a periodic flush is due at time `now`: more than `threshold`
/// seconds have passed since the last one.
pub open spec fn flush_is_due(last_flush: int, now: int, threshold: int) -> bool {
    now - last_flush > threshold
}

/// The session after it has taken `chunk` at time `now`.
pub open spec fn after_chunk(s: SessionModel, chunk: Seq<u8>, now: int) -> SessionModel {
    let lines = decoded(complete_lines(s.pending + chunk));
    SessionModel {
        pending: partial_line(s.pending + chunk),
        table: record_lines(s.table, lines),
        recorded: s.recorded + count_events(lines),
        last_flush: if flush_is_due(s.last_flush, now, s.threshold) {
            now
        } else {
            s.last_flush
        },
        threshold: s.threshold,
    }
}

/// What the supervisor is told after a chunk taken at time `now`.
pub open spec fn step_after_chunk(s: SessionModel, now: int) -> Step {
    if flush_is_due(s.last_flush, now, s.threshold) {
        Step::Report
    } else {
        Step::Continue
    }
}

/// Whether more than `threshold` seconds have passed between `last_flush`
/// and `now`.
pub fn flush_due(last_flush: i64, now: i64, threshold: i64) -> (due: bool)
    ensures
        due == flush_is_due(last_flush as int, now as int, threshold as int),
{
    now as i128 - last_flush as i128 > threshold as i128
}

/// The state of one trace session: the framer, the table, and the time of
/// the last periodic flush.
pub struct Session {
    framer: Framer,
    table: SyscallTable,
    last_flush: i64,
    threshold: i64,
}

impl View for Session {
    type V = SessionModel;

    closed spec fn view(&self) -> SessionModel {
        SessionModel {
            pending: self.framer@,
            table: self.table@,
            recorded: self.table.spec_recorded() as nat,
            last_flush: self.last_flush as int,
            threshold: self.threshold as int,
        }
    }
}

impl Session {
    /// Whether the session can take `n` more bytes: the events recorded, the
    /// bytes buffered and `n` together stay within `u64`.
    pub open spec fn has_room(&self, n: nat) -> bool {
        self@.recorded + self@.pending.len() + n <= u64::MAX
    }

    /// A session that starts at time `now`, with nothing read yet, and in
    /// which a flush is due whenever more than `threshold` seconds have
    /// passed since the last one.
    pub fn new(now: i64, threshold: i64) -> (out: Session)
        ensures
            out@ == (SessionModel {
                pending: Seq::empty(),
                table: Map::empty(),
                recorded: 0,
                last_flush: now as int,
                threshold: threshold as int,
            }),
    {
        Session { framer: Framer::new(), table: SyscallTable::new(), last_flush: now, threshold }
    }

    /// A session that starts now.
    pub fn start(threshold: i64) -> (out: Session)
        ensures
            out@.pending == Seq::<u8>::empty(),
            out@.table == Map::<Seq<char>, Stat>::empty(),
            out@.recorded == 0,
            out@.threshold == threshold,
    {
        Session::new(wall_clock_seconds(), threshold)
    }

    /// Whether the session can take `n` more bytes.
    pub fn can_take(&self, n: usize) -> (out: bool)
        ensures
            out == self.has_room(n as nat),
    {
        self.table.recorded() as u128 + self.framer.buffered() as u128 + n as u128
            <= u64::MAX as u128
    }

    /// The table of totals as it stands.
    pub fn table(&self) -> (out: &SyscallTable)
        ensures
            out@ == self@.table,
            out.spec_recorded() == self@.recorded,
    {
        &self.table
    }

    /// Takes a chunk read at time `now`: every line that the chunk completes
    /// is parsed and recorded, the rest is kept for the next chunk, and the
    /// result says whether a periodic flush is due.
    pub fn on_chunk_at(&mut self, chunk: &[u8], now: i64) -> (step: Step)
        requires
            old(self).has_room(chunk@.len()),
        ensures
            final(self)@ == after_chunk(old(self)@, chunk@, now as int),
            step == step_after_chunk(old(self)@, now as int),
            final(self)@.recorded + final(self)@.pending.len()
                <= old(self)@.recorded + old(self)@.pending.len() + chunk@.len(),
            final(self).has_room(0),
    {
        self.framer.feed(chunk, &mut self.table);
        if flush_due(self.last_flush, now, self.threshold) {
            self.last_flush = now;
            Step::Report
        } else {
            Step::Continue
        }
    }

    /// Takes a chunk read just now. What is recorded and what is kept do not
    /// depend on the clock; whether a flush is due does.
    pub fn on_chunk(&mut self, chunk: &[u8]) -> (step: Step)
        requires
            old(self).has_room(chunk@.len()),
        ensures
            exists|now: i64|
                final(self)@ == #[trigger] after_chunk(old(self)@, chunk@, now as int) && step
                    == step_after_chunk(old(self)@, now as int),
            final(self)@.recorded + final(self)@.pending.len()
                <= old(self)@.recorded + old(self)@.pending.len() + chunk@.len(),
            final(self).has_room(0),
    {
        let now = wall_clock_seconds();
        self.on_chunk_at(chunk, now)
    }

    /// The report of the table as it stands.
    pub fn report(&self) -> (out: Vec<Syscall>)
        ensures
            lists(out@, self@.table),
            ranked(out@),
    {
        report(&self.table)
    }

    /// Ends the stream: what is still buffered is taken as a last line, and
    /// the final report is made.
    pub fn finish(&mut self) -> (out: Vec<Syscall>)
        requires
            old(self).has_room(0),
        ensures
            final(self)@.pending == Seq::<u8>::empty(),
            final(self)@.table == record_lines(
                old(self)@.table,
                decoded(all_lines(old(self)@.pending)),
            ),
            final(self)@.recorded == old(self)@.recorded + count_events(
                decoded(all_lines(old(self)@.pending)),
            ),
            final(self)@.last_flush == old(self)@.last_flush,
            final(self)@.threshold == old(self)@.threshold,
            lists(out@, final(self)@.table),
            ranked(out@),
    {
        self.framer.finish(&mut self.table);
        report(&self.table)
    }
}

} // verus!
