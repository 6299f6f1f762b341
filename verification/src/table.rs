//! The table of totals: one entry per system-call name.

use vstd::prelude::*;
use crate::event::{parse_line, parse_line_spec, EventModel, SyscallEvent};
use crate::stat::{Stat, Syscall, SyscallModel};

verus! {

/// The table after one more event: the entry of the event's name gains the
/// event's duration and one call; a name not yet in the table enters it with
/// that duration and one call.
pub open spec fn record_event(table: Map<Seq<char>, Stat>, event: EventModel) -> Map<
    Seq<char>,
    Stat,
> {
    if table.contains_key(event.name) {
        table.insert(
            event.name,
            Stat {
                cost: table[event.name].cost + event.nanos,
                count: table[event.name].count + 1,
            },
        )
    } else {
        table.insert(event.name, Stat { cost: event.nanos, count: 1 })
    }
}

/// The table after one more line of trace text: a line that parses is
/// recorded, any other line leaves the table as it is.
pub open spec fn record_line(table: Map<Seq<char>, Stat>, line: Seq<char>) -> Map<
    Seq<char>,
    Stat,
> {
    match parse_line_spec(line) {
        Some(event) => record_event(table, event),
        None => table,
    }
}

/// The table after a sequence of lines, taken in order.
pub open spec fn record_lines(table: Map<Seq<char>, Stat>, lines: Seq<Seq<char>>) -> Map<
    Seq<char>,
    Stat,
>
    decreases lines.len(),
{
    if lines.len() == 0 {
        table
    } else {
        record_line(record_lines(table, lines.drop_last()), lines.last())
    }
}

/// How many of `lines` parse to an event.
pub open spec fn count_events(lines: Seq<Seq<char>>) -> nat
    decreases lines.len(),
{
    if lines.len() == 0 {
        0
    } else {
        count_events(lines.drop_last()) + if parse_line_spec(lines.last()) is Some {
            1nat
        } else {
            0nat
        }
    }
}

/// Whether `entries` lists the table `table`: every entry is a name of the
/// table with that name's totals, every name of the table has an entry, and
/// no name has two.
pub open spec fn lists(entries: Seq<Syscall>, table: Map<Seq<char>, Stat>) -> bool {
    &&& forall|i: int|
        0 <= i < entries.len() ==> table.contains_key((#[trigger] entries[i]).name@)
            && table[entries[i].name@] == entries[i]@.stat
    &&& forall|name: Seq<char>| #[trigger]
        table.contains_key(name) ==> exists|i: int|
            0 <= i < entries.len() && (#[trigger] entries[i]).name@ == name
    &&& forall|i: int, j: int|
        0 <= i < j < entries.len() ==> (#[trigger] entries[i]).name@ != (
        #[trigger] entries[j]).name@
}

/// Per-name totals of the system calls seen in one trace session.
///
/// No name occurs twice. The view is the map from each name to its totals.
pub struct SyscallTable {
    entries: Vec<Syscall>,
    recorded: u64,
}

impl View for SyscallTable {
    type V = Map<Seq<char>, Stat>;

    closed spec fn view(&self) -> Map<Seq<char>, Stat> {
        Map::new(|name: Seq<char>| self.holds(name), |name: Seq<char>| self.stat_of(name))
    }
}

impl SyscallTable {
    spec fn holds(&self, name: Seq<char>) -> bool {
        exists|i: int| 0 <= i < self.entries@.len() && (#[trigger] self.entries@[i]).name@ == name
    }

    spec fn position(&self, name: Seq<char>) -> int {
        choose|i: int| 0 <= i < self.entries@.len() && (#[trigger] self.entries@[i]).name@ == name
    }

    spec fn stat_of(&self, name: Seq<char>) -> Stat {
        self.entries@[self.position(name)]@.stat
    }

    /// The invariant of the table: names are distinct, every entry has been
    /// called at least once and no more often than events were recorded, and
    /// its cost is what that many calls can sum to.
    #[verifier::type_invariant]
    spec fn wf(&self) -> bool {
        &&& forall|i: int, j: int|
            0 <= i < j < self.entries@.len() ==> (#[trigger] self.entries@[i]).name@ != (
            #[trigger] self.entries@[j]).name@
        &&& forall|i: int|
            0 <= i < self.entries@.len() ==> {
                let e = #[trigger] self.entries@[i];
                1 <= e.count <= self.recorded && e.cost <= e.count * u64::MAX
            }
    }

    /// How many events the table has recorded so far.
    pub closed spec fn spec_recorded(&self) -> u64 {
        self.recorded
    }

    proof fn lemma_position(&self, i: int)
        requires
            self.wf(),
            0 <= i < self.entries@.len(),
        ensures
            self.holds(self.entries@[i].name@),
            self.position(self.entries@[i].name@) == i,
            self@.contains_key(self.entries@[i].name@),
            self@[self.entries@[i].name@] == self.entries@[i]@.stat,
    {
        let name = self.entries@[i].name@;
        let p = self.position(name);
        assert(0 <= p < self.entries@.len() && self.entries@[p].name@ == name);
        if p < i {
            assert(self.entries@[p].name@ != self.entries@[i].name@);
        } else if i < p {
            assert(self.entries@[i].name@ != self.entries@[p].name@);
        }
    }

    proof fn lemma_after_update(&self, after: SyscallTable, i: int, event: EventModel)
        requires
            self.wf(),
            0 <= i < self.entries@.len(),
            self.entries@[i].name@ == event.name,
            self.recorded < u64::MAX,
            after.recorded == self.recorded + 1,
            after.entries@.len() == self.entries@.len(),
            forall|j: int|
                0 <= j < self.entries@.len() && j != i ==> after.entries@[j] == self.entries@[j],
            after.entries@[i].name@ == event.name,
            after.entries@[i].cost == self.entries@[i].cost + event.nanos,
            after.entries@[i].count == self.entries@[i].count + 1,
            event.nanos <= u64::MAX,
        ensures
            after.wf(),
            after@ == record_event(self@, event),
    {
        self.lemma_position(i);
        assert forall|name: Seq<char>| after.holds(name) == self.holds(name) by {
            if after.holds(name) {
                let p = after.position(name);
                assert(self.entries@[p].name@ == name);
            }
            if self.holds(name) {
                let p = self.position(name);
                assert(after.entries@[p].name@ == name);
            }
        }
        assert(after.wf()) by {
            assert forall|a: int, b: int| 0 <= a < b < after.entries@.len() implies (
            #[trigger] after.entries@[a]).name@ != (#[trigger] after.entries@[b]).name@ by {
                assert(self.entries@[a].name@ != self.entries@[b].name@);
            }
            assert forall|j: int| 0 <= j < after.entries@.len() implies {
                let e = #[trigger] after.entries@[j];
                1 <= e.count <= after.recorded && e.cost <= e.count * u64::MAX
            } by {
                let e = self.entries@[j];
                assert(1 <= e.count <= self.recorded && e.cost <= e.count * u64::MAX);
            }
        }
        assert forall|name: Seq<char>| after.holds(name) implies after.stat_of(name)
            == record_event(self@, event)[name] by {
            let p = after.position(name);
            after.lemma_position(p);
            self.lemma_position(p);
        }
        assert(after@ =~= record_event(self@, event));
    }

    proof fn lemma_after_push(&self, after: SyscallTable, event: EventModel)
        requires
            self.wf(),
            !self@.contains_key(event.name),
            self.recorded < u64::MAX,
            after.recorded == self.recorded + 1,
            after.entries@.len() == self.entries@.len() + 1,
            forall|j: int| 0 <= j < self.entries@.len() ==> after.entries@[j] == self.entries@[j],
            after.entries@[self.entries@.len() as int]@ == (SyscallModel {
                name: event.name,
                stat: Stat { cost: event.nanos, count: 1 },
            }),
            event.nanos <= u64::MAX,
        ensures
            after.wf(),
            after@ == record_event(self@, event),
    {
        let last = self.entries@.len() as int;
        assert(after.entries@[last].name@ == event.name);
        assert forall|name: Seq<char>| after.holds(name) == (self.holds(name) || name
            == event.name) by {
            if after.holds(name) {
                let p = after.position(name);
                if p < last {
                    assert(self.entries@[p].name@ == name);
                }
            }
            if self.holds(name) {
                let p = self.position(name);
                assert(after.entries@[p].name@ == name);
            }
        }
        assert(after.wf()) by {
            assert forall|a: int, b: int| 0 <= a < b < after.entries@.len() implies (
            #[trigger] after.entries@[a]).name@ != (#[trigger] after.entries@[b]).name@ by {
                if b == last {
                    assert(self.entries@[a].name@ == after.entries@[a].name@);
                    assert(self.holds(after.entries@[a].name@));
                } else {
                    assert(self.entries@[a].name@ != self.entries@[b].name@);
                }
            }
            assert forall|j: int| 0 <= j < after.entries@.len() implies {
                let e = #[trigger] after.entries@[j];
                1 <= e.count <= after.recorded && e.cost <= e.count * u64::MAX
            } by {
                if j < last {
                    let e = self.entries@[j];
                    assert(1 <= e.count <= self.recorded && e.cost <= e.count * u64::MAX);
                }
            }
        }
        assert forall|name: Seq<char>| after.holds(name) implies after.stat_of(name)
            == record_event(self@, event)[name] by {
            let p = after.position(name);
            after.lemma_position(p);
            if p < last {
                self.lemma_position(p);
            }
        }
        assert(after@ =~= record_event(self@, event));
    }

    /// An empty table.
    pub fn new() -> (out: SyscallTable)
        ensures
            out@ == Map::<Seq<char>, Stat>::empty(),
            out.spec_recorded() == 0,
    {
        let out = SyscallTable { entries: Vec::new(), recorded: 0 };
        assert(out@ =~= Map::<Seq<char>, Stat>::empty());
        out
    }

    /// How many events the table has recorded so far.
    #[verifier::when_used_as_spec(spec_recorded)]
    pub fn recorded(&self) -> (n: u64)
        ensures
            n == self.spec_recorded(),
    {
        self.recorded
    }

    /// The entries of the table, in no particular order. Every entry has
    /// been called at least once.
    pub fn entries(&self) -> (out: &Vec<Syscall>)
        ensures
            lists(out@, self@),
            forall|i: int| 0 <= i < out@.len() ==> (#[trigger] out@[i]).count >= 1,
    {
        proof {
            use_type_invariant(self);
            assert forall|i: int| 0 <= i < self.entries@.len() implies self@.contains_key(
                (#[trigger] self.entries@[i]).name@,
            ) && self@[self.entries@[i].name@] == self.entries@[i]@.stat by {
                self.lemma_position(i);
            }
            assert forall|name: Seq<char>| #[trigger] self@.contains_key(name) implies exists|
                i: int,
            |
                0 <= i < self.entries@.len() && (#[trigger] self.entries@[i]).name@ == name by {
                assert(self.holds(name));
            }
        }
        &self.entries
    }

    fn find(&self, name: &String) -> (at: Option<usize>)
        ensures
            match at {
                Some(i) => i < self.entries@.len() && self.entries@[i as int].name@ == name@,
                None => !self@.contains_key(name@),
            },
    {
        let mut i: usize = 0;
        while i < self.entries.len()
            invariant
                i <= self.entries@.len(),
                forall|j: int| 0 <= j < i ==> (#[trigger] self.entries@[j]).name@ != name@,
            decreases self.entries@.len() - i,
        {
            if self.entries[i].name == *name {
                return Some(i);
            }
            i += 1;
        }
        None
    }

    /// The totals kept for `name`, if any call of it was recorded.
    pub fn get(&self, name: &str) -> (out: Option<&Syscall>)
        ensures
            match out {
                Some(entry) => self@.contains_key(name@) && entry@ == (SyscallModel {
                    name: name@,
                    stat: self@[name@],
                }) && entry.count >= 1,
                None => !self@.contains_key(name@),
            },
    {
        let key = name.to_owned();
        match self.find(&key) {
            Some(i) => {
                proof {
                    use_type_invariant(self);
                    self.lemma_position(i as int);
                }
                Some(&self.entries[i])
            },
            None => None,
        }
    }

    /// Folds one event into the table.
    pub fn record(&mut self, event: SyscallEvent)
        requires
            old(self).spec_recorded() < u64::MAX,
        ensures
            final(self)@ == record_event(old(self)@, event@),
            final(self).spec_recorded() == old(self).spec_recorded() + 1,
    {
        let ghost before = *self;
        proof {
            use_type_invariant(&*self);
        }
        let found = self.find(&event.name);
        let mut entries: Vec<Syscall> = Vec::new();
        core::mem::swap(&mut self.entries, &mut entries);
        self.recorded = self.recorded + 1;
        match found {
            Some(i) => {
                proof {
                    before.lemma_position(i as int);
                }
                let cost = entries[i].cost + event.nanos as u128;
                let count = entries[i].count + 1;
                entries.set(i, Syscall { name: event.name, cost, count });
            },
            None => {
                entries.push(Syscall::new(event.name, event.nanos));
            },
        }
        let ghost after = SyscallTable { entries, recorded: self.recorded };
        proof {
            if found is Some {
                before.lemma_after_update(after, found->0 as int, event@);
            } else {
                before.lemma_after_push(after, event@);
            }
        }
        core::mem::swap(&mut self.entries, &mut entries);
        assert(*self == after);
    }

    /// Parses one line of trace text and records the event it carries. A
    /// line that does not parse changes nothing.
    pub fn record_line(&mut self, text: &str)
        requires
            old(self).spec_recorded() < u64::MAX,
        ensures
            final(self)@ == record_line(old(self)@, text@),
            parse_line_spec(text@) is None ==> final(self)@ == old(self)@,
            final(self).spec_recorded() == old(self).spec_recorded() + if parse_line_spec(
                text@,
            ) is Some {
                1int
            } else {
                0int
            },
    {
        match parse_line(text) {
            Some(event) => {
                self.record(event);
            },
            None => {},
        }
    }
}

} // verus!
