//! The ranked report: the entries of a table, the costliest first.

use vstd::prelude::*;
use crate::stat::{report_line, Syscall, SyscallModel};
use crate::table::{lists, SyscallTable};
use crate::text::chars_of;

verus! {

/// Whether `a` stands before `b` in the order of the dictionary, characters
/// compared by code point.
pub open spec fn name_before(a: Seq<char>, b: Seq<char>) -> bool
    decreases a.len(),
{
    if b.len() == 0 {
        false
    } else if a.len() == 0 {
        true
    } else if a[0] != b[0] {
        a[0] < b[0]
    } else {
        name_before(a.skip(1), b.skip(1))
    }
}

/// Whether entry `a` stands before entry `b` in the report: the higher cost
/// first, and of two equal costs the name that is first in the dictionary.
pub open spec fn ranks_before(a: SyscallModel, b: SyscallModel) -> bool {
    a.stat.cost > b.stat.cost || (a.stat.cost == b.stat.cost && name_before(a.name, b.name))
}

/// Whether every entry of `entries` ranks before all that follow it.
pub open spec fn ranked(entries: Seq<Syscall>) -> bool {
    forall|i: int, j: int|
        0 <= i < j < entries.len() ==> ranks_before((#[trigger] entries[i])@, (
        #[trigger] entries[j])@)
}

/// Of two different names one stands before the other.
pub proof fn lemma_name_order_total(a: Seq<char>, b: Seq<char>)
    requires
        a != b,
    ensures
        name_before(a, b) || name_before(b, a),
    decreases a.len(),
{
    if a.len() > 0 && b.len() > 0 && a[0] == b[0] {
        if a.skip(1) == b.skip(1) {
            assert(a =~= seq![a[0]] + a.skip(1));
            assert(b =~= seq![b[0]] + b.skip(1));
        }
        lemma_name_order_total(a.skip(1), b.skip(1));
    } else if a.len() == 0 && b.len() == 0 {
        assert(a =~= b);
    }
}

/// The order of names is transitive.
pub proof fn lemma_name_order_transitive(a: Seq<char>, b: Seq<char>, c: Seq<char>)
    requires
        name_before(a, b),
        name_before(b, c),
    ensures
        name_before(a, c),
    decreases a.len(),
{
    if a.len() > 0 && a[0] == b[0] && b[0] == c[0] {
        lemma_name_order_transitive(a.skip(1), b.skip(1), c.skip(1));
    }
}

/// The order of the report is transitive.
pub proof fn lemma_ranks_transitive(a: SyscallModel, b: SyscallModel, c: SyscallModel)
    requires
        ranks_before(a, b),
        ranks_before(b, c),
    ensures
        ranks_before(a, c),
{
    if a.stat.cost == b.stat.cost && b.stat.cost == c.stat.cost {
        lemma_name_order_transitive(a.name, b.name, c.name);
    }
}

/// Whether name `a` stands before name `b`.
pub fn names_in_order(a: &str, b: &str) -> (out: bool)
    ensures
        out == name_before(a@, b@),
{
    let left = chars_of(a);
    let right = chars_of(b);
    let mut i: usize = 0;
    assert(a@.skip(0) == a@ && b@.skip(0) == b@);
    while i < left.len() && i < right.len() && left[i] == right[i]
        invariant
            i <= left@.len(),
            i <= right@.len(),
            left@ == a@,
            right@ == b@,
            name_before(a@, b@) == name_before(a@.skip(i as int), b@.skip(i as int)),
        decreases left@.len() - i,
    {
        assert(a@.skip(i as int).skip(1) == a@.skip(i + 1));
        assert(b@.skip(i as int).skip(1) == b@.skip(i + 1));
        i += 1;
    }
    if i == right.len() {
        false
    } else if i == left.len() {
        true
    } else {
        left[i] < right[i]
    }
}

fn entry_ranks_before(a: &Syscall, b: &Syscall) -> (out: bool)
    ensures
        out == ranks_before(a@, b@),
{
    a.cost > b.cost || (a.cost == b.cost && names_in_order(a.name.as_str(), b.name.as_str()))
}

/// Whether some entry of `entries` has the value `m`.
pub open spec fn has_entry(entries: Seq<Syscall>, m: SyscallModel) -> bool {
    exists|i: int| 0 <= i < entries.len() && (#[trigger] entries[i])@ == m
}

proof fn lemma_has_entry_insert(entries: Seq<Syscall>, at: int, x: Syscall, m: SyscallModel)
    requires
        0 <= at <= entries.len(),
    ensures
        has_entry(entries.insert(at, x), m) == (has_entry(entries, m) || x@ == m),
{
    let after = entries.insert(at, x);
    if has_entry(after, m) {
        let i = choose|i: int| 0 <= i < after.len() && (#[trigger] after[i])@ == m;
        if i < at {
            assert(entries[i]@ == m);
        } else if i > at {
            assert(entries[i - 1]@ == m);
        }
    }
    if has_entry(entries, m) {
        let i = choose|i: int| 0 <= i < entries.len() && (#[trigger] entries[i])@ == m;
        if i < at {
            assert(after[i]@ == m);
        } else {
            assert(after[i + 1]@ == m);
        }
    }
    if x@ == m {
        assert(after[at]@ == m);
    }
}

proof fn lemma_has_entry_next(entries: Seq<Syscall>, k: int, m: SyscallModel)
    requires
        0 <= k < entries.len(),
    ensures
        has_entry(entries.take(k + 1), m) == (has_entry(entries.take(k), m) || entries[k]@ == m),
{
    let shorter = entries.take(k);
    let longer = entries.take(k + 1);
    if has_entry(longer, m) {
        let i = choose|i: int| 0 <= i < longer.len() && (#[trigger] longer[i])@ == m;
        if i < k {
            assert(shorter[i]@ == m);
        }
    }
    if has_entry(shorter, m) {
        let i = choose|i: int| 0 <= i < shorter.len() && (#[trigger] shorter[i])@ == m;
        assert(longer[i]@ == m);
    }
    if entries[k]@ == m {
        assert(longer[k]@ == m);
    }
}

/// Puts `entry` into the ranked vector `out` at the place that keeps it
/// ranked.
fn insert_ranked(out: &mut Vec<Syscall>, entry: Syscall)
    requires
        ranked(old(out)@),
        forall|i: int| 0 <= i < old(out)@.len() ==> (#[trigger] old(out)@[i]).name@ != entry.name@,
    ensures
        ranked(final(out)@),
        exists|at: int| 0 <= at <= old(out)@.len() && final(out)@ == old(out)@.insert(at, entry),
{
    let mut at: usize = 0;
    while at < out.len() && entry_ranks_before(&out[at], &entry)
        invariant
            at <= out@.len(),
            forall|i: int| 0 <= i < at ==> ranks_before((#[trigger] out@[i])@, entry@),
        decreases out@.len() - at,
    {
        at += 1;
    }
    let ghost before = out@;
    proof {
        assert forall|i: int| at <= i < before.len() implies ranks_before(
            entry@,
            (#[trigger] before[i])@,
        ) by {
            let first = before[at as int]@;
            assert(before[at as int].name@ != entry.name@);
            lemma_name_order_total(entry@.name, first.name);
            if i > at {
                assert(ranks_before(before[at as int]@, before[i]@));
                lemma_ranks_transitive(entry@, first, before[i]@);
            }
        }
    }
    out.insert(at, entry);
    proof {
        assert forall|i: int, j: int| 0 <= i < j < out@.len() implies ranks_before(
            (#[trigger] out@[i])@,
            (#[trigger] out@[j])@,
        ) by {
            if i < at && j > at {
                assert(ranks_before(before[i]@, before[j - 1]@));
            } else if i > at {
                assert(ranks_before(before[i - 1]@, before[j - 1]@));
            } else if j < at {
                assert(ranks_before(before[i]@, before[j]@));
            } else if i == at {
                assert(ranks_before(entry@, before[j - 1]@));
            } else {
                assert(ranks_before(before[i]@, entry@));
            }
        }
    }
}

/// The entries of `table` in the order of the report: by cost, the highest
/// first; entries of equal cost by name.
pub fn report(table: &SyscallTable) -> (out: Vec<Syscall>)
    ensures
        lists(out@, table@),
        ranked(out@),
        forall|i: int, j: int| 0 <= i < j < out@.len() ==> out@[i].cost >= out@[j].cost,
{
    let entries = table.entries();
    let mut out: Vec<Syscall> = Vec::new();
    let mut k: usize = 0;
    while k < entries.len()
        invariant
            k <= entries@.len(),
            lists(entries@, table@),
            out@.len() == k,
            ranked(out@),
            forall|m: SyscallModel| #[trigger] has_entry(out@, m) == has_entry(entries@.take(k as int), m),
        decreases entries@.len() - k,
    {
        let entry = &entries[k];
        let copy = Syscall { name: entry.name.clone(), cost: entry.cost, count: entry.count };
        assert(copy@ == entry@);
        let ghost before = out@;
        proof {
            assert forall|i: int| 0 <= i < before.len() implies (#[trigger] before[i]).name@
                != copy.name@ by {
                let m = before[i]@;
                assert(has_entry(before, m));
                let shorter = entries@.take(k as int);
                let j = choose|j: int| 0 <= j < shorter.len() && (#[trigger] shorter[j])@ == m;
                assert(shorter[j] == entries@[j]);
                assert(entries@[j].name@ != entries@[k as int].name@);
            }
        }
        insert_ranked(&mut out, copy);
        proof {
            let at = choose|at: int| 0 <= at <= before.len() && out@ == before.insert(at, copy);
            assert forall|m: SyscallModel| #[trigger]
                has_entry(out@, m) == has_entry(entries@.take(k + 1), m) by {
                lemma_has_entry_insert(before, at, copy, m);
                lemma_has_entry_next(entries@, k as int, m);
            }
        }
        k += 1;
    }
    proof {
        assert(entries@.take(k as int) == entries@);
        assert forall|i: int| 0 <= i < out@.len() implies table@.contains_key(
            (#[trigger] out@[i]).name@,
        ) && table@[out@[i].name@] == out@[i]@.stat by {
            let m = out@[i]@;
            assert(has_entry(out@, m));
            let j = choose|j: int| 0 <= j < entries@.len() && (#[trigger] entries@[j])@ == m;
            assert(table@.contains_key(entries@[j].name@));
        }
        assert forall|name: Seq<char>| #[trigger] table@.contains_key(name) implies exists|i: int|
            0 <= i < out@.len() && (#[trigger] out@[i]).name@ == name by {
            let j = choose|j: int| 0 <= j < entries@.len() && (#[trigger] entries@[j]).name@ == name;
            let m = entries@[j]@;
            assert(has_entry(entries@, m));
            assert(has_entry(out@, m));
            let i = choose|i: int| 0 <= i < out@.len() && (#[trigger] out@[i])@ == m;
            assert(out@[i].name@ == name);
        }
        assert forall|i: int, j: int| 0 <= i < j < out@.len() implies (#[trigger] out@[i]).name@ != (
        #[trigger] out@[j]).name@ by {
            assert(ranks_before(out@[i]@, out@[j]@));
            if out@[i].name@ == out@[j].name@ {
                lemma_name_irreflexive(out@[i].name@);
            }
        }
        assert forall|i: int, j: int| 0 <= i < j < out@.len() implies out@[i].cost >= out@[j].cost by {
            assert(ranks_before(out@[i]@, out@[j]@));
        }
    }
    out
}

/// No name stands before itself.
pub proof fn lemma_name_irreflexive(a: Seq<char>)
    ensures
        !name_before(a, a),
    decreases a.len(),
{
    if a.len() > 0 {
        lemma_name_irreflexive(a.skip(1));
    }
}

/// The lines of a report, one per entry and in the same order.
pub fn render(entries: &Vec<Syscall>) -> (out: Vec<String>)
    ensures
        out@.len() == entries@.len(),
        forall|i: int| 0 <= i < out@.len() ==> (#[trigger] out@[i])@ == report_line(entries@[i]@),
{
    let mut out: Vec<String> = Vec::new();
    let mut i: usize = 0;
    while i < entries.len()
        invariant
            i <= entries@.len(),
            out@.len() == i,
            forall|j: int| 0 <= j < i ==> (#[trigger] out@[j])@ == report_line(entries@[j]@),
        decreases entries@.len() - i,
    {
        out.push(entries[i].to_string());
        i += 1;
    }
    out
}

} // verus!
