//! The running totals of one system call, and how they are printed.

use vstd::prelude::*;
use vstd::string::StringExecFns;

verus! {

/// The totals kept for one system-call name.
#[derive(Clone, Debug, PartialEq, Eq)]
pub struct Syscall {
    /// The name of the system call.
    pub name: String,
    /// The summed duration of its calls, in nanoseconds.
    pub cost: u128,
    /// How many of its calls were seen.
    pub count: u64,
}

/// Summed cost, in nanoseconds, and number of calls.
pub struct Stat {
    pub cost: nat,
    pub count: nat,
}

/// The mathematical value of a [`Syscall`].
pub struct SyscallModel {
    pub name: Seq<char>,
    pub stat: Stat,
}

impl View for Syscall {
    type V = SyscallModel;

    open spec fn view(&self) -> SyscallModel {
        SyscallModel {
            name: self.name@,
            stat: Stat { cost: self.cost as nat, count: self.count as nat },
        }
    }
}

/// The character for a single decimal digit.
pub open spec fn digit_char(d: nat) -> char {
    if d == 0 {
        '0'
    } else if d == 1 {
        '1'
    } else if d == 2 {
        '2'
    } else if d == 3 {
        '3'
    } else if d == 4 {
        '4'
    } else if d == 5 {
        '5'
    } else if d == 6 {
        '6'
    } else if d == 7 {
        '7'
    } else if d == 8 {
        '8'
    } else {
        '9'
    }
}

/// `n` in decimal, without leading zeros.
pub open spec fn decimal_digits(n: nat) -> Seq<char>
    decreases n,
{
    if n < 10 {
        seq![digit_char(n)]
    } else {
        decimal_digits(n / 10).push(digit_char(n % 10))
    }
}

/// The last `width` decimal digits of `n`, with leading zeros.
pub open spec fn padded_digits(n: nat, width: nat) -> Seq<char>
    decreases width,
{
    if width == 0 {
        Seq::empty()
    } else {
        padded_digits(n / 10, (width - 1) as nat).push(digit_char(n % 10))
    }
}

/// `s` without the zeros at its end.
pub open spec fn trim_zeros(s: Seq<char>) -> Seq<char>
    decreases s.len(),
{
    if s.len() > 0 && s.last() == '0' {
        trim_zeros(s.drop_last())
    } else {
        s
    }
}

/// A cost in nanoseconds, written in seconds: the whole seconds, then, where
/// the cost is no whole number of seconds, a `.` and the fraction without
/// the zeros at its end. 12000 reads `0.000012`, 1500000000 reads `1.5`.
pub open spec fn seconds_text(nanos: nat) -> Seq<char> {
    let whole = decimal_digits(nanos / 1_000_000_000);
    if nanos % 1_000_000_000 == 0 {
        whole
    } else {
        whole + seq!['.'] + trim_zeros(padded_digits(nanos % 1_000_000_000, 9))
    }
}

/// The report line of one entry.
pub open spec fn report_line(entry: SyscallModel) -> Seq<char> {
    entry.name + ": called "@ + decimal_digits(entry.stat.count) + ", cost "@ + seconds_text(
        entry.stat.cost,
    ) + "s"@
}

fn digit_to_char(d: u8) -> (c: char)
    requires
        d <= 9,
    ensures
        c == digit_char(d as nat),
{
    match d {
        0 => '0',
        1 => '1',
        2 => '2',
        3 => '3',
        4 => '4',
        5 => '5',
        6 => '6',
        7 => '7',
        8 => '8',
        _ => '9',
    }
}

fn push_decimal(out: &mut String, n: u128)
    ensures
        final(out)@ == old(out)@ + decimal_digits(n as nat),
    decreases n,
{
    if n >= 10 {
        push_decimal(out, n / 10);
    }
    out.push(digit_to_char((n % 10) as u8));
}

fn push_padded(out: &mut String, n: u64, width: u8)
    ensures
        final(out)@ == old(out)@ + padded_digits(n as nat, width as nat),
    decreases width,
{
    if width > 0 {
        push_padded(out, n / 10, width - 1);
        out.push(digit_to_char((n % 10) as u8));
    }
}

fn push_seconds(out: &mut String, nanos: u128)
    ensures
        final(out)@ == old(out)@ + seconds_text(nanos as nat),
{
    push_decimal(out, nanos / 1_000_000_000);
    let frac: u64 = (nanos % 1_000_000_000) as u64;
    if frac != 0 {
        out.push('.');
        let mut rest: u64 = frac;
        let mut width: u8 = 9;
        while width > 0 && rest % 10 == 0
            invariant
                width <= 9,
                trim_zeros(padded_digits(frac as nat, 9)) == trim_zeros(
                    padded_digits(rest as nat, width as nat),
                ),
            decreases width,
        {
            assert(padded_digits(rest as nat, width as nat).drop_last() == padded_digits(
                (rest / 10) as nat,
                (width - 1) as nat,
            ));
            rest = rest / 10;
            width = width - 1;
        }
        push_padded(out, rest, width);
    }
}

impl Syscall {
    /// The totals of a name after its first call.
    pub fn new(name: String, nanos: u64) -> (out: Syscall)
        ensures
            out@ == (SyscallModel { name: name@, stat: Stat { cost: nanos as nat, count: 1 } }),
    {
        Syscall { name, cost: nanos as u128, count: 1 }
    }

    /// The line that reports this entry: `<name>: called <count>, cost <seconds>s`.
    pub fn to_string(&self) -> (out: String)
        ensures
            out@ == report_line(self@),
    {
        let mut out = self.name.clone();
        out.append(": called ");
        push_decimal(&mut out, self.count as u128);
        out.append(", cost ");
        push_seconds(&mut out, self.cost);
        out.append("s");
        out
    }
}

} // verus!
