//! Character-level helpers shared by the parsers and the renderer.

use vstd::prelude::*;
use vstd::utf8::{decode_utf8, valid_utf8};

verus! {

/// `String::push` appends the given character to the end of the string.
pub assume_specification[ String::push ](s: &mut String, ch: char)
    ensures
        final(s)@ == old(s)@.push(ch),
;

/// The text that `String::from_utf8_lossy` makes of `bytes`.
pub uninterp spec fn utf8_lossy(bytes: Seq<u8>) -> Seq<char>;

/// Decodes bytes as UTF-8 text with `String::from_utf8_lossy`, which never
/// fails: valid UTF-8 comes back as the characters it encodes, and in other
/// bytes U+FFFD takes the place of each sequence that is not valid. The
/// contract claims, without proof, that the text is a function of the bytes
/// alone, to which it gives a name, and that valid UTF-8 decodes to its
/// characters.
#[verifier::external_body]
pub(crate) fn decode_lossy(bytes: &[u8]) -> (text: String)
    ensures
        text@ == utf8_lossy(bytes@),
        valid_utf8(bytes@) ==> text@ == decode_utf8(bytes@),
{
    String::from_utf8_lossy(bytes).into_owned()
}

/// The position of the first occurrence of `x` in `s`, or `s.len()` when `s`
/// does not hold `x`.
pub open spec fn first_index<T>(s: Seq<T>, x: T) -> int
    decreases s.len(),
{
    if s.len() == 0 {
        0
    } else if s[0] == x {
        0
    } else {
        1 + first_index(s.skip(1), x)
    }
}

/// `first_index` lies within `0..=s.len()`, nothing before it equals `x`, and
/// where it is a position of `s`, that position holds `x`.
pub proof fn lemma_first_index_bounds<T>(s: Seq<T>, x: T)
    ensures
        0 <= first_index(s, x) <= s.len(),
        forall|j: int| 0 <= j < first_index(s, x) ==> s[j] != x,
        first_index(s, x) < s.len() ==> s[first_index(s, x)] == x,
    decreases s.len(),
{
    if s.len() != 0 && s[0] != x {
        let rest = s.skip(1);
        lemma_first_index_bounds(rest, x);
        assert forall|j: int| 0 <= j < first_index(s, x) implies s[j] != x by {
            if j > 0 {
                assert(rest[j - 1] == s[j]);
            }
        }
    }
}

/// A position `k` that has the three properties of `first_index` is it.
pub proof fn lemma_first_index_is<T>(s: Seq<T>, x: T, k: int)
    requires
        0 <= k <= s.len(),
        forall|j: int| 0 <= j < k ==> s[j] != x,
        k < s.len() ==> s[k] == x,
    ensures
        first_index(s, x) == k,
    decreases s.len(),
{
    if s.len() != 0 && k != 0 {
        let rest = s.skip(1);
        assert forall|j: int| 0 <= j < k - 1 implies rest[j] != x by {
            assert(rest[j] == s[j + 1]);
        }
        lemma_first_index_is(rest, x, k - 1);
    }
}

/// Collects the characters of `text` into a vector, in order.
pub fn chars_of(text: &str) -> (out: Vec<char>)
    ensures
        out@ == text@,
{
    broadcast use vstd::string::group_string_axioms;

    let mut out: Vec<char> = Vec::new();
    for ch in it: text.chars()
        invariant
            it.seq() == text@,
            out@ == text@.take(it.index()),
    {
        out.push(ch);
    }
    assert(text@.take(text@.len() as int) == text@);
    out
}

/// Builds a string holding exactly the characters of `chars[from..to]`.
pub fn string_of(chars: &[char], from: usize, to: usize) -> (out: String)
    requires
        from <= to <= chars@.len(),
    ensures
        out@ == chars@.subrange(from as int, to as int),
{
    let mut out = String::new();
    let mut i: usize = from;
    while i < to
        invariant
            from <= i <= to <= chars@.len(),
            out@ == chars@.subrange(from as int, i as int),
        decreases to - i,
    {
        out.push(chars[i]);
        i += 1;
    }
    out
}

} // verus!
