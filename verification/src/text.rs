//! Small helpers on characters, strings and places in a text.

use vstd::prelude::*;

verus! {

/// The characters of `input`, in order.
pub fn chars_of(input: &str) -> (v: Vec<char>)
    ensures
        v@ == input@,
{
    let mut v: Vec<char> = Vec::new();
    for c in it: input.chars()
        invariant
            v@ == it.seq().take(it.index() as int),
            it.seq() == input@,
    {
        v.push(c);
    }
    v
}

/// Appends one character; calls `String::push`.
#[verifier::external_body]
pub(crate) fn push_char(s: &mut String, c: char)
    ensures
        final(s)@ == old(s)@.push(c),
{
    s.push(c)
}

/// The characters with the Unicode property White_Space.
pub open spec fn is_whitespace(c: char) -> bool {
    let n = c as u32;
    (0x09 <= n && n <= 0x0D) || n == 0x20 || n == 0x85 || n == 0xA0 || n == 0x1680 || (0x2000 <= n
        && n <= 0x200A) || n == 0x2028 || n == 0x2029 || n == 0x202F || n == 0x205F || n == 0x3000
}

/// Whether `c` is whitespace.
pub fn whitespace(c: char) -> (r: bool)
    ensures
        r == is_whitespace(c),
{
    let n = c as u32;
    (0x09 <= n && n <= 0x0D) || n == 0x20 || n == 0x85 || n == 0xA0 || n == 0x1680 || (0x2000 <= n
        && n <= 0x200A) || n == 0x2028 || n == 0x2029 || n == 0x202F || n == 0x205F || n == 0x3000
}

/// The line, counted from one, of the place behind the first `i` characters.
pub open spec fn line_at(s: Seq<char>, i: int) -> nat
    decreases i,
{
    if i <= 0 {
        1
    } else if s[i - 1] == '\n' {
        line_at(s, i - 1) + 1
    } else {
        line_at(s, i - 1)
    }
}

/// The column, counted from one, of the place behind the first `i` characters.
pub open spec fn col_at(s: Seq<char>, i: int) -> nat
    decreases i,
{
    if i <= 0 {
        1
    } else if s[i - 1] == '\n' {
        1
    } else {
        col_at(s, i - 1) + 1
    }
}

/// A count as a `usize`: itself where it fits, the greatest `usize` where it
/// does not.
pub open spec fn saturated(n: nat) -> usize {
    if n > usize::MAX {
        usize::MAX
    } else {
        n as usize
    }
}

/// `x` stands in `t` from offset `p` on.
pub open spec fn has_at(t: Seq<char>, p: int, x: Seq<char>) -> bool {
    &&& 0 <= p
    &&& p + x.len() <= t.len()
    &&& forall|i: int| 0 <= i < x.len() ==> t[p + i] == #[trigger] x[i]
}

/// What stands in a text stands there piece by piece.
pub proof fn lemma_has_at_split(t: Seq<char>, p: int, a: Seq<char>, b: Seq<char>)
    requires
        has_at(t, p, a + b),
    ensures
        has_at(t, p, a),
        has_at(t, p + a.len(), b),
{
    assert forall|i: int| 0 <= i < a.len() implies t[p + i] == #[trigger] a[i] by {
        assert((a + b)[i] == a[i]);
    }
    assert forall|i: int| 0 <= i < b.len() implies t[p + a.len() + i] == #[trigger] b[i] by {
        assert((a + b)[a.len() + i] == b[i]);
    }
}

/// What stands in a text is a part of it.
pub proof fn lemma_has_at_subrange(t: Seq<char>, p: int, x: Seq<char>)
    requires
        has_at(t, p, x),
    ensures
        t.subrange(p, p + x.len()) == x,
{
    assert(t.subrange(p, p + x.len()) =~= x);
}

} // verus!
