//! The text of a report: one line per word, `<word> <count>` and a newline.

use crate::bag::Entry;
use vstd::prelude::*;

verus! {

/// Assumed of std's `String::push`, not proved here: the string afterwards is
/// the string before with `ch` appended at its end.
pub assume_specification[ String::push ](s: &mut String, ch: char)
    ensures
        final(s)@ == old(s)@.push(ch),
;

/// The character of a decimal digit.
pub open spec fn digit(d: nat) -> char
    recommends
        d < 10,
{
    (48 + d) as char
}

/// `n` in decimal, without leading zeros.
pub open spec fn decimal(n: nat) -> Seq<char>
    decreases n,
{
    if n < 10 {
        seq![digit(n)]
    } else {
        decimal(n / 10).push(digit(n % 10))
    }
}

/// The line of one entry.
pub open spec fn line(e: Entry) -> Seq<char> {
    e.0 + seq![' '] + decimal(e.1) + seq!['\n']
}

/// The lines of the entries, one after another.
pub open spec fn lines(s: Seq<Entry>) -> Seq<char>
    decreases s.len(),
{
    if s.len() == 0 {
        Seq::empty()
    } else {
        lines(s.drop_last()) + line(s.last())
    }
}

/// The lines of two runs of entries joined are the lines of the first
/// followed by those of the second.
pub proof fn lemma_lines_concat(a: Seq<Entry>, b: Seq<Entry>)
    ensures
        lines(a + b) == lines(a) + lines(b),
    decreases b.len(),
{
    if b.len() == 0 {
        assert(a + b =~= a);
        assert(lines(a) + lines(b) =~= lines(a));
    } else {
        assert((a + b).drop_last() =~= a + b.drop_last());
        assert((a + b).last() == b.last());
        lemma_lines_concat(a, b.drop_last());
        assert(lines(a) + lines(b.drop_last()) + line(b.last()) =~= lines(a) + (lines(
            b.drop_last(),
        ) + line(b.last())));
    }
}

/// The character of the decimal digit `d`.
pub fn digit_char(d: u8) -> (c: char)
    requires
        d < 10,
    ensures
        c == digit(d as nat),
{
    (48u8 + d) as char
}

/// Appends `n` in decimal to `f`.
pub fn push_decimal(f: &mut String, n: u64)
    ensures
        final(f)@ == old(f)@ + decimal(n as nat),
    decreases n,
{
    if n >= 10 {
        push_decimal(f, n / 10);
    }
    f.push(digit_char((n % 10) as u8));
    proof {
        if n >= 10 {
            assert(old(f)@ + decimal(n as nat / 10).push(digit(n as nat % 10)) =~= (old(f)@
                + decimal(n as nat / 10)).push(digit(n as nat % 10)));
        } else {
            assert(old(f)@ + seq![digit(n as nat)] =~= old(f)@.push(digit(n as nat)));
        }
    }
}

} // verus!
