//! The display-width metric: how many terminal columns a character or a
//! sequence of characters occupies.

use vstd::prelude::*;
use vstd::string::StrSliceExecFns;

verus! {

/// Display width of a character outside the ranges that are pinned down
/// below; the value comes from the Unicode East-Asian-width tables.
pub uninterp spec fn char_width_other(c: char) -> nat;

/// Display width of a character in terminal columns: 0 for control
/// characters, 1 for printable ASCII and the replacement character,
/// otherwise what the Unicode width tables say.
pub open spec fn char_width(c: char) -> nat {
    let u = c as u32;
    if u < 0x20 {
        0
    } else if u < 0x7f {
        1
    } else if u < 0xa0 {
        0
    } else if c == '\u{FFFD}' {
        1
    } else {
        char_width_other(c)
    }
}

/// Display width of a sequence of characters: the sum of the widths of its
/// characters.
pub open spec fn str_width(s: Seq<char>) -> nat
    decreases s.len(),
{
    if s.len() == 0 {
        0
    } else {
        char_width(s[0]) + str_width(s.skip(1))
    }
}

pub proof fn lemma_str_width_take(s: Seq<char>, i: int)
    requires
        0 <= i < s.len(),
    ensures
        str_width(s.take(i + 1)) == str_width(s.take(i)) + char_width(s[i]),
    decreases i,
{
    if i == 0 {
        assert(s.take(1) =~= seq![s[0]]);
        assert(s.take(1).skip(1) =~= Seq::<char>::empty());
        assert(s.take(0) =~= Seq::<char>::empty());
    } else {
        assert(s.take(i + 1).skip(1) =~= s.skip(1).take(i));
        assert(s.take(i).skip(1) =~= s.skip(1).take(i - 1));
        lemma_str_width_take(s.skip(1), i - 1);
        assert(str_width(s.take(i + 1)) == char_width(s[0]) + str_width(s.skip(1).take(i)));
        assert(str_width(s.take(i)) == char_width(s[0]) + str_width(s.skip(1).take(i - 1)));
    }
}

pub proof fn lemma_str_width_concat(a: Seq<char>, b: Seq<char>)
    ensures
        str_width(a + b) == str_width(a) + str_width(b),
    decreases a.len(),
{
    if a.len() == 0 {
        assert(a + b =~= b);
    } else {
        assert((a + b).skip(1) =~= a.skip(1) + b);
        lemma_str_width_concat(a.skip(1), b);
    }
}

/// Relies on unicode_width::UnicodeWidthChar::width: control characters give
/// None (taken here as 0), printable ASCII occupies one column, the
/// replacement character U+FFFD (East-Asian ambiguous) occupies one, and any
/// other character occupies what the Unicode width tables say, never more
/// than three columns (the tables store two-bit widths, remapping the spare
/// value to three, as for U+17D8).
#[verifier::external_body]
pub(crate) fn char_display_width(c: char) -> (r: usize)
    ensures
        r as nat == char_width(c),
        r <= 3,
        c as u32 >= 0xa0 && c != '\u{FFFD}' ==> r as nat == char_width_other(c),
{
    unicode_width::UnicodeWidthChar::width(c).unwrap_or(0)
}

/// Sum the display widths of the characters of `s`, escape sequences not
/// excluded: callers strip those first.
pub(crate) fn measure_str(s: &str) -> (r: usize)
    requires
        s@.len() < usize::MAX as nat / 3,
    ensures
        r as nat == str_width(s@),
        r as nat <= 3 * s@.len(),
{
    let n = s.unicode_len();
    let mut i: usize = 0;
    let mut total: usize = 0;
    while i < n
        invariant
            i <= n,
            n as nat == s@.len(),
            n < usize::MAX / 3,
            total as nat == str_width(s@.take(i as int)),
            total <= 3 * i,
        decreases n - i,
    {
        let c = s.get_char(i);
        let w = char_display_width(c);
        proof {
            lemma_str_width_take(s@, i as int);
        }
        total = total + w;
        i = i + 1;
    }
    proof {
        assert(s@.take(n as int) =~= s@);
    }
    total
}

} // verus!
