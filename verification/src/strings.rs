//! Escape-transparent string operations: measuring, truncating, trimming,
//! splitting and tab replacement, all expressed against the display-width
//! metric of `crate::width` and the escape model of `crate::ansi`.

use vstd::prelude::*;
use vstd::string::StrSliceExecFns;
use vstd::string::StringExecFns;
use crate::ansi::ansi_cut_prefix;
use crate::ansi::ansi_ok;
use crate::ansi::lemma_no_esc_visible;
use crate::ansi::lemma_utf8_len_take;
use crate::ansi::lemma_visible_concat;
use crate::ansi::no_esc;
use crate::ansi::strip_escapes;
use crate::ansi::utf8_len;
use crate::ansi::utf8_len_char;
use crate::ansi::visible;
use crate::width::char_display_width;
use crate::width::char_width;
use crate::width::lemma_str_width_concat;
use crate::width::lemma_str_width_take;
use crate::width::measure_str;
use crate::width::str_width;

verus! {

/// Display width of text: the summed character widths of its visible
/// content, escape sequences excluded.
pub open spec fn display_width(s: Seq<char>) -> nat {
    str_width(visible(s))
}

/// Occurrences of `c` among the first `i` characters of `s`.
pub open spec fn count_char_upto(s: Seq<char>, c: char, i: int) -> nat
    decreases i,
{
    if i <= 0 {
        0
    } else {
        count_char_upto(s, c, i - 1) + if s[i - 1] == c {
            1nat
        } else {
            0nat
        }
    }
}

pub open spec fn count_char(s: Seq<char>, c: char) -> nat {
    count_char_upto(s, c, s.len() as int)
}

pub proof fn lemma_count_char_le(s: Seq<char>, c: char, i: int)
    requires
        i >= 0,
    ensures
        count_char_upto(s, c, i) <= i,
    decreases i,
{
    if i > 0 {
        lemma_count_char_le(s, c, i - 1);
    }
}

/// Index of the first line break in `s`, or its length if there is none.
pub open spec fn first_nl(s: Seq<char>) -> int
    decreases s.len(),
{
    if s.len() == 0 {
        0
    } else if s[0] == '\n' {
        0
    } else {
        1 + first_nl(s.skip(1))
    }
}

pub proof fn lemma_first_nl(s: Seq<char>)
    ensures
        0 <= first_nl(s) <= s.len(),
        forall|j: int| 0 <= j < first_nl(s) ==> s[j] != '\n',
        first_nl(s) < s.len() ==> s[first_nl(s)] == '\n',
    decreases s.len(),
{
    if s.len() > 0 && s[0] != '\n' {
        lemma_first_nl(s.skip(1));
        assert(forall|j: int| 0 <= j < first_nl(s) ==> s[j] != '\n') by {
            assert(forall|j: int| 1 <= j < first_nl(s) ==> s[j] == s.skip(1)[j - 1]);
        }
    }
}

/// The first line break of `s` is at `m` exactly when nothing before `m`
/// breaks a line and `m` itself does, or `m` is the end.
pub proof fn lemma_first_nl_at(s: Seq<char>, m: int)
    requires
        0 <= m <= s.len(),
        forall|j: int| 0 <= j < m ==> s[j] != '\n',
        m < s.len() ==> s[m] == '\n',
    ensures
        first_nl(s) == m,
    decreases s.len(),
{
    if s.len() > 0 && m > 0 {
        assert(s[0] != '\n');
        assert(forall|j: int| 0 <= j < m - 1 ==> s.skip(1)[j] == s[j + 1]);
        assert(m - 1 < s.skip(1).len() ==> s.skip(1)[m - 1] == s[m]);
        lemma_first_nl_at(s.skip(1), m - 1);
    }
}

/// The segments of `s` delimited by line breaks; an empty `s` yields one
/// empty segment.
pub open spec fn split_on_nl(s: Seq<char>) -> Seq<Seq<char>>
    decreases s.len(),
    when s.len() >= 0
    via split_on_nl_decreases
{
    let i = first_nl(s);
    if i >= s.len() {
        seq![s]
    } else {
        seq![s.take(i)] + split_on_nl(s.skip(i + 1))
    }
}

#[via_fn]
proof fn split_on_nl_decreases(s: Seq<char>) {
    lemma_first_nl(s);
}

pub proof fn lemma_split_count(s: Seq<char>)
    ensures
        split_on_nl(s).len() == count_char(s, '\n') + 1,
    decreases s.len(),
{
    lemma_first_nl(s);
    let i = first_nl(s);
    lemma_count_split(s, i);
    if i < s.len() {
        lemma_split_count(s.skip(i + 1));
    }
}

/// Counting line breaks splits around position `i` when `s[i]` is a break
/// and nothing before it is.
proof fn lemma_count_split(s: Seq<char>, i: int)
    requires
        0 <= i <= s.len(),
        forall|j: int| 0 <= j < i ==> s[j] != '\n',
        i < s.len() ==> s[i] == '\n',
    ensures
        i < s.len() ==> count_char(s, '\n') == 1 + count_char(s.skip(i + 1), '\n'),
        i >= s.len() ==> count_char(s, '\n') == 0,
{
    lemma_count_drop(s, '\n', i);
}

/// Splits a count at position `i`: occurrences below `i`, plus the one at
/// `i` if any, plus those of the remainder.
proof fn lemma_count_drop(s: Seq<char>, c: char, i: int)
    requires
        0 <= i <= s.len(),
        forall|j: int| 0 <= j < i ==> s[j] != c,
    ensures
        i < s.len() ==> count_char(s, c) == (if s[i] == c {
            1nat
        } else {
            0nat
        }) + count_char(s.skip(i + 1), c),
        i >= s.len() ==> count_char(s, c) == 0,
{
    lemma_count_upto_zero(s, c, i);
    if i < s.len() {
        lemma_count_tail(s, c, i);
    }
}

proof fn lemma_count_upto_zero(s: Seq<char>, c: char, i: int)
    requires
        0 <= i <= s.len(),
        forall|j: int| 0 <= j < i ==> s[j] != c,
    ensures
        count_char_upto(s, c, i) == 0,
    decreases i,
{
    if i > 0 {
        lemma_count_upto_zero(s, c, i - 1);
    }
}

proof fn lemma_count_tail(s: Seq<char>, c: char, i: int)
    requires
        0 <= i < s.len(),
    ensures
        count_char_upto(s, c, s.len() as int) == count_char_upto(s, c, i + 1) + count_char(
            s.skip(i + 1),
            c,
        ),
    decreases s.len(),
{
    lemma_count_shift(s, c, i + 1, s.len() as int);
}

/// Counting from `a` to `b` in `s` equals counting the shifted remainder.
proof fn lemma_count_shift(s: Seq<char>, c: char, a: int, b: int)
    requires
        0 <= a <= b <= s.len(),
    ensures
        count_char_upto(s, c, b) == count_char_upto(s, c, a) + count_char_upto(
            s.skip(a),
            c,
            b - a,
        ),
    decreases b - a,
{
    if b > a {
        lemma_count_shift(s, c, a, b - 1);
        assert(s.skip(a)[b - 1 - a] == s[b - 1]);
    }
}

/// Every segment of the split is no longer than the text it came from.
pub proof fn lemma_split_part_len(s: Seq<char>)
    ensures
        forall|k: int|
            0 <= k < split_on_nl(s).len() ==> #[trigger] split_on_nl(s)[k].len() <= s.len(),
    decreases s.len(),
{
    lemma_first_nl(s);
    let i = first_nl(s);
    if i < s.len() {
        lemma_split_part_len(s.skip(i + 1));
        let rest = split_on_nl(s.skip(i + 1));
        assert(forall|k: int|
            1 <= k < split_on_nl(s).len() ==> #[trigger] split_on_nl(s)[k] == rest[k - 1]);
        assert(split_on_nl(s)[0].len() <= s.len());
    }
}

/// Number of line-break-delimited segments: one more than the number of
/// line breaks; an empty string counts as one line.
pub fn count_lines(s: &str) -> (r: usize)
    requires
        s@.len() < usize::MAX as nat,
    ensures
        r as nat == count_char(s@, '\n') + 1,
        r as nat == split_on_nl(s@).len(),
{
    let n = s.unicode_len();
    let mut i: usize = 0;
    let mut count: usize = 0;
    while i < n
        invariant
            i <= n,
            n as nat == s@.len(),
            n < usize::MAX,
            count as nat == count_char_upto(s@, '\n', i as int),
            count <= i,
        decreases n - i,
    {
        let c = s.get_char(i);
        proof {
            lemma_count_char_le(s@, '\n', i as int);
        }
        if c == '\n' {
            count = count + 1;
        }
        i = i + 1;
    }
    proof {
        lemma_split_count(s@);
    }
    count + 1
}

/// A tab at `i` that is written behind a backslash: treated as a literal
/// marker, not as a tab.
pub open spec fn tab_escaped_at(s: Seq<char>, i: int) -> bool {
    s[i] == '\t' && i > 0 && s[i - 1] == '\\'
}

/// Unescaped tabs among the first `i` characters.
pub open spec fn count_tabs_upto(s: Seq<char>, i: int) -> nat
    decreases i,
{
    if i <= 0 {
        0
    } else {
        count_tabs_upto(s, i - 1) + if s[i - 1] == '\t' && !tab_escaped_at(s, i - 1) {
            1nat
        } else {
            0nat
        }
    }
}

pub open spec fn count_tabs_spec(s: Seq<char>) -> nat {
    count_tabs_upto(s, s.len() as int)
}

pub proof fn lemma_count_tabs_le(s: Seq<char>, i: int)
    requires
        i >= 0,
    ensures
        count_tabs_upto(s, i) <= i,
    decreases i,
{
    if i > 0 {
        lemma_count_tabs_le(s, i - 1);
    }
}

/// Number of unescaped tab characters in `s`.
pub fn count_tabs(s: &str) -> (r: usize)
    ensures
        r as nat == count_tabs_spec(s@),
{
    let n = s.unicode_len();
    let mut i: usize = 0;
    let mut count: usize = 0;
    let mut prev_backslash = false;
    while i < n
        invariant
            i <= n,
            n as nat == s@.len(),
            count as nat == count_tabs_upto(s@, i as int),
            count <= i,
            prev_backslash == (i > 0 && s@[i as int - 1] == '\\'),
        decreases n - i,
    {
        let c = s.get_char(i);
        proof {
            lemma_count_tabs_le(s@, i as int);
        }
        if c == '\t' && !prev_backslash {
            count = count + 1;
        }
        prev_backslash = c == '\\';
        i = i + 1;
    }
    count
}

/// Display width of a string: the summed widths of its visible characters,
/// escape sequences contributing nothing.
pub fn string_width(text: &str) -> (r: usize)
    requires
        text@.len() < usize::MAX as nat / 3,
    ensures
        r as nat == display_width(text@),
        r as nat <= 3 * text@.len(),
{
    let stripped = strip_escapes(text);
    measure_str(stripped.as_str())
}

/// Greatest width among the first `i` segments.
pub open spec fn max_width_upto(ls: Seq<Seq<char>>, i: int) -> nat
    decreases i,
{
    if i <= 0 {
        0
    } else {
        let w = str_width(ls[i - 1]);
        let m = max_width_upto(ls, i - 1);
        if w > m {
            w
        } else {
            m
        }
    }
}

/// Display width of multi-line text: the greatest display width among its
/// lines; empty text measures 0.
pub open spec fn multiline_width(s: Seq<char>) -> nat {
    max_width_upto(split_on_nl(visible(s)), split_on_nl(visible(s)).len() as int)
}

/// Greatest display width among the lines of `text`.
pub fn string_width_multiline(text: &str) -> (r: usize)
    requires
        text@.len() < usize::MAX as nat / 3,
    ensures
        r as nat == multiline_width(text@),
{
    let stripped = strip_escapes(text);
    let lines = split_lines_plain(stripped.as_str());
    let ghost ls = split_on_nl(stripped@);
    let mut i: usize = 0;
    let mut best: usize = 0;
    proof {
        lemma_split_part_len(stripped@);
    }
    while i < lines.len()
        invariant
            i <= lines.len(),
            lines.deep_view() == ls,
            ls == split_on_nl(stripped@),
            stripped@ == visible(text@),
            stripped@.len() < usize::MAX as nat / 3,
            forall|k: int| 0 <= k < ls.len() ==> #[trigger] ls[k].len() <= stripped@.len(),
            best as nat == max_width_upto(ls, i as int),
        decreases lines.len() - i,
    {
        assert(lines[i as int]@ == ls[i as int]);
        let w = measure_str(lines[i].as_str());
        if w > best {
            best = w;
        }
        i = i + 1;
    }
    best
}

/// The line-break-delimited segments of `text`, split on the literal line
/// break character with no regard for escape sequences.
pub(crate) fn split_lines_plain(text: &str) -> (r: Vec<String>)
    ensures
        r.deep_view() == split_on_nl(text@),
        r.len() >= 1,
{
    let n = text.unicode_len();
    let mut parts: Vec<String> = Vec::new();
    let mut start: usize = 0;
    let mut i: usize = 0;
    proof {
        assert(text@.skip(0) =~= text@);
        assert(parts.deep_view() =~= Seq::<Seq<char>>::empty());
        assert(Seq::<Seq<char>>::empty() + split_on_nl(text@) =~= split_on_nl(text@));
    }
    while i < n
        invariant
            start <= i <= n,
            n as nat == text@.len(),
            forall|j: int| start <= j < i ==> text@[j] != '\n',
            split_on_nl(text@) =~= parts.deep_view() + split_on_nl(text@.skip(start as int)),
        decreases n - i,
    {
        let c = text.get_char(i);
        if c == '\n' {
            let ghost old_parts = parts.deep_view();
            let piece = text.substring_char(start, i).to_owned();
            parts.push(piece);
            proof {
                let t = text@.skip(start as int);
                assert(forall|j: int| 0 <= j < i - start ==> t[j] == text@[j + start]);
                assert(t[i - start] == text@[i as int]);
                lemma_first_nl_at(t, i - start);
                assert(t.take(i - start) =~= text@.subrange(start as int, i as int));
                assert(t.skip(i - start + 1) =~= text@.skip(i as int + 1));
                assert(parts.deep_view() =~= old_parts + seq![piece@]);
                assert(split_on_nl(text@) =~= parts.deep_view() + split_on_nl(
                    text@.skip(i as int + 1),
                ));
            }
            start = i + 1;
        }
        i = i + 1;
    }
    let ghost old_parts = parts.deep_view();
    let piece = text.substring_char(start, n).to_owned();
    parts.push(piece);
    proof {
        let t = text@.skip(start as int);
        assert(forall|j: int| 0 <= j < t.len() ==> t[j] == text@[j + start]);
        lemma_first_nl_at(t, t.len() as int);
        assert(t =~= text@.subrange(start as int, n as int));
        assert(split_on_nl(t) =~= seq![piece@]);
        assert(parts.deep_view() =~= old_parts + seq![piece@]);
    }
    parts
}

/// What splitting text that is not free of escape characters on line breaks
/// yields; see `ansi_lines`.
pub uninterp spec fn ansi_lines_raw(s: Seq<char>) -> Seq<Seq<char>>;

/// The parts that the escape-carrying split yields: for escape-free text
/// the plain line-break split; for anything else, the parts with the
/// styling in force carried onto each.
pub open spec fn ansi_lines(s: Seq<char>) -> Seq<Seq<char>> {
    if no_esc(s) {
        split_on_nl(s)
    } else {
        ansi_lines_raw(s)
    }
}

/// Relies on ansi_str::AnsiStr::ansi_split: splits the visible text on the
/// line break, re-emitting the escape sequences seen before each part into
/// it and closing the styles left open at each break, so styling applied
/// across a break is kept on both sides.  Escape-free text is split
/// exactly as by the plain line-break split.
#[verifier::external_body]
pub fn get_lines(text: &str) -> (r: Vec<String>)
    ensures
        r.deep_view() == ansi_lines(text@),
        !no_esc(text@) ==> r.deep_view() == ansi_lines_raw(text@),
        r.deep_view().len() == count_char(visible(text@), '\n') + 1,
        ansi_ok(text@) ==> forall|j: int|
            0 <= j < r.deep_view().len() ==> visible(#[trigger] r.deep_view()[j]) == split_on_nl(
                visible(text@),
            )[j] && ansi_ok(r.deep_view()[j]),
{
    ansi_str::AnsiStr::ansi_split(text, "\n").collect()
}

/// Display width of a line with its unescaped tabs charged `tab` columns
/// each.
pub open spec fn tabbed_width(s: Seq<char>, tab: nat) -> nat {
    display_width(s) + count_tabs_spec(s) * tab
}

/// Width of `text` plus `tab_width` columns per unescaped tab: what the text
/// would measure after tab expansion.
pub fn string_width_tab(text: &str, tab_width: usize) -> (r: usize)
    requires
        text@.len() < usize::MAX as nat / 3,
        tabbed_width(text@, tab_width as nat) <= usize::MAX,
    ensures
        r as nat == tabbed_width(text@, tab_width as nat),
{
    let width = string_width(text);
    let tabs = count_tabs(text);
    width + tabs * tab_width
}

/// As `string_width_tab`, guarding the arithmetic: None exactly when the
/// tab-charged width does not fit a machine word.
pub fn checked_string_width_tab(text: &str, tab_width: usize) -> (r: Option<usize>)
    requires
        text@.len() < usize::MAX as nat / 3,
    ensures
        match r {
            Some(w) => w as nat == tabbed_width(text@, tab_width as nat),
            None => tabbed_width(text@, tab_width as nat) > usize::MAX,
        },
{
    let width = string_width(text);
    let tabs = count_tabs(text);
    match tabs.checked_mul(tab_width) {
        Some(m) => width.checked_add(m),
        None => None,
    }
}

/// Greatest tab-charged width among the first `i` lines.
pub open spec fn max_tabbed_upto(ls: Seq<Seq<char>>, tab: nat, i: int) -> nat
    decreases i,
{
    if i <= 0 {
        0
    } else {
        let w = tabbed_width(ls[i - 1], tab);
        let m = max_tabbed_upto(ls, tab, i - 1);
        if w > m {
            w
        } else {
            m
        }
    }
}

/// Greatest tab-charged width among the lines of `s`.
pub open spec fn multiline_tabbed_width(s: Seq<char>, tab: nat) -> nat {
    max_tabbed_upto(split_on_nl(s), tab, split_on_nl(s).len() as int)
}

/// Greatest width among the lines of `text`, each line's unescaped tabs
/// charged `tab_width` columns.
pub fn string_width_multiline_tab(text: &str, tab_width: usize) -> (r: usize)
    requires
        text@.len() < usize::MAX as nat / 3,
        forall|k: int|
            0 <= k < split_on_nl(text@).len() ==> tabbed_width(
                #[trigger] split_on_nl(text@)[k],
                tab_width as nat,
            ) <= usize::MAX,
    ensures
        r as nat == multiline_tabbed_width(text@, tab_width as nat),
{
    let lines = split_lines_plain(text);
    let ghost ls = split_on_nl(text@);
    let mut i: usize = 0;
    let mut best: usize = 0;
    proof {
        lemma_split_part_len(text@);
    }
    while i < lines.len()
        invariant
            i <= lines.len(),
            lines.deep_view() == ls,
            ls == split_on_nl(text@),
            text@.len() < usize::MAX as nat / 3,
            forall|k: int| 0 <= k < ls.len() ==> #[trigger] ls[k].len() <= text@.len(),
            forall|k: int|
                0 <= k < ls.len() ==> tabbed_width(#[trigger] ls[k], tab_width as nat)
                    <= usize::MAX,
            best as nat == max_tabbed_upto(ls, tab_width as nat, i as int),
        decreases lines.len() - i,
    {
        assert(lines[i as int]@ == ls[i as int]);
        let w = string_width_tab(lines[i].as_str(), tab_width);
        if w > best {
            best = w;
        }
        i = i + 1;
    }
    best
}

/// As `string_width_multiline_tab`, guarding the arithmetic: None exactly
/// when some line's tab-charged width does not fit a machine word.
pub fn checked_string_width_multiline_tab(text: &str, tab_width: usize) -> (r: Option<usize>)
    requires
        text@.len() < usize::MAX as nat / 3,
    ensures
        match r {
            Some(w) => w as nat == multiline_tabbed_width(text@, tab_width as nat),
            None => exists|k: int|
                0 <= k < split_on_nl(text@).len() && tabbed_width(
                    #[trigger] split_on_nl(text@)[k],
                    tab_width as nat,
                ) > usize::MAX,
        },
{
    let lines = split_lines_plain(text);
    let ghost ls = split_on_nl(text@);
    let mut i: usize = 0;
    let mut best: usize = 0;
    proof {
        lemma_split_part_len(text@);
    }
    while i < lines.len()
        invariant
            i <= lines.len(),
            lines.deep_view() == ls,
            ls == split_on_nl(text@),
            text@.len() < usize::MAX as nat / 3,
            forall|k: int| 0 <= k < ls.len() ==> #[trigger] ls[k].len() <= text@.len(),
            best as nat == max_tabbed_upto(ls, tab_width as nat, i as int),
        decreases lines.len() - i,
    {
        assert(lines[i as int]@ == ls[i as int]);
        let w = match checked_string_width_tab(lines[i].as_str(), tab_width) {
            Some(w) => w,
            None => {
                return None;
            },
        };
        if w > best {
            best = w;
        }
        i = i + 1;
    }
    Some(best)
}

/// The shape of a width-bounded cut of `s`: how many whole characters fit
/// the budget, how many single-column placeholders fill the remainder when a
/// wide character straddles the boundary, and that character's length in
/// bytes.
pub open spec fn cut_shape(s: Seq<char>, budget: nat) -> (nat, nat, nat)
    decreases s.len(),
{
    if s.len() == 0 {
        (0, 0, 0)
    } else if budget == 0 {
        (0, 0, 0)
    } else {
        let w = char_width(s[0]);
        if w > budget {
            (0, budget, utf8_len_char(s[0]))
        } else {
            let r = cut_shape(s.skip(1), (budget - w) as nat);
            ((r.0 + 1) as nat, r.1, r.2)
        }
    }
}

pub proof fn lemma_cut_shape_le(s: Seq<char>, budget: nat)
    ensures
        cut_shape(s, budget).0 <= s.len(),
    decreases s.len(),
{
    if s.len() > 0 && budget > 0 && char_width(s[0]) <= budget {
        lemma_cut_shape_le(s.skip(1), (budget - char_width(s[0])) as nat);
    }
}

/// The kept prefix plus the placeholders together measure exactly the
/// budget, or the whole width when the budget exceeds it.
pub proof fn lemma_cut_shape_width(s: Seq<char>, budget: nat)
    ensures
        str_width(s.take(cut_shape(s, budget).0 as int)) + cut_shape(s, budget).1 == if budget
            <= str_width(s) {
            budget
        } else {
            str_width(s)
        },
    decreases s.len(),
{
    if s.len() == 0 {
        assert(s.take(0) =~= Seq::<char>::empty());
    } else if budget == 0 {
        assert(s.take(0) =~= Seq::<char>::empty());
    } else {
        let w = char_width(s[0]);
        if w > budget {
            assert(s.take(0) =~= Seq::<char>::empty());
        } else {
            let r = cut_shape(s.skip(1), (budget - w) as nat);
            lemma_cut_shape_width(s.skip(1), (budget - w) as nat);
            lemma_cut_shape_le(s.skip(1), (budget - w) as nat);
            assert(s.take(r.0 as int + 1).skip(1) =~= s.skip(1).take(r.0 as int));
            assert(str_width(s.take(r.0 as int + 1)) == w + str_width(s.skip(1).take(r.0 as int)));
        }
    }
}

/// Walks the characters of `s` against a width budget; returns the number
/// of characters kept, their length in bytes, the number of placeholders
/// owed, and the byte length of the character cut at the boundary.
fn split_at_width(s: &str, width: usize) -> (r: (usize, usize, usize, usize))
    requires
        s@.len() <= usize::MAX as nat / 4,
    ensures
        ({
            let shape = cut_shape(s@, width as nat);
            r.0 as nat == shape.0 && r.1 as nat == utf8_len(s@.take(shape.0 as int)) && r.2 as nat
                == shape.1 && r.3 as nat == shape.2
        }),
{
    let n = s.unicode_len();
    let mut i: usize = 0;
    let mut iw: usize = 0;
    let mut blen: usize = 0;
    proof {
        assert(s@.skip(0) =~= s@);
        assert(s@.take(0) =~= Seq::<char>::empty());
    }
    while i < n
        invariant
            i <= n,
            n as nat == s@.len(),
            n <= usize::MAX / 4,
            iw <= width,
            iw as nat == str_width(s@.take(i as int)),
            blen as nat == utf8_len(s@.take(i as int)),
            blen <= 4 * i,
            cut_shape(s@, width as nat).0 == i + cut_shape(
                s@.skip(i as int),
                (width - iw) as nat,
            ).0,
            cut_shape(s@, width as nat).1 == cut_shape(s@.skip(i as int), (width - iw) as nat).1,
            cut_shape(s@, width as nat).2 == cut_shape(s@.skip(i as int), (width - iw) as nat).2,
        decreases n - i,
    {
        if iw == width {
            return (i, blen, 0, 0);
        }
        let c = s.get_char(i);
        assert(s@.skip(i as int)[0] == c);
        let w = char_display_width(c);
        proof {
            lemma_str_width_take(s@, i as int);
            lemma_utf8_len_take(s@, i as int);
        }
        if w > width - iw {
            let cb = char_utf8_len(c);
            return (i, blen, width - iw, cb);
        }
        let cb = char_utf8_len(c);
        proof {
            assert(s@.skip(i as int).skip(1) =~= s@.skip(i as int + 1));
        }
        iw = iw + w;
        blen = blen + cb;
        i = i + 1;
    }
    proof {
        if i == n {
            assert(s@.skip(i as int) =~= Seq::<char>::empty());
        }
    }
    (i, blen, 0, 0)
}

/// Bytes the character occupies in UTF-8 encoding.
fn char_utf8_len(c: char) -> (r: usize)
    ensures
        r as nat == utf8_len_char(c),
        1 <= r <= 4,
{
    let u = c as u32;
    if u < 0x80 {
        1
    } else if u < 0x800 {
        2
    } else if u < 0x10000 {
        3
    } else {
        4
    }
}

/// Where a cut of `s` at the given width falls: the length in bytes of the
/// prefix that fits, the number of placeholder characters owed for a wide
/// character straddling the boundary, and that character's byte length.
pub fn string_split_at_length(s: &str, width: usize) -> (r: (usize, usize, usize))
    requires
        s@.len() <= usize::MAX as nat / 4,
    ensures
        ({
            let shape = cut_shape(s@, width as nat);
            r.0 as nat == utf8_len(s@.take(shape.0 as int)) && r.1 as nat == shape.1 && r.2 as nat
                == shape.2
        }),
{
    let (_, blen, unknowns, boundary) = split_at_width(s, width);
    (blen, unknowns, boundary)
}

/// A run of `n` replacement placeholders.
pub open spec fn fffds(n: nat) -> Seq<char> {
    Seq::new(n, |i: int| '\u{FFFD}')
}

pub proof fn lemma_fffds_width(n: nat)
    ensures
        str_width(fffds(n)) == n,
        no_esc(fffds(n)),
    decreases n,
{
    if n > 0 {
        lemma_fffds_width((n - 1) as nat);
        assert(fffds(n).skip(1) =~= fffds((n - 1) as nat));
    }
}

/// What cutting escape-free text to a width yields: the whole text when it
/// fits, otherwise the longest prefix within the width, completed by one
/// placeholder per column cut away from a straddling wide character.
pub open spec fn plain_cut(s: Seq<char>, w: nat) -> Seq<char> {
    if w >= str_width(s) {
        s
    } else {
        let shape = cut_shape(s, w);
        s.take(shape.0 as int) + fffds(shape.1)
    }
}

/// Cuts `text` to the given display width.  Escape sequences pass through
/// without consuming any budget; a wide character straddling the boundary is
/// dropped whole and its columns are filled with replacement placeholders,
/// so the result's visible width is exactly the requested width whenever the
/// text is at least that wide.
pub fn cut_str(text: &str, width: usize) -> (r: String)
    requires
        text@.len() <= usize::MAX as nat / 4,
    ensures
        width as nat >= display_width(text@) ==> r@ == text@,
        ansi_ok(text@) ==> ansi_ok(r@),
        ansi_ok(text@) ==> visible(r@) == plain_cut(visible(text@), width as nat),
        ansi_ok(text@) && width as nat <= display_width(text@) ==> str_width(visible(r@))
            == width as nat,
        ansi_ok(text@) && width == 0 && display_width(text@) > 0 ==> visible(r@) == Seq::<
            char,
        >::empty(),
        no_esc(text@) ==> r@ == plain_cut(text@, width as nat),
{
    let total = string_width(text);
    if width >= total {
        proof {
            if no_esc(text@) {
                lemma_no_esc_visible(text@);
            }
        }
        return text.to_owned();
    }
    let stripped = strip_escapes(text);
    let (_kept, blen, unknowns, _boundary) = split_at_width(stripped.as_str(), width);
    proof {
        lemma_cut_shape_le(stripped@, width as nat);
        let shape = cut_shape(visible(text@), width as nat);
        assert(stripped@ == visible(text@));
        assert(0 <= shape.0 as int <= visible(text@).len());
        assert(utf8_len(visible(text@).take(shape.0 as int)) == blen as nat);
    }
    let mut out = ansi_cut_prefix(text, blen);
    let ghost prefix = out@;
    let mut j: usize = 0;
    proof {
        reveal_strlit("\u{FFFD}");
        assert(out@ =~= prefix + fffds(0));
    }
    while j < unknowns
        invariant
            j <= unknowns,
            out@ =~= prefix + fffds(j as nat),
        decreases unknowns - j,
    {
        out.append("\u{FFFD}");
        proof {
            reveal_strlit("\u{FFFD}");
            assert(prefix + fffds(j as nat) + "\u{FFFD}"@ =~= prefix + fffds(j as nat + 1));
        }
        j = j + 1;
    }
    proof {
        let ghost v = visible(text@);
        let ghost shape = cut_shape(v, width as nat);
        lemma_fffds_width(unknowns as nat);
        lemma_cut_shape_width(v, width as nat);
        if ansi_ok(text@) {
            assert(visible(prefix) == v.take(shape.0 as int));
            lemma_visible_concat(prefix, fffds(unknowns as nat));
            lemma_str_width_concat(v.take(shape.0 as int), fffds(unknowns as nat));
            assert(str_width(visible(out@)) == width as nat);
            if width == 0 {
                assert(visible(out@) =~= Seq::<char>::empty());
            }
        }
        if no_esc(text@) {
            lemma_no_esc_visible(text@);
            assert(prefix == text@.take(shape.0 as int));
            assert(out@ =~= plain_cut(text@, width as nat));
        }
    }
    out
}

/// Unicode white space, as the White_Space property lists it.
pub open spec fn is_white(c: char) -> bool {
    let u = c as u32;
    u == 0x20 || (0x09 <= u && u <= 0x0d) || u == 0x85 || u == 0xa0 || u == 0x1680 || (0x2000 <= u
        && u <= 0x200a) || u == 0x2028 || u == 0x2029 || u == 0x202f || u == 0x205f || u == 0x3000
}

/// Index of the first character that is not white space, or the length if
/// all are.
pub open spec fn first_non_white(s: Seq<char>) -> int
    decreases s.len(),
{
    if s.len() == 0 {
        0
    } else if !is_white(s[0]) {
        0
    } else {
        1 + first_non_white(s.skip(1))
    }
}

/// Length of `s` with its white tail removed.
pub open spec fn trim_end_len(s: Seq<char>) -> int
    decreases s.len(),
{
    if s.len() == 0 {
        0
    } else if !is_white(s[s.len() - 1]) {
        s.len() as int
    } else {
        trim_end_len(s.take(s.len() - 1))
    }
}

/// `s` without its leading and trailing white space.
pub open spec fn trim_spec(s: Seq<char>) -> Seq<char> {
    let a = first_non_white(s);
    if a >= s.len() {
        Seq::empty()
    } else {
        s.subrange(a, trim_end_len(s))
    }
}

/// Relies on ansi_str::AnsiStr::ansi_trim: walks the parsed text, dropping
/// white space from the front of the visible content and from the tail of
/// the text standing behind the last escape sequence, and carries every
/// escape sequence through in its place.  Visible white space that stands
/// directly before an escape sequence at the tail survives it in the
/// source, so only closure under the visible trim is promised, beside
/// exactness on escape-free text.
#[verifier::external_body]
pub fn string_trim(text: &str) -> (r: String)
    ensures
        no_esc(text@) ==> r@ == trim_spec(text@),
        ansi_ok(text@) ==> ansi_ok(r@),
        ansi_ok(text@) ==> trim_spec(visible(r@)) == trim_spec(visible(text@)),
        ansi_ok(text@) && visible(r@).len() > 0 ==> !is_white(visible(r@)[0]),
        ansi_ok(text@) ==> visible(r@).len() <= visible(text@).len(),
{
    ansi_str::AnsiStr::ansi_trim(text)
}

/// What character `i` of `s` contributes after tab replacement: `n` spaces
/// for an unescaped tab, the character itself otherwise.
pub open spec fn tab_piece(s: Seq<char>, i: int, n: nat) -> Seq<char> {
    if s[i] == '\t' && !tab_escaped_at(s, i) {
        Seq::new(n, |j: int| ' ')
    } else {
        seq![s[i]]
    }
}

/// Tab replacement applied to the first `i` characters of `s`.
pub open spec fn replace_tab_upto(s: Seq<char>, n: nat, i: int) -> Seq<char>
    decreases i,
{
    if i <= 0 {
        Seq::empty()
    } else {
        replace_tab_upto(s, n, i - 1) + tab_piece(s, i - 1, n)
    }
}

/// `s` with every unescaped tab replaced by `n` spaces; a tab directly
/// behind a backslash is left as it stands.
pub open spec fn replace_tab_spec(s: Seq<char>, n: nat) -> Seq<char> {
    replace_tab_upto(s, n, s.len() as int)
}

/// Replaces every unescaped tab of `text` by `n` spaces (deleting them when
/// `n` is 0); a tab directly behind a backslash is an escaped marker and is
/// left untouched.
pub fn replace_tab(text: &str, n: usize) -> (r: String)
    ensures
        r@ == replace_tab_spec(text@, n as nat),
{
    let m = text.unicode_len();
    let mut out = String::new();
    let mut i: usize = 0;
    while i < m
        invariant
            i <= m,
            m as nat == text@.len(),
            out@ == replace_tab_upto(text@, n as nat, i as int),
        decreases m - i,
    {
        let c = text.get_char(i);
        let escaped = i > 0 && text.get_char(i - 1) == '\\';
        if c == '\t' && !escaped {
            let ghost base = out@;
            let mut j: usize = 0;
            proof {
                assert(out@ =~= base + Seq::new(0, |k: int| ' '));
            }
            while j < n
                invariant
                    j <= n,
                    out@ =~= base + Seq::new(j as nat, |k: int| ' '),
                decreases n - j,
            {
                out.append(" ");
                proof {
                    reveal_strlit(" ");
                    assert(base + Seq::new(j as nat, |k: int| ' ') + " "@ =~= base + Seq::new(
                        j as nat + 1,
                        |k: int| ' ',
                    ));
                }
                j = j + 1;
            }
            proof {
                assert(out@ =~= replace_tab_upto(text@, n as nat, i as int + 1));
            }
        } else {
            let piece = text.substring_char(i, i + 1);
            out.append(piece);
            proof {
                assert(piece@ =~= seq![text@[i as int]]);
                assert(out@ =~= replace_tab_upto(text@, n as nat, i as int + 1));
            }
        }
        i = i + 1;
    }
    out
}

/// In-place form of `replace_tab`: rewrites `cell` to its tab-replaced
/// content.
pub fn replace_tab_range(cell: &mut String, n: usize)
    ensures
        final (cell)@ == replace_tab_spec(old(cell)@, n as nat),
{
    let r = replace_tab(cell.as_str(), n);
    *cell = r;
}

/// Tab replacement applied from character `i` of `s` onward.
#[verifier::opaque]
pub open spec fn replace_tab_from(s: Seq<char>, n: nat, i: int) -> Seq<char>
    decreases s.len() - i,
{
    if i < 0 || i >= s.len() {
        Seq::empty()
    } else {
        tab_piece(s, i, n) + replace_tab_from(s, n, i + 1)
    }
}

/// Unescaped tabs from character `i` of `s` onward.
#[verifier::opaque]
pub open spec fn count_tabs_from(s: Seq<char>, i: int) -> nat
    decreases s.len() - i,
{
    if i < 0 || i >= s.len() {
        0
    } else {
        (if s[i] == '\t' && !tab_escaped_at(s, i) {
            1nat
        } else {
            0nat
        }) + count_tabs_from(s, i + 1)
    }
}

proof fn lemma_replace_split(s: Seq<char>, n: nat, i: int)
    requires
        0 <= i <= s.len(),
    ensures
        replace_tab_upto(s, n, i) + replace_tab_from(s, n, i) == replace_tab_spec(s, n),
        count_tabs_upto(s, i) + count_tabs_from(s, i) == count_tabs_spec(s),
    decreases s.len() - i,
{
    reveal_with_fuel(replace_tab_from, 2);
    reveal_with_fuel(count_tabs_from, 2);
    if i == s.len() {
        assert(replace_tab_upto(s, n, i) + replace_tab_from(s, n, i) =~= replace_tab_upto(
            s,
            n,
            i,
        ));
    } else {
        lemma_replace_split(s, n, i + 1);
        assert(replace_tab_upto(s, n, i + 1) =~= replace_tab_upto(s, n, i) + tab_piece(s, i, n));
        assert(replace_tab_upto(s, n, i) + (tab_piece(s, i, n) + replace_tab_from(s, n, i + 1))
            =~= (replace_tab_upto(s, n, i) + tab_piece(s, i, n)) + replace_tab_from(s, n, i + 1));
    }
}

/// A stretch without tabs passes through tab replacement unchanged.
proof fn lemma_replace_chunk(s: Seq<char>, n: nat, i: int, k: int)
    requires
        0 <= i,
        0 <= k,
        i + k <= s.len(),
        forall|j: int| i <= j < i + k ==> s[j] != '\t',
    ensures
        replace_tab_from(s, n, i) == s.subrange(i, i + k) + replace_tab_from(s, n, i + k),
        count_tabs_from(s, i) == count_tabs_from(s, i + k),
    decreases k,
{
    reveal_with_fuel(replace_tab_from, 2);
    reveal_with_fuel(count_tabs_from, 2);
    if k == 0 {
        assert(s.subrange(i, i) + replace_tab_from(s, n, i) =~= replace_tab_from(s, n, i));
    } else {
        lemma_replace_chunk(s, n, i + 1, k - 1);
        assert(tab_piece(s, i, n) =~= seq![s[i]]);
        assert(seq![s[i]] + (s.subrange(i + 1, i + k) + replace_tab_from(s, n, i + k))
            =~= s.subrange(i, i + k) + replace_tab_from(s, n, i + k));
    }
}

/// The suffix of well-formed text from a chunk boundary on: replacing its
/// unescaped tabs by `n` spaces keeps it well-formed and adds `n` visible
/// columns per such tab.
#[verifier::rlimit(100)]
#[verifier::spinoff_prover]
proof fn lemma_tab_expansion_from(s: Seq<char>, n: nat, i: int)
    requires
        0 <= i <= s.len(),
        ansi_ok(s.skip(i)),
    ensures
        ansi_ok(replace_tab_from(s, n, i)),
        str_width(visible(replace_tab_from(s, n, i))) == str_width(visible(s.skip(i))) + n
            * count_tabs_from(s, i),
    decreases s.len() - i,
{
    reveal_with_fuel(replace_tab_from, 2);
    reveal_with_fuel(count_tabs_from, 2);
    assert(n * count_tabs_from(s, i) >= 0) by (nonlinear_arith);
    assert(n * count_tabs_from(s, i + 1) >= 0) by (nonlinear_arith);
    let t = s.skip(i);
    let rep = replace_tab_from(s, n, i);
    if i == s.len() {
        assert(t =~= Seq::<char>::empty());
        lemma_no_esc_visible(Seq::<char>::empty());
        assert(n * count_tabs_from(s, i) == 0) by (nonlinear_arith)
            requires
                count_tabs_from(s, i) == 0,
        ;
    } else if crate::ansi::is_esc(t[0]) {
        let k = crate::ansi::esc_len(t) as int;
        crate::ansi::lemma_esc_len_le(t);
        crate::ansi::lemma_esc_chunk(t);
        let chunk = t.take(k);
        assert(t.skip(k) =~= s.skip(i + k));
        lemma_tab_expansion_from(s, n, i + k);
        assert(forall|j: int| i <= j < i + k ==> s[j] == t[j - i]);
        lemma_replace_chunk(s, n, i, k);
        assert(s.subrange(i, i + k) =~= chunk);
        assert(rep == chunk + replace_tab_from(s, n, i + k));
        crate::ansi::lemma_visible_chunk(chunk, replace_tab_from(s, n, i + k));
        assert(visible(t) == visible(s.skip(i + k))) by {
            assert(crate::ansi::visible_structural(t) == crate::ansi::visible_structural(
                t.skip(k),
            ));
        }
        assert(n * count_tabs_from(s, i) == n * count_tabs_from(s, i + k)) by (nonlinear_arith)
            requires
                count_tabs_from(s, i) == count_tabs_from(s, i + k),
        ;
    } else {
        assert(t.skip(1) =~= s.skip(i + 1));
        lemma_tab_expansion_from(s, n, i + 1);
        let rest = replace_tab_from(s, n, i + 1);
        let piece = tab_piece(s, i, n);
        assert(s[i] == t[0]);
        if s[i] == '\t' && !tab_escaped_at(s, i) {
            assert(piece =~= Seq::new(n, |j: int| ' '));
            assert(no_esc(piece));
            crate::ansi::lemma_visible_concat_left(piece, rest);
            lemma_str_width_concat(piece, visible(rest));
            lemma_spaces_width(n);
            assert(visible(t) == seq![t[0]] + visible(t.skip(1))) by {
                assert(crate::ansi::visible_structural(t) == seq![t[0]]
                    + crate::ansi::visible_structural(t.skip(1)));
            }
            lemma_str_width_concat(seq![t[0]], visible(t.skip(1)));
            lemma_str_width_single(t[0]);
            assert(char_width(t[0]) == 0);
            let c0 = count_tabs_from(s, i + 1);
            assert(count_tabs_from(s, i) == c0 + 1);
            assert(n * count_tabs_from(s, i) == n * c0 + n) by (nonlinear_arith)
                requires
                    count_tabs_from(s, i) == c0 + 1,
            ;
        } else {
            assert(n * count_tabs_from(s, i) == n * count_tabs_from(s, i + 1)) by (nonlinear_arith)
                requires
                    count_tabs_from(s, i) == count_tabs_from(s, i + 1),
            ;
            assert(piece =~= seq![s[i]]);
            assert(no_esc(piece)) by {
                assert(forall|j: int| 0 <= j < piece.len() ==> piece[j] == s[i]);
            }
            crate::ansi::lemma_visible_concat_left(piece, rest);
            lemma_str_width_concat(piece, visible(rest));
            assert(visible(t) == seq![t[0]] + visible(t.skip(1))) by {
                assert(crate::ansi::visible_structural(t) == seq![t[0]]
                    + crate::ansi::visible_structural(t.skip(1)));
            }
            lemma_str_width_concat(seq![t[0]], visible(t.skip(1)));
            lemma_str_width_single(s[i]);
        }
    }
}

/// Measuring after tab expansion agrees with the tab-charged width: for
/// text whose every escape character starts a well-formed graphics
/// sequence (escape-free text included), replacing each unescaped tab by
/// `n` spaces adds `n` visible columns per such tab and changes nothing
/// else.
pub proof fn lemma_tab_expansion_width(s: Seq<char>, n: nat)
    requires
        ansi_ok(s),
    ensures
        display_width(replace_tab_spec(s, n)) == tabbed_width(s, n),
{
    assert(s.skip(0) =~= s);
    lemma_tab_expansion_from(s, n, 0);
    lemma_replace_split(s, n, 0);
    assert(replace_tab_upto(s, n, 0) + replace_tab_from(s, n, 0) =~= replace_tab_from(s, n, 0));
    assert(count_tabs_from(s, 0) == count_tabs_spec(s));
    assert(n * count_tabs_spec(s) == count_tabs_spec(s) * n) by (nonlinear_arith);
}

proof fn lemma_str_width_single(c: char)
    ensures
        str_width(seq![c]) == char_width(c),
{
    assert(seq![c].skip(1) =~= Seq::<char>::empty());
    assert(str_width(seq![c]) == char_width(seq![c][0]) + str_width(seq![c].skip(1)));
    assert(seq![c][0] == c);
}

proof fn lemma_spaces_width(n: nat)
    ensures
        str_width(Seq::new(n, |j: int| ' ')) == n,
    decreases n,
{
    if n > 0 {
        lemma_spaces_width((n - 1) as nat);
        assert(Seq::new(n, |j: int| ' ').skip(1) =~= Seq::new((n - 1) as nat, |j: int| ' '));
    }
}

/// Escaped tab markers are never expanded and never counted: text whose
/// every tab stands behind a backslash passes tab replacement unchanged,
/// whatever the tab width, and charges no tab columns.
pub proof fn lemma_escaped_tabs_kept(s: Seq<char>, n: nat)
    requires
        forall|i: int| 0 <= i < s.len() && s[i] == '\t' ==> tab_escaped_at(s, i),
    ensures
        replace_tab_spec(s, n) == s,
        count_tabs_spec(s) == 0,
{
    lemma_escaped_tabs_upto(s, n, s.len() as int);
    assert(replace_tab_spec(s, n) =~= s);
}

proof fn lemma_escaped_tabs_upto(s: Seq<char>, n: nat, i: int)
    requires
        0 <= i <= s.len(),
        forall|j: int| 0 <= j < s.len() && s[j] == '\t' ==> tab_escaped_at(s, j),
    ensures
        replace_tab_upto(s, n, i) =~= s.take(i),
        count_tabs_upto(s, i) == 0,
    decreases i,
{
    if i > 0 {
        lemma_escaped_tabs_upto(s, n, i - 1);
    }
}

} // verus!
