//! A model of ANSI styling escape sequences and the operations that carry
//! them through unchanged.
//!
//! The model pins down exactly the select-graphic-rendition sequences
//! (`ESC [ p1 ; p2 ... m`, with zero, one, two, three or five parameters of
//! at most three digits each, valued at most 255): for text whose every
//! escape character starts such a sequence, the stripping and cutting
//! operations are specified exactly; for any other text they degrade
//! gracefully and the contracts say correspondingly less.

use vstd::prelude::*;

verus! {

pub open spec fn is_esc(c: char) -> bool {
    c == '\u{1b}'
}

/// No escape character occurs anywhere in `s`.
pub open spec fn no_esc(s: Seq<char>) -> bool {
    forall|i: int| 0 <= i < s.len() ==> !is_esc(s[i])
}

pub open spec fn is_dig(c: char) -> bool {
    0x30 <= c as u32 <= 0x39
}

pub open spec fn dig_val(c: char) -> nat {
    (c as u32 - 0x30) as nat
}

/// A single graphics parameter: one to three digits, valued at most 255.
pub open spec fn param_ok(digits: Seq<char>) -> bool {
    if digits.len() == 1 {
        is_dig(digits[0])
    } else if digits.len() == 2 {
        is_dig(digits[0]) && is_dig(digits[1])
    } else if digits.len() == 3 {
        is_dig(digits[0]) && is_dig(digits[1]) && is_dig(digits[2]) && dig_val(digits[0]) * 100
            + dig_val(digits[1]) * 10 + dig_val(digits[2]) <= 255
    } else {
        false
    }
}

pub open spec fn param_count_ok(n: nat) -> bool {
    n == 1 || n == 2 || n == 3 || n == 5
}

/// Scans the body of a graphics sequence, the part after `ESC [`.  Returns
/// the number of characters up to and including the final `m`, or None if
/// the body is not well-formed.  `done` counts the parameters already
/// finished by a `;`, `digits` holds the digits of the current parameter.
pub open spec fn sgr_body(s: Seq<char>, done: nat, digits: Seq<char>) -> Option<nat>
    decreases s.len(),
{
    if s.len() == 0 {
        None
    } else {
        let c = s[0];
        if c == 'm' {
            if digits.len() == 0 {
                if done == 0 {
                    Some(1)
                } else {
                    None
                }
            } else if param_ok(digits) && param_count_ok(done + 1) {
                Some(1)
            } else {
                None
            }
        } else if c == ';' {
            if param_ok(digits) {
                match sgr_body(s.skip(1), done + 1, Seq::empty()) {
                    Some(k) => Some((k + 1) as nat),
                    None => None,
                }
            } else {
                None
            }
        } else if is_dig(c) {
            match sgr_body(s.skip(1), done, digits.push(c)) {
                Some(k) => Some((k + 1) as nat),
                None => None,
            }
        } else {
            None
        }
    }
}

/// Length of the well-formed graphics sequence starting at the head of `s`
/// (whose first character is expected to be the escape character), including
/// the escape character itself, or 0 if no such sequence starts there.
pub open spec fn esc_len(s: Seq<char>) -> nat {
    if s.len() >= 2 && s[1] == '[' {
        match sgr_body(s.skip(2), 0, Seq::empty()) {
            Some(k) => (k + 2) as nat,
            None => 0,
        }
    } else {
        0
    }
}

pub proof fn lemma_sgr_body_le(s: Seq<char>, done: nat, digits: Seq<char>)
    ensures
        sgr_body(s, done, digits) is Some ==> sgr_body(s, done, digits)->Some_0 <= s.len(),
    decreases s.len(),
{
    if s.len() > 0 {
        let c = s[0];
        if c == ';' && param_ok(digits) {
            lemma_sgr_body_le(s.skip(1), done + 1, Seq::empty());
        } else if c != 'm' && is_dig(c) {
            lemma_sgr_body_le(s.skip(1), done, digits.push(c));
        }
    }
}

pub proof fn lemma_esc_len_le(s: Seq<char>)
    ensures
        esc_len(s) <= s.len(),
{
    if s.len() >= 2 && s[1] == '[' {
        lemma_sgr_body_le(s.skip(2), 0, Seq::empty());
    }
}

/// Every escape character in `s` starts a well-formed graphics sequence.
pub open spec fn ansi_ok(s: Seq<char>) -> bool
    decreases s.len(),
    when s.len() >= 0
    via ansi_ok_decreases
{
    if s.len() == 0 {
        true
    } else if is_esc(s[0]) {
        esc_len(s) > 0 && ansi_ok(s.skip(esc_len(s) as int))
    } else {
        ansi_ok(s.skip(1))
    }
}

#[via_fn]
proof fn ansi_ok_decreases(s: Seq<char>) {
    lemma_esc_len_le(s);
}

/// The visible characters of well-formed text: everything outside the
/// escape sequences, in order.
pub open spec fn visible_structural(s: Seq<char>) -> Seq<char>
    decreases s.len(),
    when s.len() >= 0
    via visible_structural_decreases
{
    if s.len() == 0 {
        Seq::empty()
    } else if is_esc(s[0]) && esc_len(s) > 0 {
        visible_structural(s.skip(esc_len(s) as int))
    } else {
        seq![s[0]] + visible_structural(s.skip(1))
    }
}

#[via_fn]
proof fn visible_structural_decreases(s: Seq<char>) {
    lemma_esc_len_le(s);
}

/// What stripping the escape sequences of text that is not well-formed
/// returns; see `visible`.
pub uninterp spec fn ansi_stripped(s: Seq<char>) -> Seq<char>;

/// The visible content of `s`: for well-formed text the characters outside
/// the escape sequences; for anything else, whatever the stripping
/// operation's graceful degradation keeps.
pub open spec fn visible(s: Seq<char>) -> Seq<char> {
    if ansi_ok(s) {
        visible_structural(s)
    } else {
        ansi_stripped(s)
    }
}

pub proof fn lemma_no_esc_visible(s: Seq<char>)
    ensures
        no_esc(s) ==> ansi_ok(s) && visible_structural(s) == s && visible(s) == s,
    decreases s.len(),
{
    if s.len() > 0 && no_esc(s) {
        assert(!is_esc(s[0]));
        assert(no_esc(s.skip(1))) by {
            assert(forall|i: int| 0 <= i < s.skip(1).len() ==> s.skip(1)[i] == s[i + 1]);
        }
        lemma_no_esc_visible(s.skip(1));
        assert(visible_structural(s) =~= s);
    }
}

/// The head sequence scan only looks at the characters it consumes, so a
/// suffix appended behind them leaves its result unchanged.
pub proof fn lemma_sgr_body_extend(s: Seq<char>, t: Seq<char>, done: nat, digits: Seq<char>)
    requires
        sgr_body(s, done, digits) is Some,
    ensures
        sgr_body(s + t, done, digits) == sgr_body(s, done, digits),
    decreases s.len(),
{
    assert(s.len() > 0);
    let c = s[0];
    assert((s + t)[0] == c);
    assert((s + t).skip(1) =~= s.skip(1) + t);
    if c == 'm' {
    } else if c == ';' && param_ok(digits) {
        lemma_sgr_body_extend(s.skip(1), t, done + 1, Seq::empty());
    } else if is_dig(c) {
        lemma_sgr_body_extend(s.skip(1), t, done, digits.push(c));
    }
}

pub proof fn lemma_esc_len_extend(s: Seq<char>, t: Seq<char>)
    requires
        s.len() > 0,
        is_esc(s[0]),
        esc_len(s) > 0,
    ensures
        esc_len(s + t) == esc_len(s),
{
    assert(s.len() >= 2 && s[1] == '[');
    assert((s + t).len() >= 2 && (s + t)[1] == '[');
    assert((s + t).skip(2) =~= s.skip(2) + t);
    lemma_sgr_body_extend(s.skip(2), t, 0, Seq::empty());
}

/// Concatenating escape-free text behind well-formed text keeps the whole
/// well-formed, and the visible content concatenates.
pub proof fn lemma_visible_concat(a: Seq<char>, b: Seq<char>)
    requires
        ansi_ok(a),
        no_esc(b),
    ensures
        ansi_ok(a + b),
        visible(a + b) == visible(a) + b,
    decreases a.len(),
{
    lemma_no_esc_visible(b);
    if a.len() == 0 {
        assert(a + b =~= b);
        assert(visible(a) + b =~= b);
    } else if is_esc(a[0]) {
        let k = esc_len(a) as int;
        lemma_esc_len_le(a);
        lemma_esc_len_extend(a, b);
        assert((a + b).skip(k) =~= a.skip(k) + b);
        lemma_visible_concat(a.skip(k), b);
        assert(esc_len(a + b) == esc_len(a));
        assert(ansi_ok(a + b));
        assert(visible_structural(a + b) == visible_structural(a.skip(k)) + b);
        assert(visible(a + b) =~= visible(a) + b);
    } else {
        assert((a + b).skip(1) =~= a.skip(1) + b);
        assert((a + b)[0] == a[0]);
        lemma_visible_concat(a.skip(1), b);
        assert(visible_structural(a + b) == seq![a[0]] + (visible_structural(a.skip(1)) + b));
        assert(visible(a + b) =~= visible(a) + b);
    }
}

/// The body scan only ever accepts digits, separators and the final `m`.
pub proof fn lemma_sgr_body_chars(s: Seq<char>, done: nat, digits: Seq<char>)
    requires
        sgr_body(s, done, digits) is Some,
    ensures
        forall|j: int|
            0 <= j < sgr_body(s, done, digits)->Some_0 ==> s[j] != '\t' && !is_esc(s[j]),
    decreases s.len(),
{
    lemma_sgr_body_le(s, done, digits);
    let m = sgr_body(s, done, digits)->Some_0 as int;
    let c = s[0];
    if c == 'm' {
    } else if c == ';' && param_ok(digits) {
        lemma_sgr_body_chars(s.skip(1), done + 1, Seq::empty());
        assert forall|j: int| 0 <= j < m implies s[j] != '\t' && !is_esc(s[j]) by {
            if j >= 1 {
                assert(s[j] == s.skip(1)[j - 1]);
            }
        }
    } else if is_dig(c) {
        lemma_sgr_body_chars(s.skip(1), done, digits.push(c));
        assert forall|j: int| 0 <= j < m implies s[j] != '\t' && !is_esc(s[j]) by {
            if j >= 1 {
                assert(s[j] == s.skip(1)[j - 1]);
            }
        }
    }
}

/// The body scan does not look past what it consumes: truncating there
/// leaves its result unchanged.
pub proof fn lemma_sgr_body_restrict(s: Seq<char>, done: nat, digits: Seq<char>)
    requires
        sgr_body(s, done, digits) is Some,
    ensures
        sgr_body(s.take(sgr_body(s, done, digits)->Some_0 as int), done, digits) == sgr_body(
            s,
            done,
            digits,
        ),
    decreases s.len(),
{
    let m = sgr_body(s, done, digits)->Some_0 as int;
    lemma_sgr_body_le(s, done, digits);
    let t = s.take(m);
    let c = s[0];
    assert(t[0] == c);
    if c == 'm' {
    } else if c == ';' && param_ok(digits) {
        lemma_sgr_body_restrict(s.skip(1), done + 1, Seq::empty());
        assert(t.skip(1) =~= s.skip(1).take(m - 1));
    } else if is_dig(c) {
        lemma_sgr_body_restrict(s.skip(1), done, digits.push(c));
        assert(t.skip(1) =~= s.skip(1).take(m - 1));
    }
}

/// A well-formed escape sequence at the head of `t` holds no tab and no
/// further escape character, and stands on its own.
pub proof fn lemma_esc_chunk(t: Seq<char>)
    requires
        t.len() > 0,
        is_esc(t[0]),
        esc_len(t) > 0,
    ensures
        forall|j: int| 0 <= j < esc_len(t) ==> t[j] != '\t',
        esc_len(t.take(esc_len(t) as int)) == esc_len(t),
    decreases t.len(),
{
    let k = esc_len(t) as int;
    lemma_esc_len_le(t);
    let m = sgr_body(t.skip(2), 0, Seq::empty())->Some_0;
    lemma_sgr_body_chars(t.skip(2), 0, Seq::empty());
    assert(forall|j: int| 2 <= j < k ==> t[j] == t.skip(2)[j - 2]);
    lemma_sgr_body_restrict(t.skip(2), 0, Seq::empty());
    let chunk = t.take(k);
    assert(chunk.len() >= 2 && chunk[1] == '[');
    assert(chunk.skip(2) =~= t.skip(2).take(m as int));
}

/// Escape-free text in front of well-formed text keeps the whole
/// well-formed and passes through the visible content unchanged.
pub proof fn lemma_visible_concat_left(a: Seq<char>, b: Seq<char>)
    requires
        no_esc(a),
        ansi_ok(b),
    ensures
        ansi_ok(a + b),
        visible(a + b) == a + visible(b),
    decreases a.len(),
{
    if a.len() == 0 {
        assert(a + b =~= b);
        assert(a + visible(b) =~= visible(b));
    } else {
        assert(!is_esc((a + b)[0]));
        assert((a + b).skip(1) =~= a.skip(1) + b);
        assert(no_esc(a.skip(1))) by {
            assert(forall|i: int| 0 <= i < a.skip(1).len() ==> a.skip(1)[i] == a[i + 1]);
        }
        lemma_visible_concat_left(a.skip(1), b);
        assert(visible_structural(a + b) == seq![a[0]] + (a.skip(1) + visible(b)));
        assert(visible(a + b) =~= a + visible(b));
    }
}

/// A complete escape sequence in front of well-formed text keeps the whole
/// well-formed and contributes nothing visible.
pub proof fn lemma_visible_chunk(chunk: Seq<char>, b: Seq<char>)
    requires
        chunk.len() > 0,
        is_esc(chunk[0]),
        esc_len(chunk) == chunk.len(),
        ansi_ok(b),
    ensures
        ansi_ok(chunk + b),
        visible(chunk + b) == visible(b),
{
    lemma_esc_len_extend(chunk, b);
    assert((chunk + b).skip(chunk.len() as int) =~= b);
}

/// Relies on ansi_str::AnsiStr::ansi_strip: concatenates the text between
/// the recognised escape sequences, dropping the sequences themselves, and
/// leaving text without escape characters untouched.
#[verifier::external_body]
pub(crate) fn strip_escapes(s: &str) -> (r: String)
    ensures
        r@ == visible(s@),
        !ansi_ok(s@) ==> r@ == ansi_stripped(s@),
        r@.len() <= s@.len(),
{
    ansi_str::AnsiStr::ansi_strip(s)
}

/// Bytes occupied by a character in UTF-8.
pub open spec fn utf8_len_char(c: char) -> nat {
    let u = c as u32;
    if u < 0x80 {
        1
    } else if u < 0x800 {
        2
    } else if u < 0x10000 {
        3
    } else {
        4
    }
}

/// Bytes occupied by a sequence of characters in UTF-8.
pub open spec fn utf8_len(s: Seq<char>) -> nat
    decreases s.len(),
{
    if s.len() == 0 {
        0
    } else {
        utf8_len_char(s[0]) + utf8_len(s.skip(1))
    }
}

pub proof fn lemma_utf8_len_take(s: Seq<char>, i: int)
    requires
        0 <= i < s.len(),
    ensures
        utf8_len(s.take(i + 1)) == utf8_len(s.take(i)) + utf8_len_char(s[i]),
    decreases i,
{
    if i == 0 {
        assert(s.take(1) =~= seq![s[0]]);
        assert(s.take(1).skip(1) =~= Seq::<char>::empty());
        assert(s.take(0) =~= Seq::<char>::empty());
    } else {
        assert(s.take(i + 1).skip(1) =~= s.skip(1).take(i));
        assert(s.take(i).skip(1) =~= s.skip(1).take(i - 1));
        lemma_utf8_len_take(s.skip(1), i - 1);
    }
}

/// Relies on ansi_str::AnsiStr::ansi_cut: keeps the prefix of the visible
/// text up to the given length in bytes, carries the escape sequences seen
/// on the way through unchanged, and closes any graphics mode still open at
/// the cut with the corresponding reset sequences.  The length must fall on
/// a character boundary of the visible text.
#[verifier::external_body]
pub(crate) fn ansi_cut_prefix(s: &str, n: usize) -> (r: String)
    requires
        exists|k: int|
            0 <= k <= visible(s@).len() && utf8_len(visible(s@).take(k)) == n as nat,
    ensures
        ansi_ok(s@) ==> ansi_ok(r@),
        ansi_ok(s@) ==> forall|k: int|
            0 <= k <= visible(s@).len() && utf8_len(visible(s@).take(k)) == n as nat ==> visible(
                r@,
            ) == visible(s@).take(k),
        no_esc(s@) ==> forall|k: int|
            0 <= k <= s@.len() && utf8_len(s@.take(k)) == n as nat ==> r@ == s@.take(k),
{
    ansi_str::AnsiStr::ansi_cut(s, ..n)
}

/// Relies on alloc::string::String::from(char): a string of that one
/// character.
#[verifier::external_body]
pub(crate) fn char_to_string(c: char) -> (r: String)
    ensures
        r@ == seq![c],
{
    String::from(c)
}

} // verus!
