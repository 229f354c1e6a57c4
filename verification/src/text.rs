//! Lexical building blocks shared by the encoder and the decoder: character
//! classes, runs of characters, decimal numerals and line structure.

use vstd::prelude::*;

verus! {

/// The characters that count as whitespace: the Unicode `White_Space` set.
pub open spec fn is_space(c: char) -> bool {
    ||| ('\u{9}' <= c && c <= '\u{d}')
    ||| c == ' '
    ||| c == '\u{85}'
    ||| c == '\u{a0}'
    ||| c == '\u{1680}'
    ||| ('\u{2000}' <= c && c <= '\u{200a}')
    ||| c == '\u{2028}'
    ||| c == '\u{2029}'
    ||| c == '\u{202f}'
    ||| c == '\u{205f}'
    ||| c == '\u{3000}'
}

/// The decimal digits `0` to `9`.
pub open spec fn is_digit(c: char) -> bool {
    '0' <= c && c <= '9'
}

/// The number that a decimal digit stands for.
pub open spec fn digit_value(c: char) -> nat {
    (c as int - '0' as int) as nat
}

/// The digit that stands for a number below ten.
pub open spec fn digit_char(d: nat) -> char {
    (d + '0' as nat) as char
}

/// A set of characters that a scan can run over.
#[derive(Clone, Copy, Debug, PartialEq, Eq)]
pub enum CharClass {
    /// Whitespace.
    Space,
    /// Whitespace but a line feed.
    Blank,
    /// The depth marker `.`.
    Dot,
    /// A decimal digit.
    Digit,
    /// Anything but a line feed.
    InLine,
    /// Anything but whitespace.
    InToken,
    /// Anything but `=`.
    InName,
}

impl CharClass {
    /// Whether `c` belongs to the class.
    pub open spec fn has(self, c: char) -> bool {
        match self {
            CharClass::Space => is_space(c),
            CharClass::Blank => is_space(c) && c != '\n',
            CharClass::Dot => c == '.',
            CharClass::Digit => is_digit(c),
            CharClass::InLine => c != '\n',
            CharClass::InToken => !is_space(c),
            CharClass::InName => c != '=',
        }
    }

    /// Tells whether `c` belongs to the class.
    pub fn contains(&self, c: char) -> (r: bool)
        ensures
            r == self.has(c),
    {
        match self {
            CharClass::Space => is_whitespace(c),
            CharClass::Blank => is_whitespace(c) && c != '\n',
            CharClass::Dot => c == '.',
            CharClass::Digit => c >= '0' && c <= '9',
            CharClass::InLine => c != '\n',
            CharClass::InToken => !is_whitespace(c),
            CharClass::InName => c != '=',
        }
    }
}

/// Tells whether `c` is whitespace.
pub fn is_whitespace(c: char) -> (r: bool)
    ensures
        r == is_space(c),
{
    (c >= '\u{9}' && c <= '\u{d}') || c == ' ' || c == '\u{85}' || c == '\u{a0}' || c == '\u{1680}'
        || (c >= '\u{2000}' && c <= '\u{200a}') || c == '\u{2028}' || c == '\u{2029}'
        || c == '\u{202f}' || c == '\u{205f}' || c == '\u{3000}'
}

/// The length of the longest prefix of `s` made of characters of `class`.
#[verifier::opaque]
pub open spec fn run_len(s: Seq<char>, class: CharClass) -> nat
    decreases s.len(),
{
    if s.len() > 0 && class.has(s[0]) {
        1 + run_len(s.skip(1), class)
    } else {
        0
    }
}

/// A run ends inside the text, covers only characters of the class, and
/// stops at the first character outside it.
pub proof fn lemma_run_len(s: Seq<char>, class: CharClass)
    ensures
        run_len(s, class) <= s.len(),
        forall|i: int| 0 <= i < run_len(s, class) ==> class.has(#[trigger] s[i]),
        run_len(s, class) < s.len() ==> !class.has(s[run_len(s, class) as int]),
    decreases s.len(),
{
    reveal(run_len);
    if s.len() > 0 && class.has(s[0]) {
        let t = s.skip(1);
        lemma_run_len(t, class);
        assert forall|i: int| 0 <= i < run_len(s, class) implies class.has(#[trigger] s[i]) by {
            if i > 0 {
                assert(s[i] == t[i - 1]);
            }
        }
        if run_len(s, class) < s.len() {
            assert(s[run_len(s, class) as int] == t[run_len(t, class) as int]);
        }
    }
}

/// A prefix of characters of the class that is followed by the end of the
/// text, or by a character outside the class, is the run.
pub proof fn lemma_run_len_is(s: Seq<char>, class: CharClass, k: nat)
    requires
        k <= s.len(),
        forall|i: int| 0 <= i < k ==> class.has(#[trigger] s[i]),
        k < s.len() ==> !class.has(s[k as int]),
    ensures
        run_len(s, class) == k,
    decreases k,
{
    reveal(run_len);
    if k > 0 {
        let t = s.skip(1);
        assert forall|i: int| 0 <= i < k - 1 implies class.has(#[trigger] t[i]) by {
            assert(t[i] == s[i + 1]);
        }
        lemma_run_len_is(t, class, (k - 1) as nat);
    }
}

/// The run of a prefix of `s` is the run of `s`, cut at the end of the prefix.
pub proof fn lemma_run_len_take(s: Seq<char>, class: CharClass, m: int)
    requires
        0 <= m <= s.len(),
    ensures
        run_len(s.take(m), class) == if run_len(s, class) <= m {
            run_len(s, class)
        } else {
            m as nat
        },
{
    lemma_run_len(s, class);
    let k: nat = if run_len(s, class) <= m { run_len(s, class) } else { m as nat };
    let t = s.take(m);
    assert forall|i: int| 0 <= i < k implies class.has(#[trigger] t[i]) by {
        assert(t[i] == s[i]);
    }
    if k < t.len() {
        assert(t[k as int] == s[k as int]);
    }
    lemma_run_len_is(t, class, k);
}

/// Where the run of `class` that starts at `from` ends.
pub(crate) fn scan(text: &Vec<char>, from: usize, class: CharClass) -> (end: usize)
    requires
        from <= text.len(),
    ensures
        end == from + run_len(text@.skip(from as int), class),
        end <= text.len(),
{
    let mut i: usize = from;
    while i < text.len() && class.contains(text[i])
        invariant
            from <= i <= text.len(),
            forall|j: int| from <= j < i ==> class.has(#[trigger] text@[j]),
        decreases text.len() - i,
    {
        i += 1;
    }
    proof {
        let s = text@.skip(from as int);
        assert forall|j: int| 0 <= j < i - from implies class.has(#[trigger] s[j]) by {
            assert(s[j] == text@[from + j]);
        }
        lemma_run_len_is(s, class, (i - from) as nat);
    }
    i
}

/// `s` without its leading whitespace.
pub open spec fn trim_start(s: Seq<char>) -> Seq<char> {
    s.skip(run_len(s, CharClass::Space) as int)
}

/// Whether `s` begins with `prefix`.
pub open spec fn starts_with(s: Seq<char>, prefix: Seq<char>) -> bool {
    prefix.len() <= s.len() && s.take(prefix.len() as int) == prefix
}

/// Whether `name` is written in square brackets.
pub open spec fn is_bracketed(name: Seq<char>) -> bool {
    name.len() > 0 && name[0] == '[' && name.last() == ']'
}

/// Tells whether the text from `from` on begins with `prefix`.
pub(crate) fn starts_with_at(text: &Vec<char>, from: usize, prefix: &Vec<char>) -> (r: bool)
    requires
        from <= text.len(),
    ensures
        r == starts_with(text@.skip(from as int), prefix@),
{
    let ghost s = text@.skip(from as int);
    if prefix.len() > text.len() - from {
        return false;
    }
    let mut i: usize = 0;
    while i < prefix.len()
        invariant
            from <= text.len(),
            prefix.len() <= text.len() - from,
            i <= prefix.len(),
            s == text@.skip(from as int),
            forall|j: int| 0 <= j < i ==> s[j] == prefix@[j],
        decreases prefix.len() - i,
    {
        if text[from + i] != prefix[i] {
            proof {
                assert(s[i as int] == text@[from + i]);
                assert(s.take(prefix.len() as int)[i as int] != prefix@[i as int]);
            }
            return false;
        }
        proof {
            assert(s[i as int] == text@[from + i]);
        }
        i += 1;
    }
    proof {
        assert(s.take(prefix.len() as int) =~= prefix@);
    }
    true
}

/// The characters of `s`, in order.
pub(crate) fn chars_of(s: &str) -> (r: Vec<char>)
    ensures
        r@ == s@,
{
    let mut out: Vec<char> = Vec::new();
    for c in it: s.chars()
        invariant
            out@ == it.seq().take(it.index()),
    {
        out.push(c);
    }
    out
}

/// `String::push` appends the character `c` to the end of `s`.
pub assume_specification[ String::push ](s: &mut String, c: char)
    ensures
        final(s)@ == old(s)@.push(c),
;

/// The characters of `text` from `from` up to `to`, as a string.
pub(crate) fn string_of(text: &Vec<char>, from: usize, to: usize) -> (r: String)
    requires
        from <= to <= text.len(),
    ensures
        r@ == text@.subrange(from as int, to as int),
{
    let mut out = String::new();
    let mut i: usize = from;
    while i < to
        invariant
            from <= i <= to <= text.len(),
            out@ == text@.subrange(from as int, i as int),
        decreases to - i,
    {
        out.push(text[i]);
        proof {
            assert(text@.subrange(from as int, i as int).push(text@[i as int])
                =~= text@.subrange(from as int, i + 1));
        }
        i += 1;
    }
    out
}

/// Appends the characters of `s` to `out`.
pub(crate) fn push_str(out: &mut Vec<char>, s: &str)
    ensures
        final(out)@ == old(out)@ + s@,
{
    let ghost before = out@;
    for c in it: s.chars()
        invariant
            out@ == before + it.seq().take(it.index()),
    {
        out.push(c);
        proof {
            assert(it.seq().take(it.index() + 1) =~= it.seq().take(it.index()).push(c));
            assert(out@ =~= before + it.seq().take(it.index() + 1));
        }
    }
}

/// Appends the characters of `text` to `out`.
pub(crate) fn push_chars(out: &mut Vec<char>, text: &Vec<char>)
    ensures
        final(out)@ == old(out)@ + text@,
{
    let mut i: usize = 0;
    proof {
        assert(out@ =~= old(out)@ + text@.take(0));
    }
    while i < text.len()
        invariant
            i <= text.len(),
            out@ == old(out)@ + text@.take(i as int),
        decreases text.len() - i,
    {
        out.push(text[i]);
        proof {
            assert(out@ =~= old(out)@ + text@.take(i + 1));
        }
        i += 1;
    }
    proof {
        assert(text@.take(text.len() as int) =~= text@);
    }
}

/// The number that a string of decimal digits stands for.
pub open spec fn decimal_value(s: Seq<char>) -> nat
    decreases s.len(),
{
    if s.len() == 0 {
        0
    } else {
        decimal_value(s.drop_last()) * 10 + digit_value(s.last())
    }
}

/// The decimal numeral of `n`, without leading zeros.
pub open spec fn decimal_text(n: nat) -> Seq<char>
    decreases n,
{
    if n < 10 {
        seq![digit_char(n)]
    } else {
        decimal_text(n / 10).push(digit_char(n % 10))
    }
}

/// The decimal numeral of `v`, with a leading `-` below zero.
pub open spec fn signed_text(v: int) -> Seq<char> {
    if v < 0 {
        seq!['-'] + decimal_text((-v) as nat)
    } else {
        decimal_text(v as nat)
    }
}

/// Appends the decimal numeral of `v` to `out`.
pub(crate) fn push_decimal(out: &mut Vec<char>, v: u64)
    ensures
        final(out)@ == old(out)@ + decimal_text(v as nat),
    decreases v,
{
    if v >= 10 {
        push_decimal(out, v / 10);
    }
    let d: u8 = (v % 10) as u8;
    let c: char = (d + 48u8) as char;
    assert(c == digit_char((v % 10) as nat));
    out.push(c);
    proof {
        assert(out@ =~= old(out)@ + decimal_text(v as nat));
    }
}

/// Appends the decimal numeral of `v` to `out`, with a leading `-` below zero.
pub(crate) fn push_signed(out: &mut Vec<char>, v: i64)
    ensures
        final(out)@ == old(out)@ + signed_text(v as int),
{
    if v < 0 {
        out.push('-');
        let magnitude: u64 = ((-(v + 1)) as u64) + 1;
        push_decimal(out, magnitude);
        proof {
            assert(out@ =~= old(out)@ + signed_text(v as int));
        }
    } else {
        push_decimal(out, v as u64);
    }
}

/// Tells whether `a` and `b` hold the same characters.
pub(crate) fn same_text(a: &Vec<char>, b: &Vec<char>) -> (r: bool)
    ensures
        r == (a@ == b@),
{
    if a.len() != b.len() {
        return false;
    }
    let mut i: usize = 0;
    while i < a.len()
        invariant
            a.len() == b.len(),
            i <= a.len(),
            forall|j: int| 0 <= j < i ==> a@[j] == b@[j],
        decreases a.len() - i,
    {
        if a[i] != b[i] {
            return false;
        }
        i += 1;
    }
    proof {
        assert(a@ =~= b@);
    }
    true
}

/// A numeral is made of digits, at least one, and stands for its number.
pub proof fn lemma_decimal_text(n: nat)
    ensures
        decimal_text(n).len() >= 1,
        forall|i: int| 0 <= i < decimal_text(n).len() ==> is_digit(#[trigger] decimal_text(n)[i]),
        decimal_value(decimal_text(n)) == n,
    decreases n,
{
    if n < 10 {
        let t = decimal_text(n);
        assert(t.drop_last() =~= Seq::<char>::empty());
        assert(decimal_value(t.drop_last()) == 0);
    } else {
        lemma_decimal_text(n / 10);
        let t = decimal_text(n);
        assert(t.drop_last() =~= decimal_text(n / 10));
        assert(t.last() == digit_char(n % 10));
    }
}

} // verus!
