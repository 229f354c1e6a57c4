//! The decoder: a cursor over the text and the stack of open record tags.

use vstd::prelude::*;
use vstd::string::*;
use vstd::utf8::encode_utf8;
use crate::error::Error;
use crate::text::{
    chars_of, decimal_value, digit_value, is_bracketed, is_digit, lemma_run_len, lemma_run_len_take,
    run_len, same_text, scan, starts_with, starts_with_at, string_of, trim_start, CharClass,
};
use crate::value::Width;

verus! {

/// What looking at the first character of `s` gives.
pub open spec fn peeked(s: Seq<char>) -> Result<char, Error> {
    if s.len() == 0 {
        Err(Error::Eof)
    } else {
        Ok(s[0])
    }
}

/// What reading one character of `s` leaves.
pub open spec fn after_char(s: Seq<char>) -> Seq<char> {
    if s.len() == 0 {
        s
    } else {
        s.skip(1)
    }
}

/// A truth value at the head of `s`, and what follows it: `1` is true and
/// `0` is false; one character is read either way.
pub open spec fn parsed_bool(s: Seq<char>) -> (Result<bool, Error>, Seq<char>) {
    if s.len() == 0 {
        (Err(Error::Eof), s)
    } else if s[0] == '1' {
        (Ok(true), s.skip(1))
    } else if s[0] == '0' {
        (Ok(false), s.skip(1))
    } else {
        (Err(Error::ExpectedBoolean), s.skip(1))
    }
}

/// An unsigned number of the given width at the head of `s`, and what
/// follows it: the longest run of digits is read, and must fit the width.
pub open spec fn parsed_unsigned(s: Seq<char>, width: Width) -> (Result<u64, Error>, Seq<char>) {
    if s.len() == 0 {
        (Err(Error::Eof), s)
    } else if !is_digit(s[0]) {
        (Err(Error::ExpectedInteger), s.skip(1))
    } else {
        let n = run_len(s, CharClass::Digit) as int;
        let v = decimal_value(s.take(n));
        (
            if v <= width.unsigned_max() {
                Ok(v as u64)
            } else {
                Err(Error::ExpectedInteger)
            },
            s.skip(n),
        )
    }
}

/// A signed number of the given width at the head of `s`, and what follows
/// it: an optional `-`, then the longest run of digits; the number must fit
/// the width.
pub open spec fn parsed_signed(s: Seq<char>, width: Width) -> (Result<i64, Error>, Seq<char>) {
    let negative = s.len() > 0 && s[0] == '-';
    let t = if negative { s.skip(1) } else { s };
    if t.len() == 0 {
        (Err(Error::Eof), t)
    } else if !is_digit(t[0]) {
        (Err(Error::ExpectedInteger), t.skip(1))
    } else {
        let n = run_len(t, CharClass::Digit) as int;
        let m = decimal_value(t.take(n));
        let v: int = if negative { -m } else { m as int };
        (
            if width.holds_signed(v) {
                Ok(v as i64)
            } else {
                Err(Error::ExpectedInteger)
            },
            t.skip(n),
        )
    }
}

/// Whether `r` holds the text or the failure that `m` holds.
pub open spec fn text_is(r: Result<String, Error>, m: Result<Seq<char>, Error>) -> bool {
    match m {
        Ok(t) => r is Ok && r->Ok_0@ == t,
        Err(e) => r == Err::<String, Error>(e),
    }
}

/// Whether `r` holds the key, the absence of a key, or the failure that `m` holds.
pub open spec fn key_is(
    r: Result<Option<String>, Error>,
    m: Result<Option<Seq<char>>, Error>,
) -> bool {
    match m {
        Ok(Some(t)) => r is Ok && r->Ok_0 is Some && r->Ok_0->Some_0@ == t,
        Ok(None) => r == Ok::<Option<String>, Error>(None),
        Err(e) => r == Err::<Option<String>, Error>(e),
    }
}

/// A byte string at the head of `s`, and what follows it: after an optional
/// `0x`, the rest of the line in UTF-8.
pub open spec fn parsed_bytes(s: Seq<char>) -> (Result<Seq<u8>, Error>, Seq<char>) {
    let t = if starts_with(s, seq!['0', 'x']) { s.skip(2) } else { s };
    if t.len() == 0 {
        (Err(Error::ExpectedNewline), t)
    } else {
        let n = run_len(t, CharClass::InLine) as int;
        (Ok(encode_utf8(t.take(n))), t.skip(n))
    }
}

/// A string at the head of `s`, and what follows it: the rest of the line.
pub open spec fn parsed_string(s: Seq<char>) -> (Result<Seq<char>, Error>, Seq<char>) {
    if s.len() == 0 {
        (Err(Error::ExpectedString), s)
    } else {
        let n = run_len(s, CharClass::InLine) as int;
        (Ok(s.take(n)), s.skip(n))
    }
}

/// The first line of `s`, without its line break: a line feed, or a
/// carriage return and a line feed.
pub open spec fn first_line(s: Seq<char>) -> Seq<char> {
    let n = run_len(s, CharClass::InLine) as int;
    if 0 < n < s.len() && s[n - 1] == '\r' {
        s.take(n - 1)
    } else {
        s.take(n)
    }
}

/// The key at the head of `s`, and what follows it. The depth markers are
/// read. Where the line holds a `=`, the key ends before it and is read.
/// Where it holds none, the key is the line and is not read: it is the tag
/// of the record that the line opens.
pub open spec fn parsed_key(s: Seq<char>) -> (Result<Seq<char>, Error>, Seq<char>) {
    let u = s.skip(run_len(s, CharClass::Dot) as int);
    if u.len() == 0 {
        (Err(Error::Eof), u)
    } else {
        let line = first_line(u);
        let e = run_len(line, CharClass::InName) as int;
        if e < line.len() {
            (Ok(line.take(e)), u.skip(e))
        } else {
            (Ok(line), u)
        }
    }
}

/// Whether opening a record tagged `name` adds to the open tags `tags`: not
/// where the tag on top is `name` already, and not for a bracketed tag with
/// no record open, which is the transparent root.
pub open spec fn opens_level(tags: Seq<Seq<char>>, name: Seq<char>) -> bool {
    if tags.len() == 0 {
        !is_bracketed(name)
    } else {
        tags.last() != name
    }
}

/// The outcome of a step of the decoder that may open a record.
pub struct Opened {
    /// Whether the step added a tag, or the failure.
    pub result: Result<bool, Error>,
    /// The text that is left.
    pub rest: Seq<char>,
    /// The open tags after the step.
    pub tags: Seq<Seq<char>>,
}

/// `s` without its first line, where that line holds nothing but whitespace.
pub open spec fn after_blank_line(s: Seq<char>) -> Seq<char> {
    let w = run_len(s, CharClass::Blank) as int;
    if w < s.len() && s[w] == '\n' {
        s.skip(w + 1)
    } else {
        s
    }
}

/// Opening a record tagged `name` at the head of `s`: one leading line of
/// nothing but whitespace is read; the text must then begin, after
/// whitespace, with `name`; the rest of the line up to and with the next
/// line feed is read.
pub open spec fn opened(s: Seq<char>, tags: Seq<Seq<char>>, name: Seq<char>) -> Opened {
    let t = after_blank_line(s);
    let n = run_len(t, CharClass::InLine) as int;
    if !starts_with(trim_start(t), name) {
        Opened { result: Err(Error::ExpectedStructName), rest: t, tags }
    } else if n == t.len() {
        Opened { result: Err(Error::ExpectedNewline), rest: t, tags }
    } else if opens_level(tags, name) {
        Opened { result: Ok(true), rest: t.skip(n + 1), tags: tags.push(name) }
    } else {
        Opened { result: Ok(false), rest: t.skip(n + 1), tags }
    }
}

/// The next key of the record that is open at depth `depth`, and what
/// follows it. There is none where only whitespace is left, which is read,
/// and none where the next line has fewer than `depth` dots, which is left
/// alone. Before every key but the first a line feed is read.
pub open spec fn next_key(s: Seq<char>, depth: nat, first: bool) -> (
    Result<Option<Seq<char>>, Error>,
    Seq<char>,
) {
    let t = trim_start(s);
    if t.len() == 0 {
        (Ok(None), t)
    } else if run_len(t, CharClass::Dot) < depth {
        (Ok(None), s)
    } else if !first && s[0] != '\n' {
        (Err(Error::ExpectedNewline), s.skip(1))
    } else {
        match parsed_key(t).0 {
            Ok(k) => (Ok(Some(k)), parsed_key(t).1),
            Err(e) => (Err(e), parsed_key(t).1),
        }
    }
}

/// Whether `next_key` got as far as reading a key.
pub open spec fn reaches_key(s: Seq<char>, depth: nat, first: bool) -> bool {
    let t = trim_start(s);
    t.len() > 0 && run_len(t, CharClass::Dot) >= depth && (first || s[0] == '\n')
}

/// The tag that the block at the head of `s` carries: its first word, up to
/// a `=`.
pub open spec fn block_tag(s: Seq<char>) -> Seq<char> {
    let v = trim_start(s);
    let w = v.take(run_len(v, CharClass::InToken) as int);
    w.take(run_len(w, CharClass::InName) as int)
}

/// Whether a sequence goes on with another element, and what is left of
/// `s`. The first element is there unless the text has ended. A later one
/// is there where the next line has one dot less than `tags` has tags and
/// carries the tag on top; whitespace and dots before it are read. A line
/// with as many dots as `tags` has tags, or more, is a failure.
pub open spec fn next_element(s: Seq<char>, tags: Seq<Seq<char>>, first: bool) -> (
    Result<bool, Error>,
    Seq<char>,
) {
    let t = trim_start(s);
    let level = run_len(t, CharClass::Dot);
    let u = t.skip(level as int);
    if s.len() == 0 {
        (Ok(false), s)
    } else if first {
        (Ok(true), trim_start(u))
    } else if level >= tags.len() {
        (Err(Error::WrongLevel), s)
    } else if level + 1 != tags.len() || block_tag(u) != tags.last() {
        (Ok(false), s)
    } else {
        (Ok(true), trim_start(u))
    }
}

/// Whether a tuple goes on with another element, and what is left of `s`.
/// It ends at the end of the line. Before every element but the first a
/// single space is read.
pub open spec fn tuple_element(s: Seq<char>, first: bool) -> (Result<bool, Error>, Seq<char>) {
    if s.len() == 0 || s[0] == '\n' {
        (Ok(false), s)
    } else if first {
        (Ok(true), s)
    } else if s[0] == ' ' {
        (Ok(true), s.skip(1))
    } else {
        (Err(Error::ExpectedArraySeperator), s.skip(1))
    }
}

/// A value grows with every digit appended: a prefix of a numeral stands
/// for no more than the numeral.
pub proof fn lemma_decimal_value_prefix(s: Seq<char>, k: int)
    requires
        0 <= k <= s.len(),
    ensures
        decimal_value(s.take(k)) <= decimal_value(s),
    decreases s.len() - k,
{
    if k == s.len() {
        assert(s.take(k) =~= s);
    } else {
        lemma_decimal_value_prefix(s.drop_last(), k);
        assert(s.drop_last().take(k) =~= s.take(k));
    }
}

/// The number that the digits of `text` from `from` up to `to` stand for,
/// if it is at most `max`.
fn number_at(text: &Vec<char>, from: usize, to: usize, max: u64) -> (r: Option<u64>)
    requires
        from <= to <= text.len(),
        max >= 9,
        forall|i: int| from <= i < to ==> is_digit(#[trigger] text@[i]),
    ensures
        r == if decimal_value(text@.subrange(from as int, to as int)) <= max {
            Some(decimal_value(text@.subrange(from as int, to as int)) as u64)
        } else {
            None
        },
{
    let ghost whole = text@.subrange(from as int, to as int);
    let mut acc: u64 = 0;
    let mut i: usize = from;
    proof {
        assert(text@.subrange(from as int, from as int) =~= Seq::<char>::empty());
    }
    while i < to
        invariant
            from <= i <= to <= text.len(),
            max >= 9,
            whole == text@.subrange(from as int, to as int),
            forall|j: int| from <= j < to ==> is_digit(#[trigger] text@[j]),
            acc == decimal_value(text@.subrange(from as int, i as int)),
            acc <= max,
        decreases to - i,
    {
        let c = text[i];
        let d: u64 = (c as u32 - '0' as u32) as u64;
        proof {
            assert(is_digit(text@[i as int]));
            let next = text@.subrange(from as int, i + 1);
            assert(next.drop_last() =~= text@.subrange(from as int, i as int));
            assert(next.last() == c);
            assert(d == digit_value(c));
            assert(decimal_value(next) == acc * 10 + d);
            assert(whole.take(i + 1 - from) =~= next);
            lemma_decimal_value_prefix(whole, i + 1 - from);
        }
        if acc > (max - d) / 10 {
            return None;
        }
        acc = acc * 10 + d;
        i += 1;
    }
    Some(acc)
}

/// A text and a place in it.
struct Cursor {
    text: Vec<char>,
    pos: usize,
}

impl Cursor {
    #[verifier::type_invariant]
    spec fn well_formed(&self) -> bool {
        self.pos <= self.text.len()
    }

    /// The text from the place on.
    closed spec fn rest(&self) -> Seq<char> {
        self.text@.skip(self.pos as int)
    }

    /// Moves the place forward to `to`.
    fn advance_to(&mut self, to: usize)
        requires
            old(self).pos <= to <= old(self).text.len(),
        ensures
            final(self).rest() == old(self).rest().skip(to - old(self).pos),
            final(self).rest() == old(self).text@.skip(to as int),
            final(self).text == old(self).text,
            final(self).pos == to,
    {
        self.pos = to;
        proof {
            assert(self.rest() =~= old(self).rest().skip(to - old(self).pos));
        }
    }
}

/// A decoder over a text.
///
/// It holds the part of the text that is still to be read, and the tags of
/// the records that are open, outermost first. The number of open tags is
/// the depth: the number of dots that a field line of the innermost record
/// begins with.
pub struct Deserializer {
    input: Cursor,
    keys: Vec<Vec<char>>,
}

impl Deserializer {
    /// The part of the text that is still to be read.
    pub closed spec fn remaining(&self) -> Seq<char> {
        self.input.rest()
    }

    /// The tags of the open records, outermost first.
    pub closed spec fn open_tags(&self) -> Seq<Seq<char>> {
        Seq::new(self.keys.len() as nat, |i: int| self.keys@[i]@)
    }

    /// A decoder at the start of `input`, with no record open.
    pub fn from_str(input: &str) -> (r: Self)
        ensures
            r.remaining() == input@,
            r.open_tags() == Seq::<Seq<char>>::empty(),
    {
        let r = Deserializer { input: Cursor { text: chars_of(input), pos: 0 }, keys: Vec::new() };
        proof {
            assert(r.remaining() =~= input@);
            assert(r.open_tags() =~= Seq::<Seq<char>>::empty());
        }
        r
    }

    /// Looks at the first character of the text without reading it.
    pub fn peek_char(&self) -> (r: Result<char, Error>)
        ensures
            r == peeked(self.remaining()),
    {
        proof {
            use_type_invariant(&self.input);
        }
        if self.input.pos < self.input.text.len() {
            Ok(self.input.text[self.input.pos])
        } else {
            Err(Error::Eof)
        }
    }

    /// Reads the first character of the text.
    pub fn next_char(&mut self) -> (r: Result<char, Error>)
        ensures
            r == peeked(old(self).remaining()),
            final(self).remaining() == after_char(old(self).remaining()),
            final(self).open_tags() == old(self).open_tags(),
            final(self).remaining().len() <= old(self).remaining().len(),
    {
        proof {
            use_type_invariant(&self.input);
        }
        if self.input.pos < self.input.text.len() {
            let c = self.input.text[self.input.pos];
            self.input.pos = self.input.pos + 1;
            proof {
                assert(self.remaining() =~= old(self).remaining().skip(1));
            }
            Ok(c)
        } else {
            Err(Error::Eof)
        }
    }

    /// Reads a truth value: `1` or `0`.
    pub fn parse_bool(&mut self) -> (r: Result<bool, Error>)
        ensures
            r == parsed_bool(old(self).remaining()).0,
            final(self).remaining() == parsed_bool(old(self).remaining()).1,
            final(self).open_tags() == old(self).open_tags(),
            final(self).remaining().len() <= old(self).remaining().len(),
    {
        match self.next_char() {
            Err(e) => Err(e),
            Ok(c) => {
                if c == '1' {
                    Ok(true)
                } else if c == '0' {
                    Ok(false)
                } else {
                    Err(Error::ExpectedBoolean)
                }
            },
        }
    }

    /// Reads the digits at the head of the text as a number of at most `max`.
    fn parse_digits(&mut self, max: u64) -> (r: Option<u64>)
        requires
            max >= 9,
        ensures
            ({
                let s = old(self).remaining();
                let n = run_len(s, CharClass::Digit) as int;
                &&& final(self).remaining() == s.skip(n)
                &&& final(self).remaining().len() <= s.len()
                &&& final(self).open_tags() == old(self).open_tags()
                &&& r == if decimal_value(s.take(n)) <= max {
                    Some(decimal_value(s.take(n)) as u64)
                } else {
                    None
                }
            }),
    {
        proof {
            use_type_invariant(&self.input);
        }
        let ghost s = self.remaining();
        let end = scan(&self.input.text, self.input.pos, CharClass::Digit);
        proof {
            lemma_run_len(s, CharClass::Digit);
            let text = self.input.text@;
            let pos = self.input.pos as int;
            assert forall|i: int| pos <= i < end implies is_digit(#[trigger] text[i]) by {
                assert(text[i] == s[i - pos]);
            }
            assert(text.subrange(pos, end as int) =~= s.take(end - pos));
        }
        let value = number_at(&self.input.text, self.input.pos, end, max);
        self.input.pos = end;
        proof {
            assert(self.remaining() =~= s.skip(run_len(s, CharClass::Digit) as int));
        }
        value
    }

    /// Reads an unsigned decimal number of the given width.
    pub fn parse_unsigned(&mut self, width: Width) -> (r: Result<u64, Error>)
        ensures
            r == parsed_unsigned(old(self).remaining(), width).0,
            final(self).remaining() == parsed_unsigned(old(self).remaining(), width).1,
            final(self).open_tags() == old(self).open_tags(),
            final(self).remaining().len() <= old(self).remaining().len(),
    {
        match self.peek_char() {
            Err(e) => Err(e),
            Ok(c) => {
                if !(c >= '0' && c <= '9') {
                    let _ = self.next_char();
                    return Err(Error::ExpectedInteger);
                }
                match self.parse_digits(width.max_unsigned()) {
                    Some(v) => Ok(v),
                    None => Err(Error::ExpectedInteger),
                }
            },
        }
    }

    /// Reads a signed decimal number of the given width: an optional `-` and
    /// digits.
    pub fn parse_signed(&mut self, width: Width) -> (r: Result<i64, Error>)
        ensures
            r == parsed_signed(old(self).remaining(), width).0,
            final(self).remaining() == parsed_signed(old(self).remaining(), width).1,
            final(self).open_tags() == old(self).open_tags(),
            final(self).remaining().len() <= old(self).remaining().len(),
    {
        let negative = match self.peek_char() {
            Ok(c) => c == '-',
            Err(_) => false,
        };
        if negative {
            let _ = self.next_char();
        }
        match self.peek_char() {
            Err(e) => Err(e),
            Ok(c) => {
                if !(c >= '0' && c <= '9') {
                    let _ = self.next_char();
                    return Err(Error::ExpectedInteger);
                }
                let limit: u64 = if negative {
                    width.max_signed() + 1
                } else {
                    width.max_signed()
                };
                match self.parse_digits(limit) {
                    None => Err(Error::ExpectedInteger),
                    Some(m) => {
                        if !negative {
                            Ok(m as i64)
                        } else if m == 0 {
                            Ok(0)
                        } else {
                            Ok(-((m - 1) as i64) - 1)
                        }
                    },
                }
            },
        }
    }

    /// The number of open records.
    pub fn depth(&self) -> (r: usize)
        ensures
            r == self.open_tags().len(),
    {
        self.keys.len()
    }

    /// Reads a byte string: after an optional `0x`, the rest of the line.
    pub fn parse_bytes(&mut self) -> (r: Result<Vec<u8>, Error>)
        ensures
            match parsed_bytes(old(self).remaining()).0 {
                Ok(b) => r is Ok && r->Ok_0@ == b,
                Err(e) => r == Err::<Vec<u8>, Error>(e),
            },
            final(self).remaining() == parsed_bytes(old(self).remaining()).1,
            final(self).open_tags() == old(self).open_tags(),
            final(self).remaining().len() <= old(self).remaining().len(),
    {
        proof {
            use_type_invariant(&self.input);
        }
        let ghost s = self.remaining();
        let len = self.input.text.len();
        let mut start = self.input.pos;
        if len - start >= 2 && self.input.text[start] == '0' && self.input.text[start + 1] == 'x' {
            start += 2;
            proof {
                assert(s.take(2) =~= seq!['0', 'x']);
            }
        } else {
            proof {
                if s.len() >= 2 {
                    assert(s.take(2)[0] == s[0] && s.take(2)[1] == s[1]);
                    assert(seq!['0', 'x'][0] == '0' && seq!['0', 'x'][1] == 'x');
                }
            }
        }
        self.input.advance_to(start);
        if start == len {
            return Err(Error::ExpectedNewline);
        }
        let end = scan(&self.input.text, start, CharClass::InLine);
        let text = string_of(&self.input.text, start, end);
        let bytes = text.as_str().as_bytes_vec();
        proof {
            assert(self.input.text@.subrange(start as int, end as int) =~= self.remaining().take(
                end - start,
            ));
        }
        self.input.advance_to(end);
        Ok(bytes)
    }

    /// Reads a string: the rest of the line.
    pub fn parse_string(&mut self) -> (r: Result<String, Error>)
        ensures
            text_is(r, parsed_string(old(self).remaining()).0),
            final(self).remaining() == parsed_string(old(self).remaining()).1,
            final(self).open_tags() == old(self).open_tags(),
            final(self).remaining().len() <= old(self).remaining().len(),
    {
        proof {
            use_type_invariant(&self.input);
        }
        if self.input.pos == self.input.text.len() {
            return Err(Error::ExpectedString);
        }
        let start = self.input.pos;
        let end = scan(&self.input.text, start, CharClass::InLine);
        let text = string_of(&self.input.text, start, end);
        proof {
            assert(self.input.text@.subrange(start as int, end as int) =~= self.remaining().take(
                end - start,
            ));
        }
        self.input.advance_to(end);
        Ok(text)
    }

    /// Reads a key: the depth markers, and the key itself where a `=`
    /// follows it on its line.
    pub fn parse_key(&mut self) -> (r: Result<String, Error>)
        ensures
            text_is(r, parsed_key(old(self).remaining()).0),
            final(self).remaining() == parsed_key(old(self).remaining()).1,
            final(self).open_tags() == old(self).open_tags(),
            final(self).remaining().len() <= old(self).remaining().len(),
            r is Ok ==> final(self).remaining().len() > 0,
    {
        proof {
            use_type_invariant(&self.input);
        }
        let len = self.input.text.len();
        let start = scan(&self.input.text, self.input.pos, CharClass::Dot);
        self.input.advance_to(start);
        if start == len {
            return Err(Error::Eof);
        }
        let ghost u = self.remaining();
        let eol = scan(&self.input.text, start, CharClass::InLine);
        let line_end = if start < eol && eol < len && self.input.text[eol - 1] == '\r' {
            eol - 1
        } else {
            eol
        };
        let name_end = scan(&self.input.text, start, CharClass::InName);
        proof {
            assert(start < eol && eol < len ==> u[eol - start - 1] == self.input.text@[eol - 1]);
            assert(first_line(u) == u.take(line_end - start));
            lemma_run_len_take(u, CharClass::InName, line_end - start);
        }
        if name_end < line_end {
            let key = string_of(&self.input.text, start, name_end);
            proof {
                let read = self.input.text@.subrange(start as int, name_end as int);
                assert(read =~= first_line(u).take(name_end - start));
            }
            self.input.advance_to(name_end);
            Ok(key)
        } else {
            let key = string_of(&self.input.text, start, line_end);
            proof {
                assert(self.input.text@.subrange(start as int, line_end as int) =~= first_line(u));
            }
            Ok(key)
        }
    }

    /// Opens the record tagged `name` that the text goes on with, and tells
    /// whether that added a level.
    pub fn deserialize_struct(&mut self, name: &str) -> (r: Result<bool, Error>)
        ensures
            r == opened(old(self).remaining(), old(self).open_tags(), name@).result,
            final(self).remaining() == opened(
                old(self).remaining(),
                old(self).open_tags(),
                name@,
            ).rest,
            final(self).open_tags() == opened(
                old(self).remaining(),
                old(self).open_tags(),
                name@,
            ).tags,
            final(self).remaining().len() <= old(self).remaining().len(),
            r is Ok ==> final(self).remaining().len() < old(self).remaining().len(),
    {
        proof {
            use_type_invariant(&self.input);
        }
        let tag = chars_of(name);
        let ghost tags = self.open_tags();
        let len = self.input.text.len();
        let ghost s = self.remaining();
        let blank = scan(&self.input.text, self.input.pos, CharClass::Blank);
        proof {
            assert(blank < len ==> s[blank - self.input.pos] == self.input.text@[blank as int]);
        }
        let start = if blank < len && self.input.text[blank] == '\n' {
            blank + 1
        } else {
            self.input.pos
        };
        self.input.advance_to(start);
        let ghost t = self.remaining();
        let body = scan(&self.input.text, start, CharClass::Space);
        proof {
            assert(self.input.text@.skip(body as int) =~= trim_start(t));
        }
        if !starts_with_at(&self.input.text, body, &tag) {
            return Err(Error::ExpectedStructName);
        }
        let eol = scan(&self.input.text, start, CharClass::InLine);
        if eol == len {
            return Err(Error::ExpectedNewline);
        }
        self.input.advance_to(eol + 1);
        let adds = if self.keys.len() == 0 {
            !(tag.len() > 0 && tag[0] == '[' && tag[tag.len() - 1] == ']')
        } else {
            !same_text(&self.keys[self.keys.len() - 1], &tag)
        };
        if adds {
            self.keys.push(tag);
            proof {
                assert(self.open_tags() =~= tags.push(name@));
            }
        }
        Ok(adds)
    }

    /// Closes the innermost open record.
    pub fn close_record(&mut self)
        ensures
            final(self).remaining() == old(self).remaining(),
            final(self).open_tags() == if old(self).open_tags().len() > 0 {
                old(self).open_tags().drop_last()
            } else {
                old(self).open_tags()
            },
    {
        proof {
            use_type_invariant(&self.input);
        }
        let ghost tags = self.open_tags();
        let _ = self.keys.pop();
        proof {
            if tags.len() > 0 {
                assert(self.open_tags() =~= tags.drop_last());
            } else {
                assert(self.open_tags() =~= tags);
            }
        }
    }

    /// Leaves a record whose fields were read: its tag is closed where
    /// opening it added a level, unless the record is an element of a
    /// sequence, whose tag stays open for the elements that follow.
    pub fn leave_record(&mut self, added: bool, element: bool)
        ensures
            final(self).remaining() == old(self).remaining(),
            final(self).open_tags() == if added && !element && old(self).open_tags().len() > 0 {
                old(self).open_tags().drop_last()
            } else {
                old(self).open_tags()
            },
    {
        if added && !element {
            self.close_record();
        }
    }

    /// Leaves a sequence whose elements were read: the tag that its first
    /// element opened is closed. `depth` is the number of records that were
    /// open before the sequence.
    pub fn leave_sequence(&mut self, depth: usize)
        ensures
            final(self).remaining() == old(self).remaining(),
            final(self).open_tags() == if old(self).open_tags().len() > depth {
                old(self).open_tags().drop_last()
            } else {
                old(self).open_tags()
            },
    {
        if self.depth() > depth {
            self.close_record();
        }
    }

    /// Ends the text: reads the whitespace that is left, and fails where
    /// anything else is.
    pub fn end(&mut self) -> (r: Result<(), Error>)
        ensures
            r == if trim_start(old(self).remaining()).len() == 0 {
                Ok::<(), Error>(())
            } else {
                Err::<(), Error>(Error::WrongLevel)
            },
            final(self).remaining() == trim_start(old(self).remaining()),
            final(self).open_tags() == old(self).open_tags(),
    {
        proof {
            use_type_invariant(&self.input);
        }
        let start = scan(&self.input.text, self.input.pos, CharClass::Space);
        self.input.advance_to(start);
        if start == self.input.text.len() {
            Ok(())
        } else {
            Err(Error::WrongLevel)
        }
    }
}

/// The walk over the fields of one record, or over the elements of one
/// sequence of records: each on lines of its own.
pub struct NewlineSeparated {
    /// Whether no field, or no element, has been reached yet.
    pub first: bool,
}

impl NewlineSeparated {
    /// A walk that has not begun.
    pub fn new() -> (r: Self)
        ensures
            r.first,
    {
        NewlineSeparated { first: true }
    }

    /// Reads the key of the next field of the innermost open record, if
    /// there is one.
    pub fn next_key_seed(&mut self, de: &mut Deserializer) -> (r: Result<Option<String>, Error>)
        ensures
            key_is(r, next_key(old(de).remaining(), old(de).open_tags().len(), old(self).first).0),
            final(de).remaining() == next_key(
                old(de).remaining(),
                old(de).open_tags().len(),
                old(self).first,
            ).1,
            final(de).open_tags() == old(de).open_tags(),
            final(de).remaining().len() <= old(de).remaining().len(),
            final(self).first == (old(self).first && !reaches_key(
                old(de).remaining(),
                old(de).open_tags().len(),
                old(self).first,
            )),
            r is Ok && r->Ok_0 is Some ==> final(de).remaining().len() > 0 && !final(self).first,
    {
        proof {
            use_type_invariant(&de.input);
        }
        let ghost s = de.remaining();
        let len = de.input.text.len();
        let pos = de.input.pos;
        let body = scan(&de.input.text, pos, CharClass::Space);
        proof {
            assert(de.input.text@.skip(body as int) =~= trim_start(s));
        }
        if body == len {
            de.input.advance_to(body);
            return Ok(None);
        }
        let dots_end = scan(&de.input.text, body, CharClass::Dot);
        if dots_end - body < de.keys.len() {
            return Ok(None);
        }
        proof {
            assert(s[0] == de.input.text@[pos as int]);
        }
        if !self.first && de.input.text[pos] != '\n' {
            de.input.advance_to(pos + 1);
            return Err(Error::ExpectedNewline);
        }
        self.first = false;
        de.input.advance_to(body);
        match de.parse_key() {
            Ok(key) => Ok(Some(key)),
            Err(e) => Err(e),
        }
    }

    /// Reads the `=` after a key, if there is one, and tells whether there
    /// was: a value follows it; without it the key opens a record.
    pub fn next_value_seed(&mut self, de: &mut Deserializer) -> (r: bool)
        ensures
            r == (old(de).remaining().len() > 0 && old(de).remaining()[0] == '='),
            final(de).remaining() == if r {
                old(de).remaining().skip(1)
            } else {
                old(de).remaining()
            },
            final(de).open_tags() == old(de).open_tags(),
            final(de).remaining().len() <= old(de).remaining().len(),
            final(self).first == old(self).first,
    {
        match de.peek_char() {
            Ok(c) => {
                if c == '=' {
                    let _ = de.next_char();
                    true
                } else {
                    false
                }
            },
            Err(_) => false,
        }
    }

    /// Tells whether the sequence goes on with another element, and reads
    /// the whitespace and dots before it.
    pub fn next_element_seed(&mut self, de: &mut Deserializer) -> (r: Result<bool, Error>)
        ensures
            r == next_element(old(de).remaining(), old(de).open_tags(), old(self).first).0,
            final(de).remaining() == next_element(
                old(de).remaining(),
                old(de).open_tags(),
                old(self).first,
            ).1,
            final(de).open_tags() == old(de).open_tags(),
            final(de).remaining().len() <= old(de).remaining().len(),
            final(self).first == (old(self).first && r != Ok::<bool, Error>(true)),
    {
        proof {
            use_type_invariant(&de.input);
        }
        let ghost s = de.remaining();
        let ghost tags = de.open_tags();
        let len = de.input.text.len();
        let pos = de.input.pos;
        if pos == len {
            return Ok(false);
        }
        let body = scan(&de.input.text, pos, CharClass::Space);
        let ghost t = de.input.text@.skip(body as int);
        proof {
            assert(t =~= trim_start(s));
        }
        let dots_end = scan(&de.input.text, body, CharClass::Dot);
        let ghost u = de.input.text@.skip(dots_end as int);
        proof {
            assert(u =~= t.skip(dots_end - body));
        }
        let word = scan(&de.input.text, dots_end, CharClass::Space);
        let ghost v = de.input.text@.skip(word as int);
        proof {
            assert(v =~= trim_start(u));
        }
        if !self.first {
            if dots_end - body >= de.keys.len() {
                return Err(Error::WrongLevel);
            }
            let token_end = scan(&de.input.text, word, CharClass::InToken);
            let name_end = scan(&de.input.text, word, CharClass::InName);
            let tag_end = if name_end < token_end { name_end } else { token_end };
            let top = &de.keys[de.keys.len() - 1];
            let same = tag_end - word == top.len() && starts_with_at(&de.input.text, word, top);
            proof {
                lemma_run_len(v, CharClass::InToken);
                lemma_run_len_take(v, CharClass::InName, token_end - word);
                assert(block_tag(u) == v.take(tag_end - word));
                assert(tags.last() == top@);
                if same {
                    assert(v.take(tag_end - word) == top@);
                }
                if v.take(tag_end - word) == top@ {
                    assert(v.take(tag_end - word).len() == top@.len());
                }
            }
            if dots_end - body + 1 != de.keys.len() || !same {
                return Ok(false);
            }
        }
        de.input.advance_to(word);
        self.first = false;
        Ok(true)
    }
}

/// The walk over the elements of one tuple: all on one line.
pub struct SpaceSeparated {
    /// Whether no element has been reached yet.
    pub first: bool,
}

impl SpaceSeparated {
    /// A walk that has not begun.
    pub fn new() -> (r: Self)
        ensures
            r.first,
    {
        SpaceSeparated { first: true }
    }

    /// Tells whether the tuple goes on with another element, and reads the
    /// space before it.
    pub fn next_element_seed(&mut self, de: &mut Deserializer) -> (r: Result<bool, Error>)
        ensures
            r == tuple_element(old(de).remaining(), old(self).first).0,
            final(de).remaining() == tuple_element(old(de).remaining(), old(self).first).1,
            final(de).open_tags() == old(de).open_tags(),
            final(de).remaining().len() <= old(de).remaining().len(),
            final(self).first == (old(self).first && r != Ok::<bool, Error>(true)),
    {
        match de.peek_char() {
            Err(_) => Ok(false),
            Ok(c) => {
                if c == '\n' {
                    Ok(false)
                } else if self.first {
                    self.first = false;
                    Ok(true)
                } else {
                    let _ = de.next_char();
                    if c == ' ' {
                        Ok(true)
                    } else {
                        Err(Error::ExpectedArraySeperator)
                    }
                }
            },
        }
    }

    /// Ends the tuple: the line must have ended. An element that is still
    /// there is a failure.
    pub fn finish(&mut self, de: &mut Deserializer) -> (r: Result<(), Error>)
        ensures
            r == match tuple_element(old(de).remaining(), old(self).first).0 {
                Ok(false) => Ok::<(), Error>(()),
                Ok(true) => Err::<(), Error>(Error::ExpectedNewline),
                Err(e) => Err::<(), Error>(e),
            },
            final(de).remaining() == tuple_element(old(de).remaining(), old(self).first).1,
            final(de).open_tags() == old(de).open_tags(),
            final(de).remaining().len() <= old(de).remaining().len(),
    {
        match self.next_element_seed(de) {
            Err(e) => Err(e),
            Ok(more) => {
                if more {
                    Err(Error::ExpectedNewline)
                } else {
                    Ok(())
                }
            },
        }
    }
}

} // verus!
