//! What decoding makes of encoded text: scalars, tuples, sequences and
//! whole records come back as they were.

use vstd::prelude::*;
use crate::de::{
    after_blank_line, block_tag, first_line, next_element, next_key, opened, opens_level,
    parsed_bool, parsed_bytes, parsed_key, parsed_signed, parsed_string, parsed_unsigned,
    tuple_element, Opened,
};
use crate::decode::{
    decode_elements, decode_fields, decode_value, decoded, empty_slots, filled, position,
    read_elements, read_scalar, read_tuple, Fault,
};
use crate::error::Error;
use crate::layout::{
    after_field, after_record, document_fits, document_text, elements_end_well, elements_fit,
    elements_text, ends_well, fields_ending, fields_fit, fields_text, has_present, indent,
    is_joined, is_key, is_numeric, is_tag, lead, lemma_fields_text_empty, lemma_fields_text_end,
    lemma_record_layout, lemma_word_tuple_text, on_one_line, record_ending, record_fits, root_above,
    root_depth, text_end, tuple_text, value_ending, value_ends_well, value_fits, value_text, Follow,
};
use crate::ser::{bool_text, dots, encoded, finished, scalar_text};
use crate::text::{
    decimal_text, is_digit, is_space, lemma_decimal_text, lemma_run_len, lemma_run_len_is,
    lemma_run_len_take, run_len, signed_text, trim_start, CharClass,
};
use crate::value::{
    FieldShapeView, FieldValueView, FieldView, RecordShapeView, RecordView, ScalarKind, ScalarView,
    ShapeView, Width,
};

verus! {

/// Whether `tail` can follow a number: it does not go on with a digit.
pub open spec fn ends_number(tail: Seq<char>) -> bool {
    tail.len() == 0 || !is_digit(tail[0])
}

/// Whether `tail` begins at the end of a line: at the end of the text, or
/// at a line feed.
pub open spec fn at_line_end(tail: Seq<char>) -> bool {
    tail.len() == 0 || tail[0] == '\n'
}

/// A text of characters of one class, followed by nothing or by a
/// character outside the class, is a run of exactly its length.
proof fn lemma_run_of_prefix(a: Seq<char>, b: Seq<char>, class: CharClass)
    requires
        forall|i: int| 0 <= i < a.len() ==> class.has(#[trigger] a[i]),
        b.len() == 0 || !class.has(b[0]),
    ensures
        run_len(a + b, class) == a.len(),
        (a + b).take(a.len() as int) == a,
        (a + b).skip(a.len() as int) == b,
{
    let s = a + b;
    assert forall|i: int| 0 <= i < a.len() implies class.has(#[trigger] s[i]) by {
        assert(s[i] == a[i]);
    }
    if a.len() < s.len() {
        assert(s[a.len() as int] == b[0]);
    }
    lemma_run_len_is(s, class, a.len());
    assert(s.take(a.len() as int) =~= a);
    assert(s.skip(a.len() as int) =~= b);
}

/// An unsigned number that was written in decimal is read back as it was,
/// up to where its digits end.
pub proof fn lemma_unsigned_round_trip(v: u64, width: Width, tail: Seq<char>)
    requires
        width.holds_unsigned(v as int),
        ends_number(tail),
    ensures
        parsed_unsigned(decimal_text(v as nat) + tail, width) == (Ok::<u64, Error>(v), tail),
{
    let d = decimal_text(v as nat);
    lemma_decimal_text(v as nat);
    lemma_run_of_prefix(d, tail, CharClass::Digit);
    assert((d + tail)[0] == d[0]);
}

/// A signed number that was written in decimal is read back as it was, up
/// to where its digits end.
pub proof fn lemma_signed_round_trip(v: i64, width: Width, tail: Seq<char>)
    requires
        width.holds_signed(v as int),
        ends_number(tail),
    ensures
        parsed_signed(signed_text(v as int) + tail, width) == (Ok::<i64, Error>(v), tail),
{
    let s = signed_text(v as int) + tail;
    if v < 0 {
        let d = decimal_text((-v) as nat);
        lemma_decimal_text((-v) as nat);
        lemma_run_of_prefix(d, tail, CharClass::Digit);
        assert(s[0] == '-');
        assert(s.skip(1) =~= d + tail);
        assert((d + tail)[0] == d[0]);
    } else {
        let d = decimal_text(v as nat);
        lemma_decimal_text(v as nat);
        lemma_run_of_prefix(d, tail, CharClass::Digit);
        assert(s[0] == d[0]);
    }
}

/// A truth value that was written is read back as it was.
pub proof fn lemma_bool_round_trip(v: bool, tail: Seq<char>)
    ensures
        parsed_bool(bool_text(v) + tail) == (Ok::<bool, Error>(v), tail),
{
    let s = bool_text(v) + tail;
    assert(s[0] == bool_text(v)[0]);
    assert(s.skip(1) =~= tail);
}

/// A string without a line feed that was written at the end of a line is
/// read back as it was, unless it is empty and the text ends with it.
pub proof fn lemma_string_round_trip(t: Seq<char>, tail: Seq<char>)
    requires
        on_one_line(t),
        at_line_end(tail),
        t.len() + tail.len() > 0,
    ensures
        parsed_string(t + tail) == (Ok::<Seq<char>, Error>(t), tail),
{
    assert forall|i: int| 0 <= i < t.len() implies CharClass::InLine.has(#[trigger] t[i]) by {}
    lemma_run_of_prefix(t, tail, CharClass::InLine);
}

/// An empty byte string is read back from the empty text before the end of
/// its line.
proof fn lemma_empty_bytes_round_trip(tail: Seq<char>)
    requires
        tail.len() > 0,
        tail[0] == '\n',
    ensures
        parsed_bytes(tail) == (Ok::<Seq<u8>, Error>(Seq::empty()), tail),
{
    if tail.len() >= 2 {
        assert(tail.take(2)[0] == tail[0]);
        assert(seq!['0', 'x'][0] == '0');
    }
    lemma_run_len_is(tail, CharClass::InLine, 0);
    assert(tail.take(0) =~= Seq::<char>::empty());
    assert(tail.skip(0) =~= tail);
    assert(vstd::utf8::encode_utf8(tail.take(0)) =~= Seq::<u8>::empty());
}

/// Whether the scalar `s` is of the kind `kind` and comes back from its
/// text when `tail` follows it: a number is followed by no digit; a string
/// holds no line feed, ends its line, and is not an empty string at the end
/// of the text. A byte string comes back only where it is empty and the
/// line ends after it: its text is made of the numerals of its bytes, and
/// is read as the bytes of those numerals.
pub open spec fn comes_back(s: ScalarView, kind: ScalarKind, tail: Seq<char>) -> bool {
    &&& s.is_of(kind)
    &&& match s {
        ScalarView::Bool(_) => true,
        ScalarView::Signed(_) => ends_number(tail),
        ScalarView::Unsigned(_) => ends_number(tail),
        ScalarView::Str(t) => on_one_line(t) && at_line_end(tail) && t.len() + tail.len() > 0,
        ScalarView::Bytes(b) => b.len() == 0 && tail.len() > 0 && tail[0] == '\n',
    }
}

/// A scalar that was written is read back as it was.
pub proof fn lemma_scalar_round_trip(s: ScalarView, kind: ScalarKind, tail: Seq<char>)
    requires
        comes_back(s, kind, tail),
    ensures
        read_scalar(scalar_text(s) + tail, kind) == Ok::<(ScalarView, Seq<char>), Error>(
            (s, tail),
        ),
{
    match s {
        ScalarView::Bool(v) => {
            lemma_bool_round_trip(v, tail);
        },
        ScalarView::Signed(v) => {
            lemma_signed_round_trip(v, kind->Signed_0, tail);
        },
        ScalarView::Unsigned(v) => {
            lemma_unsigned_round_trip(v, kind->Unsigned_0, tail);
        },
        ScalarView::Str(t) => {
            lemma_string_round_trip(t, tail);
        },
        ScalarView::Bytes(b) => {
            lemma_empty_bytes_round_trip(tail);
            assert(scalar_text(s) + tail =~= tail);
            assert(b =~= Seq::<u8>::empty());
        },
    }
}

/// The text of a truth value or a number begins with a character that is
/// neither a space nor a line feed, and ends with a digit.
proof fn lemma_numeric_text(s: ScalarView, kind: ScalarKind)
    requires
        is_numeric(kind),
        s.is_of(kind),
    ensures
        scalar_text(s).len() > 0,
        scalar_text(s)[0] != ' ',
        scalar_text(s)[0] != '\n',
{
    match s {
        ScalarView::Signed(v) => {
            if v < 0 {
                lemma_decimal_text((-v) as nat);
            } else {
                lemma_decimal_text(v as nat);
            }
        },
        ScalarView::Unsigned(v) => {
            lemma_decimal_text(v as nat);
        },
        _ => {},
    }
}

/// The first of the elements of a tuple that are still to come is found
/// at the head of their text, and is read back from it.
proof fn lemma_tuple_head(elements: Seq<ScalarView>, i: int, kind: ScalarKind, tail: Seq<char>)
    requires
        0 <= i < elements.len(),
        is_numeric(kind),
        forall|j: int| 0 <= j < elements.len() ==> (#[trigger] elements[j]).is_of(kind),
        at_line_end(tail),
    ensures
        ({
            let text = tuple_text(elements, i, i == 0) + tail;
            let after = tuple_text(elements, i + 1, false) + tail;
            let body = scalar_text(elements[i]) + after;
            &&& tuple_element(text, i == 0) == (Ok::<bool, Error>(true), body)
            &&& read_scalar(body, kind) == Ok::<(ScalarView, Seq<char>), Error>(
                (elements[i], after),
            )
        }),
{
    let first = i == 0;
    let e = elements[i];
    let text = tuple_text(elements, i, first) + tail;
    let after = tuple_text(elements, i + 1, false) + tail;
    let body = scalar_text(e) + after;
    lemma_numeric_text(e, kind);
    assert(tuple_element(text, first) == (Ok::<bool, Error>(true), body)) by {
        if first {
            assert(text =~= body);
            assert(text[0] == scalar_text(e)[0]);
        } else {
            assert(text =~= seq![' '] + body);
            assert(text[0] == ' ');
            assert(text.skip(1) =~= body);
        }
    }
    assert(comes_back(e, kind, after)) by {
        if i + 1 < elements.len() {
            lemma_numeric_text(elements[i + 1], kind);
            assert(after[0] == ' ');
        } else {
            assert(after =~= tail);
        }
    }
    lemma_scalar_round_trip(e, kind, after);
}

/// Reading the elements of a tuple, one step: after an element that is
/// there, the others are read.
proof fn lemma_read_step(
    text: Seq<char>,
    kind: ScalarKind,
    count: nat,
    first: bool,
    got: Seq<ScalarView>,
    body: Seq<char>,
    e: ScalarView,
    after: Seq<char>,
)
    requires
        tuple_element(text, first) == (Ok::<bool, Error>(true), body),
        read_scalar(body, kind) == Ok::<(ScalarView, Seq<char>), Error>((e, after)),
    ensures
        read_elements(text, kind, count, first, got) == (if count == 0 {
            Err::<(Seq<ScalarView>, Seq<char>), Error>(Error::ExpectedNewline)
        } else {
            read_elements(after, kind, (count - 1) as nat, false, got.push(e))
        }),
{
}

/// Reading the elements of a tuple, the end: at the end of the line none
/// may be missing.
proof fn lemma_read_end(
    tail: Seq<char>,
    kind: ScalarKind,
    count: nat,
    first: bool,
    got: Seq<ScalarView>,
)
    requires
        at_line_end(tail),
    ensures
        read_elements(tail, kind, count, first, got) == (if count == 0 {
            Ok::<(Seq<ScalarView>, Seq<char>), Error>((got, tail))
        } else {
            Err::<(Seq<ScalarView>, Seq<char>), Error>(Error::ExpectedArraySeperator)
        }),
{
}

/// What reading `count` elements makes of the text of a tuple from its
/// `i`-th element on: the elements, where there are exactly `count`; a
/// failure where there are more, and another where there are fewer.
proof fn lemma_read_elements(
    elements: Seq<ScalarView>,
    i: int,
    kind: ScalarKind,
    count: nat,
    got: Seq<ScalarView>,
    tail: Seq<char>,
)
    requires
        0 <= i <= elements.len(),
        is_numeric(kind),
        forall|j: int| 0 <= j < elements.len() ==> (#[trigger] elements[j]).is_of(kind),
        at_line_end(tail),
    ensures
        read_elements(tuple_text(elements, i, i == 0) + tail, kind, count, i == 0, got) == (if count
            == elements.len() - i {
            Ok::<(Seq<ScalarView>, Seq<char>), Error>((got + elements.skip(i), tail))
        } else if count < elements.len() - i {
            Err::<(Seq<ScalarView>, Seq<char>), Error>(Error::ExpectedNewline)
        } else {
            Err::<(Seq<ScalarView>, Seq<char>), Error>(Error::ExpectedArraySeperator)
        }),
    decreases elements.len() - i,
{
    let first = i == 0;
    let text = tuple_text(elements, i, first) + tail;
    if i == elements.len() {
        assert(text =~= tail);
        assert(got + elements.skip(i) =~= got);
        lemma_read_end(tail, kind, count, first, got);
    } else {
        let e = elements[i];
        let after = tuple_text(elements, i + 1, false) + tail;
        let body = scalar_text(e) + after;
        lemma_tuple_head(elements, i, kind, tail);
        lemma_read_step(text, kind, count, first, got, body, e, after);
        if count > 0 {
            lemma_read_elements(elements, i + 1, kind, (count - 1) as nat, got.push(e), tail);
            assert(got.push(e) + elements.skip(i + 1) =~= got + elements.skip(i));
        }
    }
}

/// A tuple is read back from its line where exactly as many elements are
/// asked for as the line holds. Asking for fewer or for more is a failure.
pub proof fn lemma_tuple_fixed_length(
    elements: Seq<ScalarView>,
    kind: ScalarKind,
    len: nat,
    tail: Seq<char>,
)
    requires
        is_numeric(kind),
        forall|j: int| 0 <= j < elements.len() ==> (#[trigger] elements[j]).is_of(kind),
        at_line_end(tail),
    ensures
        len == elements.len() ==> read_tuple(tuple_text(elements, 0, true) + tail, kind, len)
            == Ok::<(Seq<ScalarView>, Seq<char>), Error>((elements, tail)),
        len != elements.len() ==> read_tuple(tuple_text(elements, 0, true) + tail, kind, len)
            is Err,
{
    lemma_read_elements(elements, 0, kind, len, Seq::empty(), tail);
    assert(Seq::<ScalarView>::empty() + elements.skip(0) =~= elements);
}

/// Whether the fields of the record at depth `d` end before `x`: `x`
/// holds only whitespace or goes on with a line of fewer than `d` dots.
pub open spec fn shuts(x: Seq<char>, d: nat) -> bool {
    trim_start(x).len() == 0 || run_len(trim_start(x), CharClass::Dot) < d
}

/// Whether the record at depth `d` ends before `x`, and its last line with
/// it: `x` begins at the end of a line, and holds only whitespace or goes
/// on with a line of fewer than `d` dots.
pub open spec fn closes(x: Seq<char>, d: nat) -> bool {
    at_line_end(x) && shuts(x, d)
}

/// Whether a sequence of records tagged `key` at depth `d` ends before
/// `x`: `x` holds only whitespace, or goes on with a line of fewer than
/// `d` dots, or with a line of `d` dots and another tag.
pub open spec fn ends_sequence(x: Seq<char>, d: nat, key: Seq<char>) -> bool {
    let t = trim_start(x);
    let level = run_len(t, CharClass::Dot);
    t.len() == 0 || level < d || (level == d && block_tag(t.skip(level as int)) != key)
}

/// Whether the field `key` at depth `d` ends before `x`: `x` begins at
/// the end of a line, and holds only whitespace, or goes on with a line of
/// fewer than `d` dots, or with a line of `d` dots and another key.
pub open spec fn follows_field(x: Seq<char>, d: nat, key: Seq<char>) -> bool {
    at_line_end(x) && ends_sequence(x, d, key)
}

/// What reading the fields of a record leaves of `x`, the text after
/// them: nothing where `x` holds only whitespace, else `x`.
pub open spec fn settled(x: Seq<char>) -> Seq<char> {
    if trim_start(x).len() == 0 {
        trim_start(x)
    } else {
        x
    }
}

/// What is read back for the value `value` of the shape `shape`: the
/// value, with the default of each field that a record in it leaves out.
pub open spec fn normal_value(value: FieldValueView, shape: ShapeView) -> FieldValueView
    decreases value, 0nat,
{
    match value {
        FieldValueView::Record(inner) => match shape {
            ShapeView::Record(shapes) => FieldValueView::Record(
                normal_fields(inner, shapes, inner.len()),
            ),
            _ => value,
        },
        FieldValueView::Sequence(elements) => match shape {
            ShapeView::Sequence(shapes) => FieldValueView::Sequence(
                normal_elements(elements, shapes, elements.len()),
            ),
            _ => value,
        },
        _ => value,
    }
}

/// What is read back for the first `n` of the fields `fields`.
pub open spec fn normal_fields(fields: Seq<FieldView>, shapes: Seq<FieldShapeView>, n: nat) -> Seq<
    FieldView,
>
    decreases fields, n,
{
    if n == 0 || n > fields.len() || n > shapes.len() {
        Seq::empty()
    } else {
        normal_fields(fields, shapes, (n - 1) as nat).push(
            FieldView {
                key: shapes[n - 1].key,
                value: if fields[n - 1].value is Absent {
                    shapes[n - 1].default
                } else {
                    normal_value(fields[n - 1].value, shapes[n - 1].shape)
                },
            },
        )
    }
}

/// What is read back for the first `n` of the records `elements`.
pub open spec fn normal_elements(
    elements: Seq<Seq<FieldView>>,
    shapes: Seq<FieldShapeView>,
    n: nat,
) -> Seq<Seq<FieldView>>
    decreases elements, n,
{
    if n == 0 || n > elements.len() {
        Seq::empty()
    } else {
        normal_elements(elements, shapes, (n - 1) as nat).push(
            normal_fields(elements[n - 1], shapes, elements[n - 1].len()),
        )
    }
}

/// What is read back for the record `record` of the shape `shape`.
pub open spec fn normal_record(record: RecordView, shape: RecordShapeView) -> RecordView {
    RecordView {
        tag: shape.tag,
        fields: normal_fields(record.fields, shape.fields, record.fields.len()),
    }
}

/// The slots of a record after its first `i` fields were read.
pub open spec fn slots_upto(fields: Seq<FieldView>, shapes: Seq<FieldShapeView>, i: int) -> Seq<
    Option<FieldValueView>,
> {
    Seq::new(
        shapes.len(),
        |j: int|
            if 0 <= j < i && j < fields.len() && !(fields[j].value is Absent) {
                Some(normal_value(fields[j].value, shapes[j].shape))
            } else {
                None
            },
    )
}

/// The fields that are read back have the keys of the shape, and each
/// holds what was read for it or its default.
proof fn lemma_normal_fields(fields: Seq<FieldView>, shapes: Seq<FieldShapeView>, n: nat)
    requires
        n <= fields.len(),
        n <= shapes.len(),
    ensures
        normal_fields(fields, shapes, n).len() == n,
        forall|j: int|
            0 <= j < n ==> #[trigger] normal_fields(fields, shapes, n)[j] == (FieldView {
                key: shapes[j].key,
                value: if fields[j].value is Absent {
                    shapes[j].default
                } else {
                    normal_value(fields[j].value, shapes[j].shape)
                },
            }),
    decreases n,
{
    if n > 0 {
        lemma_normal_fields(fields, shapes, (n - 1) as nat);
    }
}

/// Filling the slots of all fields gives the fields that are read back.
proof fn lemma_filled_is_normal(fields: Seq<FieldView>, shapes: Seq<FieldShapeView>)
    requires
        fields.len() == shapes.len(),
    ensures
        filled(shapes, slots_upto(fields, shapes, fields.len() as int)) == normal_fields(
            fields,
            shapes,
            fields.len(),
        ),
{
    lemma_normal_fields(fields, shapes, fields.len());
    assert(filled(shapes, slots_upto(fields, shapes, fields.len() as int)) =~= normal_fields(
        fields,
        shapes,
        fields.len(),
    ));
}

/// A key has no character of whitespace, no `=`, no dot in front, and so
/// none of the characters that end a line.
proof fn lemma_key_chars(key: Seq<char>)
    requires
        is_key(key),
    ensures
        is_tag(key),
        forall|i: int| 0 <= i < key.len() ==> CharClass::InLine.has(#[trigger] key[i]),
        forall|i: int| 0 <= i < key.len() ==> CharClass::InName.has(#[trigger] key[i]),
        forall|i: int| 0 <= i < key.len() ==> CharClass::InToken.has(#[trigger] key[i]),
        key.last() != '\r',
        key.last() != '\n',
        !CharClass::Dot.has(key[0]),
        !CharClass::Space.has(key[0]),
{
    assert(is_space('\n'));
    assert(is_space('\r'));
    assert forall|i: int| 0 <= i < key.len() implies CharClass::InLine.has(#[trigger] key[i]) by {
        assert(!is_space(key[i]));
    }
    assert(!is_space(key.last()));
}

/// A key that stands alone on its line is the line.
proof fn lemma_key_line_ends(key: Seq<char>, y: Seq<char>)
    requires
        is_key(key),
        y.len() > 0,
        y[0] == '\n',
    ensures
        first_line(key + y) == key,
        run_len(key, CharClass::InName) == key.len(),
{
    lemma_key_chars(key);
    let u = key + y;
    lemma_run_of_prefix(key, y, CharClass::InLine);
    let n = key.len() as int;
    assert(u[n - 1] == key[n - 1]);
    assert(u.take(n) == key);
    lemma_run_len_is(key, CharClass::InName, key.len());
}

/// A key that a `=` follows ends before the `=`: the line holds it, and
/// more.
proof fn lemma_key_line_assigned(key: Seq<char>, y: Seq<char>)
    requires
        is_key(key),
        y.len() > 0,
        y[0] == '=',
    ensures
        run_len(first_line(key + y), CharClass::InName) == key.len(),
        key.len() < first_line(key + y).len(),
        first_line(key + y).take(key.len() as int) == key,
        (key + y).skip(key.len() as int) == y,
{
    lemma_key_chars(key);
    let u = key + y;
    let k = key.len() as int;
    let n = run_len(u, CharClass::InLine) as int;
    lemma_run_len(u, CharClass::InLine);
    lemma_run_of_prefix(key, y, CharClass::InName);
    assert(u[k] == '=');
    assert(n > k) by {
        if n < k {
            assert(u[n] == key[n]);
        }
    }
    let m: int = if 0 < n < u.len() && u[n - 1] == '\r' { n - 1 } else { n };
    assert(m > k);
    let line = u.take(m);
    assert(first_line(u) == line);
    lemma_run_len_take(u, CharClass::InName, m);
    assert(line.take(k) =~= key);
}

/// The key at the head of a line is found after its dots. Where a `=`
/// follows it, the key is read; where the line ends, it is not.
proof fn lemma_parsed_key(d: nat, key: Seq<char>, y: Seq<char>)
    requires
        is_key(key),
        y.len() > 0,
        y[0] == '=' || y[0] == '\n',
    ensures
        parsed_key(dots(d) + (key + y)) == (
            Ok::<Seq<char>, Error>(key),
            if y[0] == '=' {
                y
            } else {
                key + y
            },
        ),
{
    let u = key + y;
    let t = dots(d) + u;
    assert(t.skip(run_len(t, CharClass::Dot) as int) == u) by {
        lemma_key_chars(key);
        assert(u[0] == key[0]);
        lemma_run_of_prefix(dots(d), u, CharClass::Dot);
    }
    if y[0] == '\n' {
        lemma_key_line_ends(key, y);
    } else {
        lemma_key_line_assigned(key, y);
    }
}

/// A field line without the whitespace before it: its dots, its key, and
/// what follows.
proof fn lemma_trim_line(first: bool, d: nat, key: Seq<char>, y: Seq<char>)
    requires
        is_key(key),
    ensures
        trim_start(lead(first) + indent(d) + key + y) == dots(d) + (key + y),
        run_len(dots(d) + (key + y), CharClass::Dot) == d,
        (dots(d) + (key + y)).len() > 0,
        !first ==> (lead(first) + indent(d) + key + y)[0] == '\n',
{
    lemma_key_chars(key);
    let s = lead(first) + indent(d) + key + y;
    let ws = lead(first) + (if d > 0 { seq![' '] } else { Seq::<char>::empty() });
    let u = key + y;
    let t = dots(d) + u;
    assert(s =~= ws + t);
    assert(is_space('\n') && is_space(' '));
    assert(u[0] == key[0]);
    assert(t[0] == (if d > 0 { '.' } else { key[0] }));
    lemma_run_of_prefix(ws, t, CharClass::Space);
    lemma_run_of_prefix(dots(d), u, CharClass::Dot);
    if !first {
        assert(s[0] == ws[0]);
    }
}

/// What reading a key makes of a field line: after a line feed, unless
/// the line is the first, and after the indentation, the key is found.
/// Where a `=` follows, the key is read; where the line ends, it is not.
proof fn lemma_next_key(first: bool, d: nat, key: Seq<char>, y: Seq<char>, depth: nat)
    requires
        is_key(key),
        y.len() > 0,
        y[0] == '=' || y[0] == '\n',
        d >= depth,
    ensures
        next_key(lead(first) + indent(d) + key + y, depth, first) == (
            Ok::<Option<Seq<char>>, Error>(Some(key)),
            if y[0] == '=' {
                y
            } else {
                key + y
            },
        ),
{
    lemma_trim_line(first, d, key, y);
    lemma_parsed_key(d, key, y);
}

/// What opening a record makes of its header line: the line is read, and
/// the tag comes on top of the open tags where it adds a level.
proof fn lemma_opened(tag: Seq<char>, z: Seq<char>, tags: Seq<Seq<char>>)
    requires
        is_tag(tag),
    ensures
        opened(tag + seq!['\n'] + z, tags, tag) == (Opened {
            result: Ok(opens_level(tags, tag)),
            rest: z,
            tags: if opens_level(tags, tag) {
                tags.push(tag)
            } else {
                tags
            },
        }),
{
    let s = tag + seq!['\n'] + z;
    let after = seq!['\n'] + z;
    assert(s =~= tag + after);
    assert(s[0] == tag[0]);
    assert(is_space('\n'));
    lemma_run_len_is(s, CharClass::Blank, 0);
    assert(after_blank_line(s) == s);
    lemma_run_len_is(s, CharClass::Space, 0);
    assert(trim_start(s) =~= s);
    assert(s.take(tag.len() as int) =~= tag);
    assert forall|i: int| 0 <= i < tag.len() implies CharClass::InLine.has(#[trigger] tag[i]) by {}
    lemma_run_of_prefix(tag, after, CharClass::InLine);
    assert(s.skip(tag.len() as int + 1) =~= z);
}

/// Reading fields from what is left of a text that holds only whitespace
/// is reading them from that text.
proof fn lemma_settled_fields(
    x: Seq<char>,
    tags: Seq<Seq<char>>,
    shapes: Seq<FieldShapeView>,
    first: bool,
    slots: Seq<Option<FieldValueView>>,
)
    ensures
        decode_fields(settled(x), tags, shapes, first, slots) == decode_fields(
            x,
            tags,
            shapes,
            first,
            slots,
        ),
        settled(settled(x)) == settled(x),
        trim_start(settled(x)).len() == 0 <==> trim_start(x).len() == 0,
{
    if trim_start(x).len() == 0 {
        let e = trim_start(x);
        lemma_run_len(e, CharClass::Space);
        assert(trim_start(e) =~= e);
    }
}

/// The tag of a block that begins with a key is the key.
proof fn lemma_block_tag(key: Seq<char>, y: Seq<char>)
    requires
        is_key(key),
        y.len() > 0,
        y[0] == '=' || y[0] == '\n',
    ensures
        block_tag(key + y) == key,
        trim_start(key + y) == key + y,
        run_len(key + y, CharClass::Dot) == 0,
{
    lemma_key_chars(key);
    let u = key + y;
    assert(u[0] == key[0]);
    lemma_run_len_is(u, CharClass::Space, 0);
    lemma_run_len_is(u, CharClass::Dot, 0);
    assert(trim_start(u) =~= u);
    let token = run_len(u, CharClass::InToken) as int;
    lemma_run_len(u, CharClass::InToken);
    assert(is_space('\n'));
    if y[0] == '\n' {
        lemma_run_of_prefix(key, y, CharClass::InToken);
        lemma_run_len_is(key, CharClass::InName, key.len());
    } else {
        lemma_run_of_prefix(key, y, CharClass::InName);
        assert(token > key.len()) by {
            assert(u[key.len() as int] == '=');
            if token <= key.len() {
                if token < key.len() {
                    assert(u[token] == key[token]);
                }
            }
        }
        lemma_run_len_take(u, CharClass::InName, token);
        assert(u.take(token).take(key.len() as int) =~= key);
    }
}

/// The lines of a field that holds a value begin with its key, and go on
/// with a `=` or with the end of the line.
proof fn lemma_value_text_head(
    key: Seq<char>,
    value: FieldValueView,
    shape: ShapeView,
    above: Option<Seq<char>>,
    d: nat,
)
    requires
        value_fits(key, value, shape, above),
        !(value is Absent),
    ensures
        value_text(key, value, d).len() > key.len(),
        value_text(key, value, d).take(key.len() as int) == key,
        value_text(key, value, d)[key.len() as int] == (if value is Scalar || value is Tuple {
            '='
        } else {
            '\n'
        }),
        value_text(key, value, d) == key + value_text(key, value, d).skip(key.len() as int),
{
    let t = value_text(key, value, d);
    match value {
        FieldValueView::Sequence(elements) => {
            assert(t == elements_text(key, elements, 0, d, true));
            let rest = fields_text(elements[0], 0, d + 1, true) + elements_text(
                key,
                elements,
                1,
                d,
                false,
            );
            assert(t =~= key + (seq!['\n'] + rest));
        },
        FieldValueView::Record(inner) => {
            assert(t =~= key + (seq!['\n'] + fields_text(inner, 0, d + 1, true)));
        },
        FieldValueView::Scalar(sc) => {
            assert(t =~= key + (seq!['='] + scalar_text(sc)));
        },
        FieldValueView::Tuple(tu) => {
            assert(t =~= key + (seq!['='] + tuple_text(tu, 0, true)));
        },
        FieldValueView::Absent => {},
    }
    assert(t.take(key.len() as int) =~= key);
    assert(t =~= key + t.skip(key.len() as int));
}

/// Whitespace and `d` dots before a key: the line has depth `d` and
/// carries the key as its tag.
proof fn lemma_line_depth(joined: bool, d: nat, key: Seq<char>, y: Seq<char>)
    requires
        is_key(key),
        y.len() > 0,
        y[0] == '=' || y[0] == '\n',
    ensures
        trim_start(lead(joined) + indent(d) + key + y) == dots(d) + (key + y),
        run_len(dots(d) + (key + y), CharClass::Dot) == d,
        (dots(d) + (key + y)).skip(d as int) == key + y,
        (lead(joined) + indent(d) + key + y).len() > 0,
{
    lemma_key_chars(key);
    let u = key + y;
    let t = dots(d) + u;
    let ws = lead(joined) + (if d > 0 { seq![' '] } else { Seq::<char>::empty() });
    let s = lead(joined) + indent(d) + key + y;
    assert(s =~= ws + t);
    assert(is_space('\n') && is_space(' '));
    assert(u[0] == key[0]);
    assert(t[0] == (if d > 0 { '.' } else { key[0] }));
    lemma_run_of_prefix(ws, t, CharClass::Space);
    lemma_run_of_prefix(dots(d), u, CharClass::Dot);
}

/// A sequence begins where its key stands at the head of the text.
proof fn lemma_first_element(key: Seq<char>, z: Seq<char>, tags: Seq<Seq<char>>)
    requires
        is_key(key),
        z.len() > 0,
        z[0] == '\n',
    ensures
        next_element(key + z, tags, true) == (Ok::<bool, Error>(true), key + z),
{
    lemma_block_tag(key, z);
    let s = key + z;
    assert(s.skip(0) =~= s);
}

/// A sequence goes on where the next line has the depth of its blocks and
/// carries its tag.
proof fn lemma_further_element(
    joined: bool,
    d: nat,
    key: Seq<char>,
    z: Seq<char>,
    tags: Seq<Seq<char>>,
)
    requires
        is_key(key),
        z.len() > 0,
        z[0] == '\n',
        tags.len() == d + 1,
        tags.last() == key,
    ensures
        next_element(lead(joined) + indent(d) + key + z, tags, false) == (
            Ok::<bool, Error>(true),
            key + z,
        ),
{
    lemma_line_depth(joined, d, key, z);
    lemma_block_tag(key, z);
}

/// A sequence ends before a text that holds only whitespace, and before a
/// line of lesser depth or with another tag.
proof fn lemma_last_element(x: Seq<char>, d: nat, key: Seq<char>, tags: Seq<Seq<char>>)
    requires
        key.len() > 0,
        ends_sequence(x, d, key),
        tags.len() == d + 1,
        tags.last() == key,
    ensures
        next_element(settled(x), tags, false) == (Ok::<bool, Error>(false), settled(x)),
{
    if trim_start(x).len() == 0 {
        let e = trim_start(x);
        lemma_run_len(e, CharClass::Space);
    }
}

/// A field ends before the lines of the fields that follow it in its
/// record, and before what the record ends before.
proof fn lemma_follows(
    fields: Seq<FieldView>,
    shapes: Seq<FieldShapeView>,
    i: int,
    above: Option<Seq<char>>,
    d: nat,
    r: Seq<char>,
    key: Seq<char>,
)
    requires
        0 <= i <= fields.len(),
        fields_fit(fields, shapes, i, above),
        shuts(r, d),
        forall|j: int| i <= j < fields.len() ==> (#[trigger] fields[j]).key != key,
    ensures
        ends_sequence(fields_text(fields, i, d, false) + r, d, key),
        shuts(fields_text(fields, i, d, false) + r, d + 1),
        has_present(fields, i) ==> at_line_end(fields_text(fields, i, d, false) + r),
        has_present(fields, i) ==> trim_start(fields_text(fields, i, d, false) + r).len() > 0,
    decreases fields.len() - i,
{
    let x = fields_text(fields, i, d, false) + r;
    if i == fields.len() {
        assert(x =~= r);
    } else if fields[i].value is Absent {
        lemma_follows(fields, shapes, i + 1, above, d, r, key);
    } else {
        let f = fields[i];
        let vt = value_text(f.key, f.value, d);
        lemma_value_text_head(f.key, f.value, shapes[i].shape, above, d);
        let y = vt.skip(f.key.len() as int) + fields_text(fields, i + 1, d, false) + r;
        assert(y[0] == vt[f.key.len() as int]);
        assert(x =~= lead(false) + indent(d) + f.key + y);
        lemma_line_depth(false, d, f.key, y);
        lemma_block_tag(f.key, y);
        assert(x[0] == '\n');
    }
}

/// A record of a sequence ends before the block of the next record, and
/// before what the sequence ends before.
proof fn lemma_follows_element(
    key: Seq<char>,
    elements: Seq<Seq<FieldView>>,
    j: int,
    d: nat,
    x: Seq<char>,
)
    requires
        0 <= j <= elements.len(),
        is_key(key),
        ends_sequence(x, d, key),
    ensures
        shuts(elements_text(key, elements, j, d, false) + x, d + 1),
        j < elements.len() && !is_joined(elements, j, d) ==> at_line_end(
            elements_text(key, elements, j, d, false) + x,
        ),
        j < elements.len() ==> trim_start(elements_text(key, elements, j, d, false) + x).len() > 0,
{
    let t = elements_text(key, elements, j, d, false) + x;
    if j == elements.len() {
        assert(t =~= x);
    } else {
        let joined = is_joined(elements, j, d);
        let y = seq!['\n'] + fields_text(elements[j], 0, d + 1, true) + elements_text(
            key,
            elements,
            j + 1,
            d,
            false,
        ) + x;
        assert(t =~= lead(joined) + indent(d) + key + y);
        lemma_line_depth(joined, d, key, y);
        if !joined {
            assert(t[0] == '\n');
        }
    }
}

/// Whether `tags` has the tag `above` on top, or is empty where there is none.
pub open spec fn has_on_top(tags: Seq<Seq<char>>, above: Option<Seq<char>>) -> bool {
    match above {
        Some(tag) => tags.len() > 0 && tags.last() == tag,
        None => tags.len() == 0,
    }
}

/// What the decoder finds after the key of a field: the `=` and the value,
/// or, for a record or a sequence, the line of the key itself.
pub open spec fn after_key(key: Seq<char>, value: FieldValueView, d: nat) -> Seq<char> {
    if value is Scalar || value is Tuple {
        value_text(key, value, d).skip(key.len() as int)
    } else {
        value_text(key, value, d)
    }
}

/// What is left after the value of a field was read from before `x`.
pub open spec fn left_after(value: FieldValueView, x: Seq<char>) -> Seq<char> {
    if value is Record || value is Sequence {
        settled(x)
    } else {
        x
    }
}

/// What is left of a text after its whitespace was read is no longer
/// than the text.
proof fn lemma_settled_len(x: Seq<char>)
    ensures
        settled(x).len() <= x.len(),
{
    lemma_run_len(x, CharClass::Space);
}

/// The keys of the fields of a record differ from one another.
proof fn lemma_keys_differ(
    fields: Seq<FieldView>,
    shapes: Seq<FieldShapeView>,
    i: int,
    above: Option<Seq<char>>,
    k: int,
)
    requires
        0 <= k < i <= fields.len(),
        fields_fit(fields, shapes, i, above),
        position(shapes, fields[k].key) == Some(k),
    ensures
        forall|j: int| i <= j < fields.len() ==> (#[trigger] fields[j]).key != fields[k].key,
        fields.len() == shapes.len(),
    decreases fields.len() - i,
{
    if i < fields.len() {
        lemma_keys_differ(fields, shapes, i + 1, above, k);
    }
}

/// A scalar is read back after the `=` that follows its key.
proof fn lemma_decode_scalar(
    key: Seq<char>,
    sc: ScalarView,
    kind: ScalarKind,
    tags: Seq<Seq<char>>,
    x: Seq<char>,
)
    requires
        comes_back(sc, kind, x),
    ensures
        decode_value(seq!['='] + scalar_text(sc) + x, tags, key, ShapeView::Scalar(kind)) == Ok::<
            (FieldValueView, Seq<char>),
            Fault,
        >((FieldValueView::Scalar(sc), x)),
{
    let text = seq!['='] + scalar_text(sc) + x;
    assert(text[0] == '=');
    assert(text.skip(1) =~= scalar_text(sc) + x);
    lemma_scalar_round_trip(sc, kind, x);
}

/// A tuple is read back after the `=` that follows its key.
proof fn lemma_decode_tuple(
    key: Seq<char>,
    t: Seq<ScalarView>,
    kind: ScalarKind,
    tags: Seq<Seq<char>>,
    x: Seq<char>,
)
    requires
        is_numeric(kind),
        forall|j: int| 0 <= j < t.len() ==> (#[trigger] t[j]).is_of(kind),
        at_line_end(x),
    ensures
        decode_value(
            seq!['='] + tuple_text(t, 0, true) + x,
            tags,
            key,
            ShapeView::Tuple(kind, t.len()),
        ) == Ok::<(FieldValueView, Seq<char>), Fault>((FieldValueView::Tuple(t), x)),
{
    let text = seq!['='] + tuple_text(t, 0, true) + x;
    assert(text[0] == '=');
    assert(text.skip(1) =~= tuple_text(t, 0, true) + x);
    lemma_tuple_fixed_length(t, kind, t.len(), x);
}

/// A tuple of one string is read back after the `=` that follows its key.
proof fn lemma_decode_word_tuple(
    key: Seq<char>,
    t: Seq<ScalarView>,
    tags: Seq<Seq<char>>,
    x: Seq<char>,
)
    requires
        t.len() == 1,
        t[0] is Str,
        t[0]->Str_0.len() > 0,
        on_one_line(t[0]->Str_0),
        at_line_end(x),
    ensures
        decode_value(
            seq!['='] + tuple_text(t, 0, true) + x,
            tags,
            key,
            ShapeView::Tuple(ScalarKind::Str, 1),
        ) == Ok::<(FieldValueView, Seq<char>), Fault>((FieldValueView::Tuple(t), x)),
{
    let word = t[0]->Str_0;
    let line = word + x;
    let text = seq!['='] + tuple_text(t, 0, true) + x;
    lemma_word_tuple_text(t);
    assert(text[0] == '=');
    assert(text.skip(1) =~= line);
    assert(line[0] == word[0]);
    assert(tuple_element(line, true) == (Ok::<bool, Error>(true), line));
    lemma_string_round_trip(word, x);
    assert(read_scalar(line, ScalarKind::Str) == Ok::<(ScalarView, Seq<char>), Error>(
        (t[0], x),
    ));
    let none = Seq::<ScalarView>::empty();
    lemma_read_step(line, ScalarKind::Str, 1, true, none, line, t[0], x);
    lemma_read_end(x, ScalarKind::Str, 0, false, none.push(t[0]));
    assert(none.push(t[0]) =~= t);
}

/// Reading a nested record: after its header, its fields are read.
proof fn lemma_decode_record_step(
    text: Seq<char>,
    tags: Seq<Seq<char>>,
    key: Seq<char>,
    shapes: Seq<FieldShapeView>,
    z: Seq<char>,
    inside: Seq<Seq<char>>,
    slots: Seq<Option<FieldValueView>>,
    left: Seq<char>,
)
    requires
        text.len() > 0,
        text[0] != '=',
        opened(text, tags, key).result is Ok,
        opened(text, tags, key).rest == z,
        opened(text, tags, key).tags == inside,
        decode_fields(z, inside, shapes, true, empty_slots(shapes.len())) == Ok::<
            (Seq<Option<FieldValueView>>, Seq<char>),
            Fault,
        >((slots, left)),
    ensures
        decode_value(text, tags, key, ShapeView::Record(shapes)) == Ok::<
            (FieldValueView, Seq<char>),
            Fault,
        >((FieldValueView::Record(filled(shapes, slots)), left)),
{
}

/// Reading a sequence: its records are read from the line of its key on.
proof fn lemma_decode_sequence_step(
    text: Seq<char>,
    tags: Seq<Seq<char>>,
    key: Seq<char>,
    shapes: Seq<FieldShapeView>,
    elements: Seq<Seq<FieldView>>,
    left: Seq<char>,
)
    requires
        text.len() > 0,
        text[0] != '=',
        decode_elements(text, tags, key, shapes, true, Seq::empty()) == Ok::<
            (Seq<Seq<FieldView>>, Seq<char>),
            Fault,
        >((elements, left)),
    ensures
        decode_value(text, tags, key, ShapeView::Sequence(shapes)) == Ok::<
            (FieldValueView, Seq<char>),
            Fault,
        >((FieldValueView::Sequence(elements), left)),
{
}

/// What the decoder finds after the key of a field, written out.
proof fn lemma_after_key(
    key: Seq<char>,
    value: FieldValueView,
    shape: ShapeView,
    above: Option<Seq<char>>,
    d: nat,
    x: Seq<char>,
)
    requires
        is_key(key),
        value_fits(key, value, shape, above),
        !(value is Absent),
    ensures
        (after_key(key, value, d) + x).len() > 0,
        value matches FieldValueView::Scalar(sc) ==> after_key(key, value, d) + x == seq!['=']
            + scalar_text(sc) + x,
        value matches FieldValueView::Tuple(t) ==> after_key(key, value, d) + x == seq!['=']
            + tuple_text(t, 0, true) + x,
        value matches FieldValueView::Record(inner) ==> after_key(key, value, d) + x == key + seq![
            '\n',
        ] + (fields_text(inner, 0, d + 1, true) + x),
        value is Record || value is Sequence ==> (after_key(key, value, d) + x)[0] != '=',
{
    lemma_key_chars(key);
    lemma_value_text_head(key, value, shape, above, d);
    let text = after_key(key, value, d) + x;
    match value {
        FieldValueView::Scalar(sc) => {
            assert(text =~= seq!['='] + scalar_text(sc) + x);
        },
        FieldValueView::Tuple(t) => {
            assert(text =~= seq!['='] + tuple_text(t, 0, true) + x);
        },
        FieldValueView::Record(inner) => {
            assert(text =~= key + seq!['\n'] + (fields_text(inner, 0, d + 1, true) + x));
            assert(text[0] == key[0]);
        },
        FieldValueView::Sequence(elements) => {
            assert(text[0] == key[0]);
        },
        FieldValueView::Absent => {},
    }
}

/// The value of a field is read back from its lines, up to what the field
/// ends before.
#[verifier::spinoff_prover]
proof fn lemma_decode_value(
    key: Seq<char>,
    value: FieldValueView,
    shape: ShapeView,
    above: Option<Seq<char>>,
    tags: Seq<Seq<char>>,
    d: nat,
    x: Seq<char>,
    follow: Follow,
)
    requires
        is_key(key),
        value_fits(key, value, shape, above),
        value_ends_well(value, follow),
        !(follow is End) ==> x.len() > 0,
        !(value is Absent),
        tags.len() == d,
        has_on_top(tags, above),
        ends_sequence(x, d, key),
        value_ending(value) is Firm ==> at_line_end(x),
    ensures
        decode_value(after_key(key, value, d) + x, tags, key, shape) == Ok::<
            (FieldValueView, Seq<char>),
            Fault,
        >((normal_value(value, shape), left_after(value, x))),
    decreases value, 0int,
{
    let text = after_key(key, value, d) + x;
    lemma_after_key(key, value, shape, above, d, x);
    match value {
        FieldValueView::Absent => {},
        FieldValueView::Scalar(sc) => {
            lemma_decode_scalar(key, sc, shape->Scalar_0, tags, x);
        },
        FieldValueView::Tuple(t) => {
            if is_numeric(shape->Tuple_0) {
                lemma_decode_tuple(key, t, shape->Tuple_0, tags, x);
            } else {
                lemma_decode_word_tuple(key, t, tags, x);
            }
        },
        FieldValueView::Record(inner) => {
            let shapes = shape->Record_0;
            let z = fields_text(inner, 0, d + 1, true) + x;
            let inside = tags.push(key);
            let slots = slots_upto(inner, shapes, inner.len() as int);
            assert(opened(text, tags, key).result is Ok && opened(text, tags, key).rest == z
                && opened(text, tags, key).tags == inside) by {
                lemma_key_chars(key);
                lemma_opened(key, z, tags);
            }
            assert(decode_fields(z, inside, shapes, true, empty_slots(shapes.len())) == Ok::<
                (Seq<Option<FieldValueView>>, Seq<char>),
                Fault,
            >((slots, settled(x))) && filled(shapes, slots) == normal_fields(
                inner,
                shapes,
                inner.len(),
            )) by {
                assert(record_fits(inner, shapes, Some(key)));
                lemma_decode_fields(inner, shapes, 0, inside, Some(key), d + 1, true, x, follow);
                lemma_keys_known(inner, shapes, 0, Some(key));
                lemma_slots_empty(inner, shapes);
                lemma_filled_is_normal(inner, shapes);
            }
            lemma_decode_record_step(text, tags, key, shapes, z, inside, slots, settled(x));
        },
        FieldValueView::Sequence(elements) => {
            let shapes = shape->Sequence_0;
            let all = normal_elements(elements, shapes, elements.len());
            assert(decode_elements(text, tags, key, shapes, true, Seq::empty()) == Ok::<
                (Seq<Seq<FieldView>>, Seq<char>),
                Fault,
            >((all, settled(x)))) by {
                lemma_normal_elements_step(elements, shapes, 0);
                lemma_decode_elements(key, elements, shapes, 0, tags, d, x, follow);
            }
            lemma_decode_sequence_step(text, tags, key, shapes, all, settled(x));
        },
    }
}

/// A record has as many fields as its shape.
proof fn lemma_keys_known(
    fields: Seq<FieldView>,
    shapes: Seq<FieldShapeView>,
    i: int,
    above: Option<Seq<char>>,
)
    requires
        0 <= i <= fields.len(),
        fields_fit(fields, shapes, i, above),
    ensures
        fields.len() == shapes.len(),
    decreases fields.len() - i,
{
    if i < fields.len() {
        lemma_keys_known(fields, shapes, i + 1, above);
    }
}

/// A field without a value leaves the slots as they are.
proof fn lemma_slots_skip(fields: Seq<FieldView>, shapes: Seq<FieldShapeView>, i: int)
    requires
        0 <= i < fields.len(),
        fields[i].value is Absent,
    ensures
        slots_upto(fields, shapes, i) == slots_upto(fields, shapes, i + 1),
{
    assert(slots_upto(fields, shapes, i) =~= slots_upto(fields, shapes, i + 1));
}

/// A field with a value fills its slot, which was empty.
proof fn lemma_slots_fill(fields: Seq<FieldView>, shapes: Seq<FieldShapeView>, i: int)
    requires
        0 <= i < fields.len(),
        i < shapes.len(),
        !(fields[i].value is Absent),
    ensures
        slots_upto(fields, shapes, i).len() == shapes.len(),
        slots_upto(fields, shapes, i)[i] is None,
        slots_upto(fields, shapes, i).update(
            i,
            Some(normal_value(fields[i].value, shapes[i].shape)),
        ) == slots_upto(fields, shapes, i + 1),
{
    assert(slots_upto(fields, shapes, i).update(
        i,
        Some(normal_value(fields[i].value, shapes[i].shape)),
    ) =~= slots_upto(fields, shapes, i + 1));
}

/// No slot is filled before the first field is read.
proof fn lemma_slots_empty(fields: Seq<FieldView>, shapes: Seq<FieldShapeView>)
    ensures
        slots_upto(fields, shapes, 0) == empty_slots(shapes.len()),
{
    assert(slots_upto(fields, shapes, 0) =~= empty_slots(shapes.len()));
}

/// The records that are read back, one more of them.
proof fn lemma_normal_elements_step(
    elements: Seq<Seq<FieldView>>,
    shapes: Seq<FieldShapeView>,
    j: int,
)
    requires
        0 <= j < elements.len(),
    ensures
        normal_elements(elements, shapes, j as nat).push(
            normal_fields(elements[j], shapes, elements[j].len()),
        ) == normal_elements(elements, shapes, (j + 1) as nat),
        normal_elements(elements, shapes, 0) == Seq::<Seq<FieldView>>::empty(),
{
}

/// Reading one field of a record: after its key and its value, the
/// record goes on with what is left.
proof fn lemma_field_step(
    text: Seq<char>,
    tags: Seq<Seq<char>>,
    shapes: Seq<FieldShapeView>,
    first: bool,
    slots: Seq<Option<FieldValueView>>,
    key: Seq<char>,
    rest: Seq<char>,
    i: int,
    value: FieldValueView,
    left: Seq<char>,
)
    requires
        next_key(text, tags.len(), first) == (Ok::<Option<Seq<char>>, Error>(Some(key)), rest),
        position(shapes, key) == Some(i),
        0 <= i < shapes.len(),
        i < slots.len(),
        slots[i] is None,
        decode_value(rest, tags, key, shapes[i].shape) == Ok::<
            (FieldValueView, Seq<char>),
            Fault,
        >((value, left)),
        left.len() < text.len(),
    ensures
        decode_fields(text, tags, shapes, first, slots) == decode_fields(
            left,
            tags,
            shapes,
            false,
            slots.update(i, Some(value)),
        ),
{
}

/// Where no further key follows, the fields are what was read so far.
proof fn lemma_fields_end(
    text: Seq<char>,
    tags: Seq<Seq<char>>,
    shapes: Seq<FieldShapeView>,
    first: bool,
    slots: Seq<Option<FieldValueView>>,
    d: nat,
)
    requires
        shuts(text, d),
        tags.len() == d,
    ensures
        decode_fields(text, tags, shapes, first, slots) == Ok::<
            (Seq<Option<FieldValueView>>, Seq<char>),
            Fault,
        >((slots, settled(text))),
{
}

/// The key of a field is found at the head of its lines.
proof fn lemma_field_key(
    fields: Seq<FieldView>,
    shapes: Seq<FieldShapeView>,
    i: int,
    above: Option<Seq<char>>,
    d: nat,
    first: bool,
    r: Seq<char>,
)
    requires
        0 <= i < fields.len(),
        fields_fit(fields, shapes, i, above),
        !(fields[i].value is Absent),
    ensures
        ({
            let x = fields_text(fields, i + 1, d, false) + r;
            let text = fields_text(fields, i, d, first) + r;
            &&& next_key(text, d, first) == (
                Ok::<Option<Seq<char>>, Error>(Some(fields[i].key)),
                after_key(fields[i].key, fields[i].value, d) + x,
            )
            &&& x.len() < text.len()
        }),
{
    let f = fields[i];
    let key = f.key;
    let text = fields_text(fields, i, d, first) + r;
    let x = fields_text(fields, i + 1, d, false) + r;
    let vt = value_text(key, f.value, d);
    lemma_value_text_head(key, f.value, shapes[i].shape, above, d);
    let y = vt.skip(key.len() as int) + x;
    assert(y[0] == vt[key.len() as int]);
    assert(text =~= lead(first) + indent(d) + key + y);
    lemma_next_key(first, d, key, y, d);
    let rest = if y[0] == '=' { y } else { key + y };
    assert(rest =~= after_key(key, f.value, d) + x);
}

/// The fields of a record from the `i`-th on are read back from their
/// lines, up to what the record ends before.
#[verifier::spinoff_prover]
proof fn lemma_decode_fields(
    fields: Seq<FieldView>,
    shapes: Seq<FieldShapeView>,
    i: int,
    tags: Seq<Seq<char>>,
    above: Option<Seq<char>>,
    d: nat,
    first: bool,
    r: Seq<char>,
    follow: Follow,
)
    requires
        0 <= i <= fields.len(),
        fields_fit(fields, shapes, i, above),
        ends_well(fields, i, follow),
        !(follow is End) ==> r.len() > 0,
        tags.len() == d,
        has_on_top(tags, above),
        shuts(r, d),
        has_present(fields, i) && fields_ending(fields, i) is Firm ==> at_line_end(r),
    ensures
        decode_fields(
            fields_text(fields, i, d, first) + r,
            tags,
            shapes,
            first,
            slots_upto(fields, shapes, i),
        ) == Ok::<(Seq<Option<FieldValueView>>, Seq<char>), Fault>(
            (slots_upto(fields, shapes, fields.len() as int), settled(r)),
        ),
    decreases fields, fields.len() - i,
{
    let text = fields_text(fields, i, d, first) + r;
    let slots = slots_upto(fields, shapes, i);
    lemma_keys_known(fields, shapes, i, above);
    if i == fields.len() {
        assert(text =~= r);
        lemma_fields_end(r, tags, shapes, first, slots, d);
    } else if fields[i].value is Absent {
        lemma_slots_skip(fields, shapes, i);
        lemma_decode_fields(fields, shapes, i + 1, tags, above, d, first, r, follow);
    } else {
        let f = fields[i];
        let key = f.key;
        let shape = shapes[i].shape;
        let x = fields_text(fields, i + 1, d, false) + r;
        let rest = after_key(key, f.value, d) + x;
        let value = normal_value(f.value, shape);
        let left = left_after(f.value, x);
        let ends = after_field(follow, has_present(fields, i + 1));
        lemma_field_key(fields, shapes, i, above, d, first, r);
        assert(ends_sequence(x, d, key) && (!(ends is End) ==> x.len() > 0) && (value_ending(
            f.value,
        ) is Firm ==> at_line_end(x))) by {
            lemma_keys_differ(fields, shapes, i + 1, above, i);
            lemma_follows(fields, shapes, i + 1, above, d, r, key);
            if has_present(fields, i + 1) {
                lemma_fields_text_end(fields, shapes, i + 1, above, d, false, follow);
            } else {
                lemma_fields_text_empty(fields, i + 1, d, false);
                assert(x =~= r);
            }
        }
        lemma_decode_value(key, f.value, shape, above, tags, d, x, ends);
        lemma_settled_len(x);
        lemma_slots_fill(fields, shapes, i);
        lemma_field_step(text, tags, shapes, first, slots, key, rest, i, value, left);
        let after = slots_upto(fields, shapes, i + 1);
        lemma_settled_fields(x, tags, shapes, false, after);
        lemma_decode_fields(fields, shapes, i + 1, tags, above, d, false, r, follow);
    }
}

/// Reading one record of a sequence: after its header and its fields, the
/// sequence goes on with what is left.
proof fn lemma_element_step(
    text: Seq<char>,
    now: Seq<Seq<char>>,
    inside: Seq<Seq<char>>,
    key: Seq<char>,
    shapes: Seq<FieldShapeView>,
    first: bool,
    got: Seq<Seq<FieldView>>,
    head: Seq<char>,
    body: Seq<char>,
    slots: Seq<Option<FieldValueView>>,
    left: Seq<char>,
)
    requires
        next_element(text, now, first) == (Ok::<bool, Error>(true), head),
        opened(head, now, key).result is Ok,
        opened(head, now, key).rest == body,
        opened(head, now, key).tags == inside,
        decode_fields(body, inside, shapes, true, empty_slots(shapes.len())) == Ok::<
            (Seq<Option<FieldValueView>>, Seq<char>),
            Fault,
        >((slots, left)),
        left.len() < text.len(),
    ensures
        decode_elements(text, now, key, shapes, first, got) == decode_elements(
            left,
            inside,
            key,
            shapes,
            false,
            got.push(filled(shapes, slots)),
        ),
{
}

/// Where no further record follows, the sequence is what was read so far.
proof fn lemma_element_end(
    left: Seq<char>,
    inside: Seq<Seq<char>>,
    key: Seq<char>,
    shapes: Seq<FieldShapeView>,
    got: Seq<Seq<FieldView>>,
)
    requires
        next_element(left, inside, false) == (Ok::<bool, Error>(false), left),
    ensures
        decode_elements(left, inside, key, shapes, false, got) == Ok::<
            (Seq<Seq<FieldView>>, Seq<char>),
            Fault,
        >((got, left)),
{
}

/// The header of a record of a sequence is found and read.
proof fn lemma_element_header(
    key: Seq<char>,
    elements: Seq<Seq<FieldView>>,
    j: int,
    tags: Seq<Seq<char>>,
    d: nat,
    x: Seq<char>,
)
    requires
        0 <= j < elements.len(),
        is_key(key),
        tags.len() == d,
        opens_level(tags, key),
    ensures
        ({
            let now = if j == 0 { tags } else { tags.push(key) };
            let text = elements_text(key, elements, j, d, j == 0) + x;
            let body = fields_text(elements[j], 0, d + 1, true) + (elements_text(
                key,
                elements,
                j + 1,
                d,
                false,
            ) + x);
            let head = key + seq!['\n'] + body;
            &&& next_element(text, now, j == 0) == (Ok::<bool, Error>(true), head)
            &&& opened(head, now, key).result is Ok
            &&& opened(head, now, key).rest == body
            &&& opened(head, now, key).tags == tags.push(key)
            &&& body.len() < text.len()
        }),
{
    lemma_key_chars(key);
    let first = j == 0;
    let now = if first { tags } else { tags.push(key) };
    let text = elements_text(key, elements, j, d, first) + x;
    let body = fields_text(elements[j], 0, d + 1, true) + (elements_text(
        key,
        elements,
        j + 1,
        d,
        false,
    ) + x);
    let z = seq!['\n'] + body;
    if first {
        assert(text =~= key + z);
        lemma_first_element(key, z, now);
    } else {
        let joined = is_joined(elements, j, d);
        assert(text =~= lead(joined) + indent(d) + key + z);
        lemma_further_element(joined, d, key, z, now);
    }
    assert(key + z =~= key + seq!['\n'] + body);
    lemma_opened(key, body, now);
}

/// The records of a sequence from the `j`-th on are read back from their
/// blocks, up to what the sequence ends before.
#[verifier::spinoff_prover]
proof fn lemma_decode_elements(
    key: Seq<char>,
    elements: Seq<Seq<FieldView>>,
    shapes: Seq<FieldShapeView>,
    j: int,
    tags: Seq<Seq<char>>,
    d: nat,
    x: Seq<char>,
    follow: Follow,
)
    requires
        0 <= j < elements.len(),
        elements_fit(elements, shapes, j, key),
        elements_end_well(elements, j, follow),
        !(follow is End) ==> x.len() > 0,
        is_key(key),
        tags.len() == d,
        opens_level(tags, key),
        ends_sequence(x, d, key),
        record_ending(elements, elements.len() - 1) is Firm ==> at_line_end(x),
    ensures
        decode_elements(
            elements_text(key, elements, j, d, j == 0) + x,
            if j == 0 {
                tags
            } else {
                tags.push(key)
            },
            key,
            shapes,
            j == 0,
            normal_elements(elements, shapes, j as nat),
        ) == Ok::<(Seq<Seq<FieldView>>, Seq<char>), Fault>(
            (normal_elements(elements, shapes, elements.len()), settled(x)),
        ),
    decreases elements, elements.len() - j,
{
    let first = j == 0;
    let now = if first { tags } else { tags.push(key) };
    let inside = tags.push(key);
    let e = elements[j];
    let text = elements_text(key, elements, j, d, first) + x;
    let xj = elements_text(key, elements, j + 1, d, false) + x;
    let body = fields_text(e, 0, d + 1, true) + xj;
    let head = key + seq!['\n'] + body;
    let got = normal_elements(elements, shapes, j as nat);
    let read = normal_fields(e, shapes, e.len());
    let slots = slots_upto(e, shapes, e.len() as int);
    lemma_element_header(key, elements, j, tags, d, x);
    assert(decode_fields(body, inside, shapes, true, empty_slots(shapes.len())) == Ok::<
        (Seq<Option<FieldValueView>>, Seq<char>),
        Fault,
    >((slots, settled(xj))) && filled(shapes, slots) == read) by {
        assert(record_fits(e, shapes, Some(key)));
        lemma_follows_element(key, elements, j + 1, d, x);
        let ends = after_record(follow, j + 1 < elements.len());
        if j + 1 == elements.len() {
            assert(xj =~= x);
        }
        lemma_decode_fields(e, shapes, 0, inside, Some(key), d + 1, true, xj, ends);
        lemma_keys_known(e, shapes, 0, Some(key));
        lemma_slots_empty(e, shapes);
        lemma_filled_is_normal(e, shapes);
    }
    lemma_settled_len(xj);
    lemma_element_step(text, now, inside, key, shapes, first, got, head, body, slots, settled(xj));
    let more = got.push(read);
    lemma_normal_elements_step(elements, shapes, j);
    if j + 1 < elements.len() {
        assert(settled(xj) == xj) by {
            lemma_follows_element(key, elements, j + 1, d, x);
        }
        lemma_decode_elements(key, elements, shapes, j + 1, tags, d, x, follow);
    } else {
        assert(xj =~= x);
        lemma_last_element(x, d, key, inside);
        lemma_element_end(settled(x), inside, key, shapes, more);
    }
}

/// As many records are read back as the sequence holds.
proof fn lemma_normal_elements_len(
    elements: Seq<Seq<FieldView>>,
    shapes: Seq<FieldShapeView>,
    n: nat,
)
    requires
        n <= elements.len(),
    ensures
        normal_elements(elements, shapes, n).len() == n,
    decreases n,
{
    if n > 0 {
        lemma_normal_elements_len(elements, shapes, (n - 1) as nat);
    }
}

/// Blocks that stand one after the other at one depth and carry one tag
/// are read as one sequence of exactly as many records.
/// The sequence ends before `x`: the end of the text, a line of lesser
/// depth, or a line of the same depth with another tag.
pub proof fn lemma_sequence_grouping(
    key: Seq<char>,
    elements: Seq<Seq<FieldView>>,
    shapes: Seq<FieldShapeView>,
    tags: Seq<Seq<char>>,
    x: Seq<char>,
)
    requires
        elements.len() > 0,
        elements_fit(elements, shapes, 0, key),
        elements_end_well(elements, 0, if x.len() == 0 {
                Follow::End
            } else {
                Follow::Line
            }),
        is_key(key),
        opens_level(tags, key),
        follows_field(x, tags.len(), key),
    ensures
        decode_elements(
            elements_text(key, elements, 0, tags.len(), true) + x,
            tags,
            key,
            shapes,
            true,
            Seq::empty(),
        ) == Ok::<(Seq<Seq<FieldView>>, Seq<char>), Fault>(
            (normal_elements(elements, shapes, elements.len()), settled(x)),
        ),
        normal_elements(elements, shapes, elements.len()).len() == elements.len(),
{
    lemma_normal_elements_step(elements, shapes, 0);
    let follow = if x.len() == 0 { Follow::End } else { Follow::Line };
    lemma_decode_elements(key, elements, shapes, 0, tags, tags.len(), x, follow);
    lemma_normal_elements_len(elements, shapes, elements.len());
}

/// Whether `gap` is made of whitespace.
pub open spec fn is_gap(gap: Seq<char>) -> bool {
    forall|i: int| 0 <= i < gap.len() ==> is_space(#[trigger] gap[i])
}

/// The blocks of a sequence from the `j`-th on, as any text may hold
/// them, and `x` after them: each block is whitespace, `d` dots, the tag
/// on the rest of its line, and a body.
pub open spec fn blocks_text(
    key: Seq<char>,
    gaps: Seq<Seq<char>>,
    bodies: Seq<Seq<char>>,
    j: int,
    d: nat,
    x: Seq<char>,
) -> Seq<char>
    decreases bodies.len() - j,
{
    if j < 0 || j >= bodies.len() || j >= gaps.len() {
        x
    } else {
        gaps[j] + dots(d) + key + seq!['\n'] + bodies[j] + blocks_text(
            key,
            gaps,
            bodies,
            j + 1,
            d,
            x,
        )
    }
}

/// Whether the body of the `j`-th block is read as the fields of one
/// record, up to the block that follows it.
pub open spec fn body_is_read(
    key: Seq<char>,
    gaps: Seq<Seq<char>>,
    bodies: Seq<Seq<char>>,
    slots: Seq<Seq<Option<FieldValueView>>>,
    shapes: Seq<FieldShapeView>,
    tags: Seq<Seq<char>>,
    x: Seq<char>,
    j: int,
) -> bool {
    let rest = blocks_text(key, gaps, bodies, j + 1, tags.len(), x);
    decode_fields(bodies[j] + rest, tags.push(key), shapes, true, empty_slots(shapes.len()))
        == Ok::<(Seq<Option<FieldValueView>>, Seq<char>), Fault>((slots[j], settled(rest)))
}

/// The records that the bodies of the blocks from the `j`-th on are read as.
pub open spec fn records_read(
    shapes: Seq<FieldShapeView>,
    slots: Seq<Seq<Option<FieldValueView>>>,
    j: int,
) -> Seq<Seq<FieldView>> {
    Seq::new((slots.len() - j) as nat, |k: int| filled(shapes, slots[j + k]))
}

/// A further block is found after any whitespace where its line has the
/// depth of the blocks and carries their tag.
proof fn lemma_spaced_element(
    gap: Seq<char>,
    d: nat,
    key: Seq<char>,
    z: Seq<char>,
    tags: Seq<Seq<char>>,
)
    requires
        is_gap(gap),
        is_key(key),
        z.len() > 0,
        z[0] == '\n',
        tags.len() == d + 1,
        tags.last() == key,
    ensures
        next_element(gap + dots(d) + key + z, tags, false) == (Ok::<bool, Error>(true), key + z),
        trim_start(gap + dots(d) + key + z).len() > 0,
{
    lemma_key_chars(key);
    let u = key + z;
    let t = dots(d) + u;
    let s = gap + dots(d) + key + z;
    assert(s =~= gap + t);
    assert(u[0] == key[0]);
    assert(t[0] == (if d > 0 { '.' } else { key[0] }));
    lemma_run_of_prefix(gap, t, CharClass::Space);
    lemma_run_of_prefix(dots(d), u, CharClass::Dot);
    lemma_block_tag(key, z);
}

/// The blocks from the `j`-th on are read as one record each, and the
/// sequence ends before `x`.
proof fn lemma_blocks_go_on(
    key: Seq<char>,
    gaps: Seq<Seq<char>>,
    bodies: Seq<Seq<char>>,
    slots: Seq<Seq<Option<FieldValueView>>>,
    shapes: Seq<FieldShapeView>,
    tags: Seq<Seq<char>>,
    x: Seq<char>,
    j: int,
    got: Seq<Seq<FieldView>>,
)
    requires
        is_key(key),
        1 <= j <= bodies.len(),
        gaps.len() == bodies.len(),
        slots.len() == bodies.len(),
        forall|k: int| 0 <= k < gaps.len() ==> is_gap(#[trigger] gaps[k]),
        forall|k: int|
            0 <= k < bodies.len() ==> #[trigger] body_is_read(
                key,
                gaps,
                bodies,
                slots,
                shapes,
                tags,
                x,
                k,
            ),
        ends_sequence(x, tags.len(), key),
    ensures
        decode_elements(
            settled(blocks_text(key, gaps, bodies, j, tags.len(), x)),
            tags.push(key),
            key,
            shapes,
            false,
            got,
        ) == Ok::<(Seq<Seq<FieldView>>, Seq<char>), Fault>(
            (got + records_read(shapes, slots, j), settled(x)),
        ),
    decreases bodies.len() - j,
{
    let d = tags.len();
    let inside = tags.push(key);
    let text = blocks_text(key, gaps, bodies, j, d, x);
    if j == bodies.len() {
        lemma_last_element(x, d, key, inside);
        lemma_element_end(settled(x), inside, key, shapes, got);
        assert(got + records_read(shapes, slots, j) =~= got);
    } else {
        let rest = blocks_text(key, gaps, bodies, j + 1, d, x);
        let body = bodies[j] + rest;
        let z = seq!['\n'] + body;
        assert(text =~= gaps[j] + dots(d) + key + z);
        assert(is_gap(gaps[j]));
        lemma_spaced_element(gaps[j], d, key, z, inside);
        assert(settled(text) == text);
        assert(key + z =~= key + seq!['\n'] + body);
        lemma_opened(key, body, inside);
        assert(body_is_read(key, gaps, bodies, slots, shapes, tags, x, j));
        lemma_settled_len(rest);
        lemma_element_step(
            text,
            inside,
            inside,
            key,
            shapes,
            false,
            got,
            key + z,
            body,
            slots[j],
            settled(rest),
        );
        let more = got.push(filled(shapes, slots[j]));
        lemma_blocks_go_on(key, gaps, bodies, slots, shapes, tags, x, j + 1, more);
        assert(more + records_read(shapes, slots, j + 1) =~= got + records_read(shapes, slots, j));
    }
}

/// In any text, blocks that stand one after the other at one depth and
/// carry one tag are read as one sequence of exactly as many records, one
/// from each block in its place, and what follows them is left unread.
/// The first block begins at its tag; before each of the others stands
/// any whitespace. The body of each block is any text that is read as the
/// fields of one record. The sequence ends before `x`: the end of the
/// text, a line of lesser depth, or a line of the same depth with another
/// tag.
pub proof fn lemma_blocks_are_grouped(
    key: Seq<char>,
    gaps: Seq<Seq<char>>,
    bodies: Seq<Seq<char>>,
    slots: Seq<Seq<Option<FieldValueView>>>,
    shapes: Seq<FieldShapeView>,
    tags: Seq<Seq<char>>,
    x: Seq<char>,
)
    requires
        is_key(key),
        opens_level(tags, key),
        bodies.len() > 0,
        gaps.len() == bodies.len(),
        slots.len() == bodies.len(),
        forall|k: int| 0 <= k < gaps.len() ==> is_gap(#[trigger] gaps[k]),
        forall|k: int|
            0 <= k < bodies.len() ==> #[trigger] body_is_read(
                key,
                gaps,
                bodies,
                slots,
                shapes,
                tags,
                x,
                k,
            ),
        ends_sequence(x, tags.len(), key),
    ensures
        decode_elements(
            key + seq!['\n'] + bodies[0] + blocks_text(key, gaps, bodies, 1, tags.len(), x),
            tags,
            key,
            shapes,
            true,
            Seq::empty(),
        ) == Ok::<(Seq<Seq<FieldView>>, Seq<char>), Fault>(
            (records_read(shapes, slots, 0), settled(x)),
        ),
        records_read(shapes, slots, 0).len() == bodies.len(),
{
    let d = tags.len();
    let inside = tags.push(key);
    let rest = blocks_text(key, gaps, bodies, 1, d, x);
    let body = bodies[0] + rest;
    let z = seq!['\n'] + body;
    let text = key + seq!['\n'] + bodies[0] + rest;
    let none = Seq::<Seq<FieldView>>::empty();
    assert(text =~= key + z);
    lemma_first_element(key, z, tags);
    assert(key + z =~= key + seq!['\n'] + body);
    lemma_key_chars(key);
    lemma_opened(key, body, tags);
    assert(body_is_read(key, gaps, bodies, slots, shapes, tags, x, 0));
    lemma_settled_len(rest);
    lemma_element_step(
        text,
        tags,
        inside,
        key,
        shapes,
        true,
        none,
        key + z,
        body,
        slots[0],
        settled(rest),
    );
    let more = none.push(filled(shapes, slots[0]));
    lemma_blocks_go_on(key, gaps, bodies, slots, shapes, tags, x, 1, more);
    assert(more + records_read(shapes, slots, 1) =~= records_read(shapes, slots, 0));
}

/// Reading a whole text: after the header and the fields of the
/// outermost record, only whitespace is left.
proof fn lemma_document_step(
    text: Seq<char>,
    shape: RecordShapeView,
    z: Seq<char>,
    tags: Seq<Seq<char>>,
    slots: Seq<Option<FieldValueView>>,
    left: Seq<char>,
)
    requires
        opened(text, Seq::empty(), shape.tag).result is Ok,
        opened(text, Seq::empty(), shape.tag).rest == z,
        opened(text, Seq::empty(), shape.tag).tags == tags,
        decode_fields(z, tags, shape.fields, true, empty_slots(shape.fields.len())) == Ok::<
            (Seq<Option<FieldValueView>>, Seq<char>),
            Fault,
        >((slots, left)),
        trim_start(left).len() == 0,
    ensures
        decoded(text, shape) == Ok::<RecordView, Fault>(
            RecordView { tag: shape.tag, fields: filled(shape.fields, slots) },
        ),
{
}

/// The text of a record is its lines, with or without a line feed after them.
pub proof fn lemma_encoded_text(record: RecordView, shape: RecordShapeView)
    requires
        document_fits(record, shape),
    ensures
        encoded(record) == document_text(record) || encoded(record) == document_text(record)
            + seq!['\n'],
{
    lemma_record_layout(record, shape);
    let doc = document_text(record);
    assert(doc.push('\n') =~= doc + seq!['\n']);
}

/// A record that is written so that it can be read back is read back from
/// its text as it was, with the default of its shape in the place of each
/// field that it leaves out.
pub proof fn lemma_round_trip(record: RecordView, shape: RecordShapeView)
    requires
        document_fits(record, shape),
    ensures
        decoded(encoded(record), shape) == Ok::<RecordView, Fault>(normal_record(record, shape)),
{
    let tag = record.tag;
    let d = root_depth(tag);
    let above = root_above(tag);
    let doc = document_text(record);
    let text = encoded(record);
    lemma_encoded_text(record, shape);
    let r: Seq<char> = if text == doc { Seq::empty() } else { seq!['\n'] };
    assert(text =~= doc + r);
    let z = fields_text(record.fields, 0, d, true) + r;
    assert(text =~= tag + seq!['\n'] + z);
    let none = Seq::<Seq<char>>::empty();
    let tags = if opens_level(none, tag) { none.push(tag) } else { none };
    lemma_opened(tag, z, none);
    assert(tags.len() == d);
    assert(has_on_top(tags, above));
    assert(closes(r, d) && trim_start(r).len() == 0) by {
        assert(is_space('\n'));
        lemma_run_len_is(r, CharClass::Space, r.len());
    }
    let slots = slots_upto(record.fields, shape.fields, record.fields.len() as int);
    assert(decode_fields(z, tags, shape.fields, true, empty_slots(shape.fields.len())) == Ok::<
        (Seq<Option<FieldValueView>>, Seq<char>),
        Fault,
    >((slots, settled(r)))) by {
        lemma_record_layout(record, shape);
        assert(text == finished(doc));
        lemma_decode_fields(
            record.fields,
            shape.fields,
            0,
            tags,
            above,
            d,
            true,
            r,
            text_end(record),
        );
        lemma_keys_known(record.fields, shape.fields, 0, above);
        lemma_slots_empty(record.fields, shape.fields);
    }
    lemma_settled_fields(r, tags, shape.fields, true, slots);
    lemma_document_step(text, shape, z, tags, slots, settled(r));
    lemma_keys_known(record.fields, shape.fields, 0, above);
    lemma_filled_is_normal(record.fields, shape.fields);
}

/// A field that a record leaves out comes back with the default of its
/// shape.
pub proof fn lemma_absent_reads_default(record: RecordView, shape: RecordShapeView, i: int)
    requires
        document_fits(record, shape),
        0 <= i < record.fields.len(),
        record.fields[i].value is Absent,
    ensures
        decoded(encoded(record), shape) is Ok,
        decoded(encoded(record), shape)->Ok_0.fields[i].key == shape.fields[i].key,
        decoded(encoded(record), shape)->Ok_0.fields[i].value == shape.fields[i].default,
{
    lemma_round_trip(record, shape);
    lemma_keys_known(record.fields, shape.fields, 0, root_above(record.tag));
    lemma_normal_fields(record.fields, shape.fields, record.fields.len());
}

} // verus!
