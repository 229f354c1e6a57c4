//! The text of a record, line by line: each field on a line of its own that
//! begins with one dot for each enclosing record.

use vstd::prelude::*;
use crate::decode::position;
use crate::ser::{
    began_element, began_field, began_record, cleared, closed_line, dots, emit_field, emit_fields,
    emit_record, emit_sequence, emit_tuple, encoded, ended, finished, fits_field, fits_fields,
    fits_record, fits_sequence, fresh, key_line, scalar_text, value_line, wrote, wrote_header, Sink,
};
use crate::text::{is_bracketed, is_space, lemma_decimal_text};
use crate::value::{
    FieldShapeView, FieldValueView, FieldView, RecordShapeView, RecordView, ScalarKind, ScalarView,
    ShapeView,
};

verus! {

/// What a field line at depth `d` begins with: nothing at depth zero, else
/// a space and `d` dots.
pub open spec fn indent(d: nat) -> Seq<char> {
    if d > 0 {
        seq![' '] + dots(d)
    } else {
        Seq::empty()
    }
}

/// What stands before a line: nothing on a fresh line, else a line feed.
pub open spec fn lead(fresh: bool) -> Seq<char> {
    if fresh {
        Seq::empty()
    } else {
        seq!['\n']
    }
}

/// Whether `t` holds no line feed.
pub open spec fn on_one_line(t: Seq<char>) -> bool {
    forall|i: int| 0 <= i < t.len() ==> t[i] != '\n'
}

/// Whether scalars of the kind `kind` can stand in a tuple: truth values
/// and numbers.
pub open spec fn is_numeric(kind: ScalarKind) -> bool {
    kind is Bool || kind is Signed || kind is Unsigned
}

/// The text of the elements of a tuple from the `i`-th on: a single space
/// stands before each but the first.
pub open spec fn tuple_text(elements: Seq<ScalarView>, i: int, first: bool) -> Seq<char>
    decreases elements.len() - i,
{
    if i < 0 || i >= elements.len() {
        Seq::empty()
    } else {
        (if first { Seq::empty() } else { seq![' '] }) + scalar_text(elements[i]) + tuple_text(
            elements,
            i + 1,
            false,
        )
    }
}

/// The lines of the fields of a record from the `i`-th on, at depth `d`.
/// The first of them begins on a fresh line where `fresh` says so.
pub open spec fn fields_text(fields: Seq<FieldView>, i: int, d: nat, fresh: bool) -> Seq<char>
    decreases fields, fields.len() - i,
{
    if i < 0 || i >= fields.len() {
        Seq::empty()
    } else if fields[i].value is Absent {
        fields_text(fields, i + 1, d, fresh)
    } else {
        lead(fresh) + indent(d) + value_text(fields[i].key, fields[i].value, d) + fields_text(
            fields,
            i + 1,
            d,
            false,
        )
    }
}

/// The lines of a field at depth `d`, from its key on.
pub open spec fn value_text(key: Seq<char>, value: FieldValueView, d: nat) -> Seq<char>
    decreases value, 0int,
{
    match value {
        FieldValueView::Absent => Seq::empty(),
        FieldValueView::Scalar(s) => key + seq!['='] + scalar_text(s),
        FieldValueView::Tuple(t) => key + seq!['='] + tuple_text(t, 0, true),
        FieldValueView::Record(inner) => key + seq!['\n'] + fields_text(inner, 0, d + 1, true),
        FieldValueView::Sequence(elements) => elements_text(key, elements, 0, d, true),
    }
}

/// How the lines of a value end.
pub enum Ending {
    /// With a line that gives a value to a field. What follows begins with
    /// a line feed.
    Firm,
    /// With the line of a key alone, closed by a line feed: a record
    /// without a value whose header is the line of its key.
    Fresh,
    /// With the header of a further record of a sequence, and that record
    /// holds no value. The line feed after the header is written only with
    /// the header that follows.
    Bare,
}

/// How the lines of the fields from the `i`-th on end: like the lines of
/// the last of them that holds a value.
pub open spec fn fields_ending(fields: Seq<FieldView>, i: int) -> Ending
    decreases fields, fields.len() - i,
{
    if i < 0 || i >= fields.len() {
        Ending::Firm
    } else if has_present(fields, i + 1) {
        fields_ending(fields, i + 1)
    } else {
        value_ending(fields[i].value)
    }
}

/// How the block of a record ends: like its fields where one of them holds
/// a value, else with its header, which is the line of a key for the first
/// record of a sequence and for a nested record.
pub open spec fn block_ending(fields: Seq<FieldView>, first: bool) -> Ending
    decreases fields, fields.len() + 1,
{
    if has_present(fields, 0) {
        fields_ending(fields, 0)
    } else if first {
        Ending::Fresh
    } else {
        Ending::Bare
    }
}

/// How the lines of the value `value` end.
pub open spec fn value_ending(value: FieldValueView) -> Ending
    decreases value, 0int,
{
    match value {
        FieldValueView::Record(inner) => block_ending(inner, true),
        FieldValueView::Sequence(elements) => if elements.len() > 0 {
            record_ending(elements, elements.len() - 1)
        } else {
            Ending::Firm
        },
        _ => Ending::Firm,
    }
}

/// How the block of the `k`-th record of a sequence ends.
pub open spec fn record_ending(elements: Seq<Seq<FieldView>>, k: int) -> Ending
    decreases elements, 0int,
{
    if 0 <= k < elements.len() {
        block_ending(elements[k], k == 0)
    } else {
        Ending::Firm
    }
}

/// Whether the header of the `j`-th record of a sequence at depth `d`
/// follows directly on a line feed that belongs to the block before it:
/// that block ends with a header of its own, or with the line of a key
/// alone at depth zero, where no empty line is written.
pub open spec fn is_joined(elements: Seq<Seq<FieldView>>, j: int, d: nat) -> bool {
    1 <= j <= elements.len() && match record_ending(elements, j - 1) {
        Ending::Firm => false,
        Ending::Fresh => d == 0,
        Ending::Bare => true,
    }
}

/// The lines of the records of a sequence from the `j`-th on, at depth `d`:
/// each begins with a header line that holds the key; before the first, the
/// indentation is written already.
pub open spec fn elements_text(
    key: Seq<char>,
    elements: Seq<Seq<FieldView>>,
    j: int,
    d: nat,
    first: bool,
) -> Seq<char>
    decreases elements, elements.len() - j,
{
    if j < 0 || j >= elements.len() {
        Seq::empty()
    } else {
        (if first {
            Seq::empty()
        } else {
            lead(is_joined(elements, j, d)) + indent(d)
        }) + key + seq!['\n'] + fields_text(elements[j], 0, d + 1, true) + elements_text(
            key,
            elements,
            j + 1,
            d,
            false,
        )
    }
}

/// Whether one of the fields from the `i`-th on holds a value.
pub open spec fn has_present(fields: Seq<FieldView>, i: int) -> bool
    decreases fields.len() - i,
{
    if i < 0 || i >= fields.len() {
        false
    } else {
        !(fields[i].value is Absent) || has_present(fields, i + 1)
    }
}

/// Whether `key` can be told from what stands around it: it is not empty,
/// holds no whitespace and no `=`, and does not begin with a dot.
pub open spec fn is_key(key: Seq<char>) -> bool {
    &&& key.len() > 0
    &&& key[0] != '.'
    &&& forall|i: int| 0 <= i < key.len() ==> !is_space(#[trigger] key[i]) && key[i] != '='
}

/// Whether the scalar `s` can stand as the value of a field: a string
/// holds no line feed, and a byte string is empty.
pub open spec fn is_plain(s: ScalarView) -> bool {
    match s {
        ScalarView::Str(t) => on_one_line(t),
        ScalarView::Bytes(b) => b.len() == 0,
        _ => true,
    }
}

/// What follows a value in the text.
pub enum Follow {
    /// Nothing: the text ends with the value.
    End,
    /// The header of a further record of a sequence.
    Header,
    /// Anything else: the line of a field, or the line feed that closes
    /// the text.
    Line,
}

/// What follows a field of a record: the line of the next field where one
/// of the later fields holds a value, else what follows the record.
pub open spec fn after_field(follow: Follow, more: bool) -> Follow {
    if more {
        Follow::Line
    } else {
        follow
    }
}

/// What follows a record of a sequence: the header of the next record
/// where there is one, else what follows the sequence.
pub open spec fn after_record(follow: Follow, more: bool) -> Follow {
    if more {
        Follow::Header
    } else {
        follow
    }
}

/// Whether the fields from the `i`-th on stand where they can be read
/// back: no empty string at the very end of the text, and no record
/// without a value before the line of a field. `follow` tells what follows
/// the record.
pub open spec fn ends_well(fields: Seq<FieldView>, i: int, follow: Follow) -> bool
    decreases fields, fields.len() - i,
{
    if i < 0 || i >= fields.len() {
        true
    } else {
        value_ends_well(fields[i].value, after_field(follow, has_present(fields, i + 1)))
            && ends_well(fields, i + 1, follow)
    }
}

/// Whether the value `value` of a field stands where it can be read back.
/// `follow` tells what follows the value. An empty string, or an empty
/// byte string, is read back unless the text ends with it. A record
/// without a value, which is only the line of its key, is read back where
/// the text ends with it and where the header of a further record follows.
pub open spec fn value_ends_well(value: FieldValueView, follow: Follow) -> bool
    decreases value, 0int,
{
    match value {
        FieldValueView::Scalar(ScalarView::Str(t)) => t.len() > 0 || !(follow is End),
        FieldValueView::Scalar(ScalarView::Bytes(_)) => !(follow is End),
        FieldValueView::Record(inner) => (has_present(inner, 0) || !(follow is Line)) && ends_well(
            inner,
            0,
            follow,
        ),
        FieldValueView::Sequence(elements) => elements_end_well(elements, 0, follow),
        _ => true,
    }
}

/// Whether the records from the `j`-th on of a sequence stand where they
/// can be read back. `follow` tells what follows the sequence. The first
/// record, if it holds no value, is read back unless the line of a field
/// follows it; a later one, where the header of a further record follows.
pub open spec fn elements_end_well(elements: Seq<Seq<FieldView>>, j: int, follow: Follow) -> bool
    decreases elements, elements.len() - j,
{
    if j < 0 || j >= elements.len() {
        true
    } else {
        let ends = after_record(follow, j + 1 < elements.len());
        (has_present(elements[j], 0) || (if j == 0 {
            !(ends is Line)
        } else {
            ends is Header
        })) && ends_well(elements[j], 0, ends) && elements_end_well(elements, j + 1, follow)
    }
}

/// Whether the fields from the `i`-th on are of the shapes `shapes`, in the
/// same order, and written so that they can be read back. `above` is the
/// tag of the record that holds them, if that record counts as a level.
pub open spec fn fields_fit(
    fields: Seq<FieldView>,
    shapes: Seq<FieldShapeView>,
    i: int,
    above: Option<Seq<char>>,
) -> bool
    decreases fields, fields.len() - i,
{
    if i < 0 || i >= fields.len() {
        fields.len() == shapes.len()
    } else {
        &&& i < shapes.len()
        &&& fields[i].key == shapes[i].key
        &&& is_key(fields[i].key)
        &&& position(shapes, fields[i].key) == Some(i)
        &&& value_fits(fields[i].key, fields[i].value, shapes[i].shape, above)
        &&& fields_fit(fields, shapes, i + 1, above)
    }
}

/// Whether a record with the fields `fields` is of the shape `shapes` and
/// written so that it can be read back.
pub open spec fn record_fits(
    fields: Seq<FieldView>,
    shapes: Seq<FieldShapeView>,
    above: Option<Seq<char>>,
) -> bool
    decreases fields, fields.len() + 1,
{
    fields_fit(fields, shapes, 0, above)
}

/// Whether the tuple `t` of scalars of the kind `kind` can be read back:
/// it is not empty, and holds truth values or numbers, or a single string
/// that is not empty and holds no line feed.
pub open spec fn tuple_fits(t: Seq<ScalarView>, kind: ScalarKind) -> bool {
    &&& t.len() > 0
    &&& forall|j: int| 0 <= j < t.len() ==> (#[trigger] t[j]).is_of(kind)
    &&& is_numeric(kind) || (kind is Str && t.len() == 1 && t[0] is Str && t[0]->Str_0.len() > 0
        && on_one_line(t[0]->Str_0))
}

/// Whether opening a record tagged `key` inside a record tagged `above`
/// adds a level: the two tags differ; directly inside a transparent root,
/// the key is not bracketed.
pub open spec fn adds_level(above: Option<Seq<char>>, key: Seq<char>) -> bool {
    match above {
        Some(tag) => tag != key,
        None => !is_bracketed(key),
    }
}

/// Whether the value `value` of the field `key` is of the shape `shape`
/// and written so that it can be read back.
pub open spec fn value_fits(
    key: Seq<char>,
    value: FieldValueView,
    shape: ShapeView,
    above: Option<Seq<char>>,
) -> bool
    decreases value, 0int,
{
    match value {
        FieldValueView::Absent => true,
        FieldValueView::Scalar(s) => shape matches ShapeView::Scalar(kind) && s.is_of(kind)
            && is_plain(s),
        FieldValueView::Tuple(t) => shape matches ShapeView::Tuple(kind, len) && tuple_fits(
            t,
            kind,
        ) && t.len() == len,
        FieldValueView::Record(inner) => shape matches ShapeView::Record(shapes) && adds_level(
            above,
            key,
        ) && record_fits(inner, shapes, Some(key)),
        FieldValueView::Sequence(elements) => shape matches ShapeView::Sequence(shapes)
            && adds_level(above, key) && elements.len() > 0 && elements_fit(
            elements,
            shapes,
            0,
            key,
        ),
    }
}

/// Whether the records of a sequence from the `j`-th on are of the shape
/// `shapes` and can be read back.
pub open spec fn elements_fit(
    elements: Seq<Seq<FieldView>>,
    shapes: Seq<FieldShapeView>,
    j: int,
    key: Seq<char>,
) -> bool
    decreases elements, elements.len() - j,
{
    if j < 0 || j >= elements.len() {
        true
    } else {
        record_fits(elements[j], shapes, Some(key)) && elements_fit(elements, shapes, j + 1, key)
    }
}

/// Whether `out` ends with a line feed: the next line begins on a fresh line.
pub open spec fn is_fresh(out: Seq<char>) -> bool {
    out.len() > 0 && out.last() == '\n'
}

/// The text of a scalar that can stand in a tuple is not empty and does
/// not end with a line feed.
proof fn lemma_scalar_text_end(s: ScalarView)
    requires
        !(s is Bytes),
        s matches ScalarView::Str(t) ==> t.len() > 0 && on_one_line(t),
    ensures
        scalar_text(s).len() > 0,
        scalar_text(s).last() != '\n',
        scalar_text(s)[0] != '\n',
{
    match s {
        ScalarView::Signed(v) => {
            if v < 0 {
                lemma_decimal_text((-v) as nat);
            } else {
                lemma_decimal_text(v as nat);
            }
        },
        ScalarView::Unsigned(v) => {
            lemma_decimal_text(v as nat);
        },
        _ => {},
    }
}

/// The text of the elements of a tuple from the `i`-th on is not empty and
/// does not end with a line feed.
proof fn lemma_tuple_text_end(t: Seq<ScalarView>, i: int, first: bool, kind: ScalarKind)
    requires
        0 <= i < t.len(),
        is_numeric(kind),
        forall|j: int| 0 <= j < t.len() ==> (#[trigger] t[j]).is_of(kind),
    ensures
        tuple_text(t, i, first).len() > 0,
        tuple_text(t, i, first).last() != '\n',
    decreases t.len() - i,
{
    lemma_scalar_text_end(t[i]);
    if i + 1 < t.len() {
        lemma_tuple_text_end(t, i + 1, false, kind);
    } else {
        assert(tuple_text(t, i + 1, false) =~= Seq::<char>::empty());
    }
}

/// Where no field from the `i`-th on holds a value, they have no lines.
pub(crate) proof fn lemma_fields_text_empty(fields: Seq<FieldView>, i: int, d: nat, fresh: bool)
    requires
        0 <= i,
        !has_present(fields, i),
    ensures
        fields_text(fields, i, d, fresh) == Seq::<char>::empty(),
    decreases fields.len() - i,
{
    if i < fields.len() {
        lemma_fields_text_empty(fields, i + 1, d, fresh);
    }
}

/// Lines that do not begin on a fresh line begin with a line feed, and are
/// the same lines after it.
proof fn lemma_fields_text_lead(fields: Seq<FieldView>, i: int, d: nat)
    requires
        0 <= i,
        has_present(fields, i),
    ensures
        fields_text(fields, i, d, false) == seq!['\n'] + fields_text(fields, i, d, true),
    decreases fields.len() - i,
{
    if fields[i].value is Absent {
        lemma_fields_text_lead(fields, i + 1, d);
    } else {
        let body = indent(d) + value_text(fields[i].key, fields[i].value, d);
        let rest = fields_text(fields, i + 1, d, false);
        assert(fields_text(fields, i, d, false) =~= seq!['\n'] + (lead(true) + body + rest));
    }
}

/// The line feed that lines which end as `ending` leave to be written.
pub open spec fn carry(ending: Ending) -> Seq<char> {
    if ending is Bare {
        seq!['\n']
    } else {
        Seq::empty()
    }
}

/// Whether the lines `t` end as `ending` says: with a line feed or without
/// one; where the line feed is still to be written, it is the only one
/// after the header.
pub open spec fn ends_as(t: Seq<char>, ending: Ending) -> bool {
    t.len() > 0 && match ending {
        Ending::Firm => t.last() != '\n',
        Ending::Fresh => t.last() == '\n',
        Ending::Bare => t.len() >= 2 && t.last() == '\n' && t[t.len() - 2] != '\n',
    }
}

/// Whether lines that end as `ending` can be read back before `follow`.
pub open spec fn may_precede(ending: Ending, follow: Follow) -> bool {
    match ending {
        Ending::Firm => true,
        Ending::Fresh => !(follow is Line),
        Ending::Bare => follow is Header,
    }
}

/// Lines end as they did when a text is put before them.
proof fn lemma_ends_as_after(a: Seq<char>, t: Seq<char>, ending: Ending)
    requires
        ends_as(t, ending),
    ensures
        ends_as(a + t, ending),
{
    let u = a + t;
    assert(u.last() == t.last());
    if t.len() >= 2 {
        assert(u[u.len() - 2] == t[t.len() - 2]);
    }
}

/// The lines of a field that holds a value end as the value says, and
/// stand before what they can be read back before.
proof fn lemma_value_text_end(
    key: Seq<char>,
    value: FieldValueView,
    shape: ShapeView,
    above: Option<Seq<char>>,
    d: nat,
    follow: Follow,
)
    requires
        is_key(key),
        value_fits(key, value, shape, above),
        value_ends_well(value, follow),
        !(value is Absent),
    ensures
        ends_as(value_text(key, value, d), value_ending(value)),
        may_precede(value_ending(value), follow),
    decreases value, 0int,
{
    match value {
        FieldValueView::Absent => {},
        FieldValueView::Scalar(s) => {
            if scalar_text(s).len() > 0 {
                lemma_scalar_text_end(s);
                lemma_ends_as_after(key + seq!['='], scalar_text(s), Ending::Firm);
            } else {
                assert(value_text(key, value, d) =~= key + seq!['=']);
            }
        },
        FieldValueView::Tuple(t) => {
            let kind = shape->Tuple_0;
            if is_numeric(kind) {
                lemma_tuple_text_end(t, 0, true, kind);
            } else {
                lemma_word_tuple_text(t);
            }
            lemma_ends_as_after(key + seq!['='], tuple_text(t, 0, true), Ending::Firm);
        },
        FieldValueView::Record(inner) => {
            if has_present(inner, 0) {
                lemma_fields_text_end(inner, shape->Record_0, 0, Some(key), d + 1, true, follow);
                lemma_ends_as_after(
                    key + seq!['\n'],
                    fields_text(inner, 0, d + 1, true),
                    fields_ending(inner, 0),
                );
            } else {
                lemma_fields_text_empty(inner, 0, d + 1, true);
                assert(value_text(key, value, d) =~= key + seq!['\n']);
            }
        },
        FieldValueView::Sequence(elements) => {
            lemma_elements_text_end(key, elements, shape->Sequence_0, 0, d, true, follow);
        },
    }
}

/// The text of a tuple of one string is the string.
pub(crate) proof fn lemma_word_tuple_text(t: Seq<ScalarView>)
    requires
        t.len() == 1,
        t[0] is Str,
    ensures
        tuple_text(t, 0, true) == t[0]->Str_0,
{
    assert(tuple_text(t, 1, false) =~= Seq::<char>::empty());
    assert(tuple_text(t, 0, true) =~= t[0]->Str_0);
}

/// The lines of fields of which one holds a value end as the last of
/// these says, and stand before what they can be read back before.
pub(crate) proof fn lemma_fields_text_end(
    fields: Seq<FieldView>,
    shapes: Seq<FieldShapeView>,
    i: int,
    above: Option<Seq<char>>,
    d: nat,
    fresh: bool,
    follow: Follow,
)
    requires
        0 <= i,
        fields_fit(fields, shapes, i, above),
        ends_well(fields, i, follow),
        has_present(fields, i),
    ensures
        fields_text(fields, i, d, fresh).len() > 0,
        ends_as(fields_text(fields, i, d, fresh), fields_ending(fields, i)),
        may_precede(fields_ending(fields, i), follow),
    decreases fields, fields.len() - i,
{
    if fields[i].value is Absent {
        lemma_fields_text_end(fields, shapes, i + 1, above, d, fresh, follow);
    } else {
        let ends = after_field(follow, has_present(fields, i + 1));
        let line = lead(fresh) + indent(d) + value_text(fields[i].key, fields[i].value, d);
        lemma_value_text_end(fields[i].key, fields[i].value, shapes[i].shape, above, d, ends);
        if has_present(fields, i + 1) {
            lemma_fields_text_end(fields, shapes, i + 1, above, d, false, follow);
            lemma_ends_as_after(
                line,
                fields_text(fields, i + 1, d, false),
                fields_ending(fields, i + 1),
            );
        } else {
            lemma_fields_text_empty(fields, i + 1, d, false);
            lemma_ends_as_after(
                lead(fresh) + indent(d),
                value_text(fields[i].key, fields[i].value, d),
                value_ending(fields[i].value),
            );
            assert(fields_text(fields, i, d, fresh) =~= lead(fresh) + indent(d) + value_text(
                fields[i].key,
                fields[i].value,
                d,
            ));
        }
    }
}

/// The blocks of the records of a sequence end as the last of them says,
/// and stand before what they can be read back before.
proof fn lemma_elements_text_end(
    key: Seq<char>,
    elements: Seq<Seq<FieldView>>,
    shapes: Seq<FieldShapeView>,
    j: int,
    d: nat,
    first: bool,
    follow: Follow,
)
    requires
        0 <= j < elements.len(),
        first ==> j == 0,
        is_key(key),
        elements_fit(elements, shapes, j, key),
        elements_end_well(elements, j, follow),
    ensures
        ends_as(
            elements_text(key, elements, j, d, first),
            record_ending(elements, elements.len() - 1),
        ),
        may_precede(record_ending(elements, elements.len() - 1), follow),
    decreases elements, elements.len() - j,
{
    let e = elements[j];
    let body = fields_text(e, 0, d + 1, true);
    let head = (if first {
        Seq::<char>::empty()
    } else {
        lead(is_joined(elements, j, d)) + indent(d)
    }) + key + seq!['\n'];
    let last = record_ending(elements, elements.len() - 1);
    assert(record_fits(e, shapes, Some(key)));
    if j + 1 < elements.len() {
        lemma_elements_text_end(key, elements, shapes, j + 1, d, false, follow);
        lemma_ends_as_after(head + body, elements_text(key, elements, j + 1, d, false), last);
    } else {
        assert(elements_text(key, elements, j + 1, d, false) =~= Seq::<char>::empty());
        if has_present(e, 0) {
            lemma_fields_text_end(e, shapes, 0, Some(key), d + 1, true, follow);
            lemma_ends_as_after(head, body, last);
            assert(elements_text(key, elements, j, d, first) =~= head + body);
        } else {
            lemma_fields_text_empty(e, 0, d + 1, true);
            assert(elements_text(key, elements, j, d, first) =~= head);
            assert(head[head.len() - 2] == key.last());
            assert(is_space('\n'));
        }
    }
}

/// Writing a tuple leaves the depth as it was.
proof fn lemma_emit_tuple_level(st: Sink, t: Seq<ScalarView>)
    ensures
        emit_tuple(st, t).level == st.level,
        t.len() > 0 ==> emit_tuple(st, t).pending is None,
    decreases t.len(),
{
    if t.len() > 0 {
        lemma_emit_tuple_level(st, t.drop_last());
    }
}

/// What writing a tuple adds to the text that its first `k` elements made:
/// the text of the others, a single space before each. The very first
/// element begins the line of a pending key, and gets no space then.
proof fn lemma_emit_tuple(st: Sink, t: Seq<ScalarView>, k: int)
    requires
        0 <= k <= t.len(),
        t.len() > 0,
    ensures
        emit_tuple(st, t).out == (if k == 0 {
            value_line(st)
        } else {
            emit_tuple(st, t.take(k)).out
        }) + tuple_text(t, k, k == 0 && st.pending is Some),
    decreases t.len() - k,
{
    if k == t.len() {
        assert(t.take(k) =~= t);
        assert(emit_tuple(st, t).out + Seq::<char>::empty() =~= emit_tuple(st, t).out);
    } else {
        lemma_emit_tuple(st, t, k + 1);
        let p = emit_tuple(st, t.take(k));
        assert(t.take(k + 1).drop_last() =~= t.take(k));
        assert(t.take(k + 1).last() == t[k]);
        assert(emit_tuple(st, t.take(k + 1)) == wrote(began_element(p), scalar_text(t[k])));
        lemma_emit_tuple_level(st, t.take(k));
        let first = k == 0 && st.pending is Some;
        let sep = if first { Seq::<char>::empty() } else { seq![' '] };
        let base = if k == 0 { value_line(st) } else { p.out };
        if k == 0 {
            assert(t.take(0) =~= Seq::<ScalarView>::empty());
            assert(p == st);
        }
        assert(began_element(p).out =~= base + sep);
        assert(emit_tuple(st, t.take(k + 1)).out =~= base + sep + scalar_text(t[k]));
        assert(emit_tuple(st, t).out =~= base + tuple_text(t, k, first));
    }
}

/// What the line of a field begins with: a line feed unless the line is
/// fresh, the indentation of the depth, and the key; before a value, a `=`.
pub proof fn lemma_began_field(q: Sink, key: Seq<char>)
    ensures
        key_line(began_field(q, key)) == q.out + lead(is_fresh(q.out)) + indent(q.level) + key,
        value_line(began_field(q, key)) == q.out + lead(is_fresh(q.out)) + indent(q.level) + key
            + seq!['='],
        began_field(q, key).out == q.out,
        began_field(q, key).level == q.level,
        began_field(q, key).pending == Some(key),
{
    assert(key_line(began_field(q, key)) =~= q.out + lead(is_fresh(q.out)) + indent(q.level)
        + key);
    assert(value_line(began_field(q, key)) =~= q.out + lead(is_fresh(q.out)) + indent(q.level)
        + key + seq!['=']);
}

/// Writing the first `i + 1` fields is writing the first `i` and then the
/// next one.
proof fn lemma_emit_fields_step(st: Sink, fields: Seq<FieldView>, i: int)
    requires
        0 <= i < fields.len(),
    ensures
        emit_fields(st, fields.take(i + 1)) == emit_field(
            emit_fields(st, fields.take(i)),
            fields[i],
        ),
        emit_fields(st, fields.take(0)) == st,
        emit_fields(st, fields.take(fields.len() as int)) == emit_fields(st, fields),
{
    assert(fields.take(i + 1).drop_last() =~= fields.take(i));
    assert(fields.take(i + 1).last() == fields[i]);
    assert(fields.take(0) =~= Seq::<FieldView>::empty());
    assert(fields.take(fields.len() as int) =~= fields);
}

/// Writing none of the fields leaves the encoder as it is.
proof fn lemma_emit_fields_none(st: Sink, fields: Seq<FieldView>)
    ensures
        emit_fields(st, fields.take(0)) == st,
{
    assert(fields.take(0) =~= Seq::<FieldView>::empty());
}

/// Writing the first `j + 1` records is writing the first `j` and then the
/// next one.
proof fn lemma_emit_sequence_step(
    st: Sink,
    key: Seq<char>,
    elements: Seq<Seq<FieldView>>,
    j: int,
)
    requires
        0 <= j < elements.len(),
    ensures
        emit_sequence(st, key, elements.take(j + 1)) == emit_record(
            emit_sequence(st, key, elements.take(j)),
            key,
            elements[j],
        ),
        emit_sequence(st, key, elements.take(0)) == st,
        emit_sequence(st, key, elements.take(elements.len() as int)) == emit_sequence(
            st,
            key,
            elements,
        ),
{
    assert(elements.take(j + 1).drop_last() =~= elements.take(j));
    assert(elements.take(j + 1).last() == elements[j]);
    assert(elements.take(0) =~= Seq::<Seq<FieldView>>::empty());
    assert(elements.take(elements.len() as int) =~= elements);
}

/// What writing a scalar field adds to the text: its line.
proof fn lemma_emit_scalar(q: Sink, f: FieldView)
    requires
        f.value is Scalar,
    ensures
        emit_field(q, f).out == q.out + lead(is_fresh(q.out)) + indent(q.level) + value_text(
            f.key,
            f.value,
            q.level,
        ),
        emit_field(q, f).level == q.level,
{
    lemma_began_field(q, f.key);
    let head = q.out + lead(is_fresh(q.out)) + indent(q.level);
    assert(emit_field(q, f).out =~= head + value_text(f.key, f.value, q.level));
}

/// What writing a tuple field adds to the text: its line.
proof fn lemma_emit_tuple_field(q: Sink, f: FieldView)
    requires
        f.value is Tuple,
        f.value->Tuple_0.len() > 0,
    ensures
        emit_field(q, f).out == q.out + lead(is_fresh(q.out)) + indent(q.level) + value_text(
            f.key,
            f.value,
            q.level,
        ),
        emit_field(q, f).level == q.level,
{
    let t = f.value->Tuple_0;
    let bf = began_field(q, f.key);
    lemma_began_field(q, f.key);
    lemma_emit_tuple(bf, t, 0);
    lemma_emit_tuple_level(bf, t);
    let head = q.out + lead(is_fresh(q.out)) + indent(q.level);
    assert(emit_field(q, f).out =~= head + value_text(f.key, f.value, q.level));
}

/// Fields of which none holds a value end like nothing at all.
proof fn lemma_ending_of_none(fields: Seq<FieldView>, i: int)
    requires
        !has_present(fields, i),
    ensures
        fields_ending(fields, i) is Firm,
{
    if 0 <= i < fields.len() {
        assert(fields[i].value is Absent);
        assert(!has_present(fields, i + 1));
        assert(value_ending(fields[i].value) is Firm);
    }
}

/// Whether the text written so far ends with a line feed is told by how
/// its last lines end.
proof fn lemma_fresh_by_ending(out: Seq<char>, ending: Ending, whole: Seq<char>)
    requires
        out + carry(ending) == whole,
        ends_as(whole, ending),
    ensures
        out.len() > 0,
        is_fresh(out) <==> ending is Fresh,
{
    if ending is Bare {
        assert(whole.len() == out.len() + 1);
        assert(whole[whole.len() - 2] == out[out.len() - 1]);
    } else {
        assert(out =~= whole);
    }
}

/// What writing a field that holds a value adds to the text: its lines at
/// the depth of the encoder, which it leaves as it was. Where the lines
/// end with a header, their last line feed is still to be written.
#[verifier::spinoff_prover]
proof fn lemma_emit_field(
    q: Sink,
    f: FieldView,
    shape: ShapeView,
    above: Option<Seq<char>>,
    d: nat,
    follow: Follow,
)
    requires
        q.level == d,
        d == 0 ==> above is None,
        is_key(f.key),
        value_fits(f.key, f.value, shape, above),
        value_ends_well(f.value, follow),
        !(f.value is Absent),
    ensures
        emit_field(q, f).out + carry(value_ending(f.value)) == q.out + lead(is_fresh(q.out))
            + indent(d) + value_text(f.key, f.value, d),
        emit_field(q, f).level == d,
    decreases f.value, 0int,
{
    let out = emit_field(q, f).out;
    match f.value {
        FieldValueView::Absent => {},
        FieldValueView::Scalar(_) => {
            lemma_emit_scalar(q, f);
            assert(out + carry(Ending::Firm) =~= out);
        },
        FieldValueView::Tuple(_) => {
            lemma_emit_tuple_field(q, f);
            assert(out + carry(Ending::Firm) =~= out);
        },
        FieldValueView::Record(inner) => {
            assert(record_fits(inner, shape->Record_0, Some(f.key)));
            lemma_emit_after_key(q, f.key, inner, shape->Record_0, d, follow);
        },
        FieldValueView::Sequence(elements) => {
            lemma_emit_sequence_field(q, f.key, elements, shape->Sequence_0, d, follow);
        },
    }
}

/// What writing a sequence field adds to the text: the blocks of its records.
#[verifier::spinoff_prover]
proof fn lemma_emit_sequence_field(
    q: Sink,
    key: Seq<char>,
    elements: Seq<Seq<FieldView>>,
    shapes: Seq<FieldShapeView>,
    d: nat,
    follow: Follow,
)
    requires
        q.level == d,
        is_key(key),
        d == 0 ==> !is_bracketed(key),
        elements.len() > 0,
        elements_fit(elements, shapes, 0, key),
        elements_end_well(elements, 0, follow),
    ensures
        emit_sequence(began_field(q, key), key, elements).out + carry(
            record_ending(elements, elements.len() - 1),
        ) == q.out + lead(is_fresh(q.out)) + indent(d) + elements_text(key, elements, 0, d, true),
        emit_sequence(began_field(q, key), key, elements).level == d,
    decreases elements, elements.len() + 1,
{
    let bf = began_field(q, key);
    let head = q.out + lead(is_fresh(q.out)) + indent(d);
    let first = fields_text(elements[0], 0, d + 1, true);
    let r = emit_sequence(bf, key, elements.take(1));
    let ends = after_record(follow, 1 < elements.len());
    let ending = record_ending(elements, 0);
    let block = key + seq!['\n'] + first;
    lemma_emit_sequence_step(bf, key, elements, 0);
    assert(record_fits(elements[0], shapes, Some(key)));
    lemma_emit_after_key(q, key, elements[0], shapes, d, ends);
    assert(r.out + carry(ending) == head + block) by {
        lemma_joined(head, key + seq!['\n'], first);
        assert(head + key + seq!['\n'] =~= head + (key + seq!['\n']));
    }
    assert(ends_as(head + block, ending)) by {
        if has_present(elements[0], 0) {
            lemma_fields_text_end(elements[0], shapes, 0, Some(key), d + 1, true, ends);
            lemma_ends_as_after(key + seq!['\n'], first, ending);
        } else {
            lemma_fields_text_empty(elements[0], 0, d + 1, true);
            assert(block =~= key + seq!['\n']);
        }
        lemma_ends_as_after(head, block, ending);
    }
    lemma_fresh_by_ending(r.out, ending, head + block);
    lemma_emit_elements(bf, key, elements, shapes, 1, d, follow);
    let rest = elements_text(key, elements, 1, d, false);
    assert(head + block + rest =~= head + elements_text(key, elements, 0, d, true));
}

/// What writing a nested record adds to the text where a field with its
/// key is pending: the line of the key, closed without a `=`, and the
/// fields one level deeper.
#[verifier::spinoff_prover]
proof fn lemma_emit_after_key(
    q: Sink,
    key: Seq<char>,
    inner: Seq<FieldView>,
    shapes: Seq<FieldShapeView>,
    d: nat,
    follow: Follow,
)
    requires
        q.level == d,
        is_key(key),
        record_fits(inner, shapes, Some(key)),
        ends_well(inner, 0, follow),
    ensures
        emit_record(began_field(q, key), key, inner).out + carry(block_ending(inner, true))
            == q.out + lead(is_fresh(q.out)) + indent(d) + key + seq!['\n'] + fields_text(
            inner,
            0,
            d + 1,
            true,
        ),
        emit_record(began_field(q, key), key, inner).level == d,
        emit_record(began_field(q, key), key, inner).pending is None,
    decreases inner, inner.len() + 1,
{
    let bf = began_field(q, key);
    let head = q.out + lead(is_fresh(q.out)) + indent(d);
    let line = head + key;
    let st = began_record(bf, key);
    assert(st.out == line + seq!['\n'] && st.level == d + 1 && st.pending is None) by {
        lemma_began_field(q, key);
        assert(key_line(bf) == line);
        assert(line.last() == key.last());
        assert(is_space('\n'));
        assert(st.out =~= line + seq!['\n']);
    }
    lemma_emit_fields_none(st, inner);
    lemma_emit_fields(st, inner, shapes, 0, Some(key), d + 1, follow);
    assert(emit_record(bf, key, inner) == ended(emit_fields(st, inner)));
    if !has_present(inner, 0) {
        lemma_ending_of_none(inner, 0);
    }
}

/// What writing the fields of a record adds to the text that its first `i`
/// fields made: the lines of the others, at the depth of the encoder.
/// Where the lines end with a header, their last line feed is still to be
/// written.
#[verifier::spinoff_prover]
proof fn lemma_emit_fields(
    st: Sink,
    fields: Seq<FieldView>,
    shapes: Seq<FieldShapeView>,
    i: int,
    above: Option<Seq<char>>,
    d: nat,
    follow: Follow,
)
    requires
        0 <= i <= fields.len(),
        fields_fit(fields, shapes, i, above),
        ends_well(fields, i, follow),
        emit_fields(st, fields.take(i)).level == d,
        d == 0 ==> above is None,
    ensures
        emit_fields(st, fields).out + carry(fields_ending(fields, i)) == emit_fields(
            st,
            fields.take(i),
        ).out + fields_text(fields, i, d, is_fresh(emit_fields(st, fields.take(i)).out)),
        emit_fields(st, fields).level == d,
    decreases fields, fields.len() - i,
{
    let q = emit_fields(st, fields.take(i));
    let all = emit_fields(st, fields);
    if i == fields.len() {
        assert(fields.take(i) =~= fields);
    } else {
        let f = fields[i];
        let next = emit_fields(st, fields.take(i + 1));
        lemma_emit_fields_step(st, fields, i);
        if f.value is Absent {
            lemma_emit_fields(st, fields, shapes, i + 1, above, d, follow);
            if !has_present(fields, i + 1) {
                lemma_ending_of_none(fields, i + 1);
            }
        } else {
            let ends = after_field(follow, has_present(fields, i + 1));
            let ending = value_ending(f.value);
            let block = lead(is_fresh(q.out)) + indent(d) + value_text(f.key, f.value, d);
            assert(next.out + carry(ending) == q.out + block && next.level == d && (has_present(
                fields,
                i + 1,
            ) ==> !is_fresh(next.out) && ending is Firm)) by {
                lemma_emit_field(q, f, shapes[i].shape, above, d, ends);
                lemma_value_text_end(f.key, f.value, shapes[i].shape, above, d, ends);
                let margin = lead(is_fresh(q.out)) + indent(d);
                lemma_joined(q.out, margin, value_text(f.key, f.value, d));
                assert(q.out + lead(is_fresh(q.out)) + indent(d) =~= q.out + margin);
                lemma_ends_as_after(q.out + margin, value_text(f.key, f.value, d), ending);
                lemma_fresh_by_ending(next.out, ending, q.out + block);
            }
            lemma_emit_fields(st, fields, shapes, i + 1, above, d, follow);
            let rest = fields_text(fields, i + 1, d, false);
            if has_present(fields, i + 1) {
                assert(next.out =~= q.out + block);
                assert(q.out + block + rest =~= q.out + fields_text(fields, i, d, is_fresh(q.out)));
            } else {
                lemma_fields_text_empty(fields, i + 1, d, false);
                lemma_fields_text_empty(fields, i + 1, d, is_fresh(next.out));
                lemma_ending_of_none(fields, i + 1);
                assert(all.out =~= next.out);
                assert(q.out + block =~= q.out + fields_text(fields, i, d, is_fresh(q.out)));
            }
        }
    }
}

/// What writing the records of a sequence adds to the text that its first
/// `j` records made: the header and the lines of each of the others.
/// Where a block ends with a header, its last line feed is written with
/// the header that follows.
#[verifier::spinoff_prover]
proof fn lemma_emit_elements(
    bf: Sink,
    key: Seq<char>,
    elements: Seq<Seq<FieldView>>,
    shapes: Seq<FieldShapeView>,
    j: int,
    d: nat,
    follow: Follow,
)
    requires
        1 <= j <= elements.len(),
        elements_fit(elements, shapes, j, key),
        elements_end_well(elements, j, follow),
        is_key(key),
        d == 0 ==> !is_bracketed(key),
        emit_sequence(bf, key, elements.take(j)).level == d,
        emit_sequence(bf, key, elements.take(j)).pending is None,
        j < elements.len() ==> emit_sequence(bf, key, elements.take(j)).out.len() > 0,
        j < elements.len() ==> (is_fresh(emit_sequence(bf, key, elements.take(j)).out)
            <==> record_ending(elements, j - 1) is Fresh),
    ensures
        emit_sequence(bf, key, elements).out + carry(record_ending(elements, elements.len() - 1))
            == emit_sequence(bf, key, elements.take(j)).out + carry(
            record_ending(elements, j - 1),
        ) + elements_text(key, elements, j, d, false),
        emit_sequence(bf, key, elements).level == d,
        emit_sequence(bf, key, elements).pending is None,
    decreases elements, elements.len() - j,
{
    let r = emit_sequence(bf, key, elements.take(j));
    let start = r.out + carry(record_ending(elements, j - 1));
    if j == elements.len() {
        assert(elements.take(j) =~= elements);
        assert(start + Seq::<char>::empty() =~= start);
    } else {
        let e = elements[j];
        let next = emit_sequence(bf, key, elements.take(j + 1));
        let body = fields_text(e, 0, d + 1, true);
        let prefix = lead(is_joined(elements, j, d)) + indent(d);
        let ends = after_record(follow, j + 1 < elements.len());
        let ending = record_ending(elements, j);
        let block = prefix + key + seq!['\n'] + body;
        lemma_emit_sequence_step(bf, key, elements, j);
        assert(record_fits(e, shapes, Some(key)));
        lemma_emit_block(r, key, e, shapes, d, ends);
        lemma_header_joins(r.out, elements, j, d, key);
        assert(next.out + carry(ending) == start + block) by {
            assert(start + prefix + key + seq!['\n'] + body =~= start + block);
        }
        assert(ends_as(start + block, ending)) by {
            let head = prefix + key + seq!['\n'];
            if has_present(e, 0) {
                lemma_fields_text_end(e, shapes, 0, Some(key), d + 1, true, ends);
                lemma_ends_as_after(head, body, ending);
            } else {
                lemma_fields_text_empty(e, 0, d + 1, true);
                assert(block =~= head);
                assert(head[head.len() - 2] == key.last());
                assert(is_space('\n'));
            }
            lemma_ends_as_after(start, block, ending);
        }
        lemma_fresh_by_ending(next.out, ending, start + block);
        lemma_emit_elements(bf, key, elements, shapes, j + 1, d, follow);
        let rest = elements_text(key, elements, j + 1, d, false);
        assert(elements_text(key, elements, j, d, false) == block + rest);
        lemma_joined(start, block, rest);
    }
}

/// Texts joined one after the other are joined whichever two are joined first.
proof fn lemma_joined(a: Seq<char>, b: Seq<char>, c: Seq<char>)
    ensures
        a + b + c == a + (b + c),
{
    assert(a + b + c =~= a + (b + c));
}

/// The header of a further record of a sequence, after the text of the
/// records before it: a line feed stands before its indentation, unless
/// the block before gave it one and the depth is zero.
proof fn lemma_header_joins(
    out: Seq<char>,
    elements: Seq<Seq<FieldView>>,
    j: int,
    d: nat,
    key: Seq<char>,
)
    requires
        1 <= j < elements.len(),
        out.len() > 0,
        is_fresh(out) <==> record_ending(elements, j - 1) is Fresh,
    ensures
        header_of(out, d, key) == out + carry(record_ending(elements, j - 1)) + (lead(
            is_joined(elements, j, d),
        ) + indent(d)) + key,
{
    assert(header_of(out, d, key) =~= out + carry(record_ending(elements, j - 1)) + (lead(
        is_joined(elements, j, d),
    ) + indent(d)) + key);
}

/// What writing a further record of a sequence adds to the text: a header
/// line with the key, and, where the record holds a value, the lines of
/// its fields one level deeper. Where it holds none, the line feed after
/// the header is still to be written.
#[verifier::spinoff_prover]
proof fn lemma_emit_block(
    r: Sink,
    key: Seq<char>,
    e: Seq<FieldView>,
    shapes: Seq<FieldShapeView>,
    d: nat,
    follow: Follow,
)
    requires
        r.level == d,
        r.pending is None,
        is_key(key),
        d == 0 ==> !is_bracketed(key),
        record_fits(e, shapes, Some(key)),
        ends_well(e, 0, follow),
    ensures
        emit_record(r, key, e).out + carry(block_ending(e, false)) == header_of(r.out, d, key)
            + seq!['\n'] + fields_text(e, 0, d + 1, true),
        emit_record(r, key, e).level == d,
        emit_record(r, key, e).pending is None,
    decreases e, e.len() + 1,
{
    let st = began_record(r, key);
    let line = header_of(r.out, d, key);
    assert(st.out == line && st.level == d + 1 && !is_fresh(st.out)) by {
        assert(st == wrote_header(r.out, d, key));
        assert(st.out =~= line);
        assert(line.last() == key.last());
        assert(is_space('\n'));
    }
    lemma_emit_fields_none(st, e);
    lemma_emit_fields(st, e, shapes, 0, Some(key), d + 1, follow);
    assert(emit_record(r, key, e) == ended(emit_fields(st, e)));
    if has_present(e, 0) {
        lemma_fields_text_lead(e, 0, d + 1);
        assert(line + (seq!['\n'] + fields_text(e, 0, d + 1, true)) =~= line + seq!['\n']
            + fields_text(e, 0, d + 1, true));
    } else {
        lemma_fields_text_empty(e, 0, d + 1, false);
        lemma_fields_text_empty(e, 0, d + 1, true);
        lemma_ending_of_none(e, 0);
        assert(emit_record(r, key, e).out =~= line);
    }
}

/// Whether `tag` can head a text: it is not empty, does not begin with
/// whitespace, and holds no line feed.
pub open spec fn is_tag(tag: Seq<char>) -> bool {
    tag.len() > 0 && !is_space(tag[0]) && on_one_line(tag)
}

/// The depth of the fields of the outermost record: zero in a transparent
/// root, else one.
pub open spec fn root_depth(tag: Seq<char>) -> nat {
    if is_bracketed(tag) {
        0
    } else {
        1
    }
}

/// The tag that the outermost record puts above its fields: none where it
/// is a transparent root.
pub open spec fn root_above(tag: Seq<char>) -> Option<Seq<char>> {
    if is_bracketed(tag) {
        None
    } else {
        Some(tag)
    }
}

/// Whether the record `record` is of the shape `shape` and written so that
/// it can be read back. Its tag can head a text, and one of its fields
/// holds a value. Every key can be told from what stands around it, every
/// string stands on one line, every tuple holds numbers or truth values or
/// else one string, and every nested record and sequence opens a level.
/// Nothing that leaves no mark of its own stands where the decoder cannot
/// tell it: no empty string at the very end of the text, no record without
/// a value before the line of a field, and no later record of a sequence
/// without a value anywhere but before the header of a further record.
pub open spec fn document_fits(record: RecordView, shape: RecordShapeView) -> bool {
    &&& record.tag == shape.tag
    &&& is_tag(record.tag)
    &&& record_fits(record.fields, shape.fields, root_above(record.tag))
    &&& has_present(record.fields, 0)
    &&& ends_well(record.fields, 0, text_end(record))
}

/// What follows the fields of the outermost record: nothing, or the line
/// feed that closes the text.
pub open spec fn text_end(record: RecordView) -> Follow {
    if finished(document_text(record)) == document_text(record) {
        Follow::End
    } else {
        Follow::Line
    }
}

/// Whether the record `record` is written so that it can be read back as
/// a record of some shape.
pub open spec fn is_regular(record: RecordView) -> bool {
    exists|shape: RecordShapeView| document_fits(record, shape)
}

/// The lines of a record: its tag, and below it the lines of its fields.
pub open spec fn document_text(record: RecordView) -> Seq<char> {
    record.tag + seq!['\n'] + fields_text(record.fields, 0, root_depth(record.tag), true)
}

/// Writing a record leaves the depth as it was, whatever the record holds:
/// every level that is entered is left again.
pub proof fn lemma_depth_is_balanced(st: Sink, tag: Seq<char>, fields: Seq<FieldView>)
    ensures
        emit_record(st, tag, fields).level == st.level,
        emit_fields(st, fields).level == st.level,
{
    lemma_record_balanced(st, tag, fields);
    lemma_fields_balanced(st, fields);
}

/// Writing a record leaves the depth as it was.
proof fn lemma_record_balanced(st: Sink, tag: Seq<char>, fields: Seq<FieldView>)
    ensures
        emit_record(st, tag, fields).level == st.level,
    decreases fields, fields.len() + 1,
{
    let b = began_record(st, tag);
    assert(b.level == st.level + 1 || (b.level == 0 && st.level == 0));
    lemma_fields_balanced(b, fields);
    assert(emit_record(st, tag, fields) == ended(emit_fields(b, fields)));
}

/// Writing fields leaves the depth as it was.
proof fn lemma_fields_balanced(st: Sink, fields: Seq<FieldView>)
    ensures
        emit_fields(st, fields).level == st.level,
    decreases fields, fields.len(),
{
    if fields.len() > 0 {
        let q = emit_fields(st, fields.drop_last());
        lemma_fields_balanced(st, fields.drop_last());
        let f = fields.last();
        let bf = began_field(q, f.key);
        assert(emit_fields(st, fields) == emit_field(q, f));
        match f.value {
            FieldValueView::Tuple(t) => {
                lemma_emit_tuple_level(bf, t);
            },
            FieldValueView::Record(inner) => {
                lemma_record_balanced(bf, f.key, inner);
            },
            FieldValueView::Sequence(elements) => {
                lemma_sequence_balanced(bf, f.key, elements);
            },
            _ => {},
        }
    }
}

/// Writing the records of a sequence leaves the depth as it was.
proof fn lemma_sequence_balanced(st: Sink, tag: Seq<char>, elements: Seq<Seq<FieldView>>)
    ensures
        emit_sequence(st, tag, elements).level == st.level,
    decreases elements, elements.len(),
{
    if elements.len() > 0 {
        let q = emit_sequence(st, tag, elements.drop_last());
        lemma_sequence_balanced(st, tag, elements.drop_last());
        lemma_record_balanced(q, tag, elements.last());
    }
}

/// Whatever the fields of a record hold, the line of each of them is begun
/// at the depth at which the first was begun, and so with as many dots.
pub proof fn lemma_field_line_depth(st: Sink, fields: Seq<FieldView>, i: int)
    requires
        0 <= i < fields.len(),
    ensures
        ({
            let q = emit_fields(st, fields.take(i));
            &&& q.level == st.level
            &&& value_line(began_field(q, fields[i].key)) == q.out + lead(is_fresh(q.out))
                + indent(st.level) + fields[i].key + seq!['=']
        }),
{
    let q = emit_fields(st, fields.take(i));
    lemma_fields_balanced(st, fields.take(i));
    lemma_began_field(q, fields[i].key);
}

/// The text that encoding writes for a record is its tag and, below it,
/// the lines of its fields: each begins with one dot for every record
/// around it that counts as a level.
pub proof fn lemma_record_layout(record: RecordView, shape: RecordShapeView)
    requires
        document_fits(record, shape),
    ensures
        emit_record(fresh(), record.tag, record.fields).out == document_text(record),
{
    let tag = record.tag;
    let d = root_depth(tag);
    let st = began_record(fresh(), tag);
    let ends = text_end(record);
    let out = emit_record(fresh(), tag, record.fields).out;
    assert(st == wrote_header(Seq::empty(), 0, tag));
    assert(st.out =~= tag);
    assert(is_space('\n'));
    assert(record.fields.take(0) =~= Seq::<FieldView>::empty());
    lemma_emit_fields(st, record.fields, shape.fields, 0, root_above(tag), d, ends);
    lemma_fields_text_end(record.fields, shape.fields, 0, root_above(tag), d, false, ends);
    lemma_fields_text_lead(record.fields, 0, d);
    assert(out + carry(fields_ending(record.fields, 0)) =~= out);
    assert(out =~= document_text(record));
}

/// A field without a value adds nothing to the text and leaves the depth
/// as it was: a field that is begun and whose value is then absent has no
/// line feed, no indentation, no key and no `=` written for it.
pub proof fn lemma_absent_writes_nothing(st: Sink, field: FieldView)
    requires
        field.value is Absent,
    ensures
        emit_field(st, field) == cleared(began_field(st, field.key)),
        emit_field(st, field).out == st.out,
        emit_field(st, field).level == st.level,
        emit_field(st, field).pending is None,
{
}

/// How deeply records are nested in the fields `fields`.
pub open spec fn nesting(fields: Seq<FieldView>) -> nat
    decreases fields, fields.len(),
{
    if fields.len() == 0 {
        0
    } else {
        let before = nesting(fields.drop_last());
        let last = value_nesting(fields.last().value);
        if before >= last {
            before
        } else {
            last
        }
    }
}

/// How deeply records are nested in the value `value`.
pub open spec fn value_nesting(value: FieldValueView) -> nat
    decreases value, 0nat,
{
    match value {
        FieldValueView::Record(inner) => 1 + nesting(inner),
        FieldValueView::Sequence(elements) => 1 + elements_nesting(elements),
        _ => 0,
    }
}

/// How deeply records are nested in the records `elements`.
pub open spec fn elements_nesting(elements: Seq<Seq<FieldView>>) -> nat
    decreases elements, elements.len(),
{
    if elements.len() == 0 {
        0
    } else {
        let before = elements_nesting(elements.drop_last());
        let last = nesting(elements.last());
        if before >= last {
            before
        } else {
            last
        }
    }
}

/// The depth of the record `record`: one more than the records in it are nested.
pub open spec fn record_depth(record: RecordView) -> nat {
    1 + nesting(record.fields)
}

/// The depth counter can count the levels of fields that, from where it
/// stands, do not nest beyond its reach.
proof fn lemma_fields_in_reach(st: Sink, fields: Seq<FieldView>)
    requires
        st.level + nesting(fields) < usize::MAX,
    ensures
        fits_fields(st, fields),
    decreases fields, fields.len(),
{
    if fields.len() > 0 {
        let q = emit_fields(st, fields.drop_last());
        let f = fields.last();
        lemma_fields_in_reach(st, fields.drop_last());
        lemma_fields_balanced(st, fields.drop_last());
        let bf = began_field(q, f.key);
        assert(bf.level == st.level);
        assert(nesting(fields) >= value_nesting(f.value));
        match f.value {
            FieldValueView::Record(inner) => {
                assert(value_nesting(f.value) == 1 + nesting(inner));
                lemma_record_in_reach(bf, f.key, inner);
            },
            FieldValueView::Sequence(elements) => {
                assert(value_nesting(f.value) == 1 + elements_nesting(elements));
                lemma_sequence_in_reach(bf, f.key, elements);
            },
            _ => {},
        }
        assert(fits_field(q, f));
    }
}

/// The depth counter can count the levels of a record that, from where it
/// stands, does not nest beyond its reach.
proof fn lemma_record_in_reach(st: Sink, tag: Seq<char>, fields: Seq<FieldView>)
    requires
        st.level + 1 + nesting(fields) < usize::MAX,
    ensures
        fits_record(st, tag, fields),
    decreases fields, fields.len() + 1,
{
    let b = began_record(st, tag);
    assert(b.level <= st.level + 1);
    lemma_fields_in_reach(b, fields);
}

/// The depth counter can count the levels of the records of a sequence
/// that, from where it stands, do not nest beyond its reach.
proof fn lemma_sequence_in_reach(st: Sink, tag: Seq<char>, elements: Seq<Seq<FieldView>>)
    requires
        st.level + 1 + elements_nesting(elements) < usize::MAX,
    ensures
        fits_sequence(st, tag, elements),
    decreases elements, elements.len(),
{
    if elements.len() > 0 {
        let q = emit_sequence(st, tag, elements.drop_last());
        lemma_sequence_in_reach(st, tag, elements.drop_last());
        lemma_sequence_balanced(st, tag, elements.drop_last());
        lemma_record_in_reach(q, tag, elements.last());
    }
}

/// A record that is not nested beyond the reach of the depth counter can
/// be encoded.
pub proof fn lemma_depth_in_reach(record: RecordView)
    requires
        record_depth(record) < usize::MAX,
    ensures
        fits_record(fresh(), record.tag, record.fields),
{
    lemma_record_in_reach(fresh(), record.tag, record.fields);
}

/// The text of a regular record is its lines, closed by a line feed where
/// the last of them gives a value to a field at depth one.
pub proof fn lemma_regular_text(record: RecordView)
    requires
        is_regular(record),
    ensures
        encoded(record) == finished(document_text(record)),
{
    let shape = choose|shape: RecordShapeView| document_fits(record, shape);
    lemma_record_layout(record, shape);
}

/// `out` with the line of a field begun at depth `d`: after a line feed,
/// unless `out` ends with one, the indentation of the depth and the key.
pub open spec fn line_of(out: Seq<char>, d: nat, key: Seq<char>) -> Seq<char> {
    out + lead(is_fresh(out)) + indent(d) + key
}

/// `out` with the header of a further record of a sequence at depth `d`.
pub open spec fn header_of(out: Seq<char>, d: nat, key: Seq<char>) -> Seq<char> {
    (if d > 0 {
        out + seq!['\n'] + indent(d)
    } else {
        closed_line(out)
    }) + key
}

/// The depth of the fields of a record whose header stands at depth `d`:
/// one more, unless the record is a transparent root, which is a record
/// with a bracketed tag at depth zero that no key line stands for.
pub open spec fn depth_below(d: nat, key: Seq<char>, elided: bool) -> nat {
    if !elided && d == 0 && is_bracketed(key) {
        0
    } else {
        d + 1
    }
}

/// `out` and after it the text of the fields from the `i`-th on, in their
/// order, each at depth `d`. This is the text of any fields whatever.
pub open spec fn all_fields(out: Seq<char>, fields: Seq<FieldView>, i: int, d: nat) -> Seq<char>
    decreases fields, fields.len() - i,
{
    if i < 0 || i >= fields.len() {
        out
    } else {
        all_fields(all_field(out, fields[i], d), fields, i + 1, d)
    }
}

/// `out` and after it the text of the field `f` at depth `d`: nothing for
/// a value that is absent, for an empty tuple and for an empty sequence;
/// one line with `d` dots for a scalar and for a tuple; for a record the
/// line of its key and its fields at depth `d + 1`; for a sequence the
/// blocks of its records, one after the other.
pub open spec fn all_field(out: Seq<char>, f: FieldView, d: nat) -> Seq<char>
    decreases f, 1int,
{
    match f.value {
        FieldValueView::Absent => out,
        FieldValueView::Scalar(s) => line_of(out, d, f.key) + seq!['='] + scalar_text(s),
        FieldValueView::Tuple(t) => if t.len() == 0 {
            out
        } else {
            line_of(out, d, f.key) + seq!['='] + tuple_text(t, 0, true)
        },
        FieldValueView::Record(inner) => all_fields(
            closed_line(line_of(out, d, f.key)),
            inner,
            0,
            d + 1,
        ),
        FieldValueView::Sequence(elements) => all_elements(out, f.key, elements, 0, d),
    }
}

/// `out` and after it the blocks of the records from the `j`-th on of a
/// sequence at depth `d`: each is a header line with the key and `d` dots,
/// followed directly by the fields of the record.
pub open spec fn all_elements(
    out: Seq<char>,
    key: Seq<char>,
    elements: Seq<Seq<FieldView>>,
    j: int,
    d: nat,
) -> Seq<char>
    decreases elements, elements.len() - j,
{
    if j < 0 || j >= elements.len() {
        out
    } else {
        let head = if j == 0 { closed_line(line_of(out, d, key)) } else { header_of(out, d, key) };
        all_elements(
            all_fields(head, elements[j], 0, depth_below(d, key, j == 0)),
            key,
            elements,
            j + 1,
            d,
        )
    }
}

/// The text of the record `record`, whatever it holds: its tag, and after
/// it the text of its fields.
pub open spec fn whole_text(record: RecordView) -> Seq<char> {
    all_fields(record.tag, record.fields, 0, root_depth(record.tag))
}

/// What writing one field adds is the text of the field at the depth of
/// the encoder.
#[verifier::spinoff_prover]
proof fn lemma_all_field(q: Sink, f: FieldView)
    ensures
        emit_field(q, f).out == all_field(q.out, f, q.level),
    decreases f, 1int,
{
    let d = q.level;
    let bf = began_field(q, f.key);
    lemma_began_field(q, f.key);
    match f.value {
        FieldValueView::Absent => {},
        FieldValueView::Scalar(s) => {
            assert(emit_field(q, f).out =~= line_of(q.out, d, f.key) + seq!['='] + scalar_text(
                s,
            ));
        },
        FieldValueView::Tuple(t) => {
            if t.len() > 0 {
                lemma_emit_tuple(bf, t, 0);
                assert(emit_field(q, f).out =~= line_of(q.out, d, f.key) + seq!['=']
                    + tuple_text(t, 0, true));
            }
        },
        FieldValueView::Record(inner) => {
            let st = began_record(bf, f.key);
            assert(st.out == closed_line(line_of(q.out, d, f.key)) && st.level == d + 1);
            lemma_emit_fields_none(st, inner);
            lemma_all_fields(st, inner, 0);
            assert(emit_field(q, f) == ended(emit_fields(st, inner)));
        },
        FieldValueView::Sequence(elements) => {
            lemma_emit_sequence_none(bf, f.key, elements);
            lemma_all_elements(q, f.key, elements, 0);
        },
    }
}

/// Writing none of the records leaves the encoder as it is.
proof fn lemma_emit_sequence_none(st: Sink, key: Seq<char>, elements: Seq<Seq<FieldView>>)
    ensures
        emit_sequence(st, key, elements.take(0)) == st,
        emit_sequence(st, key, elements.take(elements.len() as int)) == emit_sequence(
            st,
            key,
            elements,
        ),
{
    assert(elements.take(0) =~= Seq::<Seq<FieldView>>::empty());
    assert(elements.take(elements.len() as int) =~= elements);
}

/// What writing the fields adds to the text that the first `i` of them
/// made is the text of the others at the depth of the encoder.
#[verifier::spinoff_prover]
proof fn lemma_all_fields(st: Sink, fields: Seq<FieldView>, i: int)
    requires
        0 <= i <= fields.len(),
    ensures
        emit_fields(st, fields).out == all_fields(
            emit_fields(st, fields.take(i)).out,
            fields,
            i,
            st.level,
        ),
    decreases fields, fields.len() - i,
{
    let q = emit_fields(st, fields.take(i));
    if i == fields.len() {
        assert(fields.take(i) =~= fields);
    } else {
        lemma_emit_fields_step(st, fields, i);
        lemma_fields_balanced(st, fields.take(i));
        lemma_all_field(q, fields[i]);
        lemma_all_fields(st, fields, i + 1);
    }
}

/// What writing the records of a sequence adds to the text that the first
/// `j` of them made is the blocks of the others.
#[verifier::spinoff_prover]
proof fn lemma_all_elements(q: Sink, key: Seq<char>, elements: Seq<Seq<FieldView>>, j: int)
    requires
        0 <= j <= elements.len(),
    ensures
        emit_sequence(began_field(q, key), key, elements).out == all_elements(
            emit_sequence(began_field(q, key), key, elements.take(j)).out,
            key,
            elements,
            j,
            q.level,
        ),
    decreases elements, elements.len() - j,
{
    let d = q.level;
    let bf = began_field(q, key);
    let r = emit_sequence(bf, key, elements.take(j));
    lemma_emit_sequence_none(bf, key, elements);
    if j < elements.len() {
        let e = elements[j];
        lemma_emit_sequence_step(bf, key, elements, j);
        lemma_sequence_balanced(bf, key, elements.take(j));
        let st = began_record(r, key);
        let head = if j == 0 {
            closed_line(line_of(r.out, d, key))
        } else {
            header_of(r.out, d, key)
        };
        assert(st.out == head && st.level == depth_below(d, key, j == 0)) by {
            lemma_began_field(q, key);
            if j == 0 {
                assert(r == bf);
            } else {
                lemma_sequence_pending(bf, key, elements.take(j));
                assert(st == wrote_header(r.out, d, key));
                assert(st.out =~= header_of(r.out, d, key));
            }
        }
        lemma_emit_fields_none(st, e);
        lemma_all_fields(st, e, 0);
        assert(emit_record(r, key, e) == ended(emit_fields(st, e)));
        lemma_all_elements(q, key, elements, j + 1);
    }
}

/// After a record of a sequence no key is pending.
proof fn lemma_sequence_pending(st: Sink, key: Seq<char>, elements: Seq<Seq<FieldView>>)
    requires
        elements.len() > 0,
    ensures
        emit_sequence(st, key, elements).pending is None,
{
    let before = emit_sequence(st, key, elements.drop_last());
    assert(emit_sequence(st, key, elements) == emit_record(before, key, elements.last()));
    assert(emit_record(before, key, elements.last()) == ended(
        emit_fields(began_record(before, key), elements.last()),
    ));
}

/// The text that encoding writes for a record, whatever the record holds,
/// is its tag and the text of its fields: the fields stand in their order;
/// the line of each begins with one dot for every record around it that
/// counts as a level; the blocks of a sequence follow one another with
/// nothing between them.
pub proof fn lemma_whole_text(record: RecordView)
    ensures
        encoded(record) == finished(whole_text(record)),
{
    let st = began_record(fresh(), record.tag);
    assert(st == wrote_header(Seq::empty(), 0, record.tag));
    assert(st.out =~= record.tag);
    lemma_emit_fields_none(st, record.fields);
    lemma_all_fields(st, record.fields, 0);
}

/// Whether the text `whole` begins with the text `before`.
pub open spec fn begins_with(whole: Seq<char>, before: Seq<char>) -> bool {
    before.len() <= whole.len() && whole.take(before.len() as int) == before
}

/// A text that begins with a text that begins with a third begins with
/// the third.
proof fn lemma_begins_with(a: Seq<char>, b: Seq<char>, c: Seq<char>)
    requires
        begins_with(b, a),
        begins_with(c, b),
    ensures
        begins_with(c, a),
{
    assert(c.take(a.len() as int) =~= b.take(a.len() as int));
}

/// A text with more text after it begins with itself.
proof fn lemma_begins_with_part(a: Seq<char>, b: Seq<char>)
    ensures
        begins_with(a + b, a),
        begins_with(a, a),
        begins_with(closed_line(a), a),
{
    assert((a + b).take(a.len() as int) =~= a);
    assert(a.take(a.len() as int) =~= a);
    assert(closed_line(a).take(a.len() as int) =~= a);
}

/// The line of a field stands after the text before it.
proof fn lemma_line_grows(out: Seq<char>, d: nat, key: Seq<char>)
    ensures
        begins_with(line_of(out, d, key), out),
        begins_with(closed_line(line_of(out, d, key)), out),
        begins_with(header_of(out, d, key), out),
{
    let line = line_of(out, d, key);
    assert(line =~= out + (lead(is_fresh(out)) + indent(d) + key));
    lemma_begins_with_part(out, lead(is_fresh(out)) + indent(d) + key);
    lemma_begins_with_part(line, Seq::empty());
    lemma_begins_with(out, line, closed_line(line));
    let head = header_of(out, d, key);
    if d > 0 {
        assert(head =~= out + (seq!['\n'] + indent(d) + key));
        lemma_begins_with_part(out, seq!['\n'] + indent(d) + key);
    } else {
        lemma_begins_with_part(out, Seq::empty());
        lemma_begins_with_part(closed_line(out), key);
        lemma_begins_with(out, closed_line(out), head);
    }
}

/// The text of a field stands after the text before it, of which nothing
/// is taken back.
proof fn lemma_field_grows(out: Seq<char>, f: FieldView, d: nat)
    ensures
        begins_with(all_field(out, f, d), out),
    decreases f, 1int,
{
    lemma_line_grows(out, d, f.key);
    lemma_begins_with_part(out, Seq::empty());
    let line = line_of(out, d, f.key);
    match f.value {
        FieldValueView::Absent => {},
        FieldValueView::Scalar(s) => {
            assert(all_field(out, f, d) =~= line + (seq!['='] + scalar_text(s)));
            lemma_begins_with_part(line, seq!['='] + scalar_text(s));
            lemma_begins_with(out, line, all_field(out, f, d));
        },
        FieldValueView::Tuple(t) => {
            if t.len() > 0 {
                assert(all_field(out, f, d) =~= line + (seq!['='] + tuple_text(t, 0, true)));
                lemma_begins_with_part(line, seq!['='] + tuple_text(t, 0, true));
                lemma_begins_with(out, line, all_field(out, f, d));
            }
        },
        FieldValueView::Record(inner) => {
            lemma_fields_grow(closed_line(line), inner, 0, d + 1);
            lemma_begins_with(out, closed_line(line), all_field(out, f, d));
        },
        FieldValueView::Sequence(elements) => {
            lemma_elements_grow(out, f.key, elements, 0, d);
        },
    }
}

/// The fields are written in their order: the text of the fields from the
/// `i`-th on stands after the text before them, which holds the fields
/// before the `i`-th, and of which nothing is taken back.
pub proof fn lemma_fields_grow(out: Seq<char>, fields: Seq<FieldView>, i: int, d: nat)
    ensures
        begins_with(all_fields(out, fields, i, d), out),
        0 <= i < fields.len() ==> all_fields(out, fields, i, d) == all_fields(
            all_field(out, fields[i], d),
            fields,
            i + 1,
            d,
        ) && begins_with(all_fields(out, fields, i, d), all_field(out, fields[i], d)),
    decreases fields, fields.len() - i,
{
    lemma_begins_with_part(out, Seq::empty());
    if 0 <= i < fields.len() {
        let next = all_field(out, fields[i], d);
        lemma_field_grows(out, fields[i], d);
        lemma_fields_grow(next, fields, i + 1, d);
        lemma_begins_with(out, next, all_fields(out, fields, i, d));
    }
}

/// The blocks of a sequence are written one after the other: the blocks
/// from the `j`-th on stand after the text before them, with nothing
/// between the fields of one record and the header of the next.
pub proof fn lemma_elements_grow(
    out: Seq<char>,
    key: Seq<char>,
    elements: Seq<Seq<FieldView>>,
    j: int,
    d: nat,
)
    ensures
        begins_with(all_elements(out, key, elements, j, d), out),
        1 <= j < elements.len() ==> all_elements(out, key, elements, j, d) == all_elements(
            all_fields(header_of(out, d, key), elements[j], 0, depth_below(d, key, false)),
            key,
            elements,
            j + 1,
            d,
        ),
    decreases elements, elements.len() - j,
{
    lemma_begins_with_part(out, Seq::empty());
    if 0 <= j < elements.len() {
        lemma_line_grows(out, d, key);
        let head = if j == 0 {
            closed_line(line_of(out, d, key))
        } else {
            header_of(out, d, key)
        };
        let block = all_fields(head, elements[j], 0, depth_below(d, key, j == 0));
        lemma_fields_grow(head, elements[j], 0, depth_below(d, key, j == 0));
        lemma_begins_with(out, head, block);
        lemma_elements_grow(block, key, elements, j + 1, d);
        lemma_begins_with(out, block, all_elements(out, key, elements, j, d));
    }
}

} // verus!
