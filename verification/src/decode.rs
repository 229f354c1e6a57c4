//! Decoding whole records: the walk over a text that a shape directs.

use vstd::prelude::*;
use vstd::string::*;
use crate::de::{
    after_blank_line, first_line, next_element, next_key, opened, parsed_bool, parsed_bytes,
    parsed_signed, parsed_string, parsed_unsigned, tuple_element, Deserializer, NewlineSeparated,
    SpaceSeparated,
};
use crate::error::Error;
use crate::missing::{lemma_missing_key_reads_default, lemma_read_fields_follow_shape, occurs};
use crate::text::{lemma_run_len, run_len, trim_start, CharClass};
use crate::value::{
    copy_scalar, elements_view, fields_view, lemma_fields_view, lemma_shapes_view, scalars_view,
    shapes_view, Field, FieldShape, FieldShapeView, FieldValue, FieldValueView, FieldView, Record,
    RecordShape, RecordShapeView, RecordView, Scalar, ScalarKind, ScalarView, Shape, ShapeView,
};

verus! {

/// Why a text does not hold a record of a given shape.
pub enum Fault {
    /// The text is malformed.
    Syntax(Error),
    /// The text holds a key that the record does not have.
    UnknownField(Seq<char>),
    /// The text holds a key of the record a second time.
    DuplicateField(Seq<char>),
}

/// The words for a key that the record does not have.
pub open spec fn unknown_field_text(key: Seq<char>) -> Seq<char> {
    "unknown field `"@ + key + "`"@
}

/// The words for a key that comes a second time.
pub open spec fn duplicate_field_text(key: Seq<char>) -> Seq<char> {
    "duplicate field `"@ + key + "`"@
}

/// Whether the failure `e` reports the fault `f`.
pub open spec fn reports(e: Error, f: Fault) -> bool {
    match f {
        Fault::Syntax(x) => e == x,
        Fault::UnknownField(key) => e matches Error::Message(m) && m@ == unknown_field_text(key),
        Fault::DuplicateField(key) => e matches Error::Message(m) && m@ == duplicate_field_text(
            key,
        ),
    }
}

/// A scalar of the kind `kind` at the head of `s`, and what follows it.
pub open spec fn read_scalar(s: Seq<char>, kind: ScalarKind) -> Result<
    (ScalarView, Seq<char>),
    Error,
> {
    match kind {
        ScalarKind::Bool => match parsed_bool(s).0 {
            Ok(v) => Ok((ScalarView::Bool(v), parsed_bool(s).1)),
            Err(e) => Err(e),
        },
        ScalarKind::Signed(width) => match parsed_signed(s, width).0 {
            Ok(v) => Ok((ScalarView::Signed(v), parsed_signed(s, width).1)),
            Err(e) => Err(e),
        },
        ScalarKind::Unsigned(width) => match parsed_unsigned(s, width).0 {
            Ok(v) => Ok((ScalarView::Unsigned(v), parsed_unsigned(s, width).1)),
            Err(e) => Err(e),
        },
        ScalarKind::Str => match parsed_string(s).0 {
            Ok(v) => Ok((ScalarView::Str(v), parsed_string(s).1)),
            Err(e) => Err(e),
        },
        ScalarKind::Bytes => match parsed_bytes(s).0 {
            Ok(v) => Ok((ScalarView::Bytes(v), parsed_bytes(s).1)),
            Err(e) => Err(e),
        },
    }
}

/// The `count` elements of a tuple that are still to come at the head of
/// `s`, added to `got`, and what follows them. The line must hold exactly
/// that many: the end of the line before the last of them is a failure, and
/// so is anything after it but the end of the line.
pub open spec fn read_elements(
    s: Seq<char>,
    kind: ScalarKind,
    count: nat,
    first: bool,
    got: Seq<ScalarView>,
) -> Result<(Seq<ScalarView>, Seq<char>), Error>
    decreases count,
{
    match tuple_element(s, first).0 {
        Err(e) => Err(e),
        Ok(more) => if count == 0 {
            if more {
                Err(Error::ExpectedNewline)
            } else {
                Ok((got, s))
            }
        } else if !more {
            Err(Error::ExpectedArraySeperator)
        } else {
            match read_scalar(tuple_element(s, first).1, kind) {
                Err(e) => Err(e),
                Ok((v, rest)) => read_elements(rest, kind, (count - 1) as nat, false, got.push(v)),
            }
        },
    }
}

/// A tuple of `len` scalars of the kind `kind` at the head of `s`, and what
/// follows it.
pub open spec fn read_tuple(s: Seq<char>, kind: ScalarKind, len: nat) -> Result<
    (Seq<ScalarView>, Seq<char>),
    Error,
> {
    read_elements(s, kind, len, true, Seq::empty())
}

/// The place of the first of `shapes` with the key `key`.
pub open spec fn position(shapes: Seq<FieldShapeView>, key: Seq<char>) -> Option<int>
    decreases shapes.len(),
{
    if shapes.len() == 0 {
        None
    } else {
        match position(shapes.drop_last(), key) {
            Some(i) => Some(i),
            None => if shapes.last().key == key {
                Some(shapes.len() - 1)
            } else {
                None
            },
        }
    }
}

/// The fields of a record of the shape `shapes`: each holds what was
/// decoded for it, or else its default.
pub open spec fn filled(shapes: Seq<FieldShapeView>, slots: Seq<Option<FieldValueView>>) -> Seq<
    FieldView,
> {
    Seq::new(
        shapes.len(),
        |i: int|
            FieldView {
                key: shapes[i].key,
                value: match slots[i] {
                    Some(v) => v,
                    None => shapes[i].default,
                },
            },
    )
}

/// As many empty slots as a record has fields.
pub open spec fn empty_slots(n: nat) -> Seq<Option<FieldValueView>> {
    Seq::new(n, |i: int| None)
}

/// The fields that are still to come at the head of `s`, added to `slots`,
/// and what follows them. `tags` holds the open tags, the record's own on
/// top. A key that `shapes` does not hold is a fault, and so is one that
/// comes a second time.
///
/// Every field takes at least one character of the text; the test for it
/// is there to make the definition well-founded, and never fails.
pub open spec fn decode_fields(
    s: Seq<char>,
    tags: Seq<Seq<char>>,
    shapes: Seq<FieldShapeView>,
    first: bool,
    slots: Seq<Option<FieldValueView>>,
) -> Result<(Seq<Option<FieldValueView>>, Seq<char>), Fault>
    decreases shapes, 0nat, s.len(),
{
    match next_key(s, tags.len(), first).0 {
        Err(e) => Err(Fault::Syntax(e)),
        Ok(None) => Ok((slots, next_key(s, tags.len(), first).1)),
        Ok(Some(key)) => match position(shapes, key) {
            None => Err(Fault::UnknownField(key)),
            Some(i) => if !(0 <= i < shapes.len() && i < slots.len()) {
                Err(Fault::UnknownField(key))
            } else if slots[i] is Some {
                Err(Fault::DuplicateField(key))
            } else {
                match decode_value(next_key(s, tags.len(), first).1, tags, key, shapes[i].shape) {
                    Err(f) => Err(f),
                    Ok((v, rest)) => if rest.len() < s.len() {
                        decode_fields(rest, tags, shapes, false, slots.update(i, Some(v)))
                    } else {
                        Err(Fault::Syntax(Error::Eof))
                    },
                }
            },
        },
    }
}

/// The value of the shape `shape` that follows the key `key` at the head
/// of `s`, and what follows it. A scalar and a tuple come after a `=`; a
/// record and a sequence begin on the line of the key itself.
pub open spec fn decode_value(
    s: Seq<char>,
    tags: Seq<Seq<char>>,
    key: Seq<char>,
    shape: ShapeView,
) -> Result<(FieldValueView, Seq<char>), Fault>
    decreases shape, 0nat, 0nat,
{
    let assigned = s.len() > 0 && s[0] == '=';
    match shape {
        ShapeView::Scalar(kind) => if !assigned {
            Err(Fault::Syntax(Error::ExpectedValueSeperator))
        } else {
            match read_scalar(s.skip(1), kind) {
                Err(e) => Err(Fault::Syntax(e)),
                Ok((v, rest)) => Ok((FieldValueView::Scalar(v), rest)),
            }
        },
        ShapeView::Tuple(kind, len) => if !assigned {
            Err(Fault::Syntax(Error::ExpectedValueSeperator))
        } else {
            match read_tuple(s.skip(1), kind, len) {
                Err(e) => Err(Fault::Syntax(e)),
                Ok((v, rest)) => Ok((FieldValueView::Tuple(v), rest)),
            }
        },
        ShapeView::Record(inner) => if assigned {
            Err(Fault::Syntax(Error::ExpectedStructName))
        } else {
            let open = opened(s, tags, key);
            match open.result {
                Err(e) => Err(Fault::Syntax(e)),
                Ok(_) => match decode_fields(
                    open.rest,
                    open.tags,
                    inner,
                    true,
                    empty_slots(inner.len()),
                ) {
                    Err(f) => Err(f),
                    Ok((slots, rest)) => Ok((FieldValueView::Record(filled(inner, slots)), rest)),
                },
            }
        },
        ShapeView::Sequence(inner) => if assigned {
            Err(Fault::Syntax(Error::ExpectedStructName))
        } else {
            match decode_elements(s, tags, key, inner, true, Seq::empty()) {
                Err(f) => Err(f),
                Ok((elements, rest)) => Ok((FieldValueView::Sequence(elements), rest)),
            }
        },
    }
}

/// The records of a sequence that are still to come at the head of `s`,
/// added to `got`, and what follows them. Each is tagged `key` and has the
/// fields `shapes`.
///
/// Every record takes at least one character of the text; the test for it
/// is there to make the definition well-founded, and never fails.
pub open spec fn decode_elements(
    s: Seq<char>,
    tags: Seq<Seq<char>>,
    key: Seq<char>,
    shapes: Seq<FieldShapeView>,
    first: bool,
    got: Seq<Seq<FieldView>>,
) -> Result<(Seq<Seq<FieldView>>, Seq<char>), Fault>
    decreases shapes, 1nat, s.len(),
{
    match next_element(s, tags, first).0 {
        Err(e) => Err(Fault::Syntax(e)),
        Ok(false) => Ok((got, next_element(s, tags, first).1)),
        Ok(true) => {
            let open = opened(next_element(s, tags, first).1, tags, key);
            match open.result {
                Err(e) => Err(Fault::Syntax(e)),
                Ok(_) => match decode_fields(
                    open.rest,
                    open.tags,
                    shapes,
                    true,
                    empty_slots(shapes.len()),
                ) {
                    Err(f) => Err(f),
                    Ok((slots, rest)) => if rest.len() < s.len() {
                        decode_elements(
                            rest,
                            open.tags,
                            key,
                            shapes,
                            false,
                            got.push(filled(shapes, slots)),
                        )
                    } else {
                        Err(Fault::Syntax(Error::Eof))
                    },
                },
            }
        },
    }
}

/// The record of the shape `shape` that the text `text` holds. After its
/// fields only whitespace may follow.
pub open spec fn decoded(text: Seq<char>, shape: RecordShapeView) -> Result<RecordView, Fault> {
    let open = opened(text, Seq::empty(), shape.tag);
    match open.result {
        Err(e) => Err(Fault::Syntax(e)),
        Ok(_) => match decode_fields(
            open.rest,
            open.tags,
            shape.fields,
            true,
            empty_slots(shape.fields.len()),
        ) {
            Err(f) => Err(f),
            Ok((slots, rest)) => if trim_start(rest).len() == 0 {
                Ok(RecordView { tag: shape.tag, fields: filled(shape.fields, slots) })
            } else {
                Err(Fault::Syntax(Error::WrongLevel))
            },
        },
    }
}

/// Reading a scalar leaves no more of the text than there was.
proof fn lemma_scalar_takes_text(s: Seq<char>, kind: ScalarKind)
    ensures
        read_scalar(s, kind) matches Ok((_, rest)) ==> rest.len() <= s.len(),
{
    lemma_run_len(s, CharClass::Digit);
    lemma_run_len(s, CharClass::InLine);
    if s.len() > 0 {
        lemma_run_len(s.skip(1), CharClass::Digit);
    }
    if s.len() >= 2 {
        lemma_run_len(s.skip(2), CharClass::InLine);
    }
}

/// Reading the elements of a tuple leaves no more of the text than there was.
proof fn lemma_elements_take_text(
    s: Seq<char>,
    kind: ScalarKind,
    count: nat,
    first: bool,
    got: Seq<ScalarView>,
)
    ensures
        read_elements(s, kind, count, first, got) matches Ok((_, rest)) ==> rest.len() <= s.len(),
    decreases count,
{
    if count > 0 {
        let after = tuple_element(s, first).1;
        lemma_scalar_takes_text(after, kind);
        match read_scalar(after, kind) {
            Ok((v, rest)) => {
                lemma_elements_take_text(rest, kind, (count - 1) as nat, false, got.push(v));
            },
            Err(_) => {},
        }
    }
}

/// A key that was found leaves some of the text, and no more than there was.
proof fn lemma_key_takes_text(s: Seq<char>, depth: nat, first: bool)
    ensures
        next_key(s, depth, first).0 matches Ok(Some(_)) ==> 0 < next_key(s, depth, first).1.len()
            <= s.len(),
{
    lemma_run_len(s, CharClass::Space);
    let t = trim_start(s);
    lemma_run_len(t, CharClass::Dot);
    let u = t.skip(run_len(t, CharClass::Dot) as int);
    lemma_run_len(u, CharClass::InLine);
    let line = first_line(u);
    lemma_run_len(line, CharClass::InName);
}

/// Opening a record takes some of the text.
proof fn lemma_header_takes_text(s: Seq<char>, tags: Seq<Seq<char>>, name: Seq<char>)
    ensures
        opened(s, tags, name).result is Ok ==> opened(s, tags, name).rest.len() < s.len(),
{
    lemma_run_len(s, CharClass::Blank);
    let t = after_blank_line(s);
    lemma_run_len(t, CharClass::InLine);
}

/// The block of a further record leaves no more of the text than there was.
proof fn lemma_block_takes_text(s: Seq<char>, tags: Seq<Seq<char>>, first: bool)
    ensures
        next_element(s, tags, first).1.len() <= s.len(),
        next_element(s, tags, first).0 == Ok::<bool, Error>(false) ==> next_element(
            s,
            tags,
            first,
        ).1 == s,
{
    lemma_run_len(s, CharClass::Space);
    let t = trim_start(s);
    lemma_run_len(t, CharClass::Dot);
    let u = t.skip(run_len(t, CharClass::Dot) as int);
    lemma_run_len(u, CharClass::Space);
}

/// Reading a value takes some of the text: the tests in the definitions
/// above never fail.
pub proof fn lemma_value_takes_text(
    s: Seq<char>,
    tags: Seq<Seq<char>>,
    key: Seq<char>,
    shape: ShapeView,
)
    ensures
        decode_value(s, tags, key, shape) matches Ok((_, rest)) ==> rest.len() <= s.len() && (
        s.len() > 0 ==> rest.len() < s.len()),
    decreases shape, 0nat, 0nat,
{
    match shape {
        ShapeView::Scalar(kind) => {
            if s.len() > 0 {
                lemma_scalar_takes_text(s.skip(1), kind);
            }
        },
        ShapeView::Tuple(kind, len) => {
            if s.len() > 0 {
                lemma_elements_take_text(s.skip(1), kind, len, true, Seq::empty());
            }
        },
        ShapeView::Record(inner) => {
            let open = opened(s, tags, key);
            lemma_header_takes_text(s, tags, key);
            lemma_fields_take_text(open.rest, open.tags, inner, true, empty_slots(inner.len()));
        },
        ShapeView::Sequence(inner) => {
            lemma_records_take_text(s, tags, key, inner, true, Seq::empty());
        },
    }
}

/// Reading the fields of a record leaves no more of the text than there was.
pub proof fn lemma_fields_take_text(
    s: Seq<char>,
    tags: Seq<Seq<char>>,
    shapes: Seq<FieldShapeView>,
    first: bool,
    slots: Seq<Option<FieldValueView>>,
)
    ensures
        decode_fields(s, tags, shapes, first, slots) matches Ok((_, rest)) ==> rest.len()
            <= s.len(),
    decreases shapes, 0nat, s.len(),
{
    lemma_key_takes_text(s, tags.len(), first);
    lemma_run_len(s, CharClass::Space);
    match next_key(s, tags.len(), first).0 {
        Ok(Some(key)) => match position(shapes, key) {
            Some(i) => {
                if 0 <= i < shapes.len() && i < slots.len() && slots[i] is None {
                    let after = next_key(s, tags.len(), first).1;
                    lemma_value_takes_text(after, tags, key, shapes[i].shape);
                    match decode_value(after, tags, key, shapes[i].shape) {
                        Ok((v, rest)) => {
                            if rest.len() < s.len() {
                                lemma_fields_take_text(
                                    rest,
                                    tags,
                                    shapes,
                                    false,
                                    slots.update(i, Some(v)),
                                );
                            }
                        },
                        Err(_) => {},
                    }
                }
            },
            None => {},
        },
        _ => {},
    }
}

/// Reading the records of a sequence leaves no more of the text than there
/// was, and less where the text holds a first record.
pub proof fn lemma_records_take_text(
    s: Seq<char>,
    tags: Seq<Seq<char>>,
    key: Seq<char>,
    shapes: Seq<FieldShapeView>,
    first: bool,
    got: Seq<Seq<FieldView>>,
)
    ensures
        decode_elements(s, tags, key, shapes, first, got) matches Ok((_, rest)) ==> rest.len()
            <= s.len() && (first && s.len() > 0 ==> rest.len() < s.len()),
    decreases shapes, 1nat, s.len(),
{
    lemma_block_takes_text(s, tags, first);
    if next_element(s, tags, first).0 == Ok::<bool, Error>(true) {
        let head = next_element(s, tags, first).1;
        let open = opened(head, tags, key);
        lemma_header_takes_text(head, tags, key);
        if open.result is Ok {
            lemma_fields_take_text(open.rest, open.tags, shapes, true, empty_slots(shapes.len()));
            match decode_fields(open.rest, open.tags, shapes, true, empty_slots(shapes.len())) {
                Ok((slots, rest)) => {
                    if rest.len() < s.len() {
                        lemma_records_take_text(
                            rest,
                            open.tags,
                            key,
                            shapes,
                            false,
                            got.push(filled(shapes, slots)),
                        );
                    }
                },
                Err(_) => {},
            }
        }
    }
}

/// The test in the definition of the fields of a record never fails: a
/// key and its value take at least one character.
pub proof fn lemma_field_takes_text(
    s: Seq<char>,
    tags: Seq<Seq<char>>,
    shapes: Seq<FieldShapeView>,
    first: bool,
    i: int,
)
    requires
        0 <= i < shapes.len(),
    ensures
        next_key(s, tags.len(), first).0 matches Ok(Some(key)) ==> (decode_value(
            next_key(s, tags.len(), first).1,
            tags,
            key,
            shapes[i].shape,
        ) matches Ok((_, rest)) ==> rest.len() < s.len()),
{
    lemma_key_takes_text(s, tags.len(), first);
    match next_key(s, tags.len(), first).0 {
        Ok(Some(key)) => {
            lemma_value_takes_text(next_key(s, tags.len(), first).1, tags, key, shapes[i].shape);
        },
        _ => {},
    }
}

/// The test in the definition of the records of a sequence never fails:
/// the header of a record takes at least one character.
pub proof fn lemma_record_takes_text(
    s: Seq<char>,
    tags: Seq<Seq<char>>,
    key: Seq<char>,
    shapes: Seq<FieldShapeView>,
    first: bool,
)
    ensures
        next_element(s, tags, first).0 == Ok::<bool, Error>(true) ==> ({
            let open = opened(next_element(s, tags, first).1, tags, key);
            open.result is Ok ==> (decode_fields(
                open.rest,
                open.tags,
                shapes,
                true,
                empty_slots(shapes.len()),
            ) matches Ok((_, rest)) ==> rest.len() < s.len())
        }),
{
    lemma_block_takes_text(s, tags, first);
    let head = next_element(s, tags, first).1;
    let open = opened(head, tags, key);
    lemma_header_takes_text(head, tags, key);
    lemma_fields_take_text(open.rest, open.tags, shapes, true, empty_slots(shapes.len()));
}

/// Whether `r` holds a failure that reports the fault `f`.
pub open spec fn fails_with<T>(r: Result<T, Error>, f: Fault) -> bool {
    r is Err && reports(r->Err_0, f)
}

impl Deserializer {
    /// Reads a scalar of the kind `kind`.
    pub fn read_scalar(&mut self, kind: ScalarKind) -> (r: Result<Scalar, Error>)
        ensures
            match read_scalar(old(self).remaining(), kind) {
                Ok((v, rest)) => r is Ok && r->Ok_0@ == v && final(self).remaining() == rest,
                Err(e) => r == Err::<Scalar, Error>(e),
            },
            final(self).open_tags() == old(self).open_tags(),
            final(self).remaining().len() <= old(self).remaining().len(),
    {
        match kind {
            ScalarKind::Bool => match self.parse_bool() {
                Ok(v) => Ok(Scalar::Bool(v)),
                Err(e) => Err(e),
            },
            ScalarKind::Signed(width) => match self.parse_signed(width) {
                Ok(v) => Ok(Scalar::Signed(v)),
                Err(e) => Err(e),
            },
            ScalarKind::Unsigned(width) => match self.parse_unsigned(width) {
                Ok(v) => Ok(Scalar::Unsigned(v)),
                Err(e) => Err(e),
            },
            ScalarKind::Str => match self.parse_string() {
                Ok(v) => Ok(Scalar::Str(v)),
                Err(e) => Err(e),
            },
            ScalarKind::Bytes => match self.parse_bytes() {
                Ok(v) => Ok(Scalar::Bytes(v)),
                Err(e) => Err(e),
            },
        }
    }

    /// Reads a tuple of exactly `len` scalars of the kind `kind`, on one line.
    #[verifier::loop_isolation(false)]
    pub fn read_tuple(&mut self, kind: ScalarKind, len: usize) -> (r: Result<Vec<Scalar>, Error>)
        ensures
            match read_tuple(old(self).remaining(), kind, len as nat) {
                Ok((v, rest)) => r is Ok && scalars_view(r->Ok_0@) == v && final(self).remaining()
                    == rest,
                Err(e) => r == Err::<Vec<Scalar>, Error>(e),
            },
            final(self).open_tags() == old(self).open_tags(),
            final(self).remaining().len() <= old(self).remaining().len(),
    {
        let ghost goal = read_tuple(old(self).remaining(), kind, len as nat);
        let mut walk = SpaceSeparated::new();
        let mut got: Vec<Scalar> = Vec::new();
        let mut i: usize = 0;
        proof {
            assert(scalars_view(got@) =~= Seq::<ScalarView>::empty());
        }
        while i < len
            invariant
                i <= len,
                self.open_tags() == old(self).open_tags(),
                self.remaining().len() <= old(self).remaining().len(),
                goal == read_elements(
                    self.remaining(),
                    kind,
                    (len - i) as nat,
                    walk.first,
                    scalars_view(got@),
                ),
            decreases len - i,
        {
            match walk.next_element_seed(self) {
                Err(e) => {
                    return Err(e);
                },
                Ok(more) => {
                    if !more {
                        return Err(Error::ExpectedArraySeperator);
                    }
                },
            }
            let ghost before = scalars_view(got@);
            match self.read_scalar(kind) {
                Err(e) => {
                    return Err(e);
                },
                Ok(v) => {
                    got.push(v);
                    proof {
                        assert(scalars_view(got@) =~= before.push(v@));
                    }
                },
            }
            i += 1;
        }
        match walk.finish(self) {
            Err(e) => Err(e),
            Ok(()) => Ok(got),
        }
    }
}

/// A key that comes first in a prefix of the fields comes first among them all.
proof fn lemma_position_prefix(shapes: Seq<FieldShapeView>, key: Seq<char>, k: int)
    requires
        0 <= k <= shapes.len(),
        position(shapes.take(k), key) is Some,
    ensures
        position(shapes, key) == position(shapes.take(k), key),
    decreases shapes.len() - k,
{
    if k == shapes.len() {
        assert(shapes.take(k) =~= shapes);
    } else {
        assert(shapes.drop_last().take(k) =~= shapes.take(k));
        lemma_position_prefix(shapes.drop_last(), key, k);
    }
}

/// The place of the first of `shapes` with the key `key`.
fn find_key(shapes: &Vec<FieldShape>, key: &String) -> (r: Option<usize>)
    ensures
        match position(shapes_view(shapes@), key@) {
            Some(i) => r == Some(i as usize) && 0 <= i < shapes.len(),
            None => r is None,
        },
{
    let ghost all = shapes_view(shapes@);
    let mut i: usize = 0;
    proof {
        lemma_shapes_view(shapes@);
        assert(all.take(0) =~= Seq::<FieldShapeView>::empty());
    }
    while i < shapes.len()
        invariant
            i <= shapes.len(),
            all == shapes_view(shapes@),
            all.len() == shapes.len(),
            forall|j: int| 0 <= j < shapes.len() ==> #[trigger] all[j] == shapes@[j]@,
            position(all.take(i as int), key@) is None,
        decreases shapes.len() - i,
    {
        proof {
            assert(all.take(i + 1).drop_last() =~= all.take(i as int));
            assert(all.take(i + 1).last() == shapes@[i as int]@);
        }
        if shapes[i].key == *key {
            proof {
                lemma_position_prefix(all, key@, i + 1);
            }
            return Some(i);
        }
        i += 1;
    }
    proof {
        assert(all.take(shapes.len() as int) =~= all);
    }
    None
}

/// The fields of a record of the shape `shapes` of which the text holds none.
fn default_fields(shapes: &Vec<FieldShape>) -> (r: Vec<Field>)
    ensures
        r.len() == shapes.len(),
        fields_view(r@) == filled(shapes_view(shapes@), empty_slots(shapes.len() as nat)),
{
    let ghost all = shapes_view(shapes@);
    let mut fields: Vec<Field> = Vec::new();
    let mut i: usize = 0;
    proof {
        lemma_shapes_view(shapes@);
    }
    while i < shapes.len()
        invariant
            i <= shapes.len(),
            fields.len() == i,
            all == shapes_view(shapes@),
            all.len() == shapes.len(),
            forall|j: int| 0 <= j < shapes.len() ==> #[trigger] all[j] == shapes@[j]@,
            forall|j: int|
                0 <= j < i ==> #[trigger] fields@[j]@ == (FieldView {
                    key: all[j].key,
                    value: all[j].default,
                }),
        decreases shapes.len() - i,
    {
        let value = match &shapes[i].default {
            Some(s) => FieldValue::Scalar(copy_scalar(s)),
            None => FieldValue::Absent,
        };
        fields.push(Field { key: shapes[i].key.clone(), value });
        i += 1;
    }
    proof {
        lemma_fields_view(fields@);
        assert(fields_view(fields@) =~= filled(all, empty_slots(shapes.len() as nat)));
    }
    fields
}

/// Reads the fields of the innermost open record, which has the shape `shapes`.
#[verifier::loop_isolation(false)]
fn read_fields(de: &mut Deserializer, shapes: &Vec<FieldShape>) -> (r: Result<Vec<Field>, Error>)
    ensures
        match decode_fields(
            old(de).remaining(),
            old(de).open_tags(),
            shapes_view(shapes@),
            true,
            empty_slots(shapes.len() as nat),
        ) {
            Ok((slots, rest)) => r is Ok && fields_view(r->Ok_0@) == filled(
                shapes_view(shapes@),
                slots,
            ) && final(de).remaining() == rest,
            Err(f) => fails_with(r, f),
        },
        r is Ok ==> final(de).open_tags() == old(de).open_tags(),
        final(de).remaining().len() <= old(de).remaining().len(),
    decreases shapes, 0nat,
{
    let ghost all = shapes_view(shapes@);
    let ghost tags = de.open_tags();
    let ghost goal = decode_fields(
        de.remaining(),
        tags,
        all,
        true,
        empty_slots(shapes.len() as nat),
    );
    let mut fields = default_fields(shapes);
    let mut seen: Vec<bool> = Vec::new();
    let mut n: usize = 0;
    while n < shapes.len()
        invariant
            n <= shapes.len(),
            seen.len() == n,
            forall|j: int| 0 <= j < n ==> !(#[trigger] seen@[j]),
        decreases shapes.len() - n,
    {
        seen.push(false);
        n += 1;
    }
    let ghost mut slots = empty_slots(shapes.len() as nat);
    let mut walk = NewlineSeparated::new();
    proof {
        lemma_shapes_view(shapes@);
    }
    loop
        invariant
            seen.len() == shapes.len(),
            fields.len() == shapes.len(),
            slots.len() == shapes.len(),
            all.len() == shapes.len(),
            forall|j: int| 0 <= j < shapes.len() ==> #[trigger] seen@[j] == (slots[j] is Some),
            fields_view(fields@) == filled(all, slots),
            goal == decode_fields(de.remaining(), tags, all, walk.first, slots),
            de.open_tags() == tags,
            de.remaining().len() <= old(de).remaining().len(),
        decreases de.remaining().len(),
    {
        let ghost s = de.remaining();
        let key = match walk.next_key_seed(de) {
            Err(e) => {
                return Err(e);
            },
            Ok(None) => {
                return Ok(fields);
            },
            Ok(Some(key)) => key,
        };
        let at = match find_key(shapes, &key) {
            None => {
                return Err(
                    Error::Message(
                        String::from_str("unknown field `").concat(key.as_str()).concat("`"),
                    ),
                );
            },
            Some(at) => at,
        };
        if seen[at] {
            return Err(
                Error::Message(
                    String::from_str("duplicate field `").concat(key.as_str()).concat("`"),
                ),
            );
        }
        let value = match read_value(de, &mut walk, key.as_str(), &shapes[at].shape) {
            Err(e) => {
                return Err(e);
            },
            Ok(value) => value,
        };
        proof {
            let after = slots.update(at as int, Some(value@));
            lemma_fields_view(fields@);
            let changed = fields@.update(
                at as int,
                Field { key: shapes@[at as int].key, value: value },
            );
            lemma_fields_view(changed);
            assert forall|j: int| 0 <= j < shapes.len() implies #[trigger] fields_view(changed)[j]
                == filled(all, after)[j] by {
                if j != at {
                    assert(changed[j] == fields@[j]);
                    assert(fields_view(fields@)[j] == filled(all, slots)[j]);
                } else {
                    assert(all[j] == shapes@[j]@);
                }
            }
            assert(fields_view(changed) =~= filled(all, after));
            slots = after;
        }
        fields.set(at, Field { key: shapes[at].key.clone(), value });
        seen.set(at, true);
    }
}

/// Reads the value of the shape `shape` that follows the key `key`.
fn read_value(
    de: &mut Deserializer,
    walk: &mut NewlineSeparated,
    key: &str,
    shape: &Shape,
) -> (r: Result<FieldValue, Error>)
    ensures
        match decode_value(old(de).remaining(), old(de).open_tags(), key@, shape@) {
            Ok((v, rest)) => r is Ok && r->Ok_0@ == v && final(de).remaining() == rest,
            Err(f) => fails_with(r, f),
        },
        r is Ok ==> final(de).open_tags() == old(de).open_tags(),
        final(de).remaining().len() <= old(de).remaining().len(),
        r is Ok && old(de).remaining().len() > 0
            ==> final(de).remaining().len() < old(de).remaining().len(),
        final(walk).first == old(walk).first,
    decreases shape, 0nat,
{
    let assigned = walk.next_value_seed(de);
    proof {
        match shape {
            Shape::Record(inner) => {
                lemma_shapes_view(inner@);
            },
            Shape::Sequence(inner) => {
                lemma_shapes_view(inner@);
            },
            _ => {},
        }
    }
    match shape {
        Shape::Scalar(kind) => {
            if !assigned {
                return Err(Error::ExpectedValueSeperator);
            }
            match de.read_scalar(*kind) {
                Err(e) => Err(e),
                Ok(v) => Ok(FieldValue::Scalar(v)),
            }
        },
        Shape::Tuple(kind, len) => {
            if !assigned {
                return Err(Error::ExpectedValueSeperator);
            }
            match de.read_tuple(*kind, *len) {
                Err(e) => Err(e),
                Ok(v) => Ok(FieldValue::Tuple(v)),
            }
        },
        Shape::Record(inner) => {
            if assigned {
                return Err(Error::ExpectedStructName);
            }
            let added = match de.deserialize_struct(key) {
                Err(e) => {
                    return Err(e);
                },
                Ok(added) => added,
            };
            let fields = match read_fields(de, inner) {
                Err(e) => {
                    return Err(e);
                },
                Ok(fields) => fields,
            };
            de.leave_record(added, false);
            proof {
                assert(de.open_tags() =~= old(de).open_tags());
            }
            Ok(FieldValue::Record(fields))
        },
        Shape::Sequence(inner) => {
            if assigned {
                return Err(Error::ExpectedStructName);
            }
            match read_sequence(de, key, inner) {
                Err(e) => Err(e),
                Ok(elements) => Ok(FieldValue::Sequence(elements)),
            }
        },
    }
}

/// Reads the records of a sequence: each tagged `key`, with the shape `shapes`.
#[verifier::loop_isolation(false)]
fn read_sequence(de: &mut Deserializer, key: &str, shapes: &Vec<FieldShape>) -> (r: Result<
    Vec<Vec<Field>>,
    Error,
>)
    ensures
        match decode_elements(
            old(de).remaining(),
            old(de).open_tags(),
            key@,
            shapes_view(shapes@),
            true,
            Seq::empty(),
        ) {
            Ok((elements, rest)) => {
                &&& r is Ok
                &&& elements_view(r->Ok_0@) == elements
                &&& final(de).remaining() == rest
            },
            Err(f) => fails_with(r, f),
        },
        r is Ok ==> final(de).open_tags() == old(de).open_tags(),
        final(de).remaining().len() <= old(de).remaining().len(),
        r is Ok && old(de).remaining().len() > 0
            ==> final(de).remaining().len() < old(de).remaining().len(),
    decreases shapes, 1nat,
{
    let ghost all = shapes_view(shapes@);
    let ghost tags = de.open_tags();
    let ghost goal = decode_elements(de.remaining(), tags, key@, all, true, Seq::empty());
    let depth = de.depth();
    let mut walk = NewlineSeparated::new();
    let mut got: Vec<Vec<Field>> = Vec::new();
    proof {
        lemma_shapes_view(shapes@);
        assert(elements_view(got@) =~= Seq::<Seq<FieldView>>::empty());
    }
    loop
        invariant
            all.len() == shapes.len(),
            de.open_tags() == tags || de.open_tags() == tags.push(key@),
            walk.first ==> de.open_tags() == tags && de.remaining() == old(de).remaining(),
            !walk.first && de.open_tags() == tags ==> !crate::de::opens_level(tags, key@),
            goal == decode_elements(
                de.remaining(),
                de.open_tags(),
                key@,
                all,
                walk.first,
                elements_view(got@),
            ),
            de.remaining().len() <= old(de).remaining().len(),
            !walk.first ==> de.remaining().len() < old(de).remaining().len(),
        decreases de.remaining().len(),
    {
        match walk.next_element_seed(de) {
            Err(e) => {
                return Err(e);
            },
            Ok(more) => {
                if !more {
                    break ;
                }
            },
        }
        match de.deserialize_struct(key) {
            Err(e) => {
                return Err(e);
            },
            Ok(_) => {},
        }
        let ghost before = elements_view(got@);
        match read_fields(de, shapes) {
            Err(e) => {
                return Err(e);
            },
            Ok(fields) => {
                let ghost earlier = got@;
                got.push(fields);
                proof {
                    assert(got@.drop_last() =~= earlier);
                }
            },
        }
    }
    de.leave_sequence(depth);
    proof {
        assert(de.open_tags() =~= tags);
    }
    Ok(got)
}

/// Decodes the record of the shape `shape` that the text `s` holds. The
/// record has the fields of the shape, in their order. A field of which
/// the text holds no line is no failure: it has the default of its shape.
pub fn from_str(s: &str, shape: &RecordShape) -> (r: Result<Record, Error>)
    ensures
        match decoded(s@, shape@) {
            Ok(v) => r is Ok && r->Ok_0@ == v,
            Err(f) => fails_with(r, f),
        },
        r is Ok ==> r->Ok_0@.tag == shape@.tag && r->Ok_0@.fields.len() == shape@.fields.len(),
        r is Ok ==> forall|i: int|
            0 <= i < shape@.fields.len() ==> (#[trigger] r->Ok_0@.fields[i]).key
                == shape@.fields[i].key,
        r is Ok ==> forall|i: int|
            0 <= i < shape@.fields.len() && !occurs(shape@.fields[i].key, s@) ==> (
            #[trigger] r->Ok_0@.fields[i]).value == shape@.fields[i].default,
{
    proof {
        if decoded(s@, shape@) is Ok {
            lemma_read_fields_follow_shape(s@, shape@);
            assert forall|i: int|
                0 <= i < shape@.fields.len() && !occurs(
                    shape@.fields[i].key,
                    s@,
                ) implies (#[trigger] decoded(s@, shape@)->Ok_0.fields[i]).value
                == shape@.fields[i].default by {
                lemma_missing_key_reads_default(s@, shape@, i);
            }
        }
    }
    let mut de = Deserializer::from_str(s);
    proof {
        lemma_shapes_view(shape.fields@);
    }
    match de.deserialize_struct(shape.tag.as_str()) {
        Err(e) => {
            return Err(e);
        },
        Ok(_) => {},
    }
    let fields = match read_fields(&mut de, &shape.fields) {
        Err(e) => {
            return Err(e);
        },
        Ok(fields) => fields,
    };
    match de.end() {
        Err(e) => Err(e),
        Ok(()) => Ok(Record { tag: shape.tag.clone(), fields }),
    }
}

} // verus!
