//! The data model: scalars, fields, records, and the shapes that tell the
//! decoder what to expect.

use vstd::prelude::*;

verus! {

/// The width of an integer, in bits.
#[derive(Clone, Copy, Debug, PartialEq, Eq)]
pub enum Width {
    /// Eight bits.
    W8,
    /// Sixteen bits.
    W16,
    /// Thirty-two bits.
    W32,
    /// Sixty-four bits.
    W64,
}

impl Width {
    /// The largest unsigned number of this width.
    pub open spec fn unsigned_max(self) -> nat {
        match self {
            Width::W8 => 0xff,
            Width::W16 => 0xffff,
            Width::W32 => 0xffff_ffff,
            Width::W64 => 0xffff_ffff_ffff_ffff,
        }
    }

    /// The largest signed number of this width; the smallest is one further
    /// from zero.
    pub open spec fn signed_max(self) -> nat {
        match self {
            Width::W8 => 0x7f,
            Width::W16 => 0x7fff,
            Width::W32 => 0x7fff_ffff,
            Width::W64 => 0x7fff_ffff_ffff_ffff,
        }
    }

    /// Whether `v` is an unsigned number of this width.
    pub open spec fn holds_unsigned(self, v: int) -> bool {
        0 <= v <= self.unsigned_max()
    }

    /// Whether `v` is a signed number of this width.
    pub open spec fn holds_signed(self, v: int) -> bool {
        -(self.signed_max() + 1) <= v <= self.signed_max()
    }

    /// The largest unsigned number of this width.
    pub fn max_unsigned(&self) -> (r: u64)
        ensures
            r == self.unsigned_max(),
    {
        match self {
            Width::W8 => 0xff,
            Width::W16 => 0xffff,
            Width::W32 => 0xffff_ffff,
            Width::W64 => 0xffff_ffff_ffff_ffff,
        }
    }

    /// The largest signed number of this width.
    pub fn max_signed(&self) -> (r: u64)
        ensures
            r == self.signed_max(),
    {
        match self {
            Width::W8 => 0x7f,
            Width::W16 => 0x7fff,
            Width::W32 => 0x7fff_ffff,
            Width::W64 => 0x7fff_ffff_ffff_ffff,
        }
    }
}

/// The kind of a scalar: what its text looks like.
#[derive(Clone, Copy, Debug, PartialEq, Eq)]
pub enum ScalarKind {
    /// A truth value, written `1` or `0`.
    Bool,
    /// A signed decimal number of the given width.
    Signed(Width),
    /// An unsigned decimal number of the given width.
    Unsigned(Width),
    /// A string: the rest of its line.
    Str,
    /// A byte string: the rest of its line after an optional `0x`.
    Bytes,
}

/// A scalar value.
#[derive(Debug, PartialEq, Eq)]
pub enum Scalar {
    /// A truth value.
    Bool(bool),
    /// A signed number.
    Signed(i64),
    /// An unsigned number.
    Unsigned(u64),
    /// A string.
    Str(String),
    /// A byte string.
    Bytes(Vec<u8>),
}

/// A scalar value, as mathematics sees it.
pub enum ScalarView {
    /// A truth value.
    Bool(bool),
    /// A signed number.
    Signed(i64),
    /// An unsigned number.
    Unsigned(u64),
    /// A string.
    Str(Seq<char>),
    /// A byte string.
    Bytes(Seq<u8>),
}

impl View for Scalar {
    type V = ScalarView;

    open spec fn view(&self) -> ScalarView {
        match self {
            Scalar::Bool(b) => ScalarView::Bool(*b),
            Scalar::Signed(v) => ScalarView::Signed(*v),
            Scalar::Unsigned(v) => ScalarView::Unsigned(*v),
            Scalar::Str(s) => ScalarView::Str(s@),
            Scalar::Bytes(b) => ScalarView::Bytes(b@),
        }
    }
}

impl ScalarView {
    /// Whether the scalar is of the kind `kind`.
    pub open spec fn is_of(self, kind: ScalarKind) -> bool {
        match (self, kind) {
            (ScalarView::Bool(_), ScalarKind::Bool) => true,
            (ScalarView::Signed(v), ScalarKind::Signed(w)) => w.holds_signed(v as int),
            (ScalarView::Unsigned(v), ScalarKind::Unsigned(w)) => w.holds_unsigned(v as int),
            (ScalarView::Str(_), ScalarKind::Str) => true,
            (ScalarView::Bytes(_), ScalarKind::Bytes) => true,
            _ => false,
        }
    }
}

/// What a field holds.
#[derive(Debug, PartialEq, Eq)]
pub enum FieldValue {
    /// Nothing: an optional field without a value. It is left out of the text.
    Absent,
    /// A scalar.
    Scalar(Scalar),
    /// A tuple of scalars, written on one line.
    Tuple(Vec<Scalar>),
    /// A nested record; its tag is the key of the field.
    Record(Vec<Field>),
    /// A sequence of records, each tagged with the key of the field.
    Sequence(Vec<Vec<Field>>),
}

/// A field of a record: a key and what it holds.
#[derive(Debug, PartialEq, Eq)]
pub struct Field {
    /// The key.
    pub key: String,
    /// The value.
    pub value: FieldValue,
}

/// A record: a tag and the fields in their order. A tag in square brackets
/// makes the outermost record a transparent root: its fields are not
/// indented.
#[derive(Debug, PartialEq, Eq)]
pub struct Record {
    /// The tag.
    pub tag: String,
    /// The fields, in order.
    pub fields: Vec<Field>,
}

/// What a field holds, as mathematics sees it.
pub enum FieldValueView {
    /// Nothing.
    Absent,
    /// A scalar.
    Scalar(ScalarView),
    /// A tuple of scalars.
    Tuple(Seq<ScalarView>),
    /// A nested record.
    Record(Seq<FieldView>),
    /// A sequence of records.
    Sequence(Seq<Seq<FieldView>>),
}

/// A field, as mathematics sees it.
pub struct FieldView {
    /// The key.
    pub key: Seq<char>,
    /// The value.
    pub value: FieldValueView,
}

/// A record, as mathematics sees it.
pub struct RecordView {
    /// The tag.
    pub tag: Seq<char>,
    /// The fields, in order.
    pub fields: Seq<FieldView>,
}

/// The scalars of `s`, as mathematics sees them.
pub open spec fn scalars_view(s: Seq<Scalar>) -> Seq<ScalarView> {
    Seq::new(s.len(), |i: int| s[i]@)
}

/// What `v` holds, as mathematics sees it.
pub open spec fn value_view(v: FieldValue) -> FieldValueView
    decreases v, 0nat,
{
    match v {
        FieldValue::Absent => FieldValueView::Absent,
        FieldValue::Scalar(s) => FieldValueView::Scalar(s@),
        FieldValue::Tuple(t) => FieldValueView::Tuple(scalars_view(t@)),
        FieldValue::Record(fields) => FieldValueView::Record(fields_view(fields@)),
        FieldValue::Sequence(elements) => FieldValueView::Sequence(elements_view(elements@)),
    }
}

/// The fields `fields`, as mathematics sees them.
pub open spec fn fields_view(fields: Seq<Field>) -> Seq<FieldView>
    decreases fields, fields.len(),
{
    if fields.len() == 0 {
        Seq::empty()
    } else {
        fields_view(fields.drop_last()).push(
            FieldView { key: fields.last().key@, value: value_view(fields.last().value) },
        )
    }
}

/// The records `elements`, as mathematics sees them.
pub open spec fn elements_view(elements: Seq<Vec<Field>>) -> Seq<Seq<FieldView>>
    decreases elements, elements.len(),
{
    if elements.len() == 0 {
        Seq::empty()
    } else {
        elements_view(elements.drop_last()).push(fields_view(elements.last()@))
    }
}

impl View for FieldValue {
    type V = FieldValueView;

    open spec fn view(&self) -> FieldValueView {
        value_view(*self)
    }
}

impl View for Field {
    type V = FieldView;

    open spec fn view(&self) -> FieldView {
        FieldView { key: self.key@, value: value_view(self.value) }
    }
}

impl View for Record {
    type V = RecordView;

    open spec fn view(&self) -> RecordView {
        RecordView { tag: self.tag@, fields: fields_view(self.fields@) }
    }
}

/// The view of a run of fields has a field for each of them, in order.
pub proof fn lemma_fields_view(fields: Seq<Field>)
    ensures
        fields_view(fields).len() == fields.len(),
        forall|i: int| 0 <= i < fields.len() ==> #[trigger] fields_view(fields)[i] == fields[i]@,
    decreases fields.len(),
{
    if fields.len() > 0 {
        lemma_fields_view(fields.drop_last());
    }
}

/// The view of a run of records has a record for each of them, in order.
pub proof fn lemma_elements_view(elements: Seq<Vec<Field>>)
    ensures
        elements_view(elements).len() == elements.len(),
        forall|i: int|
            0 <= i < elements.len() ==> #[trigger] elements_view(elements)[i] == fields_view(
                elements[i]@,
            ),
    decreases elements.len(),
{
    if elements.len() > 0 {
        lemma_elements_view(elements.drop_last());
    }
}

/// What the text of a field is expected to hold.
#[derive(Debug, PartialEq, Eq)]
pub enum Shape {
    /// A scalar of the given kind.
    Scalar(ScalarKind),
    /// A tuple of so many scalars of the given kind.
    Tuple(ScalarKind, usize),
    /// A nested record with the given fields.
    Record(Vec<FieldShape>),
    /// A sequence of records with the given fields.
    Sequence(Vec<FieldShape>),
}

/// What is expected of one field of a record.
#[derive(Debug, PartialEq, Eq)]
pub struct FieldShape {
    /// The key.
    pub key: String,
    /// What the field holds.
    pub shape: Shape,
    /// The scalar that the field holds where the text leaves it out; without
    /// one, the field is absent then.
    pub default: Option<Scalar>,
}

/// What is expected of a record.
#[derive(Debug, PartialEq, Eq)]
pub struct RecordShape {
    /// The tag.
    pub tag: String,
    /// The fields.
    pub fields: Vec<FieldShape>,
}

/// The expected content of a field, as mathematics sees it.
pub enum ShapeView {
    /// A scalar.
    Scalar(ScalarKind),
    /// A tuple.
    Tuple(ScalarKind, nat),
    /// A nested record.
    Record(Seq<FieldShapeView>),
    /// A sequence of records.
    Sequence(Seq<FieldShapeView>),
}

/// The expectation of a field, as mathematics sees it.
pub struct FieldShapeView {
    /// The key.
    pub key: Seq<char>,
    /// What the field holds.
    pub shape: ShapeView,
    /// The value of the field where the text leaves it out.
    pub default: FieldValueView,
}

/// The expectation of a record, as mathematics sees it.
pub struct RecordShapeView {
    /// The tag.
    pub tag: Seq<char>,
    /// The fields.
    pub fields: Seq<FieldShapeView>,
}

/// The value that stands for a field that the text leaves out.
pub open spec fn default_view(default: Option<Scalar>) -> FieldValueView {
    match default {
        Some(s) => FieldValueView::Scalar(s@),
        None => FieldValueView::Absent,
    }
}

/// The shape `shape`, as mathematics sees it.
pub open spec fn shape_view(shape: Shape) -> ShapeView
    decreases shape, 0nat,
{
    match shape {
        Shape::Scalar(kind) => ShapeView::Scalar(kind),
        Shape::Tuple(kind, len) => ShapeView::Tuple(kind, len as nat),
        Shape::Record(fields) => ShapeView::Record(shapes_view(fields@)),
        Shape::Sequence(fields) => ShapeView::Sequence(shapes_view(fields@)),
    }
}

/// The expectations `fields`, as mathematics sees them.
pub open spec fn shapes_view(fields: Seq<FieldShape>) -> Seq<FieldShapeView>
    decreases fields, fields.len(),
{
    if fields.len() == 0 {
        Seq::empty()
    } else {
        shapes_view(fields.drop_last()).push(
            FieldShapeView {
                key: fields.last().key@,
                shape: shape_view(fields.last().shape),
                default: default_view(fields.last().default),
            },
        )
    }
}

impl View for Shape {
    type V = ShapeView;

    open spec fn view(&self) -> ShapeView {
        shape_view(*self)
    }
}

impl View for FieldShape {
    type V = FieldShapeView;

    open spec fn view(&self) -> FieldShapeView {
        FieldShapeView {
            key: self.key@,
            shape: shape_view(self.shape),
            default: default_view(self.default),
        }
    }
}

impl View for RecordShape {
    type V = RecordShapeView;

    open spec fn view(&self) -> RecordShapeView {
        RecordShapeView { tag: self.tag@, fields: shapes_view(self.fields@) }
    }
}

/// The view of a run of expectations has one for each of them, in order.
pub proof fn lemma_shapes_view(fields: Seq<FieldShape>)
    ensures
        shapes_view(fields).len() == fields.len(),
        forall|i: int| 0 <= i < fields.len() ==> #[trigger] shapes_view(fields)[i] == fields[i]@,
    decreases fields.len(),
{
    if fields.len() > 0 {
        lemma_shapes_view(fields.drop_last());
    }
}

/// A copy of `scalar`.
pub fn copy_scalar(scalar: &Scalar) -> (r: Scalar)
    ensures
        r@ == scalar@,
{
    match scalar {
        Scalar::Bool(v) => Scalar::Bool(*v),
        Scalar::Signed(v) => Scalar::Signed(*v),
        Scalar::Unsigned(v) => Scalar::Unsigned(*v),
        Scalar::Str(t) => Scalar::Str(t.clone()),
        Scalar::Bytes(b) => {
            let mut copy: Vec<u8> = Vec::new();
            let mut i: usize = 0;
            while i < b.len()
                invariant
                    i <= b.len(),
                    copy@ == b@.take(i as int),
                decreases b.len() - i,
            {
                copy.push(b[i]);
                proof {
                    assert(copy@ =~= b@.take(i + 1));
                }
                i += 1;
            }
            proof {
                assert(b@.take(b.len() as int) =~= b@);
            }
            Scalar::Bytes(copy)
        },
    }
}

} // verus!
