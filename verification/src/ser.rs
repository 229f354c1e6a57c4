//! The encoder: an output buffer, the current depth, and the key whose
//! value is still to come.

use vstd::prelude::*;
use vstd::string::*;
use crate::layout::{
    document_text, is_regular, lemma_depth_in_reach, lemma_regular_text, lemma_whole_text,
    record_depth, whole_text,
};
use crate::text::{
    chars_of, decimal_text, is_bracketed, push_chars, push_decimal, push_signed, push_str, run_len,
    same_text, scan, signed_text, string_of, CharClass,
};
use crate::value::{
    elements_view, fields_view, lemma_elements_view, lemma_fields_view, scalars_view, Field,
    FieldValue, FieldValueView, FieldView, Record, RecordView, Scalar, ScalarView,
};

verus! {

/// A kind of value that the format has no encoding for.
#[derive(Copy, Clone, Debug, PartialEq, Eq)]
pub enum UnsupportedType {
    /// A single character.
    Char,
    /// A number with a fraction.
    Float,
    /// A map.
    Mapping,
    /// A wrapper around one value.
    NewtypeStruct,
    /// A variant that wraps one value.
    NewtypeVariant,
    /// The value without data.
    Unit,
    /// A named value without data.
    UnitStruct,
    /// A variant without data.
    UnitVariant,
}

impl UnsupportedType {
    /// The name of the kind.
    pub open spec fn name(self) -> Seq<char> {
        match self {
            UnsupportedType::Char => "Char"@,
            UnsupportedType::Float => "Float"@,
            UnsupportedType::Mapping => "Map"@,
            UnsupportedType::NewtypeStruct => "NewtypeStruct"@,
            UnsupportedType::NewtypeVariant => "NewtypeVariant"@,
            UnsupportedType::Unit => "Unit"@,
            UnsupportedType::UnitStruct => "UnitStruct"@,
            UnsupportedType::UnitVariant => "UnitVariant"@,
        }
    }
}

/// Why a value could not be encoded.
#[derive(Debug, PartialEq, Eq)]
pub enum Error {
    /// A failure described in words.
    Custom(String),
    /// The value is of a kind that the format has no encoding for.
    UnsupportedType(UnsupportedType),
}

impl Error {
    /// The description of the failure.
    pub open spec fn text(&self) -> Seq<char> {
        match self {
            Error::Custom(msg) => msg@,
            Error::UnsupportedType(ty) => ty.name() + " cannot be serialized into cs2"@,
        }
    }

    /// Describes the failure in words.
    pub fn to_string(&self) -> (r: String)
        ensures
            r@ == self.text(),
    {
        match self {
            Error::Custom(msg) => msg.clone(),
            Error::UnsupportedType(ty) => {
                let name = match ty {
                    UnsupportedType::Char => String::from_str("Char"),
                    UnsupportedType::Float => String::from_str("Float"),
                    UnsupportedType::Mapping => String::from_str("Map"),
                    UnsupportedType::NewtypeStruct => String::from_str("NewtypeStruct"),
                    UnsupportedType::NewtypeVariant => String::from_str("NewtypeVariant"),
                    UnsupportedType::Unit => String::from_str("Unit"),
                    UnsupportedType::UnitStruct => String::from_str("UnitStruct"),
                    UnsupportedType::UnitVariant => String::from_str("UnitVariant"),
                };
                name.concat(" cannot be serialized into cs2")
            },
        }
    }

    /// Whether this is the failure of nesting records more deeply than the
    /// depth counter can count.
    pub open spec fn is_too_deep(&self) -> bool {
        *self matches Error::Custom(msg) && msg@ == "records are nested too deeply"@
    }
}

/// The state of an encoder, as mathematics sees it.
pub struct Sink {
    /// The text written so far.
    pub out: Seq<char>,
    /// The depth: the number of dots that the next field line begins with.
    pub level: nat,
    /// The key of the field that was begun and of which nothing is written
    /// yet: its line begins with the first step that writes its value.
    pub pending: Option<Seq<char>>,
}

/// The state of an encoder that has not written anything.
pub open spec fn fresh() -> Sink {
    Sink { out: Seq::empty(), level: 0, pending: None }
}

/// `n` depth markers.
pub open spec fn dots(n: nat) -> Seq<char> {
    Seq::new(n, |i: int| '.')
}

/// `out`, with a line feed added unless it is empty or ends with one.
pub open spec fn closed_line(out: Seq<char>) -> Seq<char> {
    if out.len() > 0 && out.last() != '\n' {
        out.push('\n')
    } else {
        out
    }
}

/// The text with the line of the pending key begun: on a new line, a
/// space and one dot for each level, unless the depth is zero; then the
/// key. Without a pending key it is the text as it stands.
pub open spec fn key_line(st: Sink) -> Seq<char> {
    match st.pending {
        Some(key) => {
            let line = if st.out.len() > 0 && st.out.last() == '\n' {
                st.out
            } else {
                st.out.push('\n')
            };
            let indented = if st.level > 0 { line + seq![' '] + dots(st.level) } else { line };
            indented + key
        },
        None => st.out,
    }
}

/// The text with the line of the pending key begun and a `=` after the
/// key. Without a pending key it is the text as it stands.
pub open spec fn value_line(st: Sink) -> Seq<char> {
    match st.pending {
        Some(_) => key_line(st).push('='),
        None => st.out,
    }
}

/// The state after `text` was written as a value, or as part of one: the
/// line of a pending key is begun first.
pub open spec fn wrote(st: Sink, text: Seq<char>) -> Sink {
    Sink { out: value_line(st) + text, level: st.level, pending: None }
}

/// The state after a value that is absent: nothing is written, and the
/// pending key is forgotten.
pub open spec fn cleared(st: Sink) -> Sink {
    Sink { out: st.out, level: st.level, pending: None }
}

/// The state after the header of a record tagged `name` was written on a
/// line of its own, after `out` at depth `level`. Below the outermost level
/// the line is indented like a field. The depth grows by one, except for a
/// bracketed tag at depth zero: the transparent root.
pub open spec fn wrote_header(out: Seq<char>, level: nat, name: Seq<char>) -> Sink {
    let indented = if level > 0 {
        out + seq!['\n', ' '] + dots(level)
    } else {
        closed_line(out)
    };
    Sink {
        out: indented + name,
        level: if level == 0 && is_bracketed(name) { 0 } else { level + 1 },
        pending: None,
    }
}

/// The state after a record tagged `name` was begun. Where a field with
/// this very key is pending, the line of the key is the header: it is
/// written without a `=` and closed. Else the header is written on a line
/// of its own, after the line of a pending key.
pub open spec fn began_record(st: Sink, name: Seq<char>) -> Sink {
    match st.pending {
        Some(key) => if key == name {
            Sink { out: closed_line(key_line(st)), level: st.level + 1, pending: None }
        } else {
            wrote_header(key_line(st), st.level, name)
        },
        None => wrote_header(st.out, st.level, name),
    }
}

/// The state after a field with the key `key` was begun: the key is
/// pending, and nothing is written.
pub open spec fn began_field(st: Sink, key: Seq<char>) -> Sink {
    Sink { out: st.out, level: st.level, pending: Some(key) }
}

/// The state after an element of a tuple was begun: the first element
/// after a key begins the line of the key; before any other a space is
/// written.
pub open spec fn began_element(st: Sink) -> Sink {
    Sink {
        out: if st.pending is Some { value_line(st) } else { st.out.push(' ') },
        level: st.level,
        pending: None,
    }
}

/// The state after a record was ended: the depth shrinks by one, down to zero.
pub open spec fn ended(st: Sink) -> Sink {
    Sink { out: st.out, level: if st.level > 0 { (st.level - 1) as nat } else { 0 }, pending: None }
}

/// The text of a byte string: the decimal numeral of each byte, with
/// nothing between them.
pub open spec fn bytes_text(b: Seq<u8>) -> Seq<char>
    decreases b.len(),
{
    if b.len() == 0 {
        Seq::empty()
    } else {
        bytes_text(b.drop_last()) + decimal_text(b.last() as nat)
    }
}

/// The text of a truth value.
pub open spec fn bool_text(v: bool) -> Seq<char> {
    if v { seq!['1'] } else { seq!['0'] }
}

/// Where the last line of `out` begins.
pub open spec fn last_line_start(out: Seq<char>) -> nat
    decreases out.len(),
{
    if out.len() == 0 {
        0
    } else if out.last() == '\n' {
        out.len()
    } else {
        last_line_start(out.drop_last())
    }
}

/// Whether `line` gives a value to a field at depth one: a space, one dot,
/// a key, and a `=`.
pub open spec fn is_top_assignment(line: Seq<char>) -> bool {
    &&& line.len() >= 3
    &&& line[0] == ' '
    &&& line[1] == '.'
    &&& line[2] != '.'
    &&& run_len(line, CharClass::InName) < line.len()
}

/// The text that an encoder hands out: what was written, with a final line
/// feed where the last line gives a value to a field at depth one. A text
/// that ends more deeply, or with a header, ends without one.
pub open spec fn finished(out: Seq<char>) -> Seq<char> {
    if is_top_assignment(out.skip(last_line_start(out) as int)) {
        out.push('\n')
    } else {
        out
    }
}

/// An encoder.
pub struct Serializer {
    level: usize,
    output: Vec<char>,
    pending: Option<Vec<char>>,
}

impl View for Serializer {
    type V = Sink;

    closed spec fn view(&self) -> Sink {
        Sink {
            out: self.output@,
            level: self.level as nat,
            pending: match self.pending {
                Some(key) => Some(key@),
                None => None,
            },
        }
    }
}

impl Default for Serializer {
    fn default() -> (r: Self)
        ensures
            r@ == fresh(),
    {
        Serializer { level: 0, output: Vec::new(), pending: None }
    }
}

impl Serializer {
    /// Begins the line of the pending key, if there is one, with a `=`
    /// after the key where `assign` says so.
    fn begin_line(&mut self, assign: bool)
        ensures
            final(self)@ == (Sink {
                out: if assign { value_line(old(self)@) } else { key_line(old(self)@) },
                level: old(self)@.level,
                pending: None,
            }),
    {
        let pending = self.pending.take();
        match pending {
            Some(key) => {
                let n = self.output.len();
                if !(n > 0 && self.output[n - 1] == '\n') {
                    self.output.push('\n');
                }
                if self.level > 0 {
                    self.output.push(' ');
                    self.push_dots();
                }
                push_chars(&mut self.output, &key);
                proof {
                    assert(self.output@ =~= key_line(old(self)@));
                }
                if assign {
                    self.output.push('=');
                }
            },
            None => {},
        }
    }

    /// Writes `text` as a value, or as part of one.
    fn write(&mut self, text: &str)
        ensures
            final(self)@ == wrote(old(self)@, text@),
    {
        self.begin_line(true);
        push_str(&mut self.output, text);
    }

    /// Writes one dot for each level.
    fn push_dots(&mut self)
        ensures
            final(self).output@ == old(self).output@ + dots(old(self).level as nat),
            final(self).level == old(self).level,
            final(self).pending == old(self).pending,
    {
        let mut i: usize = 0;
        while i < self.level
            invariant
                i <= self.level,
                self.level == old(self).level,
                self.pending == old(self).pending,
                self.output@ == old(self).output@ + dots(i as nat),
            decreases self.level - i,
        {
            self.output.push('.');
            proof {
                assert(self.output@ =~= old(self).output@ + dots((i + 1) as nat));
            }
            i += 1;
        }
    }

    /// Writes a truth value: `1` or `0`.
    pub fn serialize_bool(&mut self, v: bool) -> (r: Result<(), Error>)
        ensures
            r is Ok,
            final(self)@ == wrote(old(self)@, bool_text(v)),
    {
        self.begin_line(true);
        self.output.push(if v { '1' } else { '0' });
        proof {
            assert(self@.out =~= value_line(old(self)@) + bool_text(v));
        }
        Ok(())
    }

    /// Writes a signed number of eight bits in decimal.
    pub fn serialize_i8(&mut self, v: i8) -> (r: Result<(), Error>)
        ensures
            r is Ok,
            final(self)@ == wrote(old(self)@, signed_text(v as int)),
    {
        self.serialize_i64(v as i64)
    }

    /// Writes a signed number of sixteen bits in decimal.
    pub fn serialize_i16(&mut self, v: i16) -> (r: Result<(), Error>)
        ensures
            r is Ok,
            final(self)@ == wrote(old(self)@, signed_text(v as int)),
    {
        self.serialize_i64(v as i64)
    }

    /// Writes a signed number of thirty-two bits in decimal.
    pub fn serialize_i32(&mut self, v: i32) -> (r: Result<(), Error>)
        ensures
            r is Ok,
            final(self)@ == wrote(old(self)@, signed_text(v as int)),
    {
        self.serialize_i64(v as i64)
    }

    /// Writes a signed number in decimal.
    pub fn serialize_i64(&mut self, v: i64) -> (r: Result<(), Error>)
        ensures
            r is Ok,
            final(self)@ == wrote(old(self)@, signed_text(v as int)),
    {
        self.begin_line(true);
        push_signed(&mut self.output, v);
        Ok(())
    }

    /// Writes an unsigned number of eight bits in decimal.
    pub fn serialize_u8(&mut self, v: u8) -> (r: Result<(), Error>)
        ensures
            r is Ok,
            final(self)@ == wrote(old(self)@, decimal_text(v as nat)),
    {
        self.serialize_u64(v as u64)
    }

    /// Writes an unsigned number of sixteen bits in decimal.
    pub fn serialize_u16(&mut self, v: u16) -> (r: Result<(), Error>)
        ensures
            r is Ok,
            final(self)@ == wrote(old(self)@, decimal_text(v as nat)),
    {
        self.serialize_u64(v as u64)
    }

    /// Writes an unsigned number of thirty-two bits in decimal.
    pub fn serialize_u32(&mut self, v: u32) -> (r: Result<(), Error>)
        ensures
            r is Ok,
            final(self)@ == wrote(old(self)@, decimal_text(v as nat)),
    {
        self.serialize_u64(v as u64)
    }

    /// Writes an unsigned number in decimal.
    pub fn serialize_u64(&mut self, v: u64) -> (r: Result<(), Error>)
        ensures
            r is Ok,
            final(self)@ == wrote(old(self)@, decimal_text(v as nat)),
    {
        self.begin_line(true);
        push_decimal(&mut self.output, v);
        Ok(())
    }

    /// Writes a string as it is.
    pub fn serialize_str(&mut self, v: &str) -> (r: Result<(), Error>)
        ensures
            r is Ok,
            final(self)@ == wrote(old(self)@, v@),
    {
        self.write(v);
        Ok(())
    }

    /// Writes a byte string: each byte in decimal.
    pub fn serialize_bytes(&mut self, v: &[u8]) -> (r: Result<(), Error>)
        ensures
            r is Ok,
            final(self)@ == wrote(old(self)@, bytes_text(v@)),
    {
        self.begin_line(true);
        let ghost line = self.output@;
        let mut i: usize = 0;
        proof {
            assert(v@.take(0) =~= Seq::<u8>::empty());
            assert(self.output@ =~= line + bytes_text(v@.take(0)));
        }
        while i < v.len()
            invariant
                i <= v.len(),
                self.level == old(self).level,
                self.pending is None,
                self.output@ == line + bytes_text(v@.take(i as int)),
            decreases v.len() - i,
        {
            push_decimal(&mut self.output, v[i] as u64);
            proof {
                assert(v@.take(i + 1).drop_last() =~= v@.take(i as int));
                assert(self.output@ =~= line + bytes_text(v@.take(i + 1)));
            }
            i += 1;
        }
        proof {
            assert(v@.take(v.len() as int) =~= v@);
        }
        Ok(())
    }

    /// Writes nothing for an optional value that is absent, and forgets the
    /// key that it was the value of.
    pub fn serialize_none(&mut self) -> (r: Result<(), Error>)
        ensures
            r is Ok,
            final(self)@ == cleared(old(self)@),
    {
        self.pending = None;
        Ok(())
    }

    /// Refuses a value of a kind that has no encoding, and writes nothing.
    pub fn unsupported(&mut self, kind: UnsupportedType) -> (r: Result<(), Error>)
        ensures
            r == Err::<(), Error>(Error::UnsupportedType(kind)),
            final(self)@ == old(self)@,
    {
        Err(Error::UnsupportedType(kind))
    }

    /// Refuses a single character: it has no encoding.
    pub fn serialize_char(&mut self, _v: char) -> (r: Result<(), Error>)
        ensures
            r == Err::<(), Error>(Error::UnsupportedType(UnsupportedType::Char)),
            final(self)@ == old(self)@,
    {
        self.unsupported(UnsupportedType::Char)
    }

    /// Refuses the value without data: it has no encoding.
    pub fn serialize_unit(&mut self) -> (r: Result<(), Error>)
        ensures
            r == Err::<(), Error>(Error::UnsupportedType(UnsupportedType::Unit)),
            final(self)@ == old(self)@,
    {
        self.unsupported(UnsupportedType::Unit)
    }

    /// Refuses a named value without data: it has no encoding.
    pub fn serialize_unit_struct(&mut self, _name: &str) -> (r: Result<(), Error>)
        ensures
            r == Err::<(), Error>(Error::UnsupportedType(UnsupportedType::UnitStruct)),
            final(self)@ == old(self)@,
    {
        self.unsupported(UnsupportedType::UnitStruct)
    }

    /// Refuses a variant without data: it has no encoding.
    pub fn serialize_unit_variant(
        &mut self,
        _name: &str,
        _variant_index: u32,
        _variant: &str,
    ) -> (r: Result<(), Error>)
        ensures
            r == Err::<(), Error>(Error::UnsupportedType(UnsupportedType::UnitVariant)),
            final(self)@ == old(self)@,
    {
        self.unsupported(UnsupportedType::UnitVariant)
    }

    /// Refuses a wrapper around one value: it has no encoding.
    pub fn serialize_newtype_struct(&mut self, _name: &str) -> (r: Result<(), Error>)
        ensures
            r == Err::<(), Error>(Error::UnsupportedType(UnsupportedType::NewtypeStruct)),
            final(self)@ == old(self)@,
    {
        self.unsupported(UnsupportedType::NewtypeStruct)
    }

    /// Refuses a variant that wraps one value: it has no encoding.
    pub fn serialize_newtype_variant(
        &mut self,
        _name: &str,
        _variant_index: u32,
        _variant: &str,
    ) -> (r: Result<(), Error>)
        ensures
            r == Err::<(), Error>(Error::UnsupportedType(UnsupportedType::NewtypeVariant)),
            final(self)@ == old(self)@,
    {
        self.unsupported(UnsupportedType::NewtypeVariant)
    }

    /// Begins a sequence of records: nothing is written for it.
    pub fn serialize_seq(&mut self, _len: Option<usize>) -> (r: Result<(), Error>)
        ensures
            r is Ok,
            final(self)@ == old(self)@,
    {
        Ok(())
    }

    /// Begins a tuple: nothing is written for it.
    pub fn serialize_tuple(&mut self, _len: usize) -> (r: Result<(), Error>)
        ensures
            r is Ok,
            final(self)@ == old(self)@,
    {
        Ok(())
    }

    /// Begins an element of a tuple.
    pub fn serialize_element(&mut self) -> (r: Result<(), Error>)
        ensures
            r is Ok,
            final(self)@ == began_element(old(self)@),
    {
        if self.pending.is_some() {
            self.begin_line(true);
        } else {
            self.output.push(' ');
        }
        Ok(())
    }

    /// Begins a record tagged `name`. The depth counter must have room for
    /// one more level.
    pub fn serialize_struct(&mut self, name: &str, _len: usize) -> (r: Result<(), Error>)
        ensures
            old(self)@.level < usize::MAX ==> r is Ok && final(self)@ == began_record(
                old(self)@,
                name@,
            ),
            old(self)@.level >= usize::MAX ==> r is Err && r->Err_0.is_too_deep() && final(self)@
                == old(self)@,
    {
        if self.level == usize::MAX {
            return Err(Error::Custom(String::from_str("records are nested too deeply")));
        }
        let tag = chars_of(name);
        let elided = match &self.pending {
            Some(key) => same_text(key, &tag),
            None => false,
        };
        self.begin_line(false);
        let ghost line = self.output@;
        if elided {
            let n = self.output.len();
            if n > 0 && self.output[n - 1] != '\n' {
                self.output.push('\n');
            }
            self.level = self.level + 1;
        } else {
            if self.level > 0 {
                self.output.push('\n');
                self.output.push(' ');
                self.push_dots();
            } else {
                let n = self.output.len();
                if n > 0 && self.output[n - 1] != '\n' {
                    self.output.push('\n');
                }
            }
            let transparent = self.level == 0 && tag.len() > 0 && tag[0] == '[' && tag[tag.len()
                - 1] == ']';
            if !transparent {
                self.level = self.level + 1;
            }
            push_str(&mut self.output, name);
            proof {
                assert(self@.out =~= wrote_header(line, old(self)@.level, name@).out);
            }
        }
        Ok(())
    }

    /// Begins a field with the key `key`: the key is kept, and written by
    /// the first step that writes the value. Where the value is absent,
    /// nothing is written for the field.
    pub fn serialize_field(&mut self, key: &str) -> (r: Result<(), Error>)
        ensures
            r is Ok,
            final(self)@ == began_field(old(self)@, key@),
    {
        self.pending = Some(chars_of(key));
        Ok(())
    }

    /// Ends a record.
    pub fn end(&mut self) -> (r: Result<(), Error>)
        ensures
            r is Ok,
            final(self)@ == ended(old(self)@),
    {
        if self.level > 0 {
            self.level = self.level - 1;
        }
        self.pending = None;
        Ok(())
    }

    /// The depth: the number of dots that the next field line begins with.
    pub fn level(&self) -> (r: usize)
        ensures
            r == self@.level,
    {
        self.level
    }

    /// Hands out the text.
    pub fn finish(self) -> (r: String)
        ensures
            r@ == finished(self@.out),
    {
        let mut output = self.output;
        let n = output.len();
        let mut start: usize = n;
        proof {
            assert(output@.take(n as int) =~= output@);
        }
        while start > 0 && output[start - 1] != '\n'
            invariant
                start <= n,
                n == output.len(),
                last_line_start(output@) == last_line_start(output@.take(start as int)),
            decreases start,
        {
            proof {
                assert(output@.take(start as int).drop_last() =~= output@.take(start - 1));
            }
            start -= 1;
        }
        proof {
            assert(last_line_start(output@) == start);
        }
        let mut closes = false;
        if n - start >= 3 && output[start] == ' ' && output[start + 1] == '.' && output[start + 2]
            != '.' {
            let assign = scan(&output, start, CharClass::InName);
            closes = assign < n;
        }
        if closes {
            output.push('\n');
        }
        string_of(&output, 0, output.len())
    }
}

/// The text of a scalar.
pub open spec fn scalar_text(s: ScalarView) -> Seq<char> {
    match s {
        ScalarView::Bool(v) => bool_text(v),
        ScalarView::Signed(v) => signed_text(v as int),
        ScalarView::Unsigned(v) => decimal_text(v as nat),
        ScalarView::Str(t) => t,
        ScalarView::Bytes(b) => bytes_text(b),
    }
}

/// The state after the elements of a tuple were written.
pub open spec fn emit_tuple(st: Sink, elements: Seq<ScalarView>) -> Sink
    decreases elements.len(),
{
    if elements.len() == 0 {
        st
    } else {
        wrote(began_element(emit_tuple(st, elements.drop_last())), scalar_text(elements.last()))
    }
}

/// The state after a record tagged `tag` with the fields `fields` was written.
pub open spec fn emit_record(st: Sink, tag: Seq<char>, fields: Seq<FieldView>) -> Sink
    decreases fields, fields.len() + 1,
{
    ended(emit_fields(began_record(st, tag), fields))
}

/// The state after the fields `fields` were written, in order.
pub open spec fn emit_fields(st: Sink, fields: Seq<FieldView>) -> Sink
    decreases fields, fields.len(),
{
    if fields.len() == 0 {
        st
    } else {
        emit_field(emit_fields(st, fields.drop_last()), fields.last())
    }
}

/// The state after the field `field` was written: the field is begun and
/// its value follows. For an absent value nothing is written.
pub open spec fn emit_field(st: Sink, field: FieldView) -> Sink
    decreases field, 1nat,
{
    match field.value {
        FieldValueView::Absent => cleared(began_field(st, field.key)),
        FieldValueView::Scalar(s) => wrote(began_field(st, field.key), scalar_text(s)),
        FieldValueView::Tuple(t) => emit_tuple(began_field(st, field.key), t),
        FieldValueView::Record(inner) => emit_record(began_field(st, field.key), field.key, inner),
        FieldValueView::Sequence(elements) => emit_sequence(
            began_field(st, field.key),
            field.key,
            elements,
        ),
    }
}

/// The state after the records `elements` were written one after the
/// other, each tagged `tag`.
pub open spec fn emit_sequence(st: Sink, tag: Seq<char>, elements: Seq<Seq<FieldView>>) -> Sink
    decreases elements, elements.len(),
{
    if elements.len() == 0 {
        st
    } else {
        emit_record(emit_sequence(st, tag, elements.drop_last()), tag, elements.last())
    }
}

/// Whether the depth counter can count every level that writing a record
/// tagged `tag` with the fields `fields` passes through.
pub open spec fn fits_record(st: Sink, tag: Seq<char>, fields: Seq<FieldView>) -> bool
    decreases fields, fields.len() + 1,
{
    st.level < usize::MAX && fits_fields(began_record(st, tag), fields)
}

/// Whether the depth counter can count every level that writing the fields
/// `fields` passes through.
pub open spec fn fits_fields(st: Sink, fields: Seq<FieldView>) -> bool
    decreases fields, fields.len(),
{
    fields.len() == 0 || (fits_fields(st, fields.drop_last()) && fits_field(
        emit_fields(st, fields.drop_last()),
        fields.last(),
    ))
}

/// Whether the depth counter can count every level that writing the field
/// `field` passes through.
pub open spec fn fits_field(st: Sink, field: FieldView) -> bool
    decreases field, 1nat,
{
    match field.value {
        FieldValueView::Record(inner) => fits_record(began_field(st, field.key), field.key, inner),
        FieldValueView::Sequence(elements) => fits_sequence(
            began_field(st, field.key),
            field.key,
            elements,
        ),
        _ => true,
    }
}

/// Whether the depth counter can count every level that writing the
/// records `elements` passes through.
pub open spec fn fits_sequence(st: Sink, tag: Seq<char>, elements: Seq<Seq<FieldView>>) -> bool
    decreases elements, elements.len(),
{
    elements.len() == 0 || (fits_sequence(st, tag, elements.drop_last()) && fits_record(
        emit_sequence(st, tag, elements.drop_last()),
        tag,
        elements.last(),
    ))
}

/// The text of the record `record`.
pub open spec fn encoded(record: RecordView) -> Seq<char> {
    finished(emit_record(fresh(), record.tag, record.fields).out)
}

/// Writes a scalar.
fn write_scalar(ser: &mut Serializer, scalar: &Scalar)
    ensures
        final(ser)@ == wrote(old(ser)@, scalar_text(scalar@)),
{
    match scalar {
        Scalar::Bool(v) => {
            let _ = ser.serialize_bool(*v);
        },
        Scalar::Signed(v) => {
            let _ = ser.serialize_i64(*v);
        },
        Scalar::Unsigned(v) => {
            let _ = ser.serialize_u64(*v);
        },
        Scalar::Str(t) => {
            let _ = ser.serialize_str(t.as_str());
        },
        Scalar::Bytes(b) => {
            let _ = ser.serialize_bytes(b.as_slice());
        },
    }
}

/// Writes the elements of a tuple on one line.
fn write_tuple(ser: &mut Serializer, elements: &Vec<Scalar>)
    ensures
        final(ser)@ == emit_tuple(old(ser)@, scalars_view(elements@)),
{
    let ghost all = scalars_view(elements@);
    let mut i: usize = 0;
    proof {
        assert(all.take(0) =~= Seq::<ScalarView>::empty());
    }
    while i < elements.len()
        invariant
            i <= elements.len(),
            all == scalars_view(elements@),
            ser@ == emit_tuple(old(ser)@, all.take(i as int)),
        decreases elements.len() - i,
    {
        let _ = ser.serialize_element();
        write_scalar(ser, &elements[i]);
        proof {
            assert(all.take(i + 1).drop_last() =~= all.take(i as int));
            assert(all.take(i + 1).last() == elements@[i as int]@);
        }
        i += 1;
    }
    proof {
        assert(all.take(elements.len() as int) =~= all);
    }
}

/// Writes a record tagged `tag` with the fields `fields`.
fn write_record(ser: &mut Serializer, tag: &str, fields: &Vec<Field>) -> (r: Result<(), Error>)
    ensures
        fits_record(old(ser)@, tag@, fields_view(fields@)) ==> r is Ok && final(ser)@
            == emit_record(old(ser)@, tag@, fields_view(fields@)),
        !fits_record(old(ser)@, tag@, fields_view(fields@)) ==> r is Err
            && r->Err_0.is_too_deep(),
    decreases fields, fields.len() + 1,
{
    match ser.serialize_struct(tag, fields.len()) {
        Err(e) => {
            return Err(e);
        },
        Ok(()) => {},
    }
    match write_fields(ser, fields) {
        Err(e) => {
            return Err(e);
        },
        Ok(()) => {},
    }
    ser.end()
}

/// Writes the fields `fields`, in order.
fn write_fields(ser: &mut Serializer, fields: &Vec<Field>) -> (r: Result<(), Error>)
    ensures
        fits_fields(old(ser)@, fields_view(fields@)) ==> r is Ok && final(ser)@ == emit_fields(
            old(ser)@,
            fields_view(fields@),
        ),
        !fits_fields(old(ser)@, fields_view(fields@)) ==> r is Err && r->Err_0.is_too_deep(),
    decreases fields, fields.len(),
{
    let ghost all = fields_view(fields@);
    let mut i: usize = 0;
    proof {
        lemma_fields_view(fields@);
        assert(all.take(0) =~= Seq::<FieldView>::empty());
    }
    while i < fields.len()
        invariant
            i <= fields.len(),
            all == fields_view(fields@),
            all.len() == fields.len(),
            forall|j: int| 0 <= j < fields.len() ==> #[trigger] all[j] == fields@[j]@,
            fits_fields(old(ser)@, all.take(i as int)),
            ser@ == emit_fields(old(ser)@, all.take(i as int)),
        decreases fields.len() - i,
    {
        let ghost before = ser@;
        proof {
            assert(all.take(i + 1).drop_last() =~= all.take(i as int));
            assert(all.take(i + 1).last() == fields@[i as int]@);
            lemma_fits_prefix(old(ser)@, all, i + 1);
        }
        match write_field(ser, &fields[i]) {
            Err(e) => {
                return Err(e);
            },
            Ok(()) => {},
        }
        i += 1;
    }
    proof {
        assert(all.take(fields.len() as int) =~= all);
    }
    Ok(())
}

/// Writes the field `field`.
#[verifier::loop_isolation(false)]
fn write_field(ser: &mut Serializer, field: &Field) -> (r: Result<(), Error>)
    ensures
        fits_field(old(ser)@, field@) ==> r is Ok && final(ser)@ == emit_field(
            old(ser)@,
            field@,
        ),
        !fits_field(old(ser)@, field@) ==> r is Err && r->Err_0.is_too_deep(),
    decreases field, 1nat,
{
    match &field.value {
        FieldValue::Absent => {
            let _ = ser.serialize_field(field.key.as_str());
            ser.serialize_none()
        },
        FieldValue::Scalar(s) => {
            let _ = ser.serialize_field(field.key.as_str());
            write_scalar(ser, s);
            Ok(())
        },
        FieldValue::Tuple(t) => {
            let _ = ser.serialize_field(field.key.as_str());
            let _ = ser.serialize_tuple(t.len());
            write_tuple(ser, t);
            Ok(())
        },
        FieldValue::Record(inner) => {
            let _ = ser.serialize_field(field.key.as_str());
            write_record(ser, field.key.as_str(), inner)
        },
        FieldValue::Sequence(elements) => {
            let _ = ser.serialize_field(field.key.as_str());
            let _ = ser.serialize_seq(Some(elements.len()));
            let ghost start = ser@;
            let ghost all = elements_view(elements@);
            let mut i: usize = 0;
            proof {
                lemma_elements_view(elements@);
                assert(all.take(0) =~= Seq::<Seq<FieldView>>::empty());
            }
            while i < elements.len()
                invariant
                    i <= elements.len(),
                    all == elements_view(elements@),
                    all.len() == elements.len(),
                    forall|j: int|
                        0 <= j < elements.len() ==> #[trigger] all[j] == fields_view(
                            elements@[j]@,
                        ),
                    fits_sequence(start, field.key@, all.take(i as int)),
                    ser@ == emit_sequence(start, field.key@, all.take(i as int)),
                decreases elements.len() - i,
            {
                proof {
                    assert(all.take(i + 1).drop_last() =~= all.take(i as int));
                    assert(all.take(i + 1).last() == fields_view(elements@[i as int]@));
                    lemma_fits_sequence_prefix(start, field.key@, all, i + 1);
                }
                match write_record(ser, field.key.as_str(), &elements[i]) {
                    Err(e) => {
                        return Err(e);
                    },
                    Ok(()) => {},
                }
                i += 1;
            }
            proof {
                assert(all.take(elements.len() as int) =~= all);
            }
            Ok(())
        },
    }
}

/// Where a whole run of fields fits, so does each of its prefixes.
proof fn lemma_fits_prefix(st: Sink, fields: Seq<FieldView>, k: int)
    requires
        0 <= k <= fields.len(),
    ensures
        fits_fields(st, fields) ==> fits_fields(st, fields.take(k)),
    decreases fields.len(),
{
    if k == fields.len() {
        assert(fields.take(k) =~= fields);
    } else {
        lemma_fits_prefix(st, fields.drop_last(), k);
        assert(fields.drop_last().take(k) =~= fields.take(k));
    }
}

/// Where a whole sequence fits, so does each of its prefixes.
proof fn lemma_fits_sequence_prefix(
    st: Sink,
    tag: Seq<char>,
    elements: Seq<Seq<FieldView>>,
    k: int,
)
    requires
        0 <= k <= elements.len(),
    ensures
        fits_sequence(st, tag, elements) ==> fits_sequence(st, tag, elements.take(k)),
    decreases elements.len(),
{
    if k == elements.len() {
        assert(elements.take(k) =~= elements);
    } else {
        lemma_fits_sequence_prefix(st, tag, elements.drop_last(), k);
        assert(elements.drop_last().take(k) =~= elements.take(k));
    }
}

/// Encodes a record as text. It fails only where records are nested more
/// deeply than the depth counter can count. The text holds the fields in
/// their order: every field line begins with one dot for each record
/// around the field that counts as a level, a field without a value has no
/// line, and the blocks of a sequence follow one another with nothing
/// between them.
pub fn to_string(value: &Record) -> (r: Result<String, Error>)
    ensures
        fits_record(fresh(), value@.tag, value@.fields) ==> r is Ok && r->Ok_0@ == encoded(
            value@,
        ),
        !fits_record(fresh(), value@.tag, value@.fields) ==> r is Err && r->Err_0.is_too_deep(),
        record_depth(value@) < usize::MAX ==> r is Ok,
        r is Ok ==> r->Ok_0@ == finished(whole_text(value@)),
        r is Ok && is_regular(value@) ==> r->Ok_0@ == finished(document_text(value@)),
{
    proof {
        lemma_whole_text(value@);
        if record_depth(value@) < usize::MAX {
            lemma_depth_in_reach(value@);
        }
        if is_regular(value@) {
            lemma_regular_text(value@);
        }
    }
    let mut serializer = Serializer::default();
    match write_record(&mut serializer, value.tag.as_str(), &value.fields) {
        Err(e) => Err(e),
        Ok(()) => Ok(serializer.finish()),
    }
}

} // verus!
