//! Fields of which a text holds nothing: reading gives them their default.

use vstd::prelude::*;
use crate::de::{after_blank_line, first_line, next_element, next_key, opened, tuple_element};
use crate::decode::{
    decode_elements, decode_fields, decode_value, decoded, empty_slots, filled, position,
    read_elements, read_scalar,
};
use crate::error::Error;
use crate::text::{lemma_run_len, run_len, trim_start, CharClass};
use crate::value::{
    FieldShapeView, FieldValueView, FieldView, RecordShapeView, ScalarKind, ScalarView, ShapeView,
};

verus! {

/// Whether `rest` is what is left of `s` after some of it was read: one of
/// its ends.
pub open spec fn is_tail(rest: Seq<char>, s: Seq<char>) -> bool {
    rest.len() <= s.len() && rest == s.skip(s.len() - rest.len())
}

/// Whether the text `s` holds the characters of `key` one after the other,
/// at any place.
pub open spec fn occurs(key: Seq<char>, s: Seq<char>) -> bool {
    exists|a: int| 0 <= a && a + key.len() <= s.len() && #[trigger] s.subrange(a, a + key.len())
        == key
}

/// What is left of what is left of a text is left of the text.
proof fn lemma_tail_of_tail(a: Seq<char>, b: Seq<char>, c: Seq<char>)
    requires
        is_tail(a, b),
        is_tail(b, c),
    ensures
        is_tail(a, c),
{
    assert(a =~= c.skip(c.len() - a.len()));
}

/// What the end of a text holds, the text holds.
proof fn lemma_occurs_in_tail(key: Seq<char>, t: Seq<char>, s: Seq<char>)
    requires
        is_tail(t, s),
        occurs(key, t),
    ensures
        occurs(key, s),
{
    let a = choose|a: int| 0 <= a && a + key.len() <= t.len() && #[trigger] t.subrange(
        a,
        a + key.len(),
    ) == key;
    let b = a + s.len() - t.len();
    assert(s.subrange(b, b + key.len()) =~= t.subrange(a, a + key.len()));
}

/// A text from some place on is left of the text, and so is all of it.
proof fn lemma_skip_is_tail(s: Seq<char>, n: int)
    requires
        0 <= n <= s.len(),
    ensures
        is_tail(s.skip(n), s),
        is_tail(s, s),
{
    assert(s.skip(n) =~= s.skip(s.len() - s.skip(n).len()));
    assert(s =~= s.skip(0));
}

/// What reading a scalar leaves is left of the text.
proof fn lemma_scalar_tail(s: Seq<char>, kind: ScalarKind)
    ensures
        read_scalar(s, kind) matches Ok((_, rest)) ==> is_tail(rest, s),
{
    lemma_run_len(s, CharClass::Digit);
    lemma_run_len(s, CharClass::InLine);
    lemma_skip_is_tail(s, 0);
    if s.len() > 0 {
        lemma_skip_is_tail(s, 1);
        lemma_run_len(s.skip(1), CharClass::Digit);
        lemma_skip_is_tail(s.skip(1), run_len(s.skip(1), CharClass::Digit) as int);
        lemma_tail_of_tail(
            s.skip(1).skip(run_len(s.skip(1), CharClass::Digit) as int),
            s.skip(1),
            s,
        );
    }
    if s.len() >= 2 {
        lemma_skip_is_tail(s, 2);
        lemma_run_len(s.skip(2), CharClass::InLine);
        lemma_skip_is_tail(s.skip(2), run_len(s.skip(2), CharClass::InLine) as int);
        lemma_tail_of_tail(
            s.skip(2).skip(run_len(s.skip(2), CharClass::InLine) as int),
            s.skip(2),
            s,
        );
    }
    lemma_skip_is_tail(s, run_len(s, CharClass::Digit) as int);
    lemma_skip_is_tail(s, run_len(s, CharClass::InLine) as int);
}

/// What looking for an element of a tuple leaves is left of the text.
proof fn lemma_element_tail(s: Seq<char>, first: bool)
    ensures
        is_tail(tuple_element(s, first).1, s),
{
    lemma_skip_is_tail(s, 0);
    if s.len() > 0 {
        lemma_skip_is_tail(s, 1);
    }
}

/// What reading the elements of a tuple leaves is left of the text.
proof fn lemma_tuple_tail(
    s: Seq<char>,
    kind: ScalarKind,
    count: nat,
    first: bool,
    got: Seq<ScalarView>,
)
    ensures
        read_elements(s, kind, count, first, got) matches Ok((_, rest)) ==> is_tail(rest, s),
    decreases count,
{
    lemma_element_tail(s, first);
    if count > 0 {
        let after = tuple_element(s, first).1;
        lemma_scalar_tail(after, kind);
        match read_scalar(after, kind) {
            Ok((v, rest)) => {
                lemma_tuple_tail(rest, kind, (count - 1) as nat, false, got.push(v));
                match read_elements(rest, kind, (count - 1) as nat, false, got.push(v)) {
                    Ok((_, end)) => {
                        lemma_tail_of_tail(end, rest, after);
                        lemma_tail_of_tail(end, after, s);
                    },
                    Err(_) => {},
                }
            },
            Err(_) => {},
        }
    }
}

/// What looking for a key leaves is left of the text, and a key that was
/// found stands in the text.
proof fn lemma_key_tail(s: Seq<char>, depth: nat, first: bool)
    ensures
        is_tail(next_key(s, depth, first).1, s),
        next_key(s, depth, first).0 matches Ok(Some(key)) ==> occurs(key, s),
{
    lemma_run_len(s, CharClass::Space);
    let w = run_len(s, CharClass::Space) as int;
    let t = trim_start(s);
    lemma_run_len(t, CharClass::Dot);
    let n = run_len(t, CharClass::Dot) as int;
    let u = t.skip(n);
    lemma_run_len(u, CharClass::InLine);
    let line = first_line(u);
    lemma_run_len(line, CharClass::InName);
    let e = run_len(line, CharClass::InName) as int;
    lemma_skip_is_tail(s, 0);
    lemma_skip_is_tail(s, w);
    if s.len() > 0 {
        lemma_skip_is_tail(s, 1);
    }
    lemma_skip_is_tail(s, w + n);
    assert(u =~= s.skip(w + n));
    if e <= u.len() {
        lemma_skip_is_tail(s, w + n + e);
        assert(u.skip(e) =~= s.skip(w + n + e));
    }
    match next_key(s, depth, first).0 {
        Ok(Some(key)) => {
            assert(s.subrange(w + n, w + n + key.len()) =~= key);
        },
        _ => {},
    }
}

/// What opening a record leaves is left of the text.
proof fn lemma_header_tail(s: Seq<char>, tags: Seq<Seq<char>>, name: Seq<char>)
    ensures
        is_tail(opened(s, tags, name).rest, s),
{
    lemma_run_len(s, CharClass::Blank);
    let b = run_len(s, CharClass::Blank) as int;
    let t = after_blank_line(s);
    lemma_run_len(t, CharClass::InLine);
    let n = run_len(t, CharClass::InLine) as int;
    lemma_skip_is_tail(s, 0);
    if t == s {
        if n < s.len() {
            lemma_skip_is_tail(s, n + 1);
        }
    } else {
        lemma_skip_is_tail(s, b + 1);
        if n < t.len() {
            lemma_skip_is_tail(s, b + 1 + n + 1);
            assert(t.skip(n + 1) =~= s.skip(b + 1 + n + 1));
        }
    }
}

/// What looking for a further record leaves is left of the text.
proof fn lemma_block_tail(s: Seq<char>, tags: Seq<Seq<char>>, first: bool)
    ensures
        is_tail(next_element(s, tags, first).1, s),
{
    lemma_run_len(s, CharClass::Space);
    let w = run_len(s, CharClass::Space) as int;
    let t = trim_start(s);
    lemma_run_len(t, CharClass::Dot);
    let n = run_len(t, CharClass::Dot) as int;
    let u = t.skip(n);
    lemma_run_len(u, CharClass::Space);
    let v = run_len(u, CharClass::Space) as int;
    lemma_skip_is_tail(s, 0);
    lemma_skip_is_tail(s, w + n + v);
    assert(trim_start(u) =~= s.skip(w + n + v));
}

/// What reading a value leaves is left of the text.
proof fn lemma_value_tail(s: Seq<char>, tags: Seq<Seq<char>>, key: Seq<char>, shape: ShapeView)
    ensures
        decode_value(s, tags, key, shape) matches Ok((_, rest)) ==> is_tail(rest, s),
    decreases shape, 0nat, 0nat,
{
    if s.len() > 0 {
        lemma_skip_is_tail(s, 1);
    }
    match shape {
        ShapeView::Scalar(kind) => {
            if s.len() > 0 {
                lemma_scalar_tail(s.skip(1), kind);
                match read_scalar(s.skip(1), kind) {
                    Ok((_, rest)) => {
                        lemma_tail_of_tail(rest, s.skip(1), s);
                    },
                    Err(_) => {},
                }
            }
        },
        ShapeView::Tuple(kind, len) => {
            if s.len() > 0 {
                lemma_tuple_tail(s.skip(1), kind, len, true, Seq::empty());
                match read_elements(s.skip(1), kind, len, true, Seq::empty()) {
                    Ok((_, rest)) => {
                        lemma_tail_of_tail(rest, s.skip(1), s);
                    },
                    Err(_) => {},
                }
            }
        },
        ShapeView::Record(inner) => {
            let open = opened(s, tags, key);
            lemma_header_tail(s, tags, key);
            lemma_fields_tail(open.rest, open.tags, inner, true, empty_slots(inner.len()));
            match decode_fields(open.rest, open.tags, inner, true, empty_slots(inner.len())) {
                Ok((_, rest)) => {
                    lemma_tail_of_tail(rest, open.rest, s);
                },
                Err(_) => {},
            }
        },
        ShapeView::Sequence(inner) => {
            lemma_records_tail(s, tags, key, inner, true, Seq::empty());
        },
    }
}

/// What reading the fields of a record leaves is left of the text.
proof fn lemma_fields_tail(
    s: Seq<char>,
    tags: Seq<Seq<char>>,
    shapes: Seq<FieldShapeView>,
    first: bool,
    slots: Seq<Option<FieldValueView>>,
)
    ensures
        decode_fields(s, tags, shapes, first, slots) matches Ok((_, rest)) ==> is_tail(rest, s),
    decreases shapes, 0nat, s.len(),
{
    lemma_key_tail(s, tags.len(), first);
    let after = next_key(s, tags.len(), first).1;
    match next_key(s, tags.len(), first).0 {
        Ok(Some(key)) => match position(shapes, key) {
            Some(i) => {
                if 0 <= i < shapes.len() && i < slots.len() && slots[i] is None {
                    lemma_value_tail(after, tags, key, shapes[i].shape);
                    match decode_value(after, tags, key, shapes[i].shape) {
                        Ok((v, rest)) => {
                            lemma_tail_of_tail(rest, after, s);
                            if rest.len() < s.len() {
                                let next = slots.update(i, Some(v));
                                lemma_fields_tail(rest, tags, shapes, false, next);
                                match decode_fields(rest, tags, shapes, false, next) {
                                    Ok((_, end)) => {
                                        lemma_tail_of_tail(end, rest, s);
                                    },
                                    Err(_) => {},
                                }
                            }
                        },
                        Err(_) => {},
                    }
                }
            },
            None => {},
        },
        _ => {},
    }
}

/// What reading the records of a sequence leaves is left of the text.
proof fn lemma_records_tail(
    s: Seq<char>,
    tags: Seq<Seq<char>>,
    key: Seq<char>,
    shapes: Seq<FieldShapeView>,
    first: bool,
    got: Seq<Seq<FieldView>>,
)
    ensures
        decode_elements(s, tags, key, shapes, first, got) matches Ok((_, rest)) ==> is_tail(
            rest,
            s,
        ),
    decreases shapes, 1nat, s.len(),
{
    lemma_block_tail(s, tags, first);
    if next_element(s, tags, first).0 == Ok::<bool, Error>(true) {
        let head = next_element(s, tags, first).1;
        let open = opened(head, tags, key);
        lemma_header_tail(head, tags, key);
        if open.result is Ok {
            lemma_fields_tail(open.rest, open.tags, shapes, true, empty_slots(shapes.len()));
            match decode_fields(open.rest, open.tags, shapes, true, empty_slots(shapes.len())) {
                Ok((slots, rest)) => {
                    lemma_tail_of_tail(rest, open.rest, head);
                    lemma_tail_of_tail(rest, head, s);
                    if rest.len() < s.len() {
                        let more = got.push(filled(shapes, slots));
                        lemma_records_tail(rest, open.tags, key, shapes, false, more);
                        match decode_elements(rest, open.tags, key, shapes, false, more) {
                            Ok((_, end)) => {
                                lemma_tail_of_tail(end, rest, s);
                            },
                            Err(_) => {},
                        }
                    }
                },
                Err(_) => {},
            }
        }
    }
}

/// The field that a key is looked up as has that key.
proof fn lemma_position_key(shapes: Seq<FieldShapeView>, key: Seq<char>)
    ensures
        position(shapes, key) matches Some(p) ==> 0 <= p < shapes.len() && shapes[p].key == key,
    decreases shapes.len(),
{
    if shapes.len() > 0 {
        lemma_position_key(shapes.drop_last(), key);
    }
}

/// Reading the fields of a record leaves empty the slot of a field whose
/// key the text does not hold.
proof fn lemma_slot_stays_empty(
    whole: Seq<char>,
    s: Seq<char>,
    tags: Seq<Seq<char>>,
    shapes: Seq<FieldShapeView>,
    first: bool,
    slots: Seq<Option<FieldValueView>>,
    i: int,
)
    requires
        is_tail(s, whole),
        0 <= i < shapes.len(),
        i < slots.len(),
        !occurs(shapes[i].key, whole),
    ensures
        decode_fields(s, tags, shapes, first, slots) matches Ok((out, _)) ==> out.len()
            == slots.len() && out[i] == slots[i],
    decreases s.len(),
{
    lemma_key_tail(s, tags.len(), first);
    let after = next_key(s, tags.len(), first).1;
    match next_key(s, tags.len(), first).0 {
        Ok(Some(key)) => {
            if occurs(key, s) {
                lemma_occurs_in_tail(key, s, whole);
            }
            lemma_position_key(shapes, key);
            match position(shapes, key) {
                Some(p) => {
                    if 0 <= p < shapes.len() && p < slots.len() && slots[p] is None {
                        lemma_value_tail(after, tags, key, shapes[p].shape);
                        match decode_value(after, tags, key, shapes[p].shape) {
                            Ok((v, rest)) => {
                                lemma_tail_of_tail(rest, after, s);
                                lemma_tail_of_tail(rest, s, whole);
                                if rest.len() < s.len() {
                                    lemma_slot_stays_empty(
                                        whole,
                                        rest,
                                        tags,
                                        shapes,
                                        false,
                                        slots.update(p, Some(v)),
                                        i,
                                    );
                                }
                            },
                            Err(_) => {},
                        }
                    }
                },
                None => {},
            }
        },
        _ => {},
    }
}

/// A field of the outermost record whose key the text does not hold at any
/// place is no failure, and is read as the default of its shape. This
/// holds of any text that is read as a record, whoever wrote it.
pub proof fn lemma_missing_key_reads_default(text: Seq<char>, shape: RecordShapeView, i: int)
    requires
        0 <= i < shape.fields.len(),
        !occurs(shape.fields[i].key, text),
        decoded(text, shape) is Ok,
    ensures
        decoded(text, shape)->Ok_0.fields.len() == shape.fields.len(),
        decoded(text, shape)->Ok_0.fields[i].key == shape.fields[i].key,
        decoded(text, shape)->Ok_0.fields[i].value == shape.fields[i].default,
{
    let open = opened(text, Seq::empty(), shape.tag);
    lemma_header_tail(text, Seq::empty(), shape.tag);
    lemma_slot_stays_empty(
        text,
        open.rest,
        open.tags,
        shape.fields,
        true,
        empty_slots(shape.fields.len()),
        i,
    );
}

/// Every record that is read has the fields of its shape, in their order
/// and under their keys.
pub proof fn lemma_read_fields_follow_shape(text: Seq<char>, shape: RecordShapeView)
    requires
        decoded(text, shape) is Ok,
    ensures
        decoded(text, shape)->Ok_0.tag == shape.tag,
        decoded(text, shape)->Ok_0.fields.len() == shape.fields.len(),
        forall|i: int|
            0 <= i < shape.fields.len() ==> (#[trigger] decoded(text, shape)->Ok_0.fields[i]).key
                == shape.fields[i].key,
{
}

} // verus!
