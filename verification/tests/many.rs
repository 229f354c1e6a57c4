use serde_cs2::value::{
    Field, FieldShape, FieldValue, Record, RecordShape, Scalar, ScalarKind, Shape, Width,
};
use serde_cs2::{from_str, to_string};

/// A small generator of numbers that gives the same numbers on every run.
struct Numbers(u64);

impl Numbers {
    fn next(&mut self) -> u64 {
        self.0 = self.0.wrapping_mul(6364136223846793005).wrapping_add(1442695040888963407);
        self.0 >> 33
    }

    fn below(&mut self, n: u64) -> u64 {
        self.next() % n
    }
}

const WORDS: [&str; 8] = ["", "Lok", "01 133 DB", ".x", "a=b", " spaced ", "=", "ä ö"];

fn some_scalar(n: &mut Numbers) -> (Scalar, ScalarKind) {
    match n.below(6) {
        0 => (Scalar::Bool(n.below(2) == 1), ScalarKind::Bool),
        1 => (Scalar::Unsigned(n.below(256)), ScalarKind::Unsigned(Width::W8)),
        2 => (Scalar::Unsigned(n.next() << 31 | n.next()), ScalarKind::Unsigned(Width::W64)),
        3 => (Scalar::Signed(n.below(256) as i64 - 128), ScalarKind::Signed(Width::W8)),
        4 => (Scalar::Signed(n.below(65536) as i64 - 32768), ScalarKind::Signed(Width::W16)),
        _ => (Scalar::Str(WORDS[n.below(8) as usize].to_owned()), ScalarKind::Str),
    }
}

fn some_tuple(n: &mut Numbers) -> (Vec<Scalar>, ScalarKind) {
    let len = 1 + n.below(4);
    match n.below(3) {
        0 => ((0..len).map(|_| Scalar::Bool(n.below(2) == 1)).collect(), ScalarKind::Bool),
        1 => (
            (0..len).map(|_| Scalar::Unsigned(n.below(65536))).collect(),
            ScalarKind::Unsigned(Width::W16),
        ),
        _ => (
            (0..len).map(|_| Scalar::Signed(n.below(200) as i64 - 100)).collect(),
            ScalarKind::Signed(Width::W32),
        ),
    }
}

/// The shape of a record with some fields; `path` keeps the keys apart.
fn some_shape(n: &mut Numbers, depth: u32, path: &str) -> Vec<FieldShape> {
    let count = 1 + n.below(4);
    (0..count)
        .map(|i| {
            let key = format!("{}{}", path, i);
            let kind = if depth == 0 { n.below(2) } else { n.below(4) };
            let shape = match kind {
                0 => Shape::Scalar(some_scalar(n).1),
                1 => {
                    let (items, kind) = some_tuple(n);
                    Shape::Tuple(kind, items.len())
                }
                2 => Shape::Record(some_shape(n, depth - 1, &format!("{}r", key))),
                _ => Shape::Sequence(some_shape(n, depth - 1, &format!("{}s", key))),
            };
            let default = if n.below(3) == 0 { Some(Scalar::Unsigned(n.below(9))) } else { None };
            FieldShape { key, shape, default }
        })
        .collect()
}

fn scalar_of(n: &mut Numbers, kind: ScalarKind) -> Scalar {
    match kind {
        ScalarKind::Bool => Scalar::Bool(n.below(2) == 1),
        ScalarKind::Unsigned(Width::W8) => Scalar::Unsigned(n.below(256)),
        ScalarKind::Unsigned(Width::W16) => Scalar::Unsigned(n.below(65536)),
        ScalarKind::Unsigned(_) => Scalar::Unsigned(n.next()),
        ScalarKind::Signed(Width::W8) => Scalar::Signed(n.below(256) as i64 - 128),
        ScalarKind::Signed(_) => Scalar::Signed(n.below(65536) as i64 - 32768),
        ScalarKind::Str => Scalar::Str(WORDS[n.below(8) as usize].to_owned()),
        ScalarKind::Bytes => Scalar::Bytes(vec![]),
    }
}

fn twice(s: Scalar) -> (Scalar, Scalar) {
    match s {
        Scalar::Bool(v) => (Scalar::Bool(v), Scalar::Bool(v)),
        Scalar::Signed(v) => (Scalar::Signed(v), Scalar::Signed(v)),
        Scalar::Unsigned(v) => (Scalar::Unsigned(v), Scalar::Unsigned(v)),
        Scalar::Str(v) => (Scalar::Str(v.clone()), Scalar::Str(v)),
        Scalar::Bytes(v) => (Scalar::Bytes(v.clone()), Scalar::Bytes(v)),
    }
}

/// Fields of the shape `shapes` of which none holds a value, and what they
/// come back as.
fn no_fields(shapes: &[FieldShape]) -> (Vec<Field>, Vec<Field>) {
    let written =
        shapes.iter().map(|s| Field { key: s.key.clone(), value: FieldValue::Absent }).collect();
    let read = shapes
        .iter()
        .map(|s| Field {
            key: s.key.clone(),
            value: match &s.default {
                Some(Scalar::Unsigned(v)) => FieldValue::Scalar(Scalar::Unsigned(*v)),
                _ => FieldValue::Absent,
            },
        })
        .collect();
    (written, read)
}

/// Fields of the shape `shapes`, and what they come back as. At least one
/// of them holds a value.
fn some_fields(n: &mut Numbers, shapes: &[FieldShape]) -> (Vec<Field>, Vec<Field>) {
    let keep = n.below(shapes.len() as u64) as usize;
    let mut written = vec![];
    let mut read = vec![];
    for (i, shape) in shapes.iter().enumerate() {
        let key = shape.key.clone();
        if i != keep && n.below(3) == 0 {
            written.push(Field { key: key.clone(), value: FieldValue::Absent });
            let value = match &shape.default {
                Some(Scalar::Unsigned(v)) => FieldValue::Scalar(Scalar::Unsigned(*v)),
                _ => FieldValue::Absent,
            };
            read.push(Field { key, value });
            continue;
        }
        let (w, r) = match &shape.shape {
            Shape::Scalar(kind) => {
                let (w, r) = twice(scalar_of(n, *kind));
                (FieldValue::Scalar(w), FieldValue::Scalar(r))
            }
            Shape::Tuple(kind, len) => {
                let (w, r) = (0..*len).map(|_| twice(scalar_of(n, *kind))).unzip();
                (FieldValue::Tuple(w), FieldValue::Tuple(r))
            }
            Shape::Record(inner) => {
                let (w, r) = some_fields(n, inner);
                (FieldValue::Record(w), FieldValue::Record(r))
            }
            Shape::Sequence(inner) => {
                let count = 1 + n.below(3);
                let mut ws = vec![];
                let mut rs = vec![];
                for at in 0..count {
                    let (w, r) = if at + 1 < count && n.below(4) == 0 {
                        no_fields(inner)
                    } else {
                        some_fields(n, inner)
                    };
                    ws.push(w);
                    rs.push(r);
                }
                (FieldValue::Sequence(ws), FieldValue::Sequence(rs))
            }
        };
        written.push(Field { key: key.clone(), value: w });
        read.push(Field { key, value: r });
    }
    (written, read)
}

/// Whether the text of the fields ends with an empty string.
fn ends_with_empty_string(fields: &[Field]) -> bool {
    match fields.iter().rev().find(|f| f.value != FieldValue::Absent) {
        Some(Field { value: FieldValue::Scalar(Scalar::Str(t)), .. }) => t.is_empty(),
        Some(Field { value: FieldValue::Record(inner), .. }) => ends_with_empty_string(inner),
        Some(Field { value: FieldValue::Sequence(elements), .. }) => {
            ends_with_empty_string(elements.last().unwrap())
        }
        _ => false,
    }
}

#[test]
fn many_records_come_back() {
    let mut n = Numbers(2024);
    let mut tried = 0;
    for round in 0..400 {
        let tag = if round % 5 == 0 { "[depot]".to_owned() } else { "depot".to_owned() };
        let shape = RecordShape { tag: tag.clone(), fields: some_shape(&mut n, 3, "k") };
        let (written, read) = some_fields(&mut n, &shape.fields);
        let record = Record { tag: tag.clone(), fields: written };
        let text = to_string(&record).unwrap();
        if ends_with_empty_string(&record.fields) && !text.ends_with('\n') {
            assert!(from_str(&text, &shape).is_err(), "{:?}", text);
            continue;
        }
        tried += 1;
        assert_eq!(from_str(&text, &shape), Ok(Record { tag, fields: read }), "{:?}", text);
    }
    assert!(tried > 300);
}
