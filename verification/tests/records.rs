use serde_cs2::value::{
    Field, FieldShape, FieldValue, Record, RecordShape, Scalar, ScalarKind, Shape, Width,
};
use serde_cs2::{from_str, to_string, Error};

fn item(key: &str, value: FieldValue) -> Field {
    Field { key: key.to_owned(), value }
}

fn num(v: u64) -> FieldValue {
    FieldValue::Scalar(Scalar::Unsigned(v))
}

fn word(v: &str) -> FieldValue {
    FieldValue::Scalar(Scalar::Str(v.to_owned()))
}

fn plan(key: &str, shape: Shape) -> FieldShape {
    FieldShape { key: key.to_owned(), shape, default: None }
}

fn u8_shape() -> Shape {
    Shape::Scalar(ScalarKind::Unsigned(Width::W8))
}

fn funktion(nr: u64, typ: u64, dauer: i64, wert: u64) -> Vec<Field> {
    vec![
        item("nr", num(nr)),
        item("typ", num(typ)),
        item("dauer", FieldValue::Scalar(Scalar::Signed(dauer))),
        item("wert", num(wert)),
    ]
}

fn funktion_plan() -> Vec<FieldShape> {
    vec![
        plan("nr", u8_shape()),
        plan("typ", Shape::Scalar(ScalarKind::Unsigned(Width::W16))),
        plan("dauer", Shape::Scalar(ScalarKind::Signed(Width::W8))),
        plan("wert", u8_shape()),
    ]
}

#[test]
fn three_fields_make_three_lines_at_depth_one() {
    let record = Record {
        tag: "lokomotive".to_owned(),
        fields: vec![
            item("name", word("Lok")),
            item("vorname", FieldValue::Absent),
            item("uid", word("0x4001")),
            item("mfxuid", FieldValue::Absent),
            item("adresse", word("0x5")),
            item("funktionen", FieldValue::Absent),
        ],
    };
    let text = to_string(&record).unwrap();
    let lines: Vec<&str> = text.lines().collect();
    assert_eq!(lines, vec!["lokomotive", " .name=Lok", " .uid=0x4001", " .adresse=0x5"]);
}

#[test]
fn two_elements_make_two_blocks_in_a_row() {
    let record = Record {
        tag: "lokomotive".to_owned(),
        fields: vec![item(
            "funktionen",
            FieldValue::Sequence(vec![funktion(1, 1, -1, 0), funktion(2, 2, 0, 0)]),
        )],
    };
    assert_eq!(
        to_string(&record).unwrap(),
        "lokomotive\n .funktionen\n ..nr=1\n ..typ=1\n ..dauer=-1\n ..wert=0\n \
         .funktionen\n ..nr=2\n ..typ=2\n ..dauer=0\n ..wert=0"
    );
}

fn nested() -> (Record, RecordShape) {
    let record = Record {
        tag: "zug".to_owned(),
        fields: vec![
            item("name", word("")),
            item("aktiv", FieldValue::Scalar(Scalar::Bool(true))),
            item("notiz", FieldValue::Absent),
            item(
                "lok",
                FieldValue::Record(vec![
                    item("nr", num(7)),
                    item(
                        "achsen",
                        FieldValue::Sequence(vec![
                            vec![item("last", FieldValue::Scalar(Scalar::Signed(-3)))],
                            vec![item("last", FieldValue::Scalar(Scalar::Signed(4)))],
                            vec![item("last", FieldValue::Scalar(Scalar::Signed(0)))],
                        ]),
                    ),
                    item("farbe", word("rot = schnell")),
                ]),
            ),
            item(
                "blocks",
                FieldValue::Tuple(vec![
                    Scalar::Unsigned(1),
                    Scalar::Unsigned(2),
                    Scalar::Unsigned(3),
                ]),
            ),
            item("wagen", FieldValue::Sequence(vec![vec![item("nr", num(1))]])),
        ],
    };
    let shape = RecordShape {
        tag: "zug".to_owned(),
        fields: vec![
            plan("name", Shape::Scalar(ScalarKind::Str)),
            plan("aktiv", Shape::Scalar(ScalarKind::Bool)),
            FieldShape {
                key: "notiz".to_owned(),
                shape: Shape::Scalar(ScalarKind::Str),
                default: Some(Scalar::Str("keine".to_owned())),
            },
            plan(
                "lok",
                Shape::Record(vec![
                    plan("nr", u8_shape()),
                    plan(
                        "achsen",
                        Shape::Sequence(vec![plan(
                            "last",
                            Shape::Scalar(ScalarKind::Signed(Width::W8)),
                        )]),
                    ),
                    plan("farbe", Shape::Scalar(ScalarKind::Str)),
                ]),
            ),
            plan("blocks", Shape::Tuple(ScalarKind::Unsigned(Width::W8), 3)),
            plan("wagen", Shape::Sequence(vec![plan("nr", u8_shape())])),
        ],
    };
    (record, shape)
}

#[test]
fn dots_count_the_enclosing_records() {
    let (record, _) = nested();
    assert_eq!(
        to_string(&record).unwrap(),
        "zug\n .name=\n .aktiv=1\n .lok\n ..nr=7\n ..achsen\n ...last=-3\n ..achsen\n \
         ...last=4\n ..achsen\n ...last=0\n ..farbe=rot = schnell\n .blocks=1 2 3\n .wagen\n \
         ..nr=1"
    );
}

#[test]
fn a_record_comes_back_from_its_text() {
    let (record, shape) = nested();
    let text = to_string(&record).unwrap();
    let mut expected = record;
    expected.fields[2].value = word("keine");
    assert_eq!(from_str(&text, &shape), Ok(expected));
}

#[test]
fn a_transparent_root_comes_back_from_its_text() {
    let record = Record {
        tag: "[depot]".to_owned(),
        fields: vec![
            item("groesse", num(2)),
            item("version", FieldValue::Record(vec![item("minor", num(3))])),
            item(
                "lok",
                FieldValue::Sequence(vec![
                    vec![item("name", word("01 133 DB")), item("nr", num(1))],
                    vec![item("name", word("02")), item("nr", FieldValue::Absent)],
                ]),
            ),
        ],
    };
    let shape = RecordShape {
        tag: "[depot]".to_owned(),
        fields: vec![
            plan("groesse", u8_shape()),
            plan("version", Shape::Record(vec![plan("minor", u8_shape())])),
            plan(
                "lok",
                Shape::Sequence(vec![
                    plan("name", Shape::Scalar(ScalarKind::Str)),
                    plan("nr", u8_shape()),
                ]),
            ),
        ],
    };
    let text = to_string(&record).unwrap();
    assert_eq!(
        text,
        "[depot]\ngroesse=2\nversion\n .minor=3\nlok\n .name=01 133 DB\n .nr=1\nlok\n .name=02\n"
    );
    assert_eq!(from_str(&text, &shape), Ok(record));
}

fn sequence_shape() -> RecordShape {
    RecordShape {
        tag: "lok".to_owned(),
        fields: vec![
            plan("f", Shape::Sequence(vec![plan("nr", u8_shape())])),
            plan("g", Shape::Sequence(vec![plan("nr", u8_shape())])),
            plan("h", u8_shape()),
            plan(
                "tief",
                Shape::Record(vec![plan("f", Shape::Sequence(vec![plan("nr", u8_shape())]))]),
            ),
        ],
    }
}

fn numbers_of(value: &FieldValue) -> Vec<u64> {
    match value {
        FieldValue::Sequence(elements) => elements
            .iter()
            .map(|e| match &e[0].value {
                FieldValue::Scalar(Scalar::Unsigned(v)) => *v,
                other => panic!("expected a number, found {:?}", other),
            })
            .collect(),
        other => panic!("expected a sequence, found {:?}", other),
    }
}

#[test]
fn a_sequence_ends_before_another_tag() {
    let text = "lok\n .f\n ..nr=1\n .f\n ..nr=2\n .f\n ..nr=3\n .g\n ..nr=4";
    let record = from_str(text, &sequence_shape()).unwrap();
    assert_eq!(numbers_of(&record.fields[0].value), vec![1, 2, 3]);
    assert_eq!(numbers_of(&record.fields[1].value), vec![4]);
}

#[test]
fn a_sequence_ends_before_a_value_line() {
    let text = "lok\n .f\n ..nr=1\n .f\n ..nr=2\n .h=9";
    let record = from_str(text, &sequence_shape()).unwrap();
    assert_eq!(numbers_of(&record.fields[0].value), vec![1, 2]);
    assert_eq!(record.fields[2].value, num(9));
}

#[test]
fn a_sequence_ends_at_the_end_of_the_text() {
    let text = "lok\n .f\n ..nr=1\n .f\n ..nr=2\n .f\n ..nr=3\n .f\n ..nr=4\n  ";
    let record = from_str(text, &sequence_shape()).unwrap();
    assert_eq!(numbers_of(&record.fields[0].value), vec![1, 2, 3, 4]);
    assert_eq!(record.fields[1].value, FieldValue::Absent);
}

#[test]
fn a_sequence_ends_before_a_line_of_lesser_depth() {
    let text = "lok\n .tief\n ..f\n ...nr=1\n ..f\n ...nr=2\n .f\n ..nr=3";
    let record = from_str(text, &sequence_shape()).unwrap();
    match &record.fields[3].value {
        FieldValue::Record(inner) => assert_eq!(numbers_of(&inner[0].value), vec![1, 2]),
        other => panic!("expected a record, found {:?}", other),
    }
    assert_eq!(numbers_of(&record.fields[0].value), vec![3]);
}

#[test]
fn an_absent_field_leaves_no_line_and_comes_back_as_its_default() {
    let shape = RecordShape {
        tag: "lok".to_owned(),
        fields: vec![
            plan("a", u8_shape()),
            FieldShape {
                key: "b".to_owned(),
                shape: u8_shape(),
                default: Some(Scalar::Unsigned(7)),
            },
            plan("c", u8_shape()),
        ],
    };
    let record = Record {
        tag: "lok".to_owned(),
        fields: vec![
            item("a", num(1)),
            item("b", FieldValue::Absent),
            item("c", FieldValue::Absent),
        ],
    };
    let text = to_string(&record).unwrap();
    assert_eq!(text, "lok\n .a=1\n");
    let back = from_str(&text, &shape).unwrap();
    assert_eq!(back.fields[0], item("a", num(1)));
    assert_eq!(back.fields[1], item("b", num(7)));
    assert_eq!(back.fields[2], item("c", FieldValue::Absent));
}

#[test]
fn fields_come_back_in_the_order_of_the_shape() {
    let shape = RecordShape {
        tag: "lok".to_owned(),
        fields: vec![plan("a", u8_shape()), plan("b", u8_shape())],
    };
    let record = from_str("lok\n .b=2\n .a=1", &shape).unwrap();
    assert_eq!(record.fields, vec![item("a", num(1)), item("b", num(2))]);
}

fn tuple_shape(len: usize) -> RecordShape {
    RecordShape {
        tag: "lokomotive".to_owned(),
        fields: vec![plan("blocks", Shape::Tuple(ScalarKind::Unsigned(Width::W8), len))],
    }
}

#[test]
fn a_tuple_field_decodes_only_at_its_length() {
    let text = "lokomotive\n .blocks=0 0 0 0 0 0 0 0 0 0 0 0 0 0 0 0\n";
    let record = from_str(text, &tuple_shape(16)).unwrap();
    assert_eq!(
        record.fields[0].value,
        FieldValue::Tuple((0..16).map(|_| Scalar::Unsigned(0)).collect())
    );
    assert_eq!(from_str(text, &tuple_shape(15)), Err(Error::ExpectedNewline));
    assert_eq!(from_str(text, &tuple_shape(17)), Err(Error::ExpectedArraySeperator));
}

#[test]
fn a_key_that_the_shape_does_not_hold_is_refused() {
    let shape = RecordShape { tag: "lok".to_owned(), fields: vec![plan("a", u8_shape())] };
    assert_eq!(
        from_str("lok\n .b=1", &shape),
        Err(Error::Message("unknown field `b`".to_owned()))
    );
}

#[test]
fn a_key_that_comes_twice_is_refused() {
    let shape = RecordShape { tag: "lok".to_owned(), fields: vec![plan("a", u8_shape())] };
    assert_eq!(
        from_str("lok\n .a=1\n .a=2", &shape),
        Err(Error::Message("duplicate field `a`".to_owned()))
    );
}

#[test]
fn a_value_needs_its_separator() {
    let shape = RecordShape { tag: "lok".to_owned(), fields: vec![plan("a", u8_shape())] };
    assert_eq!(from_str("lok\n .a\n ..b=1", &shape), Err(Error::ExpectedValueSeperator));
    assert_eq!(
        from_str("lokomotive\n .a=1", &tuple_shape(1)),
        Err(Error::Message("unknown field `a`".to_owned()))
    );
    let shape = RecordShape {
        tag: "lok".to_owned(),
        fields: vec![plan("a", Shape::Tuple(ScalarKind::Bool, 1))],
    };
    assert_eq!(from_str("lok\n .a\n", &shape), Err(Error::ExpectedValueSeperator));
}

#[test]
fn a_record_is_no_value() {
    let shape = RecordShape {
        tag: "lok".to_owned(),
        fields: vec![
            plan("a", Shape::Record(vec![plan("b", u8_shape())])),
            plan("s", Shape::Sequence(vec![plan("b", u8_shape())])),
        ],
    };
    assert_eq!(from_str("lok\n .a=1", &shape), Err(Error::ExpectedStructName));
    assert_eq!(from_str("lok\n .s=1", &shape), Err(Error::ExpectedStructName));
}

#[test]
fn a_wrong_tag_is_refused() {
    let shape = RecordShape { tag: "lok".to_owned(), fields: vec![plan("a", u8_shape())] };
    assert_eq!(from_str("wagen\n .a=1", &shape), Err(Error::ExpectedStructName));
    assert_eq!(from_str("lok", &shape), Err(Error::ExpectedNewline));
    assert_eq!(from_str("", &shape), Err(Error::ExpectedStructName));
}

#[test]
fn text_after_the_record_is_refused() {
    let shape = RecordShape { tag: "lok".to_owned(), fields: vec![plan("a", u8_shape())] };
    assert_eq!(from_str("lok\n .a=1\nwagen\n .a=2", &shape), Err(Error::WrongLevel));
    assert_eq!(
        from_str("lok\n .a=1\n\n \n", &shape).map(|r| r.fields),
        Ok(vec![item("a", num(1))])
    );
}

#[test]
fn malformed_values_are_refused() {
    let shape = RecordShape {
        tag: "lok".to_owned(),
        fields: vec![plan("a", u8_shape()), plan("b", Shape::Scalar(ScalarKind::Bool))],
    };
    assert_eq!(from_str("lok\n .a=x", &shape), Err(Error::ExpectedInteger));
    assert_eq!(from_str("lok\n .a=300", &shape), Err(Error::ExpectedInteger));
    assert_eq!(from_str("lok\n .a=", &shape), Err(Error::Eof));
    assert_eq!(from_str("lok\n .b=2", &shape), Err(Error::ExpectedBoolean));
    assert_eq!(from_str("lok\n .a=1 .b=1", &shape), Err(Error::ExpectedNewline));
}

#[test]
fn an_empty_string_at_the_very_end_does_not_come_back() {
    let shape = RecordShape {
        tag: "lok".to_owned(),
        fields: vec![plan("a", Shape::Record(vec![plan("name", Shape::Scalar(ScalarKind::Str))]))],
    };
    let record = Record {
        tag: "lok".to_owned(),
        fields: vec![item("a", FieldValue::Record(vec![item("name", word(""))]))],
    };
    let text = to_string(&record).unwrap();
    assert_eq!(text, "lok\n .a\n ..name=");
    assert_eq!(from_str(&text, &shape), Err(Error::ExpectedString));
    let shape = RecordShape {
        tag: "lok".to_owned(),
        fields: vec![plan("name", Shape::Scalar(ScalarKind::Str))],
    };
    let record = Record { tag: "lok".to_owned(), fields: vec![item("name", word(""))] };
    let text = to_string(&record).unwrap();
    assert_eq!(text, "lok\n .name=\n");
    assert_eq!(from_str(&text, &shape), Ok(record));
}

#[test]
fn bytes_do_not_come_back() {
    let shape = RecordShape {
        tag: "lok".to_owned(),
        fields: vec![plan("uid", Shape::Scalar(ScalarKind::Bytes))],
    };
    let record = Record {
        tag: "lok".to_owned(),
        fields: vec![item("uid", FieldValue::Scalar(Scalar::Bytes(vec![64, 1])))],
    };
    let text = to_string(&record).unwrap();
    assert_eq!(text, "lok\n .uid=641\n");
    assert_eq!(
        from_str(&text, &shape).unwrap().fields[0].value,
        FieldValue::Scalar(Scalar::Bytes(b"641".to_vec()))
    );
}

#[test]
fn an_empty_sequence_and_an_empty_tuple_write_nothing() {
    let record = Record {
        tag: "lok".to_owned(),
        fields: vec![
            item("f", FieldValue::Sequence(vec![])),
            item("t", FieldValue::Tuple(vec![])),
            item("a", num(1)),
        ],
    };
    assert_eq!(to_string(&record).unwrap(), "lok\n .a=1\n");
}

#[test]
fn a_record_without_fields_is_its_tag() {
    let record = Record { tag: "lok".to_owned(), fields: vec![] };
    assert_eq!(to_string(&record).unwrap(), "lok");
    let record = Record {
        tag: "lok".to_owned(),
        fields: vec![item("a", FieldValue::Record(vec![])), item("b", FieldValue::Tuple(vec![]))],
    };
    assert_eq!(to_string(&record).unwrap(), "lok\n .a\n");
}

#[test]
fn funktion_blocks_come_back() {
    let shape = RecordShape {
        tag: "lokomotive".to_owned(),
        fields: vec![plan("funktionen", Shape::Sequence(funktion_plan()))],
    };
    let record = Record {
        tag: "lokomotive".to_owned(),
        fields: vec![item(
            "funktionen",
            FieldValue::Sequence(vec![funktion(1, 1, -1, 0), funktion(2, 2, 0, 0)]),
        )],
    };
    assert_eq!(from_str(&to_string(&record).unwrap(), &shape), Ok(record));
}

fn text_shape() -> RecordShape {
    RecordShape {
        tag: "lok".to_owned(),
        fields: vec![plan("name", Shape::Scalar(ScalarKind::Str)), plan("nr", u8_shape())],
    }
}

#[test]
fn a_string_with_a_line_feed_does_not_come_back() {
    let record = Record {
        tag: "lok".to_owned(),
        fields: vec![item("name", word("a\nb")), item("nr", num(1))],
    };
    let text = to_string(&record).unwrap();
    assert_eq!(text, "lok\n .name=a\nb\n .nr=1\n");
    assert!(from_str(&text, &text_shape()).is_err());
}

#[test]
fn a_string_that_begins_with_a_dot_comes_back() {
    let record = Record {
        tag: "lok".to_owned(),
        fields: vec![item("name", word(".a=b ")), item("nr", num(1))],
    };
    let text = to_string(&record).unwrap();
    assert_eq!(from_str(&text, &text_shape()), Ok(record));
}

#[test]
fn a_key_with_a_separator_does_not_come_back() {
    let shape = RecordShape { tag: "lok".to_owned(), fields: vec![plan("a=b", u8_shape())] };
    let record = Record { tag: "lok".to_owned(), fields: vec![item("a=b", num(1))] };
    let text = to_string(&record).unwrap();
    assert_eq!(text, "lok\n .a=b=1\n");
    assert_eq!(from_str(&text, &shape), Err(Error::Message("unknown field `a`".to_owned())));
}

#[test]
fn a_record_under_the_tag_of_its_parent_does_not_come_back() {
    let inner = || vec![plan("nr", u8_shape())];
    let shape = RecordShape {
        tag: "lok".to_owned(),
        fields: vec![plan("lok", Shape::Record(inner())), plan("nr", u8_shape())],
    };
    let record = Record {
        tag: "lok".to_owned(),
        fields: vec![
            item("lok", FieldValue::Record(vec![item("nr", num(1))])),
            item("nr", num(2)),
        ],
    };
    let text = to_string(&record).unwrap();
    assert_eq!(text, "lok\n .lok\n ..nr=1\n .nr=2\n");
    assert!(from_str(&text, &shape).is_err());
}

#[test]
fn an_empty_record_before_another_field_does_not_come_back() {
    let shape = RecordShape {
        tag: "lok".to_owned(),
        fields: vec![
            plan("a", Shape::Record(vec![plan("nr", u8_shape())])),
            plan("nr", u8_shape()),
        ],
    };
    let record = Record {
        tag: "lok".to_owned(),
        fields: vec![
            item("a", FieldValue::Record(vec![item("nr", FieldValue::Absent)])),
            item("nr", num(2)),
        ],
    };
    let text = to_string(&record).unwrap();
    assert_eq!(text, "lok\n .a\n .nr=2\n");
    assert_eq!(from_str(&text, &shape), Err(Error::ExpectedNewline));
}

#[test]
fn an_empty_sequence_does_not_come_back() {
    let shape = RecordShape {
        tag: "lok".to_owned(),
        fields: vec![
            plan("f", Shape::Sequence(vec![plan("nr", u8_shape())])),
            plan("nr", u8_shape()),
        ],
    };
    let record = Record {
        tag: "lok".to_owned(),
        fields: vec![item("f", FieldValue::Sequence(vec![])), item("nr", num(1))],
    };
    let text = to_string(&record).unwrap();
    assert_eq!(text, "lok\n .nr=1\n");
    let back = from_str(&text, &shape).unwrap();
    assert_eq!(back.fields[0].value, FieldValue::Absent);
    assert_eq!(back.fields[1].value, num(1));
}

#[test]
fn a_record_without_values_does_not_come_back() {
    let shape = RecordShape { tag: "lok".to_owned(), fields: vec![plan("nr", u8_shape())] };
    let record = Record { tag: "lok".to_owned(), fields: vec![item("nr", FieldValue::Absent)] };
    let text = to_string(&record).unwrap();
    assert_eq!(text, "lok");
    assert_eq!(from_str(&text, &shape), Err(Error::ExpectedNewline));
}

#[test]
fn a_bracketed_record_in_a_transparent_root_does_not_come_back() {
    let shape = RecordShape {
        tag: "[a]".to_owned(),
        fields: vec![
            plan("[b]", Shape::Record(vec![plan("nr", u8_shape())])),
            plan("nr", u8_shape()),
        ],
    };
    let record = Record {
        tag: "[a]".to_owned(),
        fields: vec![
            item("[b]", FieldValue::Record(vec![item("nr", num(1))])),
            item("nr", num(2)),
        ],
    };
    let text = to_string(&record).unwrap();
    assert!(from_str(&text, &shape).is_err());
}

#[test]
fn a_tuple_of_strings_does_not_come_back() {
    let shape = RecordShape {
        tag: "lok".to_owned(),
        fields: vec![plan("t", Shape::Tuple(ScalarKind::Str, 2))],
    };
    let record = Record {
        tag: "lok".to_owned(),
        fields: vec![item(
            "t",
            FieldValue::Tuple(vec![Scalar::Str("a".to_owned()), Scalar::Str("b".to_owned())]),
        )],
    };
    let text = to_string(&record).unwrap();
    assert_eq!(text, "lok\n .t=a b\n");
    assert_eq!(from_str(&text, &shape), Err(Error::ExpectedArraySeperator));
}

#[test]
fn a_tuple_of_one_string_comes_back() {
    let shape = RecordShape {
        tag: "lok".to_owned(),
        fields: vec![plan("t", Shape::Tuple(ScalarKind::Str, 1)), plan("nr", u8_shape())],
    };
    let record = Record {
        tag: "lok".to_owned(),
        fields: vec![
            item("t", FieldValue::Tuple(vec![Scalar::Str("a b".to_owned())])),
            item("nr", num(1)),
        ],
    };
    let text = to_string(&record).unwrap();
    assert_eq!(text, "lok\n .t=a b\n .nr=1\n");
    assert_eq!(from_str(&text, &shape), Ok(record));
    let record = Record {
        tag: "lok".to_owned(),
        fields: vec![
            item("t", FieldValue::Tuple(vec![Scalar::Str(String::new())])),
            item("nr", num(1)),
        ],
    };
    let text = to_string(&record).unwrap();
    assert_eq!(from_str(&text, &shape), Err(Error::ExpectedArraySeperator));
}

#[test]
fn a_record_without_values_at_the_very_end_comes_back() {
    let shape = RecordShape {
        tag: "lok".to_owned(),
        fields: vec![
            plan("x", u8_shape()),
            plan("a", Shape::Record(vec![plan("nr", u8_shape())])),
        ],
    };
    let record = Record {
        tag: "lok".to_owned(),
        fields: vec![
            item("x", num(1)),
            item("a", FieldValue::Record(vec![item("nr", FieldValue::Absent)])),
        ],
    };
    let text = to_string(&record).unwrap();
    assert_eq!(text, "lok\n .x=1\n .a\n");
    assert_eq!(from_str(&text, &shape), Ok(record));
}

fn sequence_of_optionals() -> Vec<FieldShape> {
    vec![plan("f", Shape::Sequence(vec![plan("nr", u8_shape())])), plan("x", u8_shape())]
}

fn blank() -> Vec<Field> {
    vec![item("nr", FieldValue::Absent)]
}

#[test]
fn a_record_without_values_before_another_record_comes_back() {
    let shape = RecordShape { tag: "lok".to_owned(), fields: sequence_of_optionals() };
    let record = Record {
        tag: "lok".to_owned(),
        fields: vec![
            item(
                "f",
                FieldValue::Sequence(vec![
                    blank(),
                    vec![item("nr", num(1))],
                    blank(),
                    blank(),
                    vec![item("nr", num(2))],
                ]),
            ),
            item("x", num(3)),
        ],
    };
    let text = to_string(&record).unwrap();
    assert_eq!(text, "lok\n .f\n\n .f\n ..nr=1\n .f\n .f\n .f\n ..nr=2\n .x=3\n");
    assert_eq!(from_str(&text, &shape), Ok(record));
}

#[test]
fn a_record_without_values_in_a_transparent_root_comes_back() {
    let shape = RecordShape { tag: "[lok]".to_owned(), fields: sequence_of_optionals() };
    let record = Record {
        tag: "[lok]".to_owned(),
        fields: vec![
            item(
                "f",
                FieldValue::Sequence(vec![blank(), blank(), vec![item("nr", num(1))]]),
            ),
            item("x", FieldValue::Absent),
        ],
    };
    let text = to_string(&record).unwrap();
    assert_eq!(text, "[lok]\nf\nf\nf\n .nr=1\n");
    assert_eq!(from_str(&text, &shape), Ok(record));
}

#[test]
fn a_last_record_without_values_before_a_field_does_not_come_back() {
    let shape = RecordShape { tag: "lok".to_owned(), fields: sequence_of_optionals() };
    let record = Record {
        tag: "lok".to_owned(),
        fields: vec![
            item("f", FieldValue::Sequence(vec![vec![item("nr", num(1))], blank()])),
            item("x", num(3)),
        ],
    };
    let text = to_string(&record).unwrap();
    assert_eq!(text, "lok\n .f\n ..nr=1\n .f\n .x=3\n");
    assert_eq!(from_str(&text, &shape), Err(Error::ExpectedNewline));
}

#[test]
fn an_empty_byte_string_comes_back_before_a_line_feed() {
    let shape = RecordShape {
        tag: "lok".to_owned(),
        fields: vec![plan("uid", Shape::Scalar(ScalarKind::Bytes)), plan("x", u8_shape())],
    };
    let record = Record {
        tag: "lok".to_owned(),
        fields: vec![item("uid", FieldValue::Scalar(Scalar::Bytes(vec![]))), item("x", num(3))],
    };
    let text = to_string(&record).unwrap();
    assert_eq!(text, "lok\n .uid=\n .x=3\n");
    assert_eq!(from_str(&text, &shape), Ok(record));
}

#[test]
fn a_field_that_any_text_lacks_has_its_default() {
    let shape = RecordShape {
        tag: "lok".to_owned(),
        fields: vec![
            plan("name", Shape::Scalar(ScalarKind::Str)),
            FieldShape {
                key: "velocity".to_owned(),
                shape: Shape::Scalar(ScalarKind::Unsigned(Width::W16)),
                default: Some(Scalar::Unsigned(0)),
            },
            plan("funktionen", Shape::Sequence(vec![plan("nr", u8_shape())])),
        ],
    };
    let record = from_str("\n   lok\n\t.name=Lok\n\n", &shape).unwrap();
    assert_eq!(record.fields[0], item("name", word("Lok")));
    assert_eq!(record.fields[1], item("velocity", num(0)));
    assert_eq!(record.fields[2], item("funktionen", FieldValue::Absent));
}

#[test]
fn a_record_without_values_before_the_next_block_comes_back() {
    let element = || {
        vec![
            plan("nr", u8_shape()),
            plan("a", Shape::Record(vec![plan("x", u8_shape())])),
            plan("h", Shape::Sequence(vec![plan("x", u8_shape())])),
        ]
    };
    let shape = RecordShape {
        tag: "lok".to_owned(),
        fields: vec![plan("f", Shape::Sequence(element()))],
    };
    let none = || vec![item("x", FieldValue::Absent)];
    let record = Record {
        tag: "lok".to_owned(),
        fields: vec![item(
            "f",
            FieldValue::Sequence(vec![
                vec![
                    item("nr", num(5)),
                    item("a", FieldValue::Record(none())),
                    item("h", FieldValue::Absent),
                ],
                vec![
                    item("nr", FieldValue::Absent),
                    item("a", FieldValue::Absent),
                    item("h", FieldValue::Sequence(vec![none()])),
                ],
                vec![
                    item("nr", num(1)),
                    item("a", FieldValue::Absent),
                    item("h", FieldValue::Absent),
                ],
            ]),
        )],
    };
    let text = to_string(&record).unwrap();
    assert_eq!(text, "lok\n .f\n ..nr=5\n ..a\n\n .f\n ..h\n\n .f\n ..nr=1");
    assert_eq!(from_str(&text, &shape), Ok(record));
}

#[test]
fn a_last_record_without_values_before_an_outer_block_comes_back() {
    let element = || {
        vec![
            plan("nr", u8_shape()),
            plan("h", Shape::Sequence(vec![plan("x", u8_shape())])),
        ]
    };
    let shape = RecordShape {
        tag: "lok".to_owned(),
        fields: vec![plan("f", Shape::Sequence(element()))],
    };
    let record = Record {
        tag: "lok".to_owned(),
        fields: vec![item(
            "f",
            FieldValue::Sequence(vec![
                vec![
                    item("nr", num(5)),
                    item(
                        "h",
                        FieldValue::Sequence(vec![
                            vec![item("x", num(1))],
                            vec![item("x", FieldValue::Absent)],
                        ]),
                    ),
                ],
                vec![item("nr", num(1)), item("h", FieldValue::Absent)],
            ]),
        )],
    };
    let text = to_string(&record).unwrap();
    assert_eq!(text, "lok\n .f\n ..nr=5\n ..h\n ...x=1\n ..h\n .f\n ..nr=1");
    assert_eq!(from_str(&text, &shape), Ok(record));
}

#[test]
fn a_record_without_values_before_a_block_at_depth_zero_comes_back() {
    let element = || {
        vec![
            plan("nr", u8_shape()),
            plan("a", Shape::Record(vec![plan("x", u8_shape())])),
        ]
    };
    let shape = RecordShape {
        tag: "[lok]".to_owned(),
        fields: vec![plan("f", Shape::Sequence(element()))],
    };
    let record = Record {
        tag: "[lok]".to_owned(),
        fields: vec![item(
            "f",
            FieldValue::Sequence(vec![
                vec![
                    item("nr", num(5)),
                    item("a", FieldValue::Record(vec![item("x", FieldValue::Absent)])),
                ],
                vec![item("nr", num(1)), item("a", FieldValue::Absent)],
            ]),
        )],
    };
    let text = to_string(&record).unwrap();
    assert_eq!(text, "[lok]\nf\n .nr=5\n .a\nf\n .nr=1\n");
    assert_eq!(from_str(&text, &shape), Ok(record));
}

#[test]
fn a_last_record_without_values_at_the_very_end_does_not_come_back() {
    let shape = RecordShape { tag: "lok".to_owned(), fields: sequence_of_optionals() };
    let record = Record {
        tag: "lok".to_owned(),
        fields: vec![
            item("f", FieldValue::Sequence(vec![vec![item("nr", num(1))], blank()])),
            item("x", FieldValue::Absent),
        ],
    };
    let text = to_string(&record).unwrap();
    assert_eq!(text, "lok\n .f\n ..nr=1\n .f");
    assert_eq!(from_str(&text, &shape), Err(Error::ExpectedNewline));
}
