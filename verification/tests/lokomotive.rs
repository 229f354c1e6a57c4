use serde_cs2::value::{
    Field, FieldShape, FieldValue, Record, RecordShape, Scalar, ScalarKind, Shape, Width,
};

#[derive(Clone, Debug, PartialEq)]
pub struct Funktionen2 {
    pub nr: u8,
    pub typ: Option<u16>,
    pub dauer: i8,
    pub wert: u8,
}

#[derive(Clone, Debug, PartialEq)]
pub struct Funktionen {
    pub nr: u8,
    pub typ: u16,
    pub dauer: i8,
    pub wert: u8,
}

#[derive(Debug, PartialEq)]
struct Lokomotive {
    name: String,
    vorname: String,
    uid: u16,
    mfxuid: Option<u32>,
    adresse: u16,
    funktionen: Vec<Funktionen>,
    funktionen_2: Vec<Funktionen2>,
    blocks: Option<[u8; 16]>,
}

fn field(key: &str, value: FieldValue) -> Field {
    Field { key: key.to_owned(), value }
}

fn unsigned(v: u64) -> FieldValue {
    FieldValue::Scalar(Scalar::Unsigned(v))
}

fn signed(v: i64) -> FieldValue {
    FieldValue::Scalar(Scalar::Signed(v))
}

fn text(v: &str) -> FieldValue {
    FieldValue::Scalar(Scalar::Str(v.to_owned()))
}

fn funktionen_fields(f: &Funktionen) -> Vec<Field> {
    vec![
        field("nr", unsigned(f.nr as u64)),
        field("typ", unsigned(f.typ as u64)),
        field("dauer", signed(f.dauer as i64)),
        field("wert", unsigned(f.wert as u64)),
    ]
}

fn funktionen_2_fields(f: &Funktionen2) -> Vec<Field> {
    vec![
        field("nr", unsigned(f.nr as u64)),
        field("typ", match f.typ {
            Some(typ) => unsigned(typ as u64),
            None => FieldValue::Absent,
        }),
        field("dauer", signed(f.dauer as i64)),
        field("wert", unsigned(f.wert as u64)),
    ]
}

fn lokomotive_record(lok: &Lokomotive) -> Record {
    Record {
        tag: "lokomotive".to_owned(),
        fields: vec![
            field("name", text(&lok.name)),
            field("vorname", if lok.vorname.is_empty() {
                FieldValue::Absent
            } else {
                text(&lok.vorname)
            }),
            field("uid", text(&format!("0x{:04x}", lok.uid))),
            field("mfxuid", match lok.mfxuid {
                Some(mfxuid) => text(&format!("0x{:08x}", mfxuid)),
                None => FieldValue::Absent,
            }),
            field("adresse", text(&format!("0x{:x}", lok.adresse))),
            field("funktionen", if lok.funktionen.is_empty() {
                FieldValue::Absent
            } else {
                FieldValue::Sequence(lok.funktionen.iter().map(funktionen_fields).collect())
            }),
            field("funktionen_2", if lok.funktionen_2.is_empty() {
                FieldValue::Absent
            } else {
                FieldValue::Sequence(lok.funktionen_2.iter().map(funktionen_2_fields).collect())
            }),
            field("blocks", match &lok.blocks {
                Some(blocks) => {
                    FieldValue::Tuple(blocks.iter().map(|b| Scalar::Unsigned(*b as u64)).collect())
                },
                None => FieldValue::Absent,
            }),
        ],
    }
}

fn shape(key: &str, shape: Shape) -> FieldShape {
    FieldShape { key: key.to_owned(), shape, default: None }
}

fn funktionen_shape() -> Vec<FieldShape> {
    vec![
        shape("nr", Shape::Scalar(ScalarKind::Unsigned(Width::W8))),
        shape("typ", Shape::Scalar(ScalarKind::Unsigned(Width::W16))),
        shape("dauer", Shape::Scalar(ScalarKind::Signed(Width::W8))),
        shape("wert", Shape::Scalar(ScalarKind::Unsigned(Width::W8))),
    ]
}

fn lokomotive_shape() -> RecordShape {
    RecordShape {
        tag: "lokomotive".to_owned(),
        fields: vec![
            shape("name", Shape::Scalar(ScalarKind::Str)),
            FieldShape {
                key: "vorname".to_owned(),
                shape: Shape::Scalar(ScalarKind::Str),
                default: Some(Scalar::Str(String::new())),
            },
            shape("uid", Shape::Scalar(ScalarKind::Bytes)),
            shape("mfxuid", Shape::Scalar(ScalarKind::Bytes)),
            shape("adresse", Shape::Scalar(ScalarKind::Bytes)),
            shape("funktionen", Shape::Sequence(funktionen_shape())),
            shape("funktionen_2", Shape::Sequence(funktionen_shape())),
            shape("blocks", Shape::Tuple(ScalarKind::Unsigned(Width::W8), 16)),
        ],
    }
}

fn number(value: &FieldValue) -> u64 {
    match value {
        FieldValue::Scalar(Scalar::Unsigned(v)) => *v,
        other => panic!("expected an unsigned number, found {:?}", other),
    }
}

fn negative(value: &FieldValue) -> i64 {
    match value {
        FieldValue::Scalar(Scalar::Signed(v)) => *v,
        other => panic!("expected a signed number, found {:?}", other),
    }
}

fn hex(value: &FieldValue) -> Option<u32> {
    match value {
        FieldValue::Absent => None,
        FieldValue::Scalar(Scalar::Bytes(digits)) => {
            Some(u32::from_str_radix(std::str::from_utf8(digits).unwrap(), 16).unwrap())
        },
        other => panic!("expected hexadecimal digits, found {:?}", other),
    }
}

fn string(value: &FieldValue) -> String {
    match value {
        FieldValue::Scalar(Scalar::Str(v)) => v.clone(),
        other => panic!("expected a string, found {:?}", other),
    }
}

fn elements(value: &FieldValue) -> Vec<&Vec<Field>> {
    match value {
        FieldValue::Absent => vec![],
        FieldValue::Sequence(elements) => elements.iter().collect(),
        other => panic!("expected a sequence, found {:?}", other),
    }
}

fn lokomotive_value(record: &Record) -> Lokomotive {
    assert_eq!(record.tag, "lokomotive");
    let f = &record.fields;
    let keys: Vec<&str> = f.iter().map(|field| field.key.as_str()).collect();
    assert_eq!(
        keys,
        vec!["name", "vorname", "uid", "mfxuid", "adresse", "funktionen", "funktionen_2", "blocks"]
    );
    Lokomotive {
        name: string(&f[0].value),
        vorname: string(&f[1].value),
        uid: hex(&f[2].value).unwrap() as u16,
        mfxuid: hex(&f[3].value),
        adresse: hex(&f[4].value).unwrap() as u16,
        funktionen: elements(&f[5].value)
            .into_iter()
            .map(|e| Funktionen {
                nr: number(&e[0].value) as u8,
                typ: number(&e[1].value) as u16,
                dauer: negative(&e[2].value) as i8,
                wert: number(&e[3].value) as u8,
            })
            .collect(),
        funktionen_2: elements(&f[6].value)
            .into_iter()
            .map(|e| Funktionen2 {
                nr: number(&e[0].value) as u8,
                typ: match &e[1].value {
                    FieldValue::Absent => None,
                    other => Some(number(other) as u16),
                },
                dauer: negative(&e[2].value) as i8,
                wert: number(&e[3].value) as u8,
            })
            .collect(),
        blocks: match &f[7].value {
            FieldValue::Absent => None,
            FieldValue::Tuple(items) => {
                let mut blocks = [0u8; 16];
                assert_eq!(items.len(), 16);
                for (i, item) in items.iter().enumerate() {
                    blocks[i] = match item {
                        Scalar::Unsigned(v) => *v as u8,
                        other => panic!("expected an unsigned number, found {:?}", other),
                    };
                }
                Some(blocks)
            },
            other => panic!("expected a tuple, found {:?}", other),
        },
    }
}

fn lokomotive_from_str(cs2: &str) -> Result<Lokomotive, serde_cs2::Error> {
    serde_cs2::from_str(cs2, &lokomotive_shape()).map(|record| lokomotive_value(&record))
}

fn lokomotive_to_string(lok: &Lokomotive) -> Result<String, serde_cs2::ser::Error> {
    serde_cs2::to_string(&lokomotive_record(lok))
}

#[test]
fn lokomotive_serialize() {
    let lokomotive = Lokomotive {
        name: "Lok".to_owned(),
        vorname: "".to_owned(),
        uid: 0x4001,
        mfxuid: None,
        adresse: 5,
        funktionen: vec![],
        funktionen_2: vec![],
        blocks: None,
    };

    let str = r#"lokomotive
 .name=Lok
 .uid=0x4001
 .adresse=0x5
"#;

    let serialized = lokomotive_to_string(&lokomotive).unwrap();
    assert_eq!(str, serialized);

    let lokomotive = Lokomotive {
        name: "Lok".to_owned(),
        vorname: "".to_owned(),
        uid: 0x4001,
        mfxuid: None,
        adresse: 5,
        funktionen: [
            Funktionen { nr: 1, typ: 1, dauer: -1, wert: 0 },
            Funktionen { nr: 2, typ: 2, dauer: 0, wert: 0 },
        ]
        .to_vec(),
        funktionen_2: [
            Funktionen2 { nr: 16, typ: Some(16), dauer: 0, wert: 0 },
            Funktionen2 { nr: 17, typ: Some(17), dauer: 0, wert: 0 },
        ]
        .to_vec(),
        blocks: Some([0; 16]),
    };

    let serialized = lokomotive_to_string(&lokomotive).unwrap();

    let str = r#"lokomotive
 .name=Lok
 .uid=0x4001
 .adresse=0x5
 .funktionen
 ..nr=1
 ..typ=1
 ..dauer=-1
 ..wert=0
 .funktionen
 ..nr=2
 ..typ=2
 ..dauer=0
 ..wert=0
 .funktionen_2
 ..nr=16
 ..typ=16
 ..dauer=0
 ..wert=0
 .funktionen_2
 ..nr=17
 ..typ=17
 ..dauer=0
 ..wert=0
 .blocks=0 0 0 0 0 0 0 0 0 0 0 0 0 0 0 0
"#;

    assert_eq!(str, serialized);
}

#[test]
fn lokomotive_deserialize() {
    let expected = Lokomotive {
        name: "Lok".to_owned(),
        vorname: "".to_owned(),
        uid: 0x4001,
        mfxuid: None,
        adresse: 5,
        funktionen: vec![],
        funktionen_2: vec![],
        blocks: None,
    };

    let cs2 = r#"lokomotive
     .name=Lok
     .uid=0x4001
     .adresse=0x5"#;
    assert_eq!(expected, lokomotive_from_str(cs2).unwrap());

    let cs2 = r#"
    lokomotive
     .name=Lok
     .uid=0x4001
     .adresse=0x5"#;
    assert_eq!(expected, lokomotive_from_str(cs2).unwrap());

    let cs2 = r#"
    lokomotive
     .name=Lok
     .uid=0x4001
     .adresse=0x5
    "#;
    assert_eq!(expected, lokomotive_from_str(cs2).unwrap());

    let expected = Lokomotive {
        name: "Lok".to_owned(),
        vorname: "".to_owned(),
        uid: 0x4001,
        mfxuid: Some(0xffcd995d),
        adresse: 5,
        funktionen: [
            Funktionen { nr: 1, typ: 1, dauer: -1, wert: 0 },
            Funktionen { nr: 2, typ: 2, dauer: 0, wert: 0 },
        ]
        .to_vec(),
        funktionen_2: [
            Funktionen2 { nr: 16, typ: Some(16), dauer: 0, wert: 0 },
            Funktionen2 { nr: 17, typ: Some(17), dauer: 0, wert: 0 },
        ]
        .to_vec(),
        blocks: Some([0; 16]),
    };

    let cs2 = r#"
        lokomotive
         .name=Lok
         .uid=0x4001
         .mfxuid=0xffcd995d
         .adresse=0x5
         .funktionen
         ..nr=1
         ..typ=1
         ..dauer=-1
         ..wert=0
         .funktionen
         ..nr=2
         ..typ=2
         ..dauer=0
         ..wert=0
         .funktionen_2
         ..nr=16
         ..typ=16
         ..dauer=0
         ..wert=0
         .funktionen_2
         ..nr=17
         ..typ=17
         ..dauer=0
         ..wert=0
         .blocks=0 0 0 0 0 0 0 0 0 0 0 0 0 0 0 0
        "#;

    assert_eq!(expected, lokomotive_from_str(cs2).unwrap());

    assert_eq!(
        expected,
        lokomotive_from_str(&lokomotive_to_string(&expected).unwrap()).unwrap()
    );
}
