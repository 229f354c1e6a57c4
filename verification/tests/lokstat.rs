use serde_cs2::value::{
    Field, FieldShape, FieldValue, Record, RecordShape, Scalar, ScalarKind, Shape, Width,
};

pub struct TrainFunction {
    pub id: u8,
    pub typ: u8,
    pub duration: i8,
    pub value: u8,
}

pub struct TrainDecoder {
    pub name: String,
    pub speed: u16,
    pub direction: u8,
    pub functions: Vec<TrainFunction>,
}

#[derive(Debug)]
pub struct Version {
    major: Option<u8>,
    minor: u8,
}

impl Version {
    pub fn new(major: u8, minor: u8) -> Self {
        if major == 0 {
            Self { major: None, minor }
        } else {
            Self { major: Some(major), minor }
        }
    }
}

#[derive(Debug)]
pub struct LokstatFile {
    version: Version,
    lokomotive: Vec<Lokstat>,
}

impl Default for LokstatFile {
    fn default() -> Self {
        Self { version: Version::new(0, 3), lokomotive: vec![] }
    }
}

impl LokstatFile {
    pub fn add_train(&mut self, decoder: &TrainDecoder) {
        let lokomotive = Lokstat::from(decoder);
        self.lokomotive.push(lokomotive);
    }
}

#[derive(Debug)]
pub struct FunktionStatus {
    nr: u8,
    wert: Option<u8>,
}

impl FunktionStatus {
    pub fn get_id(&self) -> u8 {
        self.nr
    }

    pub fn get_value(&self) -> Option<u8> {
        self.wert
    }
}

#[derive(Debug)]
pub struct Lokstat {
    name: String,
    speed: u16,
    direction: u8,
    funktionen: Vec<FunktionStatus>,
}

impl Lokstat {
    pub fn get_direction(&self) -> u8 {
        self.direction
    }

    pub fn get_name(&self) -> &str {
        self.name.as_str()
    }

    pub fn get_speed(&self) -> u16 {
        self.speed
    }

    pub fn iter_functions(&self) -> std::slice::Iter<'_, FunktionStatus> {
        self.funktionen.iter()
    }
}

impl From<&TrainDecoder> for Lokstat {
    fn from(decoder: &TrainDecoder) -> Self {
        let mut funktionen = vec![];
        for function in &decoder.functions {
            funktionen.push(FunktionStatus { nr: function.id, wert: Some(function.value) });
        }
        while funktionen.len() < 32 {
            funktionen.push(FunktionStatus { nr: funktionen.len() as u8, wert: None });
        }
        Self {
            name: decoder.name.to_owned(),
            speed: decoder.speed,
            direction: decoder.direction,
            funktionen,
        }
    }
}

fn entry(key: &str, value: FieldValue) -> Field {
    Field { key: key.to_owned(), value }
}

fn count(v: u64) -> FieldValue {
    FieldValue::Scalar(Scalar::Unsigned(v))
}

fn optional(v: Option<u8>) -> FieldValue {
    match v {
        Some(v) => count(v as u64),
        None => FieldValue::Absent,
    }
}

fn lokstat_fields(lok: &Lokstat) -> Vec<Field> {
    vec![
        entry("name", FieldValue::Scalar(Scalar::Str(lok.name.clone()))),
        entry("velocity", count(lok.speed as u64)),
        entry("richtung", count(lok.direction as u64)),
        entry(
            "funktionen",
            FieldValue::Sequence(
                lok.funktionen
                    .iter()
                    .map(|f| vec![entry("nr", count(f.nr as u64)), entry("wert", optional(f.wert))])
                    .collect(),
            ),
        ),
    ]
}

fn lokstat_record(lok: &Lokstat) -> Record {
    Record { tag: "lokomotive".to_owned(), fields: lokstat_fields(lok) }
}

fn lokstat_file_record(file: &LokstatFile) -> Record {
    Record {
        tag: "[lokomotive]".to_owned(),
        fields: vec![
            entry(
                "version",
                FieldValue::Record(vec![
                    entry("major", optional(file.version.major)),
                    entry("minor", count(file.version.minor as u64)),
                ]),
            ),
            entry(
                "lokomotive",
                FieldValue::Sequence(file.lokomotive.iter().map(lokstat_fields).collect()),
            ),
        ],
    }
}

fn expect(key: &str, shape: Shape, default: Option<Scalar>) -> FieldShape {
    FieldShape { key: key.to_owned(), shape, default }
}

fn byte() -> Shape {
    Shape::Scalar(ScalarKind::Unsigned(Width::W8))
}

fn lokstat_shapes() -> Vec<FieldShape> {
    vec![
        expect("name", Shape::Scalar(ScalarKind::Str), None),
        expect(
            "velocity",
            Shape::Scalar(ScalarKind::Unsigned(Width::W16)),
            Some(Scalar::Unsigned(0)),
        ),
        expect("richtung", byte(), Some(Scalar::Unsigned(0))),
        expect(
            "funktionen",
            Shape::Sequence(vec![expect("nr", byte(), None), expect("wert", byte(), None)]),
            None,
        ),
    ]
}

fn lokstat_shape() -> RecordShape {
    RecordShape { tag: "lokomotive".to_owned(), fields: lokstat_shapes() }
}

fn lokstat_file_shape() -> RecordShape {
    RecordShape {
        tag: "[lokomotive]".to_owned(),
        fields: vec![
            expect(
                "version",
                Shape::Record(vec![expect("major", byte(), None), expect("minor", byte(), None)]),
                None,
            ),
            expect("lokomotive", Shape::Sequence(lokstat_shapes()), None),
        ],
    }
}

fn small(value: &FieldValue) -> Option<u64> {
    match value {
        FieldValue::Absent => None,
        FieldValue::Scalar(Scalar::Unsigned(v)) => Some(*v),
        other => panic!("expected an unsigned number, found {:?}", other),
    }
}

fn lokstat_value(fields: &Vec<Field>) -> Lokstat {
    Lokstat {
        name: match &fields[0].value {
            FieldValue::Scalar(Scalar::Str(name)) => name.clone(),
            other => panic!("expected a string, found {:?}", other),
        },
        speed: small(&fields[1].value).unwrap() as u16,
        direction: small(&fields[2].value).unwrap() as u8,
        funktionen: match &fields[3].value {
            FieldValue::Absent => vec![],
            FieldValue::Sequence(elements) => elements
                .iter()
                .map(|e| FunktionStatus {
                    nr: small(&e[0].value).unwrap() as u8,
                    wert: small(&e[1].value).map(|v| v as u8),
                })
                .collect(),
            other => panic!("expected a sequence, found {:?}", other),
        },
    }
}

fn lokstat_file_value(record: &Record) -> LokstatFile {
    assert_eq!(record.tag, "[lokomotive]");
    LokstatFile {
        version: match &record.fields[0].value {
            FieldValue::Record(fields) => Version {
                major: small(&fields[0].value).map(|v| v as u8),
                minor: small(&fields[1].value).unwrap() as u8,
            },
            other => panic!("expected a record, found {:?}", other),
        },
        lokomotive: match &record.fields[1].value {
            FieldValue::Absent => vec![],
            FieldValue::Sequence(elements) => elements.iter().map(lokstat_value).collect(),
            other => panic!("expected a sequence, found {:?}", other),
        },
    }
}

fn lokstat_to_string(lok: &Lokstat) -> Result<String, serde_cs2::ser::Error> {
    serde_cs2::to_string(&lokstat_record(lok))
}

fn lokstat_from_str(cs2: &str) -> Result<Lokstat, serde_cs2::Error> {
    serde_cs2::from_str(cs2, &lokstat_shape()).map(|record| lokstat_value(&record.fields))
}

fn lokstat_file_to_string(file: &LokstatFile) -> Result<String, serde_cs2::ser::Error> {
    serde_cs2::to_string(&lokstat_file_record(file))
}

fn lokstat_file_from_str(cs2: &str) -> Result<LokstatFile, serde_cs2::Error> {
    serde_cs2::from_str(cs2, &lokstat_file_shape()).map(|record| lokstat_file_value(&record))
}

#[test]
fn lokstat() {
    let mut train = TrainDecoder {
        name: "01 133 DB".to_string(),
        speed: 255,
        direction: 1,
        functions: vec![],
    };
    train.functions.push(TrainFunction { id: 0, duration: 1, typ: 1, value: 1 });

    let lokomotive = Lokstat::from(&train);
    let serialized = lokstat_to_string(&lokomotive).unwrap();
    println!("{}", serialized);

    let cs2_str = r#"lokomotive
 .name=01 133 DB
 .velocity=255
 .richtung=1
 .funktionen
 ..nr=0
 ..wert=1
 .funktionen
 ..nr=1
 .funktionen
 ..nr=2
 .funktionen
 ..nr=3
 .funktionen
 ..nr=4
 .funktionen
 ..nr=5
 .funktionen
 ..nr=6
 .funktionen
 ..nr=7
 .funktionen
 ..nr=8
 .funktionen
 ..nr=9
 .funktionen
 ..nr=10
 .funktionen
 ..nr=11
 .funktionen
 ..nr=12
 .funktionen
 ..nr=13
 .funktionen
 ..nr=14
 .funktionen
 ..nr=15
 .funktionen
 ..nr=16
 .funktionen
 ..nr=17
 .funktionen
 ..nr=18
 .funktionen
 ..nr=19
 .funktionen
 ..nr=20
 .funktionen
 ..nr=21
 .funktionen
 ..nr=22
 .funktionen
 ..nr=23
 .funktionen
 ..nr=24
 .funktionen
 ..nr=25
 .funktionen
 ..nr=26
 .funktionen
 ..nr=27
 .funktionen
 ..nr=28
 .funktionen
 ..nr=29
 .funktionen
 ..nr=30
 .funktionen
 ..nr=31"#;

    assert_eq!(serialized, cs2_str);

    let lokstat: Lokstat = lokstat_from_str(serialized.as_str()).unwrap();
    assert_eq!(lokstat.get_direction(), 1);
    assert_eq!(lokstat.get_speed(), 255);

    for (index, function) in lokstat.iter_functions().enumerate() {
        assert_eq!(function.get_id(), index as u8);
        if index == 0 {
            assert_eq!(function.get_value(), Some(1));
        } else {
            assert_eq!(function.get_value(), None);
        }
    }
}

#[test]
fn lokstat_file_simple() {
    let mut train = TrainDecoder {
        name: "01 133 DB".to_string(),
        speed: 255,
        direction: 1,
        functions: vec![],
    };
    train.functions.push(TrainFunction { id: 0, duration: 1, typ: 1, value: 1 });

    let mut lokstat = LokstatFile::default();
    lokstat.add_train(&train);
    let serialized = lokstat_file_to_string(&lokstat).unwrap();

    let cs2_str = r#"[lokomotive]
version
 .minor=3
lokomotive
 .name=01 133 DB
 .velocity=255
 .richtung=1
 .funktionen
 ..nr=0
 ..wert=1
 .funktionen
 ..nr=1
 .funktionen
 ..nr=2
 .funktionen
 ..nr=3
 .funktionen
 ..nr=4
 .funktionen
 ..nr=5
 .funktionen
 ..nr=6
 .funktionen
 ..nr=7
 .funktionen
 ..nr=8
 .funktionen
 ..nr=9
 .funktionen
 ..nr=10
 .funktionen
 ..nr=11
 .funktionen
 ..nr=12
 .funktionen
 ..nr=13
 .funktionen
 ..nr=14
 .funktionen
 ..nr=15
 .funktionen
 ..nr=16
 .funktionen
 ..nr=17
 .funktionen
 ..nr=18
 .funktionen
 ..nr=19
 .funktionen
 ..nr=20
 .funktionen
 ..nr=21
 .funktionen
 ..nr=22
 .funktionen
 ..nr=23
 .funktionen
 ..nr=24
 .funktionen
 ..nr=25
 .funktionen
 ..nr=26
 .funktionen
 ..nr=27
 .funktionen
 ..nr=28
 .funktionen
 ..nr=29
 .funktionen
 ..nr=30
 .funktionen
 ..nr=31"#;

    assert_eq!(serialized, cs2_str);

    let lokstat_file: LokstatFile = lokstat_file_from_str(serialized.as_str()).unwrap();
    assert_eq!(lokstat_file.lokomotive.len(), 1);

    let lokstat = lokstat_file.lokomotive.first().unwrap();
    assert_eq!(lokstat.get_direction(), 1);
    assert_eq!(lokstat.get_speed(), 255);
}

#[test]
fn lokstat_file_full() {
    let mut lokstat = LokstatFile::default();

    let mut train = TrainDecoder {
        name: "01 133 DB".to_string(),
        speed: 255,
        direction: 1,
        functions: vec![],
    };
    train.functions.push(TrainFunction { id: 0, duration: 1, typ: 1, value: 1 });
    lokstat.add_train(&train);

    let mut train = TrainDecoder {
        name: "02".to_string(),
        speed: 200,
        direction: 0,
        functions: vec![],
    };
    train.functions.push(TrainFunction { id: 0, duration: 1, typ: 1, value: 1 });
    lokstat.add_train(&train);

    let serialized = lokstat_file_to_string(&lokstat).unwrap();

    let cs2_str = r#"[lokomotive]
version
 .minor=3
lokomotive
 .name=01 133 DB
 .velocity=255
 .richtung=1
 .funktionen
 ..nr=0
 ..wert=1
 .funktionen
 ..nr=1
 .funktionen
 ..nr=2
 .funktionen
 ..nr=3
 .funktionen
 ..nr=4
 .funktionen
 ..nr=5
 .funktionen
 ..nr=6
 .funktionen
 ..nr=7
 .funktionen
 ..nr=8
 .funktionen
 ..nr=9
 .funktionen
 ..nr=10
 .funktionen
 ..nr=11
 .funktionen
 ..nr=12
 .funktionen
 ..nr=13
 .funktionen
 ..nr=14
 .funktionen
 ..nr=15
 .funktionen
 ..nr=16
 .funktionen
 ..nr=17
 .funktionen
 ..nr=18
 .funktionen
 ..nr=19
 .funktionen
 ..nr=20
 .funktionen
 ..nr=21
 .funktionen
 ..nr=22
 .funktionen
 ..nr=23
 .funktionen
 ..nr=24
 .funktionen
 ..nr=25
 .funktionen
 ..nr=26
 .funktionen
 ..nr=27
 .funktionen
 ..nr=28
 .funktionen
 ..nr=29
 .funktionen
 ..nr=30
 .funktionen
 ..nr=31
lokomotive
 .name=02
 .velocity=200
 .richtung=0
 .funktionen
 ..nr=0
 ..wert=1
 .funktionen
 ..nr=1
 .funktionen
 ..nr=2
 .funktionen
 ..nr=3
 .funktionen
 ..nr=4
 .funktionen
 ..nr=5
 .funktionen
 ..nr=6
 .funktionen
 ..nr=7
 .funktionen
 ..nr=8
 .funktionen
 ..nr=9
 .funktionen
 ..nr=10
 .funktionen
 ..nr=11
 .funktionen
 ..nr=12
 .funktionen
 ..nr=13
 .funktionen
 ..nr=14
 .funktionen
 ..nr=15
 .funktionen
 ..nr=16
 .funktionen
 ..nr=17
 .funktionen
 ..nr=18
 .funktionen
 ..nr=19
 .funktionen
 ..nr=20
 .funktionen
 ..nr=21
 .funktionen
 ..nr=22
 .funktionen
 ..nr=23
 .funktionen
 ..nr=24
 .funktionen
 ..nr=25
 .funktionen
 ..nr=26
 .funktionen
 ..nr=27
 .funktionen
 ..nr=28
 .funktionen
 ..nr=29
 .funktionen
 ..nr=30
 .funktionen
 ..nr=31"#;

    assert_eq!(serialized, cs2_str);

    let lokstat_file: LokstatFile = lokstat_file_from_str(serialized.as_str()).unwrap();
    assert_eq!(lokstat_file.lokomotive.len(), 2);

    let lokstat = lokstat_file.lokomotive.first().unwrap();
    assert_eq!(lokstat.get_direction(), 1);
    assert_eq!(lokstat.get_speed(), 255);

    let lokstat = lokstat_file.lokomotive.last().unwrap();
    assert_eq!(lokstat.get_direction(), 0);
    assert_eq!(lokstat.get_speed(), 200);
}
