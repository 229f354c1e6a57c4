use serde_cs2::ser::{Error, UnsupportedType};
use serde_cs2::Serializer;

#[test]
fn a_new_encoder_is_empty() {
    let ser = Serializer::default();
    assert_eq!(ser.level(), 0);
    assert_eq!(ser.finish(), "");
}

#[test]
fn scalars_are_written_as_text() {
    let mut ser = Serializer::default();
    ser.serialize_bool(true).unwrap();
    ser.serialize_bool(false).unwrap();
    ser.serialize_str(" ").unwrap();
    ser.serialize_i64(-42).unwrap();
    ser.serialize_str(" ").unwrap();
    ser.serialize_u64(18446744073709551615).unwrap();
    ser.serialize_str(" ").unwrap();
    ser.serialize_i64(i64::MIN).unwrap();
    ser.serialize_str(" ").unwrap();
    ser.serialize_u64(0).unwrap();
    assert_eq!(ser.finish(), "10 -42 18446744073709551615 -9223372036854775808 0");
}

#[test]
fn narrow_numbers_are_written_like_wide_ones() {
    let mut ser = Serializer::default();
    ser.serialize_i8(-128).unwrap();
    ser.serialize_str(",").unwrap();
    ser.serialize_i16(-32768).unwrap();
    ser.serialize_str(",").unwrap();
    ser.serialize_i32(2147483647).unwrap();
    ser.serialize_str(",").unwrap();
    ser.serialize_u8(255).unwrap();
    ser.serialize_str(",").unwrap();
    ser.serialize_u16(65535).unwrap();
    ser.serialize_str(",").unwrap();
    ser.serialize_u32(10).unwrap();
    assert_eq!(ser.finish(), "-128,-32768,2147483647,255,65535,10");
}

#[test]
fn bytes_are_written_as_numerals_in_a_row() {
    let mut ser = Serializer::default();
    ser.serialize_bytes(&[1, 20, 255, 0]).unwrap();
    assert_eq!(ser.finish(), "1202550");
    let mut ser = Serializer::default();
    ser.serialize_bytes(&[]).unwrap();
    assert_eq!(ser.finish(), "");
}

#[test]
fn field_lines_carry_one_dot_for_each_level() {
    let mut ser = Serializer::default();
    ser.serialize_struct("a", 1).unwrap();
    assert_eq!(ser.level(), 1);
    ser.serialize_field("b").unwrap();
    ser.serialize_struct("b", 1).unwrap();
    assert_eq!(ser.level(), 2);
    ser.serialize_field("c").unwrap();
    ser.serialize_struct("c", 1).unwrap();
    assert_eq!(ser.level(), 3);
    ser.serialize_field("x").unwrap();
    ser.serialize_u8(1).unwrap();
    ser.end().unwrap();
    ser.serialize_field("y").unwrap();
    ser.serialize_u8(2).unwrap();
    ser.end().unwrap();
    ser.serialize_field("z").unwrap();
    ser.serialize_u8(3).unwrap();
    ser.end().unwrap();
    assert_eq!(ser.level(), 0);
    assert_eq!(ser.finish(), "a\n .b\n ..c\n ...x=1\n ..y=2\n .z=3\n");
}

#[test]
fn the_transparent_root_does_not_indent() {
    let mut ser = Serializer::default();
    ser.serialize_struct("[root]", 2).unwrap();
    assert_eq!(ser.level(), 0);
    ser.serialize_field("size").unwrap();
    ser.serialize_u8(3).unwrap();
    ser.serialize_field("version").unwrap();
    ser.serialize_struct("version", 1).unwrap();
    assert_eq!(ser.level(), 1);
    ser.serialize_field("minor").unwrap();
    ser.serialize_u8(3).unwrap();
    ser.end().unwrap();
    assert_eq!(ser.level(), 0);
    ser.end().unwrap();
    assert_eq!(ser.level(), 0);
    assert_eq!(ser.finish(), "[root]\nsize=3\nversion\n .minor=3\n");
}

#[test]
fn a_bracketed_tag_below_the_root_counts_as_a_level() {
    let mut ser = Serializer::default();
    ser.serialize_struct("a", 1).unwrap();
    ser.serialize_struct("[b]", 0).unwrap();
    assert_eq!(ser.level(), 2);
    assert_eq!(ser.finish(), "a\n .[b]");
}

#[test]
fn a_record_under_another_key_gets_a_header_of_its_own() {
    let mut ser = Serializer::default();
    ser.serialize_struct("a", 1).unwrap();
    ser.serialize_field("xb").unwrap();
    ser.serialize_struct("b", 1).unwrap();
    ser.serialize_field("v").unwrap();
    ser.serialize_u8(1).unwrap();
    assert_eq!(ser.finish(), "a\n .xb\n .b\n ..v=1");
}

#[test]
fn a_value_that_ends_like_a_tag_does_not_stand_for_the_header() {
    let mut ser = Serializer::default();
    ser.serialize_struct("lok", 1).unwrap();
    ser.serialize_field("f").unwrap();
    ser.serialize_struct("f", 1).unwrap();
    ser.serialize_field("g").unwrap();
    ser.serialize_str("f").unwrap();
    ser.end().unwrap();
    ser.serialize_struct("f", 1).unwrap();
    ser.serialize_field("g").unwrap();
    ser.serialize_str("x=").unwrap();
    ser.end().unwrap();
    ser.serialize_struct("f", 1).unwrap();
    ser.end().unwrap();
    ser.end().unwrap();
    assert_eq!(ser.finish(), "lok\n .f\n ..g=f\n .f\n ..g=x=\n .f");
}

#[test]
fn tuple_elements_are_parted_by_single_spaces() {
    let mut ser = Serializer::default();
    ser.serialize_struct("lok", 1).unwrap();
    ser.serialize_field("blocks").unwrap();
    ser.serialize_tuple(3).unwrap();
    ser.serialize_element().unwrap();
    ser.serialize_u8(1).unwrap();
    ser.serialize_element().unwrap();
    ser.serialize_str("=").unwrap();
    ser.serialize_element().unwrap();
    ser.serialize_u8(3).unwrap();
    ser.end().unwrap();
    assert_eq!(ser.finish(), "lok\n .blocks=1 = 3\n");
}

#[test]
fn a_tuple_outside_a_field_begins_with_a_space() {
    let mut ser = Serializer::default();
    ser.serialize_element().unwrap();
    ser.serialize_u8(1).unwrap();
    ser.serialize_element().unwrap();
    ser.serialize_u8(2).unwrap();
    assert_eq!(ser.finish(), " 1 2");
}

#[test]
fn an_absent_value_leaves_no_line() {
    let mut ser = Serializer::default();
    ser.serialize_struct("lok", 2).unwrap();
    ser.serialize_field("a").unwrap();
    ser.serialize_none().unwrap();
    ser.serialize_field("b").unwrap();
    ser.serialize_u8(1).unwrap();
    ser.end().unwrap();
    assert_eq!(ser.finish(), "lok\n .b=1\n");
}

#[test]
fn a_field_is_written_with_its_value() {
    let mut ser = Serializer::default();
    ser.serialize_struct("lok", 1).unwrap();
    ser.serialize_field("a").unwrap();
    assert_eq!(ser.level(), 1);
    let mut other = Serializer::default();
    other.serialize_struct("lok", 1).unwrap();
    assert_eq!(ser.finish(), other.finish());
    let mut ser = Serializer::default();
    ser.serialize_struct("lok", 1).unwrap();
    ser.serialize_field("a").unwrap();
    ser.serialize_str("").unwrap();
    assert_eq!(ser.finish(), "lok\n .a=\n");
    let mut ser = Serializer::default();
    ser.serialize_struct("lok", 1).unwrap();
    ser.serialize_field("a").unwrap();
    ser.serialize_bytes(&[]).unwrap();
    assert_eq!(ser.finish(), "lok\n .a=\n");
}

#[test]
fn an_absent_value_before_a_record_does_not_lend_its_key() {
    let mut ser = Serializer::default();
    ser.serialize_struct("lok", 2).unwrap();
    ser.serialize_field("f").unwrap();
    ser.serialize_none().unwrap();
    ser.serialize_struct("f", 1).unwrap();
    ser.serialize_field("nr").unwrap();
    ser.serialize_u8(1).unwrap();
    assert_eq!(ser.finish(), "lok\n .f\n ..nr=1");
}

#[test]
fn an_absent_value_and_a_sequence_write_nothing() {
    let mut ser = Serializer::default();
    ser.serialize_none().unwrap();
    ser.serialize_seq(Some(3)).unwrap();
    ser.serialize_seq(None).unwrap();
    ser.serialize_tuple(2).unwrap();
    assert_eq!(ser.finish(), "");
}

#[test]
fn kinds_without_encoding_are_refused() {
    let mut ser = Serializer::default();
    assert_eq!(ser.serialize_char('c'), Err(Error::UnsupportedType(UnsupportedType::Char)));
    assert_eq!(ser.serialize_unit(), Err(Error::UnsupportedType(UnsupportedType::Unit)));
    assert_eq!(
        ser.serialize_unit_struct("u"),
        Err(Error::UnsupportedType(UnsupportedType::UnitStruct))
    );
    assert_eq!(
        ser.serialize_unit_variant("e", 0, "v"),
        Err(Error::UnsupportedType(UnsupportedType::UnitVariant))
    );
    assert_eq!(
        ser.serialize_newtype_struct("n"),
        Err(Error::UnsupportedType(UnsupportedType::NewtypeStruct))
    );
    assert_eq!(
        ser.serialize_newtype_variant("e", 0, "v"),
        Err(Error::UnsupportedType(UnsupportedType::NewtypeVariant))
    );
    assert_eq!(
        ser.unsupported(UnsupportedType::Float),
        Err(Error::UnsupportedType(UnsupportedType::Float))
    );
    assert_eq!(
        ser.unsupported(UnsupportedType::Mapping),
        Err(Error::UnsupportedType(UnsupportedType::Mapping))
    );
    assert_eq!(ser.finish(), "");
}

#[test]
fn ending_at_depth_zero_stays_at_zero() {
    let mut ser = Serializer::default();
    ser.end().unwrap();
    assert_eq!(ser.level(), 0);
}

#[test]
fn only_a_last_line_at_depth_one_is_closed() {
    let mut ser = Serializer::default();
    ser.serialize_str("lok\n .a=1").unwrap();
    assert_eq!(ser.finish(), "lok\n .a=1\n");
    let mut ser = Serializer::default();
    ser.serialize_str("lok\n .a\n ..b=1").unwrap();
    assert_eq!(ser.finish(), "lok\n .a\n ..b=1");
    let mut ser = Serializer::default();
    ser.serialize_str("[lok]\na=1").unwrap();
    assert_eq!(ser.finish(), "[lok]\na=1");
    let mut ser = Serializer::default();
    ser.serialize_str("lok\n .a").unwrap();
    assert_eq!(ser.finish(), "lok\n .a");
    let mut ser = Serializer::default();
    ser.serialize_str("lok\n .a=\n").unwrap();
    assert_eq!(ser.finish(), "lok\n .a=\n");
    let mut ser = Serializer::default();
    ser.serialize_str(" .a=").unwrap();
    assert_eq!(ser.finish(), " .a=\n");
}

#[test]
fn encoder_errors_describe_themselves() {
    assert_eq!(Error::Custom("broken".to_owned()).to_string(), "broken");
    assert_eq!(
        Error::UnsupportedType(UnsupportedType::Mapping).to_string(),
        "Map cannot be serialized into cs2"
    );
    assert_eq!(
        Error::UnsupportedType(UnsupportedType::NewtypeStruct).to_string(),
        "NewtypeStruct cannot be serialized into cs2"
    );
    assert_eq!(
        Error::UnsupportedType(UnsupportedType::NewtypeVariant).to_string(),
        "NewtypeVariant cannot be serialized into cs2"
    );
    assert_eq!(
        Error::UnsupportedType(UnsupportedType::Unit).to_string(),
        "Unit cannot be serialized into cs2"
    );
    assert_eq!(
        Error::UnsupportedType(UnsupportedType::UnitStruct).to_string(),
        "UnitStruct cannot be serialized into cs2"
    );
    assert_eq!(
        Error::UnsupportedType(UnsupportedType::UnitVariant).to_string(),
        "UnitVariant cannot be serialized into cs2"
    );
    assert_eq!(
        Error::UnsupportedType(UnsupportedType::Char).to_string(),
        "Char cannot be serialized into cs2"
    );
    assert_eq!(
        Error::UnsupportedType(UnsupportedType::Float).to_string(),
        "Float cannot be serialized into cs2"
    );
}
