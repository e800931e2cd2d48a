use proto2ts::parser::{parse_enum, parse_message, parse_proto, ParseError};
use proto2ts::schema::{EnumField, MessageField, ProtoBuf};

#[test]
fn field_line_plain() {
    let f = parse_message("string name = 1;").unwrap();
    assert_eq!(f.name, "name");
    assert_eq!(f.field, "string");
    assert!(!f.optional);
    assert!(!f.repeated);
}

#[test]
fn field_line_optional() {
    let f = parse_message("optional int32 age = 2;").unwrap();
    assert_eq!(f.name, "age");
    assert_eq!(f.field, "number");
    assert!(f.optional);
    assert!(!f.repeated);
}

#[test]
fn field_line_repeated() {
    let f = parse_message("repeated bytes tags = 3;").unwrap();
    assert_eq!(f.name, "tags");
    assert_eq!(f.field, "Uint8Array");
    assert!(f.repeated);
    assert!(!f.optional);
}

#[test]
fn field_line_nominal_type_passes_through() {
    let f = parse_message("MyEnum status = 4;").unwrap();
    assert_eq!(f.field, "MyEnum");
    assert_eq!(f.name, "status");
}

#[test]
fn field_modifiers_never_both_set() {
    let lines = [
        "optional int32 a = 1;",
        "repeated int32 b = 2;",
        "int32 c = 3;",
        "optional optional d = 4;",
    ];
    for line in lines {
        let f = parse_message(line).unwrap();
        assert!(!(f.optional && f.repeated));
    }
}

#[test]
fn field_line_without_name_fails() {
    assert_eq!(parse_message("int32").err(), Some(ParseError::MalformedField));
    assert_eq!(parse_message("repeated int32").err(), Some(ParseError::MalformedField));
    assert_eq!(parse_message("").err(), Some(ParseError::MalformedField));
}

#[test]
fn enum_line_parses() {
    let v = parse_enum("ACTIVE = 1;").unwrap();
    assert_eq!(v.name, "ACTIVE");
    assert_eq!(v.value, 1);
}

#[test]
fn enum_line_without_separator_fails() {
    assert_eq!(parse_enum("ACTIVE 1;").err(), Some(ParseError::MalformedEnumValue));
}

#[test]
fn enum_line_bad_values_fail() {
    assert_eq!(parse_enum("A = x;").err(), Some(ParseError::MalformedEnumValue));
    assert_eq!(parse_enum("A = ;").err(), Some(ParseError::MalformedEnumValue));
    assert_eq!(parse_enum("A = -1;").err(), Some(ParseError::MalformedEnumValue));
    assert_eq!(parse_enum("A = 4294967296;").err(), Some(ParseError::MalformedEnumValue));
    assert_eq!(parse_enum("A = 1 = 2;").err(), Some(ParseError::MalformedEnumValue));
}

#[test]
fn enum_line_value_at_u32_max() {
    let v = parse_enum("A = 4294967295;").unwrap();
    assert_eq!(v.value, u32::MAX);
}

fn join(lines: &[&str]) -> String {
    lines.join("\n")
}

#[test]
fn parses_message_and_enum_in_order() {
    let src = join(&[
        "message User {",
        "  string name = 1;",
        "  optional int32 age = 2;",
        "  repeated bytes tags = 3;",
        "}",
        "enum Status {",
        "  ACTIVE = 0;",
        "  INACTIVE = 1;",
        "}",
    ]);
    let pb = parse_proto(&src).unwrap();
    assert_eq!(pb.messages.len(), 1);
    assert_eq!(pb.messages[0].0, "User");
    let fields = &pb.messages[0].1;
    assert_eq!(fields.len(), 3);
    assert_eq!(fields[0].name, "name");
    assert_eq!(fields[1].name, "age");
    assert_eq!(fields[2].name, "tags");
    assert_eq!(pb.enums.len(), 1);
    assert_eq!(pb.enums[0].0, "Status");
    let values = &pb.enums[0].1;
    assert_eq!(values.len(), 2);
    assert_eq!(values[0].name, "ACTIVE");
    assert_eq!(values[0].value, 0);
    assert_eq!(values[1].name, "INACTIVE");
    assert_eq!(values[1].value, 1);
}

#[test]
fn blank_lines_and_outside_lines_are_ignored() {
    let src = join(&[
        "syntax = \"proto3\";",
        "",
        "message A {",
        "",
        "  int32 x = 1;",
        "}",
        "stray line",
    ]);
    let pb = parse_proto(&src).unwrap();
    assert_eq!(pb.messages.len(), 1);
    assert_eq!(pb.messages[0].1.len(), 1);
    assert_eq!(pb.messages[0].1[0].name, "x");
}

#[test]
fn malformed_field_aborts_the_run() {
    let src = join(&["message M {", "  int32", "}", "message N {", "  int32 ok = 1;", "}"]);
    assert_eq!(parse_proto(&src).err(), Some(ParseError::MalformedField));
}

#[test]
fn malformed_enum_value_aborts_the_run() {
    let src = join(&["enum E {", "  NO_SEPARATOR;", "}"]);
    assert_eq!(parse_proto(&src).err(), Some(ParseError::MalformedEnumValue));
}

#[test]
fn malformed_header_is_an_error() {
    let src = "message {";
    assert_eq!(parse_proto(src).err(), Some(ParseError::MalformedBlockHeader));
}

#[test]
fn duplicate_message_name_keeps_the_later_declaration() {
    let src = join(&[
        "message A {",
        "  int32 old = 1;",
        "}",
        "message A {",
        "  string fresh = 1;",
        "}",
    ]);
    let pb = parse_proto(&src).unwrap();
    assert_eq!(pb.messages.len(), 1);
    assert_eq!(pb.messages[0].0, "A");
    assert_eq!(pb.messages[0].1.len(), 1);
    assert_eq!(pb.messages[0].1[0].name, "fresh");
}

#[test]
fn unclosed_block_keeps_collected_fields() {
    let src = join(&["message A {", "  int32 x = 1;"]);
    let pb = parse_proto(&src).unwrap();
    assert_eq!(pb.messages.len(), 1);
    assert_eq!(pb.messages[0].1.len(), 1);
}

#[test]
fn close_line_with_terminator_pops() {
    let src = join(&["enum E {", "  A = 0;", "};", "enum F {", "  B = 1;", "}"]);
    let pb = parse_proto(&src).unwrap();
    assert_eq!(pb.enums.len(), 2);
    assert_eq!(pb.enums[0].1.len(), 1);
    assert_eq!(pb.enums[1].1.len(), 1);
}

#[test]
fn constructors_set_fields() {
    let f = MessageField::new("n".to_string(), "string".to_string(), true, false);
    assert_eq!(f.name, "n");
    assert_eq!(f.field, "string");
    assert!(f.optional);
    assert!(!f.repeated);
    let v = EnumField::new("V".to_string(), 7);
    assert_eq!(v.name, "V");
    assert_eq!(v.value, 7);
    let pb = ProtoBuf::new();
    assert!(pb.messages.is_empty());
    assert!(pb.enums.is_empty());
}

#[test]
fn carriage_returns_are_trimmed() {
    let src = "message A {\r\n  int32 x = 1;\r\n}\r\n";
    let pb = parse_proto(src).unwrap();
    assert_eq!(pb.messages.len(), 1);
    assert_eq!(pb.messages[0].1[0].name, "x");
}

#[test]
fn nested_blocks_route_lines_to_the_innermost() {
    let src = join(&[
        "message A {",
        "  message B {",
        "    int32 x = 1;",
        "  }",
        "  int32 y = 2;",
        "}",
    ]);
    let pb = parse_proto(&src).unwrap();
    assert_eq!(pb.messages.len(), 2);
    assert_eq!(pb.messages[0].0, "A");
    assert_eq!(pb.messages[0].1.len(), 1);
    assert_eq!(pb.messages[0].1[0].name, "y");
    assert_eq!(pb.messages[1].0, "B");
    assert_eq!(pb.messages[1].1.len(), 1);
    assert_eq!(pb.messages[1].1[0].name, "x");
}
