use proto2ts::convert::proto_to_ts;
use proto2ts::parser::parse_proto;
use proto2ts::render::{fmt_ts_str, u32_to_string};
use proto2ts::scalar::get_ts_type;
use proto2ts::schema::ProtoBuf;

#[test]
fn scalar_mapping_examples() {
    assert_eq!(get_ts_type("int32"), Ok("number"));
    assert_eq!(get_ts_type("bytes"), Ok("Uint8Array"));
    assert_eq!(get_ts_type("string"), Ok("string"));
    assert_eq!(get_ts_type("bool"), Ok("boolean"));
    assert_eq!(get_ts_type("int64"), Ok("string"));
    assert_eq!(get_ts_type("double"), Ok("number"));
    assert_eq!(get_ts_type("MyEnum"), Err("unknown proto type"));
}

#[test]
fn scalar_mapping_is_stable() {
    assert_eq!(get_ts_type("sint32"), get_ts_type("sint32"));
    assert_eq!(get_ts_type("no_such_type"), get_ts_type("no_such_type"));
}

#[test]
fn renders_numbers_in_decimal() {
    assert_eq!(u32_to_string(0), "0");
    assert_eq!(u32_to_string(7), "7");
    assert_eq!(u32_to_string(10), "10");
    assert_eq!(u32_to_string(4294967295), "4294967295");
}

#[test]
fn empty_document_renders_empty() {
    let pb = ProtoBuf::new();
    assert_eq!(fmt_ts_str(&pb), "");
}

#[test]
fn round_trip_renders_fields_and_values() {
    let src = [
        "message User {",
        "  string name = 1;",
        "  optional int32 age = 2;",
        "  repeated bytes tags = 3;",
        "}",
        "enum Status {",
        "  ACTIVE = 0;",
        "  INACTIVE = 1;",
        "}",
    ]
        .join("\n");
    let pb = parse_proto(&src).unwrap();
    let out = fmt_ts_str(&pb);
    let expected = "export enum Status {\n  ACTIVE = 0,\n  INACTIVE = 1,\n}\n\n\
                    export interface User {\n  name: string;\n  age?: number;\n  \
                    tags: Uint8Array[];\n}\n\n";
    assert_eq!(out, expected);
}

#[test]
fn convert_runs_parse_then_render() {
    let src = "enum E {\n  A = 1;\n}";
    let out = proto_to_ts(src).unwrap();
    assert_eq!(out, "export enum E {\n  A = 1,\n}\n\n");
    assert!(proto_to_ts("message M {\n  broken\n}").is_err());
}

#[test]
fn repeated_and_optional_markers_render() {
    let src = "message M {\n  repeated string xs = 1;\n  optional bool on = 2;\n}";
    let out = proto_to_ts(&src).unwrap();
    assert!(out.contains("  xs: string[];\n"));
    assert!(out.contains("  on?: boolean;\n"));
}
