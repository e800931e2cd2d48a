//! The fixed scalar-type mapping from schema scalar types to TypeScript
//! types. The mapping is total: a token that is not a known scalar type is
//! passed through unchanged, as a nominal type reference.

use vstd::prelude::*;
use crate::text::str_eq;

verus! {

/// Scalar types rendered as TypeScript `string`.
pub open spec fn is_string_scalar(s: Seq<char>) -> bool {
    s == "int64"@ || s == "fixed64"@ || s == "uint64"@ || s == "sfixed64"@ || s == "sint64"@
        || s == "string"@
}

/// Scalar types rendered as TypeScript `number`.
pub open spec fn is_number_scalar(s: Seq<char>) -> bool {
    s == "double"@ || s == "float"@ || s == "int32"@ || s == "fixed32"@ || s == "uint32"@
        || s == "sfixed32"@ || s == "sint32"@
}

/// Scalar types rendered as TypeScript `boolean`.
pub open spec fn is_boolean_scalar(s: Seq<char>) -> bool {
    s == "bool"@
}

/// Scalar types rendered as TypeScript `Uint8Array`.
pub open spec fn is_bytes_scalar(s: Seq<char>) -> bool {
    s == "bytes"@
}

/// A known scalar type of the schema language.
pub open spec fn is_scalar(s: Seq<char>) -> bool {
    is_string_scalar(s) || is_number_scalar(s) || is_boolean_scalar(s) || is_bytes_scalar(s)
}

/// The total scalar-type mapping: known scalar types go to their TypeScript
/// counterpart, and every other token maps to itself.
pub open spec fn map_scalar(s: Seq<char>) -> Seq<char> {
    if is_string_scalar(s) {
        "string"@
    } else if is_number_scalar(s) {
        "number"@
    } else if is_boolean_scalar(s) {
        "boolean"@
    } else if is_bytes_scalar(s) {
        "Uint8Array"@
    } else {
        s
    }
}

/// The scalar mapping is total and pure: it is a function of the token
/// alone, every known scalar type goes to one of the four TypeScript
/// types, and every unknown token maps to itself.
pub proof fn lemma_scalar_mapping_total(s: Seq<char>)
    ensures
        is_scalar(s) ==> (map_scalar(s) == "string"@ || map_scalar(s) == "number"@ || map_scalar(
            s,
        ) == "boolean"@ || map_scalar(s) == "Uint8Array"@),
        !is_scalar(s) ==> map_scalar(s) == s,
{
}

/// Maps a raw scalar-type token to its TypeScript type. `Err` when the
/// token is not a known scalar type; callers treat that as a nominal type
/// reference and keep the token itself.
pub fn get_ts_type<'a>(proto_type: &'a str) -> (r: Result<&'static str, &'static str>)
    ensures
        r is Ok <==> is_scalar(proto_type@),
        r is Ok ==> r->Ok_0@ == map_scalar(proto_type@),
        r is Err ==> r->Err_0@ == "unknown proto type"@,
{
    if str_eq(proto_type, "int64") || str_eq(proto_type, "fixed64") || str_eq(proto_type, "uint64")
        || str_eq(proto_type, "sfixed64") || str_eq(proto_type, "sint64") || str_eq(
        proto_type,
        "string",
    ) {
        Ok("string")
    } else if str_eq(proto_type, "double") || str_eq(proto_type, "float") || str_eq(
        proto_type,
        "int32",
    ) || str_eq(proto_type, "fixed32") || str_eq(proto_type, "uint32") || str_eq(
        proto_type,
        "sfixed32",
    ) || str_eq(proto_type, "sint32") {
        Ok("number")
    } else if str_eq(proto_type, "bool") {
        Ok("boolean")
    } else if str_eq(proto_type, "bytes") {
        Ok("Uint8Array")
    } else {
        Err("unknown proto type")
    }
}

} // verus!
