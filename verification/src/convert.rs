//! The whole conversion of one schema source text: parse, then render.

use vstd::prelude::*;
use crate::parser::{parse_proto, parse_spec, ParseError};
use crate::render::{fmt_ts_str, render_doc};
use crate::schema::DocV;

verus! {

/// Converts one schema source text into TypeScript type declarations: the
/// rendering of the parsed document, or the first parse error.
pub fn proto_to_ts(source: &str) -> (r: Result<String, ParseError>)
    ensures
        match r {
            Ok(out) => parse_spec(source@) is Ok && out@ == render_doc(
                parse_spec(source@)->Ok_0,
            ),
            Err(e) => parse_spec(source@) == Err::<DocV, ParseError>(e),
        },
{
    match parse_proto(source) {
        Ok(pb) => Ok(fmt_ts_str(&pb)),
        Err(e) => Err(e),
    }
}

} // verus!
