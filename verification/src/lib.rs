//! A small JSON library: a recursive-descent parser from text to a tagged
//! value tree, a generator back to JSON text (compact or indented), a
//! panic-safe query layer over the tree, and lossless conversions between
//! the tree and primitive values. The `laws` module proves the library's
//! round-trip properties: parsing inverts generation, and compact
//! serialization is idempotent. A small arithmetic-expression calculator
//! lives in `calc`, independent of the JSON core.

pub mod num;
pub mod value;
pub mod text;
pub mod generator;
pub mod parser;
pub mod query;
pub mod calc;
pub mod laws;

use vstd::prelude::*;

verus! {

use crate::generator::{serializable, spec_encode, stringify};
use crate::parser::{JsonParser, SpecParse, spec_parse};

/// Parse a text that is known to be well-formed JSON with serializable
/// numbers, and hand back its compact serialization.
pub fn untyped_example(data: &str) -> (r: String)
    requires
        data@.len() < usize::MAX,
        spec_parse(data@) matches SpecParse::Parsed(v, _) && serializable(v),
    ensures
        (spec_parse(data@) matches SpecParse::Parsed(v, _) && r@ == spec_encode(v)),
{
    let mut parser = JsonParser::new(data);
    match parser.parse() {
        Ok(v) => match stringify(&v) {
            Ok(s) => s,
            Err(_) => vstd::pervasive::unreached(),
        },
        Err(_) => vstd::pervasive::unreached(),
    }
}

} // verus!
