//! A small recursive-descent JSON reader.
//!
//! Every parser takes the text still to be read and hands back the value it
//! read together with the unread rest of the text. The language each parser
//! accepts is written down as spec functions in `grammar`, and each parser is
//! proved to compute exactly those functions.
pub mod value;
pub mod grammar;
pub mod scan;
pub mod parser;
pub mod laws;

pub use parser::{parse, parse_for_array, parse_for_obj, parse_value};
pub use scan::{
    parse_for_literal, parse_for_number, parse_for_string, parse_for_string_value,
    skip_white_space,
};
pub use value::{JsonStruct, ParseError, ParseResult, ParseStringResult};
