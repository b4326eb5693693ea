//! A reader and printer for Extensible Data Notation (EDN).
pub mod bigint;
pub mod chars;
pub mod compare;
pub mod debug;
pub mod decimal;
pub mod display;
pub mod edn;
pub mod laws;
pub mod number;
pub mod numeric;
pub mod order;
pub mod reader;
pub mod reader_laws;
pub mod round_trip;
pub mod scalar;
pub mod symbol;
pub mod syntax;
pub mod text;

pub use compare::{clojure_reply, rust_edn};
pub use edn::{Decimal, Edn, EdnMap, EdnSet, FloatNumber, FloatValue, Ratio};
pub use reader::{
    read, read_str, read_token, read_unicode_char, read_unicode_char_from_token, skip_whitespace,
    sym_split, Reader,
};
pub use syntax::{is_macro, is_terminating_macro, is_whitespace, non_constituent};
