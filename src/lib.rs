//! Box-drawing tables for debug output, and ANSI styling of strings.
pub mod string_stylizing;
pub mod table_formatting;
