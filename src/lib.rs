//! Masks Java-like source text: code outside comments becomes spaces, comment
//! text is kept, line breaks always stay, and string contents are kept or
//! masked as asked. The output keeps the input's lines, so tools that read the
//! comments can report the original positions.
//!
//! - `scanner`: the lexical state machine, its model `scan` and `process`.
//! - `buffered_char_reader`: the character source with one character of lookahead.
//! - `output_writer`: the sink the scanner writes to.
//! - `laws`: what holds of every run of the scanner.

pub mod buffered_char_reader;
pub mod laws;
pub mod output_writer;
pub mod scanner;
