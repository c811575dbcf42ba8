//! A streaming CSV tokenizer and the row-assembling parser built on it.
//!
//! - [`tokenizer`]: `CsvTokenizer` turns a text into `Field`, `Delimiter` and
//!   `Newline` tokens, one at a time, borrowing each field from the text. Its
//!   contracts are stated over the token stream `tokens(text, delimiter)`.
//! - [`parser`]: `CsvParser` groups the fields between newlines into rows;
//!   `Csv::parse` reads a whole text as the document `document(text, delimiter)`.
//! - [`lines`]: `Csv::from`, a quick comma-and-line reading that ignores quoting.
//! - [`laws`]: properties of token streams and documents, proved.

mod text;
pub mod tokenizer;
pub mod parser;
pub mod laws;
pub mod lines;
