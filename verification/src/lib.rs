//! Verified core of a large-file CSV/TSV/text viewer and editor: line
//! indexing, encoding and delimiter detection, CSV field handling, text and
//! cell editing with undo, find/replace, and the hex editor's arithmetic and
//! edit buffer.
pub mod bytes;
pub mod cells;
pub mod chars;
pub mod convert;
pub mod discard;
pub mod edit;
pub mod fields;
pub mod find;
pub mod hex;
pub mod index;
pub mod indexer;
pub mod layout;
pub mod number;
pub mod parse;
pub mod roundtrip;
pub mod save;
pub mod textlines;
pub mod theme;
pub mod validate;
pub mod view;
pub mod wrap;
