//! An in-memory corpus of a religious text organized as books, chapters and
//! verses, with ordered loading from flat-file records and literal
//! case-insensitive substring search.
pub mod corpus;
pub mod load;
pub mod order;
pub mod reader;
pub mod text;
