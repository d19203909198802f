//! Line counting by language: classifies each line of a source file as blank,
//! comment or code, following the comment and string syntax of its language.

pub mod builtin;
pub mod bytes;
pub mod count;
pub mod languages;
pub mod laws;
pub mod report;
pub mod text;
