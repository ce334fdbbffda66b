//! A terminal journal: the questions it asks, the entries it records in a day's file,
//! and the digest and layout it shows of that file.
pub mod file_parsing;
pub mod pager;
pub mod question_structs;
pub mod text;
pub mod utility;
