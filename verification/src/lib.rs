//! A flat-text index from tags to file names.
//!
//! A [`File`] is an ordered list of [`Tag`]s, each holding a label and the
//! names of the files that carry it. The modules are:
//!
//! * [`database`]: the two data types, their mathematical views and the
//!   lookup of a tag by its label;
//! * [`format`]: what the text form of a database is, as functions on
//!   sequences of characters;
//! * [`codec`]: the parser and the serializer, proved against [`format`];
//! * [`laws`]: what holds of the text form, such as that a database that was
//!   written reads back as itself;
//! * [`error`]: what the parser and the operations report when they refuse
//!   their input;
//! * [`index`]: adding a file to tags, removing it from tags, and the search
//!   for the files that carry every one of a list of tags;
//! * [`text`]: the few string helpers the rest is built on.

pub mod text;
pub mod database;
pub mod error;
pub mod format;
pub mod codec;
pub mod laws;
pub mod index;

pub use codec::suki_path;
pub use database::{File, Tag, TagView};
pub use error::{InvalidArgument, SyntaxError, SyntaxReason};
