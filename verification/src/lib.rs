//! A library for "Tryout" quiz records: a length-prefixed, type-tagged binary
//! chunk format, a mapper between chunk sequences and domain records, and a
//! reconstructor that builds the same records from flat web-form fields.
#![verifier::loop_isolation(false)]

pub mod chunk;
pub mod endian;
pub mod error;
pub mod form;
pub mod ident;
pub mod text;
pub mod tryout;
