//! Reading and writing dBase / FoxPro `.dbf` tables, with their companion
//! memo files, as verified byte-level codecs.

pub mod error;
pub mod header;
pub mod text;
pub mod value;
pub mod codepage;
pub mod spec;
pub mod record;
pub mod bytes;
pub mod memo;
pub mod codec;
pub mod table;
pub mod roundtrip;
pub mod binding;
