//! Verified core of a Nintendo-DS-style ROM unpacker: the header and
//! filesystem-table parsers, the LZ77-variant decompression codec, and the
//! UTF-16 string-table decoder, together with the per-file classification
//! pipeline that ties them together.
#![verifier::loop_isolation(false)]

pub mod fat;
pub mod fnt;
pub mod header;
pub mod lz10;
pub mod pipeline;
pub mod text_table;
pub mod wire;
