//! A codec for the Point Cloud Data (PCD) format: header parsing, layout
//! derivation, typed columnar storage, and the ascii, binary and
//! binary-compressed payload encodings.

pub mod error;
pub mod kind;
pub mod text;
pub mod layout;
pub mod header;
pub mod block;
pub mod binary;
pub mod compressed;
pub mod ascii;
pub mod io;
