//! Verified text and byte transformations.

pub mod error;
pub mod text;
pub mod markup;

pub mod quoted_printable;
pub mod tea;
pub mod strings;
pub mod sets;
pub mod distance;
pub mod bytes;
pub mod unixperms;
pub mod unicode_escape;
pub mod punycode;
pub mod offsetcheck;
pub mod offsetcheck_text;
pub mod table;
pub mod shape;
pub mod sift;
pub mod rot13;
pub mod rc4;
pub mod stream;
pub mod suggest;
pub mod textint;
pub mod oid;
pub mod pem;
pub mod octal;
pub mod substitute;
pub mod tlv;
pub mod probes;
pub mod stats;
pub mod punycode_inverse;
pub mod punycode_domain;
