//! Schema-directed ASN.1 BER/DER decoding to JSON Lines.
//!
//! The crate compiles a textual ASN.1 module into dispatch tables keyed by
//! encoded tag, then walks a byte buffer as a stream of TLV triples and emits
//! one JSON object per top-level record, with every primitive leaf rendered
//! as a lowercase hex string.

pub mod compile;
pub mod decode;
pub mod hexjson;
pub mod jv;
pub mod re;
pub mod schema;
pub mod tlv;
pub mod util;
