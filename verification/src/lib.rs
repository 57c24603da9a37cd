//! A minimal authoritative DNS message codec: the fixed 12-byte header,
//! the label-encoded domain names (with compression-pointer decoding),
//! the question section, and the assembly of A-record responses against
//! an injected name-to-address table.

pub mod wire;
pub mod header;
pub mod domain;
pub mod question;
pub mod response;
