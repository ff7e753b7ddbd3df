//! A verified decoder for a Redis-style serialization protocol (RESP).
//!
//! The wire format is a line/length-prefixed mix of text and binary data:
//! integers (`:<digits>\r\n`), bulk strings (`$<len>\r\n<len bytes>\r\n`),
//! arrays (`*<count>\r\n<count elements>`, nesting to arbitrary depth) and
//! the null-array declaration (`*-1\r\n`). The decoder is a pure function
//! over a byte slice: it returns the decoded [`Value`] together with the
//! unconsumed remainder of the input, or an [`Error`] carrying the
//! remaining input at the point of failure. A transport layer that owns
//! sockets and buffering can call it again on the remainder.
//!
//! The module [`grammar`] states the grammar as mathematics over `Seq<u8>`;
//! [`resp`] holds the executable decoder, each function proved to return
//! exactly what the grammar describes; [`laws`] proves the general
//! properties of the grammar: each production's encoding decodes to its
//! value with nothing left over, and a decode is stable under trailing
//! bytes.

pub mod grammar;
pub mod laws;
pub mod resp;

pub use resp::Error;
pub use resp::Value;
pub use resp::has_a;
pub use resp::make_number;
pub use resp::match_exact;
pub use resp::parse_char;
pub use resp::parse_length;
pub use resp::repeat;
