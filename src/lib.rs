//! PlainTalk: a message and field framing protocol.
//!
//! Fields are separated by an ASCII space and messages are terminated by a
//! line feed (or CR LF). A field may hold any byte value through a
//! length-prefixed escape run `{N}` followed by `N` raw bytes.
pub mod pullparser;
pub mod pushgenerator;
pub mod pushparser;
pub mod wire;
