//! An in-memory key/value cache with per-key time-to-live, and the
//! connection-level engine of its memcached-style text protocol.
//!
//! * [`cache`] holds the entries and answers reads and writes; an entry
//!   past its expiry behaves as absent, and a sweep removes such entries.
//! * [`frame`] gathers what a socket delivers and hands out one
//!   CRLF-terminated frame at a time.
//! * [`parser`] turns a command line into a command.
//! * [`memcache_server`] decides, frame by frame, what the server does and
//!   what it answers.
//!
//! Reading and writing sockets, scheduling the sweep and sharing the server
//! between connections are the caller's part.

pub mod buffer;
pub mod cache;
pub mod clock;
pub mod decimal;
pub mod frame;
pub mod memcache_server;
pub mod parser;
pub mod store;
pub mod text;
pub mod value;

pub use cache::{Cache, RefWrapper};
pub use frame::{Connection, FrameError, MAX_FRAME_LEN};
pub use memcache_server::{MemcacheServer, Reply, Session, Timed};
pub use parser::ascii::{is_key_char, parse_ascii_cmd};
pub use parser::{Cmd, ParseError};
pub use value::Value;
