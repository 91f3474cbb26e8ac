//! Percent-encoding of bytes into ASCII text, and the lenient decoding of such text.
//!
//! Every byte outside the unreserved set (`A-Z`, `a-z`, `0-9`, `-`, `.`, `_`, `~`) is written as
//! `%` and two uppercase hexadecimal digits. Decoding turns each well-formed `%XX` back into
//! its byte, keeps everything else as it stands, and checks that the outcome is UTF-8.
pub mod charset;
pub mod dec;
pub mod enc;
pub mod error;
pub mod laws;
pub mod sink;
pub mod utf8;
pub mod wrapper;

pub use dec::decode;
pub use error::FromUrlEncodingError;
pub use enc::{encode, encode_binary};
pub use sink::{ChunkWriter, Logged, TextBuffer, TextSink};
pub use wrapper::{Encoded, RawBytes};
