//! Reader for LGP archive containers and the LZSS sliding-window
//! decompressor used for their member files.
//!
//! The archive reader ([`lgp`]) turns one raw byte buffer into a creator
//! tag, a list of named member payloads and a terminator tag.  The
//! decompressor ([`lzss`]) turns a compressed token stream back into the
//! literal bytes it encodes.  The two compose only in that a caller may
//! feed a member payload obtained from the reader to the decompressor.

pub mod files;
pub mod lgp;
pub mod lzss;
pub mod model;
pub mod parse;
pub mod shader;
