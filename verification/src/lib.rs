//! A per-user store of timestamped, importance-scored text records.
//!
//! Records live in an append-only log of length-prefixed frames, found again
//! through an offset index. A query engine filters and orders them, a session
//! view groups them, and a decay engine expires, compresses and caps them.

pub mod ages;
pub mod cap;
pub mod codec;
pub mod compress;
pub mod decay;
pub mod ids;
pub mod index;
pub mod laws;
pub mod query;
pub mod rank;
pub mod record;
pub mod session;
pub mod settled;
pub mod stale;
pub mod storage;
pub mod summary;
pub mod text;
pub mod time;
