//! Client-side engine for sliding synchronisation: a bounded window over
//! server-ordered room lists, merged round-trip by round-trip into a stable
//! view of rooms and of their positions in each list.

pub mod engine;
pub mod error;
pub mod laws;
pub mod room_list;
pub mod rooms;
pub mod sync;
