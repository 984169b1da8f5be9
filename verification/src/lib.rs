//! Server-side logic of a small voice and text chat service: the channel and
//! connection pools, the line protocol spoken with clients, the decisions of
//! the chat-history worker and of the per-client update watcher, and the
//! binary frames sent back to clients.

pub mod model;
pub mod pool;
pub mod protocol;
pub mod text;
pub mod watch;
pub mod wire;
pub mod worker;
