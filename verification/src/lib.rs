//! Replicated chat session core: credential validation, sync-session
//! lifecycle, a message store that converges across peers, and a durable
//! snapshot codec, all with verified contracts.

pub mod identity;
pub mod model;
pub mod persist;
pub mod session;
pub mod store;
