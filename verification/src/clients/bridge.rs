//! Requests to the bridge, as far as they can be put together without
//! sending them.

pub mod chats;
pub mod client;

pub use self::chats::ListChats;
pub use self::client::Client;
