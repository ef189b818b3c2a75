//! Verified core of the chat UI: the chat log wire format and record
//! store, message text rules, the editable text buffer, and gesture
//! arbitration.

pub mod codec;
pub mod wire;
pub mod strs;
pub mod privmsg;
pub mod editable;
pub mod gesture;
pub mod loader;
pub mod repeat;
pub mod utf16;
pub mod filemsg;
pub mod evict;
pub mod buffer;
pub mod keys;
