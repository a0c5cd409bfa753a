//! Notifications about log streams, and the chats that receive them.
pub mod format;
pub mod loop_hook;
pub mod slack;
