//! The logic of a small publish/subscribe log server: the wire framing of its
//! requests, the bookkeeping of who is connected, which subscriber receives
//! which line, and how log files are named.
pub mod codec;
pub mod text;
pub mod request;
pub mod queues;
pub mod clock;
pub mod content;
pub mod storage;
pub mod connect;
