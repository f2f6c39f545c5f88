//! A persistent, topic-oriented message broker core.
//!
//! The crate verifies the storage engine (segmented commit log with a
//! fixed-width index and a persistent read/write tracker), the length-framed
//! binary wire codec, and the broker dispatch layer. File and network I/O
//! live outside the library and exchange plain byte vectors with it.

pub mod broker;
pub mod commands;
pub mod log;
pub mod messages;
pub mod protocol;
pub mod queue;
pub mod wire;

pub use crate::broker::{Broker, Client, ServerError};
pub use crate::commands::Commands;
pub use crate::protocol::{
    BinaryHeader, HeaderView, Response, ResponseCode, ResponseMessage, ResponseView, Topic,
    TopicView,
};
