//! What a caller of the engine needs most.

pub use crate::socket::{Socket, SocketEvent};
pub use crate::{Address, Config, Delays, Error};
