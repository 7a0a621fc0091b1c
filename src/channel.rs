//! Error values shared by the FIFO channels.
use vstd::prelude::*;

verus! {

/// The error of a send: every receiver is gone. It hands the message back.
#[derive(Debug, Clone, Copy)]
pub struct NoRecv<T> {
    /// The message that could not be sent.
    pub message: T,
}

/// The error of a receive.
#[derive(Debug, Clone, Copy, PartialEq, Eq, Structural)]
pub enum RecvErr {
    /// The channel is empty, but some sender is still connected.
    NoMessage,
    /// The channel is empty and every sender is gone.
    NoSender,
}

} // verus!
