//! A minimal point-to-point messaging layer: arbitrary byte messages and
//! numeric tables are exchanged between two endpoints over a duplex byte
//! stream.  Frames are delimited by an unescaped line feed; an escape codec
//! keeps embedded carriage returns and line feeds from breaking the framing.
//! The in-process transport emulates a byte stream on top of a pair of
//! unidirectional message queues.

pub mod client;
pub mod codec;
pub mod comm;
pub mod matrix;
pub mod server;
