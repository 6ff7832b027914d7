//! A streaming decoder, an encoder and a minimal command responder for the
//! RESP wire format: simple strings, bulk strings and arrays.

pub mod command;
pub mod decoder;
pub mod encoder;
pub mod laws;
pub mod value;
pub mod wire;

pub use command::{
    next_action, process_command, reply_for, respond, Action, ProtocolError, Response, Step,
};
pub use decoder::{decode, Decoder};
pub use encoder::encode;
pub use value::{DecodeError, Frame, RespValue};
