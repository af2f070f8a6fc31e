//! A codec for a Redis-style serialization protocol.
//!
//! A frame is one value of the protocol: a string, an error, an integer, a
//! double, a boolean, a null, an array, a map or a set. `RespEncode` writes a
//! frame as its bytes on the wire, and `RespDecode` reads the frame that a
//! buffer starts with, or says that the buffer ends too early, or that its
//! bytes can never be a frame.
//!
//! Every function is verified against a mathematical model:
//!
//! - `resp::model` says what a frame is as a value, when two frames are equal
//!   and when a frame is well-formed;
//! - `resp::encode::wire` says which bytes a frame is written as;
//! - `resp::decode::parse` says what decoding a sequence of bytes gives;
//! - `resp::laws` proves what holds of the two together: decoding what was
//!   encoded gives the frame back, decoding a part of it asks for more data,
//!   and a verdict, once given, stays.

pub mod resp;
