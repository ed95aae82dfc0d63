//! A minimal multi-client chat relay, as a verified library.
//!
//! The crate holds the wire format of the relay, the framing rule of its
//! transport, the session registry and the decisions of the server and of the
//! client. Sockets, threads and the terminal are left to the program that
//! links this library.
//!
//! Beside the relay stands `expr`, a small calculator: a tokenizer, a
//! recursive-descent parser and an evaluator for arithmetic expressions.

pub mod wire;
pub mod packet;
pub mod frame;
pub mod registry;
pub mod server;
pub mod client;
pub mod expr;
