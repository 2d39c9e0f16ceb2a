//! A small reliable file transfer over UDP: the client cuts a file into
//! numbered chunks and sends them one by one, the server collects the bytes of
//! every client and answers each chunk with an acknowledgement, and both sides
//! keep a board of cells that shows how far the transfer has come.
//!
//! This crate holds the decisions of both sides and the models of the boards;
//! sockets, terminal drawing and the wire encoding live in the program around it.

pub mod chunking;
pub mod vec2;
pub mod packet;
pub mod view;
pub mod acknowledgement_board_view;
pub mod board_view;
pub mod client;
pub mod server;
