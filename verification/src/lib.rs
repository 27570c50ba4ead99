//! Minesweeper for two, without a server.
//!
//! Two peers play one game by exchanging an event log. The log is the source
//! of truth: both keep it in one agreed order, and the board is what you get
//! by folding it. This crate holds the whole of that, and the handshake that
//! brings two browsers together, free of I/O: the rules ([`board`], [`game`]),
//! the log and its byte format ([`eventlog`], [`framing`], [`wire`]), one
//! player's page ([`app`]), and the links that carry a connection's terms from
//! one peer to the other ([`session`], [`sdp`], [`b64`], [`qr`]).
pub mod app;
pub mod b64;
pub mod board;
pub mod bytes;
pub mod counter;
pub mod event;
pub mod eventlog;
pub mod fnv;
pub mod framing;
pub mod game;
pub mod ip;
pub mod net;
pub mod number;
pub mod panel;
pub mod qr;
pub mod rng;
pub mod sdp;
pub mod session;
pub mod split;
pub mod text;
pub mod tick;
pub mod wire;

pub use board::{Board, Cell, Reveal, Status};
pub use event::{Event, Mode, Stamped};
pub use framing::{decode_log, decode_msg, encode_log, encode_msg};
pub use game::{log_hash, mode_of, race_fold, Game};
pub use wire::Msg;
