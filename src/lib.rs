//! A terminal-session broadcast relay: casters push a live terminal byte stream,
//! watchers browse a menu of active casters and receive the stream of the one they pick.
//!
//! This crate holds the relay's decisions: the scrollback ring buffer, the credential
//! store, the caster handshake, the watcher state machine, the menu and the event core
//! that keeps caster and watcher tables consistent. Sockets and the poll loop stay with
//! the caller, which hands events in and carries the returned actions out.

pub mod auth;
pub mod ring;
pub mod term;
pub mod duration;
pub mod handshake;
pub mod caster;
pub mod menu;
pub mod watcher;
pub mod relay;
