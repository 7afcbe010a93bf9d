//! An event log that grows as a tree of hash-linked events and agrees on
//! one head.
//!
//! Every event names the event it follows by that event's content hash.
//! The store keeps an event that arrives before its parent waiting, links
//! it below the parent once the parent is there, and picks the head by a
//! rule that looks at the linked events alone: stores that hold the same
//! events pick the same head, in whatever order the events reached them.
//!
//! - [`event`] and [`wire`]: events, their canonical bytes, their ids.
//! - [`graph`] and [`fork_choice`]: the store and the head as mathematics.
//! - [`model`]: the store itself.
//! - [`view`]: what a reader of the log has been shown.
//! - [`laws`]: what holds of all of it.
//! - [`text`], [`clock`], [`digest`], [`args`]: what stands around it.

pub mod args;
pub mod clock;
pub mod digest;
pub mod event;
pub mod fork_choice;
pub mod graph;
pub mod laws;
pub mod model;
pub mod text;
pub mod view;
pub mod wire;
