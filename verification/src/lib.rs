//! A keyboard-driven image triage engine: a directory of images is sorted
//! into up to four named category folders, with animated feedback and a
//! single-level undo.
//!
//! The library holds everything that decides: which files a scan keeps
//! (`paths`), which decodes to schedule and never to duplicate (`loader`,
//! `texture`), what a move or an undo does to the active list, history and
//! texture keys (`engine`), how a transition is interpolated and when a
//! move becomes durable (`anim`), how the setup field is parsed (`setup`)
//! and how large a decoded image may stay (`decode`). Proven laws about
//! moves and undos live in `laws`. The file system, the decoding itself
//! and the screen belong to whoever drives the engine: the engine hands
//! out the renames and decode requests to perform and takes completed
//! decodes and clock readings back as plain values.
use vstd::prelude::*;

pub mod paths;
pub mod texture;
pub mod loader;
pub mod anim;
pub mod engine;
pub mod laws;
pub mod setup;
pub mod decode;

verus! {

} // verus!
