//! Core of a frame-synchronized 2D simulation loop: a registry of layered
//! entity slots, weak generation-checked references between entities, a
//! four-phase per-frame update protocol, and a save/load codec that encodes
//! the weak-reference graph with stable integer tags.
//!
//! Windowing, rendering and file I/O are left to the embedding application;
//! the library works on plain values and hands back plain values.

pub mod codec;
pub mod doc;
pub mod entity;
pub mod frame;
pub mod pool;
pub mod refs;
pub mod slot;
pub mod state;
pub mod ui;

pub use entity::LivelinessStatus;
