//! Verified core of the lithium client/server entity synchronisation engine.
use vstd::prelude::*;

pub mod config;
pub mod delay;
pub mod entity;
pub mod event;
pub mod frame;
pub mod idpool;
pub mod input;
pub mod keyboard;
pub mod manager;
pub mod network;
pub mod particles;
pub mod session;
pub mod snapshot;
pub mod tick;
pub mod timer;

verus! {

} // verus!
