//! Verified core of a bridge between a UniProxy panel and Hysteria 2 cores.
use vstd::prelude::*;

pub mod auth;
pub mod config;
pub mod node;
pub mod strmap;
pub mod sync;
pub mod tables;
pub mod text;
pub mod traffic;
pub mod user;

verus! {
} // verus!
