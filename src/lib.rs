//! A string interner backed by an append-only arena of text buffers.
//!
//! `Interner::intern` hands out one dense 32-bit handle per distinct string;
//! `Interner::lookup` reads the string back from the arena in place.
use vstd::prelude::*;

pub mod text;
pub mod arena;
pub mod interner;
pub mod laws;

pub use interner::{Interner, Stats, StrId};

verus! {

} // verus!
