//! A keyed allocator of pixel buffers inside one growable shared memory
//! region, verified with Verus.
//!
//! - `shape`: geometry checks and rounding.
//! - `table`: the allocation table as a mathematical model, and the layout
//!   a request, a removal or a release produces.
//! - `pool`: the executable pool, proved against that model.
//! - `laws`: properties that relate several operations.
//! - `registry`, `surface`: small pieces of the surrounding toolkit.

use vstd::prelude::*;

pub mod shape;
pub mod table;
pub mod pool;
pub mod laws;
pub mod registry;
pub mod surface;
