//! The OpenHP1 snapshot format: what a save holds and how it is written and
//! read back.

pub mod wire;
pub mod model;
pub mod format;
pub mod layout;
pub mod io;
pub mod records;
pub mod snapshot;
pub mod keys;
