//! Keyboard remapping engine: rule resolution, effective key set and the
//! ordered reconciliation of a virtual keyboard against it.

pub mod deviceinfo;
pub mod event;
pub mod keys;
pub mod keyset;
pub mod laws;
pub mod mapping;
pub mod output;
pub mod remapper;
pub mod rules;
pub mod step;
