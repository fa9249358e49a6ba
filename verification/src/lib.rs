//! Keyboard remapping profiles for the keyd daemon: the configuration
//! model, its text format, and the editing rules of the profile manager.
use vstd::prelude::*;

pub mod action;
pub mod config;
pub mod devices;
pub mod edit;
pub mod laws;
pub mod mappings;
pub mod names;
pub mod profile;
pub mod text;

verus! {

} // verus!
