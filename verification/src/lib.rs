//! A local supervisor core: a verified service registry and lifecycle
//! controller that keeps externally defined OS processes alive and
//! controllable.

pub mod manager;
pub mod probe;
pub mod service;
pub mod text;
