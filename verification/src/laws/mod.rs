//! What holds of the library as a whole.

pub mod facade;
pub mod mirror;
pub mod numbers;
pub mod reading;
pub mod repeat;
pub mod sdl;
pub mod snapshot;
pub mod values;
pub mod web;
