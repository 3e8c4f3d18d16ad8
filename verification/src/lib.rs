//! Light mixing for devices made of sources and emitters.

pub mod binary32;
pub mod message;
pub mod mixer;
pub mod root;
pub mod rounding;
pub mod source;
pub mod text;
pub mod visualize;
