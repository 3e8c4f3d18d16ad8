//! A mixing desk: one fader for each source and each emitter.

pub mod catalog;
pub mod chart;
pub mod desk;
pub mod device;
pub mod entry;
pub mod exploration;
pub mod keys;
pub mod level;
pub mod screen;
pub mod spectrum;
