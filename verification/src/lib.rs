//! Waveform traces for a terminal viewer: time values, signal timelines and
//! their sampling into display cells, the scope tree, and glyph bands.

pub mod app;
pub mod module;
pub mod signal;
pub mod text;
pub mod time;
pub mod ui;
pub mod value;
