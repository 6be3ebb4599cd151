//! A falling-character rain for text terminals: the per-column simulation
//! that decides, frame by frame, which characters a screen shows.

pub mod controls;
mod random;

pub mod matrix;

pub use controls::{glyph, palette_tint, tint_named, Settings, Tint, DEFAULT_SPEED};
pub use matrix::{to_idx, Item, Matrix, BLANK, CH_BEGIN, CH_END, EMPTY};
