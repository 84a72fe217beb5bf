//! A small native UI library: `.ulib` markup parsed into a widget tree, styled
//! by a CSS subset, laid out into pixel rectangles, drawn into a pixel buffer,
//! and hit-tested for clicks.
use vstd::prelude::*;

pub mod font;
pub mod style;
pub mod text;
pub mod ui;
pub mod window;

verus! {

/// Opaque handle to a window, for callers across the C interface.
pub struct ULibWindow {
    _private: [u8; 0],
}

/// Opaque handle to a parsed .ulib module.
pub struct ULibModule {
    _private: [u8; 0],
}

} // verus!
