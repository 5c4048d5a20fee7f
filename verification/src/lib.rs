//! Wallpaper carousel core: multi-display safe-area geometry, fill resizing,
//! text-overlay layout and compositing, carousel navigation, and a PID-file
//! process lock.

pub mod carousel;
pub mod compose;
pub mod config;
pub mod geometry;
pub mod layout;
pub mod lock;
pub mod raster;
pub mod resize;
pub mod strutil;
