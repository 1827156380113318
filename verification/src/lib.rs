//! Verified core of a small classic text editor: text search and replacement,
//! print layout, message formatting, window-placement persistence and the
//! arithmetic behind zooming, DPI scaling and the status bar.

pub mod dialogs;
pub mod editor;
pub mod localization;
pub mod printing;
pub mod search;
pub mod text_format;
pub mod window_placement;
