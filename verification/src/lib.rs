//! A multi-line text editing core: a line-based text buffer, a cursor with
//! selection, and the editing state of a text input widget.

pub mod buffer;
pub mod clusters;
pub mod cursor;
pub mod layout;
pub mod edit_laws;
pub mod lines;
pub mod segmentation;
pub mod text;
pub mod textarea;
