//! Terminal article core: a document model for a minimal line-based
//! markup dialect, a width-constrained layout engine that maps content
//! to exact screen coordinates, and a navigation index that supports
//! directional selection over the rendered link positions.

pub mod document;
pub mod input;
pub mod layout;
pub mod links;
pub mod parse;
pub mod view;
