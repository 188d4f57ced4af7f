//! Passes that rewrite the bodies of a book in place.

pub mod apply_use;
