//! Passes that validate a book without changing it.

pub mod unbound_vars;
