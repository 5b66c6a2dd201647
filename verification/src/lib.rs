//! A tree of scopes: nested name tables with lexical lookup and assignment.
//!
//! A scope binds names to values and may have a parent.  A lookup searches the
//! scope it is made at and then its ancestors, outward, and reads the nearest
//! binding.  There are four ways to write: into the scope itself
//! (`set_local`), into the root of its tree (`set_global`), into the nearest
//! scope that binds the name already, or else the scope itself (`set`), and in
//! place, through a function applied to the bound value (`update`).
//!
//! The scopes of all trees are stored in a [`ScopeArena`] and named by
//! [`PScope`] handles.  [`model`] holds the mathematical forest that the
//! contracts speak of, and [`laws`] what is proved of it.

pub mod bindings;
pub mod laws;
pub mod model;
pub mod scope;

pub use bindings::Bindings;
pub use scope::{PScope, Scope, ScopeArena};
