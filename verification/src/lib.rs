//! A markdown note collection: note files that carry their own identity, an
//! index of cached metadata, a registry of shortcuts, and the engine that
//! keeps the three consistent.

pub mod app;
pub mod clock;
pub mod filters;
pub mod id_map;
pub mod identity;
pub mod index;
pub mod laws;
pub mod note;
pub mod shortcuts;
pub mod text;
pub mod yaml;
