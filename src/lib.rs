//! A live index of file contents: which paths hold which content hash, and
//! which contents are held by two or more paths, kept in step with a
//! watched directory tree.
//!
//! Beside it stand the pure parts of the small tools that grew up around
//! it: a site-navigation updater, a pronouncing-dictionary reader with a
//! talking face, sentiment rules, and the index's web front end.

pub mod index;
pub mod sync;
pub mod events;
pub mod alert;
pub mod scan;
pub mod paths;

pub mod text;
pub mod nav;
pub mod phones;
pub mod flaps;
pub mod rules;
pub mod frontend;
pub mod context;
