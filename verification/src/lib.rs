//! A small library for organizing audio sample projects on disk: a
//! fixed-width delimited-text table, a tagged-record text format, and a
//! directory-backed hierarchy of titled, described folders.
pub mod actor;
pub mod containers;
pub mod csv;
pub mod domain;
pub mod hierarchy;
pub mod serializable;
pub mod text;
