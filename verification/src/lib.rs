//! Course seat watcher: the rules that decide what is read from the
//! configuration, how course counts are read from the query service, and
//! when and how a free seat is reported.

pub mod text;
pub mod json;
pub mod course;
pub mod config;
