//! A small git implementation: loose objects, trees, commits and packfiles.
pub mod commands;
