//! Dependency diffing, resolution bookkeeping and lockfile building for a
//! package manager.

pub mod differences;
pub mod error;
pub mod key;
pub mod lockfile_builder;
pub mod manifest;
pub mod model;
pub mod resolver;
