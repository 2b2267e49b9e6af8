//! Pieces of the platform layers that are plain computation.

pub mod unix_utils;
