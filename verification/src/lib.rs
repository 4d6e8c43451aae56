//! A verified model of curriculum concept maps: concepts with prerequisites,
//! validated into a dependency graph whose transitive closures say how much
//! has to be taught before each concept.

pub mod closure;
pub mod concept;
pub mod diagnostics;
pub mod laws;
pub mod map;
pub mod payload;
pub mod reach;
pub mod text;
