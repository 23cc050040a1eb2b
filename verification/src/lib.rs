//! Statistical discovery of noun-like word candidates in unsegmented Korean
//! text. Character sequences are observed at morpheme boundaries, counted in
//! a persistent store, scored by two interchangeable statistical strategies,
//! and folded incrementally into a persisted set of accepted nouns.

pub mod analytics;
pub mod chars;
pub mod codec;
pub mod dataset;
pub mod extract;
pub mod hangul;
pub mod model;
pub mod rank;
pub mod score;
pub mod serve;
pub mod store;
pub mod strset;

pub use hangul::has_support;
