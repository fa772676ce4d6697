//! A flexbox layout component: a style-text parser, a layout tree that
//! hands out opaque node handles, the mapping of internal failures onto
//! boundary status codes, and the class-name activation table.

pub mod activation;
pub mod engine;
pub mod failure;
pub mod graph;
pub mod number;
pub mod round_trip;
pub mod style;
pub mod text;
pub mod tree;
