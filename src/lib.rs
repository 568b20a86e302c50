//! Small verified building blocks: a seeded Fibonacci generator with its
//! arrow-joined rendering, a bounds-checked accessor driven by index text,
//! and a first-word scanner over the bytes of a string.

pub mod error;
pub mod index;
pub mod sequence;
pub mod words;
