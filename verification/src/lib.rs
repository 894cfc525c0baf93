//! Renders a binary relation between two finite sets of exact rational
//! numbers as a diagram: two ellipses (domain and codomain) holding evenly
//! spaced, labeled points, with an arrow between every related pair.
//!
//! All arithmetic that decides the diagram — the values themselves, the
//! predicate that relates them, and every coordinate — is exact rational
//! arithmetic, so the classification of pairs cannot drift the way
//! floating-point evaluation can. Serializing the finished primitives to a
//! vector-image file is left to an unverified rendering shell around this
//! library.

pub mod rational;
pub mod ordered_set;
pub mod relation;
pub mod layout;
