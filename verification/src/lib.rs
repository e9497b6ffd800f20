//! Corpus generator for dog-food random walks.
//!
//! Three relation files (dog to food, food to ingredient, ingredient to
//! flavor) are parsed, filtered for referential consistency, and interned
//! into dense integer codes.  Six adjacency tables drive fixed-topology
//! random walks whose textual rendering forms the output corpus.

mod error;
pub mod codec;
pub mod mapping;
pub mod parse;
pub mod rel;
pub mod rng;
pub mod walk;

pub use error::Error;
pub use mapping::EntityKind;
pub use mapping::Mapping;
pub use rng::WalkRng;
