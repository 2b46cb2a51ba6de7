//! Scoreboard snapshots of a game world: read from the tag tree of a
//! compressed file, decoded into objectives and player scores, and exported
//! as a table of delimited text or as a list of statements for a relational
//! store.
//!
//! The logic of the library is verified against its contracts. What the two
//! outside crates do for it is believed, not verified: the tag library
//! (`nbt`) reads the tree from the bytes of a file and writes the text of a
//! node, and the `csv` crate writes the records of the table. The functions
//! that make those calls are marked `external_body`, in the modules `tag`
//! and `tabular`, and each says above its header what is believed of the
//! call.
//!
//! The contracts are stated over mathematical views: a tag is a `Node`, a
//! snapshot a `StatsView` of two maps, a text a sequence of characters.

pub mod error;
pub mod keyed;
pub mod persist;
pub mod pivot;
pub mod record;
pub mod stats;
pub mod tabular;
pub mod tag;
pub mod text;
