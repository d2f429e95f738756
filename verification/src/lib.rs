//! Sampling of species trees: a tree that is written in bracket notation is
//! read, pruned to its deepest leaves, and written again with the branch
//! lengths that the pruned tree has.
//!
//! Branch lengths and depths are exact decimal amounts with nine places (see
//! [`decimal`]). A tree exists in two forms: as a recursive tree of nodes
//! that own their children ([`node`]), and as a flat tree of records that
//! name their relatives by index ([`flat_tree`]), which is the form that is
//! pruned ([`pruning`]). [`newick`] reads and writes the text, and
//! [`pipeline`] runs all steps for one text.
//!
//! The other modules hold what is proved of these: [`round_trip`] that what
//! is written is read again as it was, [`depths`] that branch lengths come
//! back from depths, [`flattening`] what the flat tree of a tree is like,
//! [`splicing`], [`reach`], [`ranking`] and [`restriction`] what pruning
//! keeps, [`writing`] that what is written of a sample can be read again, and
//! [`seqs`] what filters keep.

pub mod decimal;
pub mod depths;
pub mod flat_tree;
pub mod flattening;
pub mod newick;
pub mod node;
pub mod pipeline;
pub mod pruning;
pub mod ranking;
pub mod reach;
pub mod restriction;
pub mod round_trip;
pub mod seqs;
pub mod splicing;
pub mod writing;
