//! Wiki-style references in a tree of documents, rewritten into links.
//!
//! A reference `[[key]]` names a document by the key of its file. The
//! [`indexer`] builds the [`index`] from a directory tree, visiting what the
//! rules of [`eligibility`] let take part; [`rewrite`] finds the
//! [`reference`]s of a document and puts a [`link`] in the place of each one
//! that the index knows. The laws that hold of the whole are proved in
//! [`descent`] and [`idempotence`].

pub mod descent;
pub mod eligibility;
pub mod idempotence;
pub mod index;
pub mod indexer;
pub mod key;
pub mod link;
pub mod reference;
pub mod rewrite;
pub mod text;
