//! Inline links for content-addressed document trees.
//!
//! A document tree ([`node::Node`]) may embed whole subgraphs literally,
//! wrapped in a well-known delimiter map, or refer to them by content
//! identifier ([`cid::BlockId`]).  The [`extractor`] rewrites embedded
//! subgraphs back into links and emits each subgraph as an addressed block;
//! the [`inliner`] expands links into embedded subgraphs by consulting a
//! [`store`], and can suspend when a block is missing.

pub mod cid;
pub mod codec;
pub mod extractor;
pub mod inline;
pub mod inliner;
pub mod laws;
pub mod iterator;
pub mod node;
pub mod store;
