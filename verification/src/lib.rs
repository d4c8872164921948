//! Cooperative secret distribution over a network of Key Management
//! Entities (KMEs), by recursive threshold secret sharing.
//!
//! A KME holding a secret splits it into one share per downstream KME and
//! forwards each share wrapped with provenance: the splitting KME's
//! identity and the threshold needed to combine. Downstream KMEs re-split
//! what they received before forwarding it further, so shares nest. Any
//! KME that accumulates enough sibling shares of a common immediate
//! generator can combine them, peel one nesting layer, and repeat, until
//! the original secret — or a dead end — is reached.
//!
//! The splitting and combining algebra itself is the `ssss` crate's, taken
//! on contract in [`shamir`]; everything around it — share strings, wire
//! framing, grouping, the round-by-round peeling — is verified here.

pub mod base62;
pub mod share;
pub mod share_wrapper;
pub mod shamir;
pub mod kme;
