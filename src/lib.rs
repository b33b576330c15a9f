//! Groups opaque byte strings into clusters of similar ones.
//!
//! A distance matrix over the items (here from compressed sizes, in fixed-point
//! units of `zip_distance::SCALE`) feeds Kruskal's algorithm (`mst`), which keeps a
//! minimum spanning tree; cutting the tree's edges above a threshold and taking
//! connected components (`clusters`, or the breadth-first `search`) gives the
//! clusters. `union_set` is the disjoint-set forest both passes use, and
//! `connectivity` the notion of linked nodes that the contracts speak of.

use vstd::prelude::*;

pub mod connectivity;
pub mod union_set;
pub mod clusters;
pub mod mst;
pub mod zip_distance;
pub mod pipeline;
pub mod search;

verus! {
} // verus!
