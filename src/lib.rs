//! Relations between collections of records identified by their indices,
//! and a resolver that composes them along least-weight paths.
//!
//! `OneToMany` and `ManyToMany` keep both directions of their links
//! consistent; `Resolver` turns a list of declared relations into a lookup
//! between any two connected record types.

mod error;
mod paths;
mod laws;
mod relations;
mod resolver;
mod weight;

pub use crate::error::Error;
pub use crate::laws::{
    lemma_add_link_reowns, lemma_chain_lookup, lemma_empty_targets, lemma_many_to_many_transpose,
    lemma_one_to_many_bidirectional, lemma_sink_lookup, lemma_source_lookup,
};
pub use crate::paths::{lemma_shorten, walk_node};
pub use crate::relations::{
    bucket_of, build_outcome, chain_forward, image, is_transpose, map_view, owners_match,
    preimage, relinked, sink_forward, source_forward, transpose_of, with_source, AnyRelation,
    IdxSet, ManyToMany, OneToMany, Relation,
};
pub use crate::resolver::{
    apply_path, connected, decl_weight, follow, graph_ok, is_walk, least_path,
    lemma_resolver_complete, lemma_weight_disambiguation, mentions, reachable,
    step_end, step_start, views_of, walk_weight, Best, Edge, RelationDecl, Resolver, Step,
    MAX_NODES, MAX_RELATIONS,
};
pub use crate::weight::{
    all_digits, decimal_thousandths, digits_value, dot_at, frac_scale, is_digit, parse_weight,
    weight_of, DEFAULT_WEIGHT, MAX_WEIGHT, WEIGHT_SCALE,
};
