//! A verified core of a graph-based ranking engine for full-text search:
//! the ranking-rule graph with its caches and cost-ordered path
//! enumeration, and the prefix-dictionary builder.

pub mod cache;
pub mod condition;
pub mod dead_end;
pub mod docids;
pub mod fst_store;
pub mod graph;
pub mod interner;
pub mod paths;
pub mod prefix;
pub mod query_graph;
pub mod small_bitmap;
