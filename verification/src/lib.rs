//! Four workloads whose idiomatic, individually owned representation is set
//! beside a representation that lives in a `bumpalo` arena: a boxed expression
//! tree, an `Arc` DAG, a graph with one edge `Vec` per node, and a boxed list.
//! Each representation is built from a node count and reduces to a wrapping
//! checksum; the contracts pin down the exact structure that is built and the
//! exact checksum, so both representations of a workload agree.
pub mod arena;
pub mod ast;
pub mod dag;
pub mod list;
pub mod modular;
pub mod nested;
pub mod payload;
