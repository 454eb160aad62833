use vstd::prelude::*;

pub mod context;
pub mod linked;
pub mod dataset;
pub mod strings;
pub mod ancestor_record;
pub mod ast;
pub mod dialect;
pub mod constraint_state;
pub mod task_graph;
pub mod concepts;
pub mod access;
pub mod blocks;
pub mod satisfaction;
pub mod ast_compare;
pub mod task_blocks;
pub mod builders;
pub mod ancestry;
pub mod attributes;
pub mod extract;
pub mod code_blocks;
pub mod concept_derives;
pub mod struct_builder;

verus! {
}
