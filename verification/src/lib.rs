use vstd::prelude::*;

pub mod blocking_strategy;
pub mod blocking_validator;
pub mod branching;
pub mod dependency_set;
pub mod description_graph_manager;
pub mod dl_clause_evaluator;
pub mod existential_expansion;
pub mod extension_manager;
pub mod extension_table;
pub mod ground_disjunction_header;
pub mod hyperresolution;
pub mod interrupt_flag;
pub mod merging_manager;
pub mod node;
pub mod node_type;
pub mod object;
pub mod reasoning_task_description;
pub mod text;
pub mod tuple_index;
pub mod tuple_table;

verus! {

} // verus!
