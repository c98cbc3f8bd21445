//! DYTAS, a dynamic task scheduling algorithm for workflows of dependent
//! tasks, with the task graph, the queues and the sorts it works on.
use vstd::prelude::*;

pub mod dag;
pub mod dytas;
pub mod dytas_laws;
pub mod graph;
pub mod queue_set;
pub mod search_order;
pub mod strategy;
pub mod system;
pub mod topo;

verus! {

} // verus!
