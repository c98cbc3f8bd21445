//! What the scheduler sees of the computing system, and what it asks of it.
use vstd::prelude::*;

verus! {

/// A processor: its cores and memory, in total and still free.
#[derive(Clone, Copy, Debug, PartialEq, Eq, Structural)]
pub struct Resource {
    pub id: usize,
    pub cores: u32,
    pub cores_available: u32,
    pub memory: u64,
    pub memory_available: u64,
}

/// The resources of the system, by id.
pub struct System {
    pub resources: Vec<Resource>,
}

/// How data items travel between resources.
#[derive(Clone, Copy, Debug, PartialEq, Eq, Structural)]
pub enum DataTransferMode {
    ViaMasterNode,
    Direct,
    Manual,
}

/// The simulation settings the scheduler is started with.
#[derive(Clone, Copy, Debug, PartialEq, Eq, Structural)]
pub struct Config {
    pub data_transfer_mode: DataTransferMode,
}

/// A decision of the scheduler.
#[derive(Clone, Copy, Debug, PartialEq, Eq, Structural)]
pub enum Action {
    /// Run `task` on `resource` with `cores` cores.
    ScheduleTask { task: usize, resource: usize, cores: u32 },
}

} // verus!
