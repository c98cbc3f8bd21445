//! The dynamic task scheduling algorithm (DYTAS): tasks are sorted by their
//! dependencies, dealt out round robin to one task queue per processor, and
//! then, whenever the state of a task changes, each processor takes the first
//! ready task it can run from the queues, its own queue first.
use crate::dag::{TaskState, DAG, Task};
use crate::queue_set::{empty_queues, QueueSet};
use crate::strategy::{
    strategy_of, strategy_params_valid, MultiCoreCriterion, PTQNavigationCriterion, SchedulerParams,
    Strategy, TaskSortingCriterion,
};
use crate::system::{Action, Config, DataTransferMode, Resource, System};
use crate::graph::lemma_permutation_contains_all;
use crate::topo::{dfs_order, kahn_order, khan_topological_sort, reversed, topsort, try_khan_topological_sort};
use crate::dytas_laws::{
    action_ok, cores_used, law_distribute, law_schedule_actions_sound, law_schedule_within_free_cores, law_schedule_conserves_tasks, lemma_count_once,
    lemma_queued_empty_suffix, queued_count, scheduled_count,
};
use vstd::prelude::*;

verus! {

/// Task `task` can be executed on the resource `r`, whose id is `k`: enough
/// free cores and free memory, and the task may run there.
pub open spec fn fits(task: Task, r: Resource, k: usize) -> bool {
    &&& r.cores_available >= task.min_cores
    &&& r.memory_available >= task.memory
    &&& task.allowed_on(k)
}

/// Validates that the task is able to be executed in the specified resource.
pub fn evaluate(dag: &DAG, task_id: usize, resources: &Vec<Resource>, resource: usize) -> (b: bool)
    requires
        task_id < dag.num_tasks(),
        resource < resources@.len(),
    ensures
        b == fits(dag.task_seq()[task_id as int], resources@[resource as int], resource),
{
    let need_cores = dag.get_task(task_id).min_cores;
    if resources[resource].cores_available < need_cores {
        return false;
    }
    let need_memory = dag.get_task(task_id).memory;
    if resources[resource].memory_available < need_memory {
        return false;
    }
    if !dag.get_task(task_id).is_allowed_on(resource) {
        return false;
    }
    true
}

/// The cores a task is given on a resource: as many as it can use, but no
/// more than the resource has, nor more than it has free.
pub open spec fn cores_for(task: Task, r: Resource) -> u32 {
    let c = if task.max_cores > r.cores {
        r.cores
    } else {
        task.max_cores
    };
    if c > r.cores_available {
        r.cores_available
    } else {
        c
    }
}

/// The state of one scheduling pass: the processor task queues, the view of
/// the resources, the actions taken so far, and whether the pass has met
/// nothing that stops it (every task it looks at is a task of the DAG, and
/// every queue it searches in full exists).
pub struct PassState {
    pub queues: Seq<Seq<usize>>,
    pub resources: Seq<Resource>,
    pub actions: Seq<Action>,
    pub ok: bool,
}

/// `r` with `cores` cores and `memory` memory taken.
pub open spec fn take_from(r: Resource, cores: u32, memory: u64) -> Resource {
    Resource {
        id: r.id,
        cores: r.cores,
        cores_available: (r.cores_available - cores) as u32,
        memory: r.memory,
        memory_available: (r.memory_available - memory) as u64,
    }
}

/// The task at position `s` of queue `q`, if there is one.
pub open spec fn entry_at(queues: Seq<Seq<usize>>, q: int, s: int) -> Option<usize> {
    if 0 <= q < queues.len() && 0 <= s < queues[q].len() {
        Some(queues[q][s])
    } else {
        None
    }
}

/// Scheduling task `t`, the entry at position `s` of queue `q`, on resource
/// `k`.
pub open spec fn schedule_entry(dag: &DAG, st: PassState, strategy: Strategy, k: int, q: int, s: int, t: usize) -> PassState {
    let task = dag.task_seq()[t as int];
    let r = st.resources[k];
    let cores = cores_for(task, r);
    PassState {
        queues: st.queues.update(q, st.queues[q].remove(s)),
        resources: if strategy.multi_core_criterion == MultiCoreCriterion::UseAllCores {
            st.resources.update(k, take_from(r, cores, task.memory))
        } else {
            st.resources
        },
        actions: st.actions.push(Action::ScheduleTask { task: t, resource: k as usize, cores }),
        ok: st.ok,
    }
}

/// Whether the entry at position `s` of queue `q` is taken for resource `k`:
/// a ready task that fits.
pub open spec fn entry_taken(dag: &DAG, st: PassState, k: int, q: int, s: int) -> bool {
    match entry_at(st.queues, q, s) {
        Some(t) => dag.task_seq()[t as int].state == TaskState::Ready && fits(
            dag.task_seq()[t as int],
            st.resources[k],
            k as usize,
        ),
        None => false,
    }
}

/// `st`, with the pass marked as failed unless `cond` holds.
pub open spec fn checked(st: PassState, cond: bool) -> PassState {
    PassState { queues: st.queues, resources: st.resources, actions: st.actions, ok: st.ok && cond }
}

/// The entry at position `s` of queue `q`, if there is one, is a task of the
/// DAG.
pub open spec fn entry_valid(dag: &DAG, st: PassState, q: int, s: int) -> bool {
    match entry_at(st.queues, q, s) {
        Some(t) => t < dag.num_tasks(),
        None => true,
    }
}

/// Queue `q` exists whenever it is to be searched in full.
pub open spec fn queue_exists(st: PassState, strategy: Strategy, q: int) -> bool {
    strategy.ptq_navigation_criterion == PTQNavigationCriterion::Whole ==> 0 <= q < st.queues.len()
}

/// How far the search of queue `q` goes: its whole current length when
/// every task of it is to be checked, else its front alone.
pub open spec fn scan_limit(st: PassState, strategy: Strategy, q: int) -> int {
    if strategy.ptq_navigation_criterion == PTQNavigationCriterion::Whole {
        if 0 <= q < st.queues.len() {
            st.queues[q].len() as int
        } else {
            0
        }
    } else {
        1
    }
}

/// Where the search of a queue goes on after the entry at position `s` was
/// taken: the entry behind it has moved up to `s` when every task of the
/// queue is to be checked.
pub open spec fn scan_next(strategy: Strategy, s: int) -> int {
    if strategy.ptq_navigation_criterion == PTQNavigationCriterion::Whole {
        s
    } else {
        s + 1
    }
}

/// Taking the entry at position `s` brings the search closer to its end.
pub proof fn lemma_scan_progress(dag: &DAG, st: PassState, strategy: Strategy, k: int, q: int, s: int)
    requires
        entry_taken(dag, st, k, q, s),
        s < scan_limit(st, strategy, q),
    ensures
        0 <= scan_limit(
            schedule_entry(dag, st, strategy, k, q, s, entry_at(st.queues, q, s).unwrap()),
            strategy,
            q,
        ) - scan_next(strategy, s) < scan_limit(st, strategy, q) - s,
{
}

/// Queue `q` searched from position `s` on for resource `k`; the flag says
/// the search stopped at a task taken one at a time.
pub open spec fn scan_queue(dag: &DAG, st: PassState, strategy: Strategy, k: int, q: int, s: int) -> (PassState, bool)
    decreases scan_limit(st, strategy, q) - s,
{
    if s >= scan_limit(st, strategy, q) {
        (st, false)
    } else {
        let st1 = checked(st, entry_valid(dag, st, q, s));
        if entry_taken(dag, st1, k, q, s) {
            let st2 = schedule_entry(dag, st1, strategy, k, q, s, entry_at(st1.queues, q, s).unwrap());
            if strategy.multi_core_criterion == MultiCoreCriterion::UseAllCores {
                scan_queue(dag, st2, strategy, k, q, scan_next(strategy, s))
            } else {
                (st2, true)
            }
        } else {
            scan_queue(dag, st1, strategy, k, q, s + 1)
        }
    }
}

/// The queue looked at in step `i` for resource `k`: `(i + k) % n`.
pub open spec fn queue_index(i: int, k: int, n: int) -> int {
    if i < n - k {
        i + k
    } else {
        i + k - n
    }
}

/// Queues `i..n` (counted from `k`) searched for resource `k`.
pub open spec fn scan_queues(dag: &DAG, st: PassState, strategy: Strategy, k: int, i: int, n: int) -> PassState
    decreases n - i,
{
    if i >= n {
        st
    } else {
        let q = queue_index(i, k, n);
        let st1 = checked(st, queue_exists(st, strategy, q));
        let (st2, stopped) = scan_queue(dag, st1, strategy, k, q, 0);
        if stopped {
            st2
        } else {
            scan_queues(dag, st2, strategy, k, i + 1, n)
        }
    }
}

/// Resource `k` takes no task in this pass: it is busy and tasks go one at a
/// time, or it has no free core.
pub open spec fn skips(st: PassState, strategy: Strategy, k: int) -> bool {
    let r = st.resources[k];
    ||| strategy.multi_core_criterion == MultiCoreCriterion::SkipActiveNodes && r.cores_available
        != r.cores
    ||| strategy.multi_core_criterion == MultiCoreCriterion::UseAllCores && r.cores_available == 0
}

/// Resources `k..n` served in turn.
pub open spec fn pass_from(dag: &DAG, st: PassState, strategy: Strategy, k: int, n: int) -> PassState
    decreases n - k,
{
    if k >= n {
        st
    } else if skips(st, strategy, k) {
        pass_from(dag, st, strategy, k + 1, n)
    } else {
        pass_from(dag, scan_queues(dag, st, strategy, k, 0, n), strategy, k + 1, n)
    }
}

/// The scheduler's copy of the resources: each with its position as id.
pub open spec fn resource_view(resources: Seq<Resource>) -> Seq<Resource> {
    Seq::new(
        resources.len(),
        |i: int|
            Resource {
                id: i as usize,
                cores: resources[i].cores,
                cores_available: resources[i].cores_available,
                memory: resources[i].memory,
                memory_available: resources[i].memory_available,
            },
    )
}

/// One scheduling pass over the queues `queues` and the system resources
/// `resources`.
pub open spec fn schedule_pass(dag: &DAG, queues: Seq<Seq<usize>>, resources: Seq<Resource>, strategy: Strategy) -> PassState {
    pass_from(
        dag,
        PassState {
            queues,
            resources: resource_view(resources),
            actions: Seq::empty(),
            ok: true,
        },
        strategy,
        0,
        resources.len() as int,
    )
}

/// The resource after `p`, wrapping around after the last of `n`.
pub open spec fn next_pos(p: int, n: int) -> int {
    if p + 1 >= n {
        0
    } else {
        p + 1
    }
}

/// The first resource, trying at most `fuel` of them from `p` on and
/// wrapping around, that task `t` fits on.
pub open spec fn next_fit(dag: &DAG, resources: Seq<Resource>, t: usize, p: int, fuel: nat) -> int
    decreases fuel,
{
    if fuel == 0 || fits(dag.task_seq()[t as int], resources[p], p as usize) {
        p
    } else {
        next_fit(dag, resources, t, next_pos(p, resources.len() as int), (fuel - 1) as nat)
    }
}

/// Deals the tasks of `order` out round robin from resource `p` on: each
/// task goes to the queue of the first resource it fits on, and the next
/// task is tried from the resource after that one.
pub open spec fn round_robin(
    dag: &DAG,
    resources: Seq<Resource>,
    order: Seq<usize>,
    p: int,
    fuel: nat,
    queues: Seq<Seq<usize>>,
) -> Seq<Seq<usize>>
    decreases order.len(),
{
    if order.len() == 0 {
        queues
    } else {
        let t = order[0];
        let r = next_fit(dag, resources, t, p, fuel);
        round_robin(
            dag,
            resources,
            order.drop_first(),
            next_pos(r, resources.len() as int),
            resources.len(),
            queues.update(r, queues[r].push(t)),
        )
    }
}

/// The tasks of `order` dealt out round robin to `queues`, starting from
/// the first resource.
pub open spec fn distribute(dag: &DAG, resources: Seq<Resource>, order: Seq<usize>, queues: Seq<Seq<usize>>) -> Seq<Seq<usize>> {
    round_robin(dag, resources, order, 0, resources.len(), queues)
}

/// Task `t` fits on some resource.
pub open spec fn placeable(dag: &DAG, resources: Seq<Resource>, t: int) -> bool {
    exists|k: int| 0 <= k < resources.len() && #[trigger] fits(dag.task_seq()[t], resources[k], k as usize)
}

/// Every task fits on some resource.
pub open spec fn all_tasks_placeable(dag: &DAG, resources: Seq<Resource>) -> bool {
    forall|t: int| 0 <= t < dag.num_tasks() ==> #[trigger] placeable(dag, resources, t)
}

/// The order the strategy sorts the tasks in.
pub open spec fn sort_order(dag: &DAG, strategy: Strategy) -> Seq<usize> {
    if strategy.task_sorting_criterion == TaskSortingCriterion::DFS {
        dfs_order(dag)
    } else {
        kahn_order(dag)
    }
}

/// Whether every task fits on some resource.
pub fn all_placeable(dag: &DAG, resources: &Vec<Resource>) -> (b: bool)
    ensures
        b == all_tasks_placeable(dag, resources@),
{
    let num_tasks = dag.get_tasks().len();
    let mut t: usize = 0;
    while t < num_tasks
        invariant
            num_tasks == dag.num_tasks(),
            t <= num_tasks,
            forall|u: int| 0 <= u < t ==> #[trigger] placeable(dag, resources@, u),
        decreases num_tasks - t,
    {
        let mut k: usize = 0;
        let mut found = false;
        while k < resources.len() && !found
            invariant
                t < num_tasks,
                num_tasks == dag.num_tasks(),
                k <= resources@.len(),
                found ==> placeable(dag, resources@, t as int),
                forall|j: int| 0 <= j < k && !found ==> !#[trigger] fits(dag.task_seq()[t as int], resources@[j], j as usize),
            decreases resources@.len() - k + if found { 0int } else { 1int },
        {
            if evaluate(dag, t, resources, k) {
                let ghost kk: int = k as int;
                assert(fits(dag.task_seq()[t as int], resources@[kk], kk as usize));
                found = true;
            } else {
                k = k + 1;
            }
        }
        if !found {
            assert(!placeable(dag, resources@, t as int));
            return false;
        }
        t = t + 1;
    }
    true
}

/// The processor task queues once the scheduler has started on `resources`:
/// one more queue per resource, and every task dealt out in sorted order.
pub open spec fn start_queues(dag: &DAG, queues: Seq<Seq<usize>>, resources: Seq<Resource>, strategy: Strategy) -> Seq<Seq<usize>> {
    distribute(
        dag,
        resource_view(resources),
        sort_order(dag, strategy),
        queues + empty_queues::<usize>(resources.len()),
    )
}

/// The position `j` steps after `p`, wrapping around after `n`.
pub open spec fn pos_after(p: int, j: int, n: int) -> int {
    if p + j < n {
        p + j
    } else {
        p + j - n
    }
}

/// A scheduling pass can be made: every queued task it looks at is a task
/// of the DAG, and every queue it searches in full exists.
pub open spec fn schedule_allowed(dag: &DAG, queues: Seq<Seq<usize>>, resources: Seq<Resource>, strategy: Strategy) -> bool {
    schedule_pass(dag, queues, resources, strategy).ok
}

pub(crate) proof fn lemma_scan_queue_ok(dag: &DAG, st: PassState, strategy: Strategy, k: int, q: int, s: int)
    ensures
        scan_queue(dag, st, strategy, k, q, s).0.ok ==> st.ok,
    decreases scan_limit(st, strategy, q) - s,
{
    if s < scan_limit(st, strategy, q) {
        let st1 = checked(st, entry_valid(dag, st, q, s));
        if entry_taken(dag, st1, k, q, s) {
            let st2 = schedule_entry(dag, st1, strategy, k, q, s, entry_at(st1.queues, q, s).unwrap());
            if strategy.multi_core_criterion == MultiCoreCriterion::UseAllCores {
                lemma_scan_progress(dag, st1, strategy, k, q, s);
                lemma_scan_queue_ok(dag, st2, strategy, k, q, scan_next(strategy, s));
            }
        } else {
            lemma_scan_queue_ok(dag, st1, strategy, k, q, s + 1);
        }
    }
}

/// When a search of a queue ends in a sound state, the entry it started at
/// was a task of the DAG.
proof fn lemma_scan_queue_head_ok(dag: &DAG, st: PassState, strategy: Strategy, k: int, q: int, s: int)
    requires
        s < scan_limit(st, strategy, q),
        scan_queue(dag, st, strategy, k, q, s).0.ok,
    ensures
        st.ok,
        entry_valid(dag, st, q, s),
{
    let st1 = checked(st, entry_valid(dag, st, q, s));
    if entry_taken(dag, st1, k, q, s) {
        let st2 = schedule_entry(dag, st1, strategy, k, q, s, entry_at(st1.queues, q, s).unwrap());
        if strategy.multi_core_criterion == MultiCoreCriterion::UseAllCores {
            lemma_scan_queue_ok(dag, st2, strategy, k, q, scan_next(strategy, s));
        }
    } else {
        lemma_scan_queue_ok(dag, st1, strategy, k, q, s + 1);
    }
}

/// When a search of the queues ends in a sound state, the first queue it
/// searched in full exists.
proof fn lemma_scan_queues_head_ok(dag: &DAG, st: PassState, strategy: Strategy, k: int, i: int, n: int)
    requires
        i < n,
        scan_queues(dag, st, strategy, k, i, n).ok,
    ensures
        st.ok,
        queue_exists(st, strategy, queue_index(i, k, n)),
{
    let q = queue_index(i, k, n);
    let st1 = checked(st, queue_exists(st, strategy, q));
    lemma_scan_queue_ok(dag, st1, strategy, k, q, 0);
    let (st2, stopped) = scan_queue(dag, st1, strategy, k, q, 0);
    if !stopped {
        lemma_scan_queues_ok(dag, st2, strategy, k, i + 1, n);
    }
}

/// A pass that ends in a sound state was sound after each queue step.
proof fn lemma_after_queue_ok(dag: &DAG, st: PassState, stopped: bool, strategy: Strategy, k: int, i: int, n: int)
    requires
        after_queue(dag, st, stopped, strategy, k, i, n).ok,
    ensures
        st.ok,
{
    if stopped {
        lemma_pass_from_ok(dag, st, strategy, k + 1, n);
    } else {
        lemma_pass_from_ok(dag, scan_queues(dag, st, strategy, k, i + 1, n), strategy, k + 1, n);
        lemma_scan_queues_ok(dag, st, strategy, k, i + 1, n);
    }
}

proof fn lemma_scan_queues_ok(dag: &DAG, st: PassState, strategy: Strategy, k: int, i: int, n: int)
    ensures
        scan_queues(dag, st, strategy, k, i, n).ok ==> st.ok,
    decreases n - i,
{
    if i < n {
        let q = queue_index(i, k, n);
        let st1 = checked(st, queue_exists(st, strategy, q));
        lemma_scan_queue_ok(dag, st1, strategy, k, q, 0);
        let (st2, stopped) = scan_queue(dag, st1, strategy, k, q, 0);
        if !stopped {
            lemma_scan_queues_ok(dag, st2, strategy, k, i + 1, n);
        }
    }
}

proof fn lemma_pass_from_ok(dag: &DAG, st: PassState, strategy: Strategy, k: int, n: int)
    ensures
        pass_from(dag, st, strategy, k, n).ok ==> st.ok,
    decreases n - k,
{
    if k < n {
        if skips(st, strategy, k) {
            lemma_pass_from_ok(dag, st, strategy, k + 1, n);
        } else {
            lemma_scan_queues_ok(dag, st, strategy, k, 0, n);
            lemma_pass_from_ok(dag, scan_queues(dag, st, strategy, k, 0, n), strategy, k + 1, n);
        }
    }
}

/// What is left of a pass once queue step `i` for resource `k` has ended in
/// the state `st` (`stopped`: a task was taken one at a time).
pub open spec fn after_queue(dag: &DAG, st: PassState, stopped: bool, strategy: Strategy, k: int, i: int, n: int) -> PassState {
    if stopped {
        pass_from(dag, st, strategy, k + 1, n)
    } else {
        pass_from(dag, scan_queues(dag, st, strategy, k, i + 1, n), strategy, k + 1, n)
    }
}

/// When a task fits on no resource among the `n` tried from `p` on, it
/// fits on none at all.
proof fn lemma_tried_all(dag: &DAG, resources: Seq<Resource>, t: usize, p: int)
    requires
        0 <= p < resources.len(),
        forall|j: int|
            0 <= j < resources.len() ==> !#[trigger] fits(
                dag.task_seq()[t as int],
                resources[pos_after(p, j, resources.len() as int)],
                pos_after(p, j, resources.len() as int) as usize,
            ),
    ensures
        !placeable(dag, resources, t as int),
{
    let n = resources.len() as int;
    if placeable(dag, resources, t as int) {
        let k = choose|k: int|
            0 <= k < n && #[trigger] fits(dag.task_seq()[t as int], resources[k], k as usize);
        let j = if k >= p {
            k - p
        } else {
            k + n - p
        };
        assert(pos_after(p, j, n) == k);
        assert(!fits(
            dag.task_seq()[t as int],
            resources[pos_after(p, j, n)],
            pos_after(p, j, n) as usize,
        ));
    }
}

/// The scheduler's copy of the system resources, each with its position as
/// id.
fn resource_copies(system: &System) -> (resources: Vec<Resource>)
    ensures
        resources@ == resource_view(system.resources@),
{
    let mut resources: Vec<Resource> = Vec::new();
    let mut idx: usize = 0;
    while idx < system.resources.len()
        invariant
            idx <= system.resources@.len(),
            resources@ == resource_view(system.resources@).take(idx as int),
        decreases system.resources@.len() - idx,
    {
        let r = system.resources[idx];
        resources.push(
            Resource {
                id: idx,
                cores: r.cores,
                cores_available: r.cores_available,
                memory: r.memory,
                memory_available: r.memory_available,
            },
        );
        assert(resources@ =~= resource_view(system.resources@).take(idx as int + 1));
        idx = idx + 1;
    }
    assert(resources@ =~= resource_view(system.resources@));
    resources
}

/// The scheduler: its strategy, and one task queue per processor.
pub struct DynamicTaskSchedulingAlgorithm {
    processor_task_queues: QueueSet<usize>,
    strategy: Strategy,
}

impl DynamicTaskSchedulingAlgorithm {
    /// The processor task queues.
    pub closed spec fn ptqs(&self) -> Seq<Seq<usize>> {
        self.processor_task_queues@
    }

    /// The strategy.
    pub closed spec fn spec_strategy(&self) -> Strategy {
        self.strategy
    }

    /// The strategy.
    pub fn strategy(&self) -> (strategy: Strategy)
        ensures
            strategy == self.spec_strategy(),
    {
        self.strategy
    }

    /// The scheduler's state within a pass.
    closed spec fn current(&self, resources: Seq<Resource>, actions: Seq<Action>) -> PassState {
        PassState { queues: self.ptqs(), resources, actions, ok: true }
    }

    /// A scheduler with the given strategy and no task queues yet: they are
    /// made when it starts.
    pub fn new(strategy: Strategy) -> (s: Self)
        ensures
            s.spec_strategy() == strategy,
            s.ptqs() == Seq::<Seq<usize>>::empty(),
    {
        let s = DynamicTaskSchedulingAlgorithm {
            processor_task_queues: QueueSet::new(0),
            strategy,
        };
        assert(s.ptqs() =~= Seq::<Seq<usize>>::empty());
        s
    }

    /// A scheduler with the strategy that the parameters name.
    pub fn from_params(params: &SchedulerParams) -> (s: Self)
        requires
            strategy_params_valid(params),
        ensures
            s.spec_strategy() == strategy_of(params),
            s.ptqs() == Seq::<Seq<usize>>::empty(),
    {
        Self::new(Strategy::from_params(params))
    }

    /// Adds one task queue for each resource of the system.
    fn initialize_ptqs(&mut self, system: &System)
        ensures
            final(self).ptqs() == old(self).ptqs() + empty_queues::<usize>(system.resources@.len()),
            final(self).strategy == old(self).strategy,
    {
        self.processor_task_queues.add_queues(system.resources.len());
    }

    /// Deals the tasks out to the processor task queues in round robin
    /// fashion, taking them from the back of `dispatch_task_queue`: each task
    /// is enqueued on the first resource, from the current one on, that it
    /// can be executed on.
    fn distribute_tasks(&mut self, dag: &DAG, dispatch_task_queue: &mut Vec<usize>, resources: &Vec<Resource>)
        requires
            resources@.len() > 0,
            old(self).ptqs().len() >= resources@.len(),
            forall|i: int|
                0 <= i < old(dispatch_task_queue)@.len() ==> #[trigger] old(dispatch_task_queue)@[i]
                    < dag.num_tasks(),
            forall|i: int|
                0 <= i < old(dispatch_task_queue)@.len() ==> placeable(
                    dag,
                    resources@,
                    #[trigger] old(dispatch_task_queue)@[i] as int,
                ),
        ensures
            final(self).ptqs() == distribute(
                dag,
                resources@,
                old(dispatch_task_queue)@.reverse(),
                old(self).ptqs(),
            ),
            final(self).strategy == old(self).strategy,
    {
        let n = resources.len();
        let ghost fin = distribute(dag, resources@, dispatch_task_queue@.reverse(), self.ptqs());
        let ghost num_queues = self.ptqs().len();
        let mut i: usize = 0;
        let ghost mut miss: nat = 0;
        let ghost mut start: int = 0;
        loop
            invariant
                n == resources@.len(),
                n > 0,
                i < n,
                self.ptqs().len() == num_queues,
                num_queues >= n,
                self.strategy == old(self).strategy,
                forall|j: int|
                    0 <= j < dispatch_task_queue@.len() ==> #[trigger] dispatch_task_queue@[j]
                        < dag.num_tasks(),
                forall|j: int|
                    0 <= j < dispatch_task_queue@.len() ==> placeable(
                        dag,
                        resources@,
                        #[trigger] dispatch_task_queue@[j] as int,
                    ),
                miss < n,
                0 <= start < n,
                i == pos_after(start, miss as int, n as int),
                dispatch_task_queue@.len() > 0 ==> forall|j: int|
                    0 <= j < miss ==> !#[trigger] fits(
                        dag.task_seq()[dispatch_task_queue@.last() as int],
                        resources@[pos_after(start, j, n as int)],
                        pos_after(start, j, n as int) as usize,
                    ),
                round_robin(
                    dag,
                    resources@,
                    dispatch_task_queue@.reverse(),
                    i as int,
                    (n - miss) as nat,
                    self.ptqs(),
                ) == fin,
            ensures
                self.ptqs() == fin,
                self.strategy == old(self).strategy,
            decreases dispatch_task_queue@.len(), n - miss,
        {
            let task_id = match dispatch_task_queue.last() {
                Some(t) => *t,
                // If the dispatch task queue becomes empty, the dealing is done.
                None => {
                    proof {
                        assert(dispatch_task_queue@.reverse() =~= Seq::<usize>::empty());
                    }
                    break;
                },
            };
            let ghost order = dispatch_task_queue@.reverse();
            proof {
                assert(order[0] == task_id);
            }
            // The task is enqueued only on a resource it can run on.
            if evaluate(dag, task_id, resources, i) {
                let t = match dispatch_task_queue.pop() {
                    Some(t) => t,
                    None => 0,
                };
                proof {
                    assert(dispatch_task_queue@.reverse() =~= order.drop_first());
                }
                self.processor_task_queues.enqueue(i, t);
                proof {
                    miss = 0;
                    start = next_pos(i as int, n as int);
                }
            } else {
                proof {
                    if miss + 1 == n {
                        assert forall|j: int| 0 <= j < n implies !#[trigger] fits(
                            dag.task_seq()[task_id as int],
                            resources@[pos_after(start, j, n as int)],
                            pos_after(start, j, n as int) as usize,
                        ) by {
                            if j == miss {
                            } else {
                                assert(dispatch_task_queue@.last() == task_id);
                            }
                        }
                        lemma_tried_all(dag, resources@, task_id, start);
                        assert(placeable(dag, resources@, dispatch_task_queue@[dispatch_task_queue@.len() - 1] as int));
                    }
                    miss = miss + 1;
                }
            }
            i = if i + 1 == n {
                0
            } else {
                i + 1
            };
        }
    }

    /// One scheduling pass: each resource in turn takes ready tasks that it
    /// can run from the queues, searching its own queue first. `None` when
    /// the pass cannot be made (a queue it searches in full is missing, or a
    /// queued task is not a task of the DAG); the queues are then left part
    /// way.
    fn try_schedule(&mut self, dag: &DAG, system: &System) -> (res: Option<Vec<Action>>)
        ensures
            final(self).strategy == old(self).strategy,
            res.is_some() == schedule_pass(dag, old(self).ptqs(), system.resources@, old(self).strategy).ok,
            res.is_some() ==> final(self).ptqs() == schedule_pass(
                dag,
                old(self).ptqs(),
                system.resources@,
                old(self).strategy,
            ).queues && res.unwrap()@ == schedule_pass(
                dag,
                old(self).ptqs(),
                system.resources@,
                old(self).strategy,
            ).actions,
    {
        let mut result: Vec<Action> = Vec::new();
        let ghost fin = schedule_pass(dag, self.ptqs(), system.resources@, self.strategy);

        // Cloning the current state of resources
        let mut resources = resource_copies(system);

        let resources_length = resources.len();
        let num_queues = self.processor_task_queues.num_queues();
        let num_tasks = dag.get_tasks().len();

        let mut k: usize = 0;
        while k < resources_length
            invariant
                resources@.len() == resources_length,
                k <= resources_length,
                self.ptqs().len() == num_queues,
                num_tasks == dag.num_tasks(),
                self.strategy == old(self).strategy,
                fin == schedule_pass(dag, old(self).ptqs(), system.resources@, old(self).strategy),
                pass_from(dag, self.current(resources@, result@), self.strategy, k as int, resources_length as int) == fin,
            decreases resources_length - k,
        {
            // A resource that is running, or has no free core, is skipped.
            let skip = (self.strategy.multi_core_criterion == MultiCoreCriterion::SkipActiveNodes
                && resources[k].cores_available != resources[k].cores) || (
            self.strategy.multi_core_criterion == MultiCoreCriterion::UseAllCores
                && resources[k].cores_available == 0);
            if !skip {
                // Search the queues k, k + 1, ..., n - 1, 0, ..., k - 1 for a
                // task ready for execution that this resource can run.
                let mut i: usize = 0;
                let mut stopped = false;
                while i < resources_length && !stopped
                    invariant
                        resources@.len() == resources_length,
                        k < resources_length,
                        i <= resources_length,
                        self.ptqs().len() == num_queues,
                        num_tasks == dag.num_tasks(),
                        self.strategy == old(self).strategy,
                        fin == schedule_pass(dag, old(self).ptqs(), system.resources@, old(self).strategy),
                        !stopped ==> pass_from(
                            dag,
                            scan_queues(dag, self.current(resources@, result@), self.strategy, k as int, i as int, resources_length as int),
                            self.strategy,
                            k + 1,
                            resources_length as int,
                        ) == fin,
                        stopped ==> pass_from(dag, self.current(resources@, result@), self.strategy, k + 1, resources_length as int) == fin,
                    decreases resources_length - i,
                {
                    // Queue index goes from k..n and then from 0..k
                    let queue_index = if i < resources_length - k {
                        i + k
                    } else {
                        i - (resources_length - k)
                    };
                    let whole = self.strategy.ptq_navigation_criterion == PTQNavigationCriterion::Whole;
                    let ghost st0 = self.current(resources@, result@);
                    proof {
                        if fin.ok {
                            lemma_pass_from_ok(
                                dag,
                                scan_queues(dag, st0, self.strategy, k as int, i as int, resources_length as int),
                                self.strategy,
                                k + 1,
                                resources_length as int,
                            );
                            lemma_scan_queues_head_ok(dag, st0, self.strategy, k as int, i as int, resources_length as int);
                        }
                    }
                    if whole && queue_index >= num_queues {
                        // The queue to be searched in full does not exist.
                        proof {
                            assert(!queue_exists(st0, self.strategy, queue_index as int));
                            assert(!fin.ok);
                        }
                        return None;
                    }
                    proof {
                        assert(checked(st0, queue_exists(st0, self.strategy, queue_index as int)) == st0);
                    }
                    let mut queue_sub_index: usize = 0;
                    loop
                        invariant_except_break
                            !stopped,
                        invariant
                            resources@.len() == resources_length,
                            k < resources_length,
                            i < resources_length,
                            queue_index == self::queue_index(i as int, k as int, resources_length as int),
                            whole == (self.strategy.ptq_navigation_criterion == PTQNavigationCriterion::Whole),
                            whole ==> queue_index < num_queues,
                            self.ptqs().len() == num_queues,
                            num_tasks == dag.num_tasks(),
                            self.strategy == old(self).strategy,
                        fin == schedule_pass(dag, old(self).ptqs(), system.resources@, old(self).strategy),
                            !stopped ==> after_queue(
                                dag,
                                scan_queue(dag, self.current(resources@, result@), self.strategy, k as int, queue_index as int, queue_sub_index as int).0,
                                scan_queue(dag, self.current(resources@, result@), self.strategy, k as int, queue_index as int, queue_sub_index as int).1,
                                self.strategy,
                                k as int,
                                i as int,
                                resources_length as int,
                            ) == fin,
                            stopped ==> pass_from(dag, self.current(resources@, result@), self.strategy, k + 1, resources_length as int) == fin,
                        ensures
                            resources@.len() == resources_length,
                            self.ptqs().len() == num_queues,
                            self.strategy == old(self).strategy,
                        fin == schedule_pass(dag, old(self).ptqs(), system.resources@, old(self).strategy),
                            !stopped ==> pass_from(
                                dag,
                                scan_queues(dag, self.current(resources@, result@), self.strategy, k as int, i + 1, resources_length as int),
                                self.strategy,
                                k + 1,
                                resources_length as int,
                            ) == fin,
                            stopped ==> pass_from(dag, self.current(resources@, result@), self.strategy, k + 1, resources_length as int) == fin,
                        decreases scan_limit(self.current(resources@, result@), self.strategy, queue_index as int) - queue_sub_index,
                    {
                        let ghost st = self.current(resources@, result@);
                        // Every task of the queue, as it now stands, or only
                        // its front.
                        let limit = if whole {
                            self.processor_task_queues.queue_len(queue_index)
                        } else {
                            1
                        };
                        if queue_sub_index >= limit {
                            break;
                        }
                        proof {
                            if fin.ok {
                                let (st_e, stop_e) = scan_queue(dag, st, self.strategy, k as int, queue_index as int, queue_sub_index as int);
                                lemma_after_queue_ok(dag, st_e, stop_e, self.strategy, k as int, i as int, resources_length as int);
                                lemma_scan_queue_head_ok(dag, st, self.strategy, k as int, queue_index as int, queue_sub_index as int);
                            }
                        }
                        let entry = self.processor_task_queues.get_element(queue_index, queue_sub_index);
                        // 1st: the queue holds a task there.
                        // 2nd: all of the tasks it depends on have completed.
                        // 3rd: the task can be executed on this resource.
                        let taken = match entry {
                            Some(task_id) => {
                                let t = *task_id;
                                proof {
                                    assert(self.ptqs()[queue_index as int][queue_sub_index as int] == t);
                                }
                                if t >= num_tasks {
                                    // The queued entry is not a task of the DAG.
                                    return None;
                                }
                                dag.get_task(t).state == TaskState::Ready && evaluate(dag, t, &resources, k)
                            },
                            None => false,
                        };
                        proof {
                            assert(checked(st, entry_valid(dag, st, queue_index as int, queue_sub_index as int)) == st);
                            assert(taken == entry_taken(dag, st, k as int, queue_index as int, queue_sub_index as int));
                        }
                        if taken {
                            let task_id = match self.processor_task_queues.remove_element(queue_index, queue_sub_index) {
                                Some(t) => t,
                                None => 0,
                            };
                            let task = dag.get_task(task_id);
                            // Each task gets as many cores as it can use, up
                            // to the cores of the resource, and never more
                            // than the resource has free.
                            let mut cores_to_assign = if task.max_cores > resources[k].cores {
                                resources[k].cores
                            } else {
                                task.max_cores
                            };
                            if cores_to_assign > resources[k].cores_available {
                                cores_to_assign = resources[k].cores_available;
                            }
                            result.push(Action::ScheduleTask { task: task_id, resource: k, cores: cores_to_assign });
                            let ghost st2 = schedule_entry(dag, st, self.strategy, k as int, queue_index as int, queue_sub_index as int, task_id);
                            if self.strategy.multi_core_criterion == MultiCoreCriterion::UseAllCores {
                                proof {
                                    lemma_scan_progress(dag, st, self.strategy, k as int, queue_index as int, queue_sub_index as int);
                                }
                                let r = resources[k];
                                resources.set(
                                    k,
                                    Resource {
                                        id: r.id,
                                        cores: r.cores,
                                        cores_available: r.cores_available - cores_to_assign,
                                        memory: r.memory,
                                        memory_available: r.memory_available - task.memory,
                                    },
                                );
                                proof {
                                    assert(self.current(resources@, result@) == st2);
                                }
                                // With every task of the queue checked, the
                                // next one has moved up to this position.
                                if !whole {
                                    queue_sub_index = queue_sub_index + 1;
                                }
                            } else {
                                // Go on to the next processor.
                                stopped = true;
                                proof {
                                    assert(self.current(resources@, result@) == st2);
                                }
                                break;
                            }
                        } else {
                            queue_sub_index = queue_sub_index + 1;
                        }
                    }
                    i = i + 1;
                }
            }
            k = k + 1;
        }
        proof {
            assert(fin == self.current(resources@, result@));
        }
        Some(result)
    }

    /// One scheduling pass, on queues and resources with which it can be
    /// made.
    fn schedule(&mut self, dag: &DAG, system: &System) -> (result: Vec<Action>)
        requires
            schedule_allowed(dag, old(self).ptqs(), system.resources@, old(self).strategy),
        ensures
            final(self).strategy == old(self).strategy,
            final(self).ptqs() == schedule_pass(dag, old(self).ptqs(), system.resources@, old(self).strategy).queues,
            result@ == schedule_pass(dag, old(self).ptqs(), system.resources@, old(self).strategy).actions,
    {
        match self.try_schedule(dag, system) {
            Some(result) => result,
            None => Vec::new(),
        }
    }

    /// The start of the scheduler up to its first pass: one task queue is
    /// added per resource, and the tasks, sorted by their dependencies, are
    /// dealt out round robin to the queues of resources they can run on.
    fn deal(&mut self, dag: &DAG, system: &System)
        requires
            dag.wf(),
            old(self).strategy.task_sorting_criterion != TaskSortingCriterion::DFS
                ==> dag.all_inputs_produced() && dag.is_acyclic(),
            system.resources@.len() > 0,
            all_tasks_placeable(dag, resource_view(system.resources@)),
        ensures
            final(self).strategy == old(self).strategy,
            final(self).ptqs() == start_queues(dag, old(self).ptqs(), system.resources@, old(self).strategy),
            forall|x: usize|
                x < dag.num_tasks() ==> #[trigger] queued_count(final(self).ptqs(), x) == queued_count(
                    old(self).ptqs(),
                    x,
                ) + 1,
    {
        let ghost queues0 = self.ptqs();
        // Initialize the processor task queue of each resource (processor).
        self.initialize_ptqs(system);

        // Sorting the tasks by dependency in the dispatch task queue.
        let sorted = if self.strategy.task_sorting_criterion == TaskSortingCriterion::DFS {
            topsort(dag)
        } else if self.strategy.task_sorting_criterion == TaskSortingCriterion::Khan {
            khan_topological_sort(dag)
        } else {
            khan_topological_sort(dag)
        };

        // Cloning the current state of resources
        let resources = resource_copies(system);

        // Reversed, so that the next task in sorted order is popped from the back.
        let mut dispatch_task_queue = reversed(&sorted);
        proof {
            assert(dispatch_task_queue@.reverse() =~= sorted@);
            assert(sorted@ == sort_order(dag, self.strategy));
            assert forall|i: int| 0 <= i < dispatch_task_queue@.len() implies #[trigger] dispatch_task_queue@[i]
                < dag.num_tasks() && placeable(dag, resources@, dispatch_task_queue@[i] as int) by {
                assert(dispatch_task_queue@[i] == sorted@[sorted@.len() - 1 - i]);
            }
        }
        // Distributing the tasks to the processor task queues in round robin fashion.
        self.distribute_tasks(dag, &mut dispatch_task_queue, &resources);
        proof {
            assert(self.ptqs() == start_queues(dag, queues0, system.resources@, self.strategy));
            let n_res = system.resources@.len();
            assert(system.resources.len() == n_res);
            assert forall|x: usize| x < dag.num_tasks() implies #[trigger] queued_count(self.ptqs(), x)
                == queued_count(queues0, x) + 1 by {
                law_distribute(dag, resources@, sorted@, queues0 + empty_queues::<usize>(n_res), x);
                lemma_queued_empty_suffix(queues0, n_res, x);
                lemma_permutation_contains_all(sorted@, dag.num_tasks(), x);
                lemma_count_once(sorted@, x);
            }
        }
    }

    /// Starts the scheduler: one task queue is added per resource, the
    /// tasks are sorted by their dependencies and dealt out round robin to
    /// the queues of resources they can run on, and a first scheduling pass
    /// is made. `try_start` checks that this can be done.
    pub fn start(&mut self, dag: &DAG, system: &System, config: Config) -> (result: Vec<Action>)
        requires
            config.data_transfer_mode != DataTransferMode::Manual,
            old(self).spec_strategy().task_sorting_criterion != TaskSortingCriterion::DFS
                ==> dag.all_inputs_produced() && dag.is_acyclic(),
            system.resources@.len() > 0,
            all_tasks_placeable(dag, resource_view(system.resources@)),
            schedule_pass(
                dag,
                start_queues(dag, old(self).ptqs(), system.resources@, old(self).spec_strategy()),
                system.resources@,
                old(self).spec_strategy(),
            ).ok,
        ensures
            final(self).spec_strategy() == old(self).spec_strategy(),
            final(self).ptqs() == schedule_pass(
                dag,
                start_queues(dag, old(self).ptqs(), system.resources@, old(self).spec_strategy()),
                system.resources@,
                old(self).spec_strategy(),
            ).queues,
            result@ == schedule_pass(
                dag,
                start_queues(dag, old(self).ptqs(), system.resources@, old(self).spec_strategy()),
                system.resources@,
                old(self).spec_strategy(),
            ).actions,
            forall|x: usize|
                x < dag.num_tasks() ==> #[trigger] queued_count(final(self).ptqs(), x) + scheduled_count(
                    result@,
                    x,
                ) == queued_count(old(self).ptqs(), x) + 1,
            forall|i: int| 0 <= i < result@.len() ==> action_ok(dag, system.resources@, #[trigger] result@[i]),
            forall|r: int|
                0 <= r < system.resources@.len() ==> #[trigger] cores_used(result@, r)
                    <= system.resources@[r].cores_available,
    {
        proof {
            use_type_invariant(dag);
        }
        let ghost queues0 = self.ptqs();
        self.deal(dag, system);
        let ghost dealt = self.ptqs();

        // The initialization phase is over; now the dynamic scheduling.
        let result = self.schedule(dag, system);
        proof {
            assert(system.resources.len() == system.resources@.len());
            law_schedule_actions_sound(dag, dealt, system.resources@, self.strategy);
            law_schedule_within_free_cores(dag, dealt, system.resources@, self.strategy);
            assert forall|x: usize| x < dag.num_tasks() implies #[trigger] queued_count(self.ptqs(), x)
                + scheduled_count(result@, x) == queued_count(queues0, x) + 1 by {
                law_schedule_conserves_tasks(dag, dealt, system.resources@, self.strategy, x);
            }
        }
        result
    }

    /// A task changed state: a new scheduling pass is made.
    /// `try_on_task_state_changed` checks that the pass can be made.
    pub fn on_task_state_changed(
        &mut self,
        _task: usize,
        _task_state: TaskState,
        dag: &DAG,
        system: &System,
    ) -> (result: Vec<Action>)
        requires
            schedule_allowed(dag, old(self).ptqs(), system.resources@, old(self).spec_strategy()),
        ensures
            final(self).spec_strategy() == old(self).spec_strategy(),
            final(self).ptqs() == schedule_pass(
                dag,
                old(self).ptqs(),
                system.resources@,
                old(self).spec_strategy(),
            ).queues,
            result@ == schedule_pass(dag, old(self).ptqs(), system.resources@, old(self).spec_strategy()).actions,
            forall|x: usize|
                #[trigger] queued_count(final(self).ptqs(), x) + scheduled_count(result@, x)
                    == queued_count(old(self).ptqs(), x),
            forall|i: int| 0 <= i < result@.len() ==> action_ok(dag, system.resources@, #[trigger] result@[i]),
            forall|r: int|
                0 <= r < system.resources@.len() ==> #[trigger] cores_used(result@, r)
                    <= system.resources@[r].cores_available,
    {
        let ghost queues0 = self.ptqs();
        let result = self.schedule(dag, system);
        proof {
            assert(system.resources.len() == system.resources@.len());
            law_schedule_actions_sound(dag, queues0, system.resources@, self.strategy);
            law_schedule_within_free_cores(dag, queues0, system.resources@, self.strategy);
            assert forall|x: usize| #[trigger] queued_count(self.ptqs(), x) + scheduled_count(result@, x)
                == queued_count(queues0, x) by {
                law_schedule_conserves_tasks(dag, queues0, system.resources@, self.strategy, x);
            }
        }
        result
    }

    /// Starts the scheduler as `start` does, on every input on which that
    /// can be done; `None`, with the scheduler left as it was, when the data
    /// transfer mode is `Manual`, the system has no resource, some task fits
    /// on no resource, the tasks are to be sorted by Kahn's algorithm and one
    /// reads data that no task writes or the DAG has a cycle, or the first
    /// scheduling pass cannot be made.
    pub fn try_start(&mut self, dag: &DAG, system: &System, config: Config) -> (res: Option<Vec<Action>>)
        ensures
            final(self).spec_strategy() == old(self).spec_strategy(),
            res.is_some() == ({
                &&& config.data_transfer_mode != DataTransferMode::Manual
                &&& system.resources@.len() > 0
                &&& all_tasks_placeable(dag, resource_view(system.resources@))
                &&& old(self).spec_strategy().task_sorting_criterion != TaskSortingCriterion::DFS
                    ==> dag.all_inputs_produced() && dag.is_acyclic()
                &&& schedule_pass(
                    dag,
                    start_queues(dag, old(self).ptqs(), system.resources@, old(self).spec_strategy()),
                    system.resources@,
                    old(self).spec_strategy(),
                ).ok
            }),
            res matches Some(result) ==> {
                &&& final(self).ptqs() == schedule_pass(
                    dag,
                    start_queues(dag, old(self).ptqs(), system.resources@, old(self).spec_strategy()),
                    system.resources@,
                    old(self).spec_strategy(),
                ).queues
                &&& result@ == schedule_pass(
                    dag,
                    start_queues(dag, old(self).ptqs(), system.resources@, old(self).spec_strategy()),
                    system.resources@,
                    old(self).spec_strategy(),
                ).actions
                &&& forall|x: usize|
                    x < dag.num_tasks() ==> #[trigger] queued_count(final(self).ptqs(), x)
                        + scheduled_count(result@, x) == queued_count(old(self).ptqs(), x) + 1
                &&& forall|i: int|
                    0 <= i < result@.len() ==> action_ok(dag, system.resources@, #[trigger] result@[i])
                &&& forall|r: int|
                    0 <= r < system.resources@.len() ==> #[trigger] cores_used(result@, r)
                        <= system.resources@[r].cores_available
            },
            res is None ==> final(self).ptqs() == old(self).ptqs(),
    {
        proof {
            use_type_invariant(dag);
        }
        if config.data_transfer_mode == DataTransferMode::Manual {
            return None;
        }
        let resources = resource_copies(system);
        if resources.len() == 0 {
            return None;
        }
        if !all_placeable(dag, &resources) {
            return None;
        }
        if self.strategy.task_sorting_criterion != TaskSortingCriterion::DFS {
            if !dag.inputs_all_produced() {
                return None;
            }
            if try_khan_topological_sort(dag).is_none() {
                return None;
            }
        }
        let mut trial = DynamicTaskSchedulingAlgorithm {
            processor_task_queues: self.processor_task_queues.duplicate(),
            strategy: self.strategy,
        };
        let ghost queues0 = trial.ptqs();
        trial.deal(dag, system);
        let ghost dealt = trial.ptqs();
        match trial.try_schedule(dag, system) {
            Some(result) => {
                proof {
                    assert(system.resources.len() == system.resources@.len());
                    law_schedule_actions_sound(dag, dealt, system.resources@, trial.strategy);
                    law_schedule_within_free_cores(dag, dealt, system.resources@, trial.strategy);
                    assert forall|x: usize| x < dag.num_tasks() implies #[trigger] queued_count(trial.ptqs(), x)
                        + scheduled_count(result@, x) == queued_count(queues0, x) + 1 by {
                        law_schedule_conserves_tasks(dag, dealt, system.resources@, trial.strategy, x);
                    }
                }
                self.processor_task_queues = trial.processor_task_queues;
                Some(result)
            },
            None => None,
        }
    }

    /// A new scheduling pass, as `on_task_state_changed` makes it, on every
    /// input on which it can be made; `None`, with the scheduler left as it
    /// was, when it cannot.
    pub fn try_on_task_state_changed(
        &mut self,
        _task: usize,
        _task_state: TaskState,
        dag: &DAG,
        system: &System,
    ) -> (res: Option<Vec<Action>>)
        ensures
            final(self).spec_strategy() == old(self).spec_strategy(),
            res.is_some() == schedule_allowed(dag, old(self).ptqs(), system.resources@, old(self).spec_strategy()),
            res matches Some(result) ==> {
                &&& final(self).ptqs() == schedule_pass(
                    dag,
                    old(self).ptqs(),
                    system.resources@,
                    old(self).spec_strategy(),
                ).queues
                &&& result@ == schedule_pass(
                    dag,
                    old(self).ptqs(),
                    system.resources@,
                    old(self).spec_strategy(),
                ).actions
                &&& forall|x: usize|
                    #[trigger] queued_count(final(self).ptqs(), x) + scheduled_count(result@, x)
                        == queued_count(old(self).ptqs(), x)
                &&& forall|i: int|
                    0 <= i < result@.len() ==> action_ok(dag, system.resources@, #[trigger] result@[i])
                &&& forall|r: int|
                    0 <= r < system.resources@.len() ==> #[trigger] cores_used(result@, r)
                        <= system.resources@[r].cores_available
            },
            res is None ==> final(self).ptqs() == old(self).ptqs(),
    {
        let mut trial = DynamicTaskSchedulingAlgorithm {
            processor_task_queues: self.processor_task_queues.duplicate(),
            strategy: self.strategy,
        };
        let ghost queues0 = trial.ptqs();
        match trial.try_schedule(dag, system) {
            Some(result) => {
                proof {
                    assert(system.resources.len() == system.resources@.len());
                    law_schedule_actions_sound(dag, queues0, system.resources@, trial.strategy);
                    law_schedule_within_free_cores(dag, queues0, system.resources@, trial.strategy);
                    assert forall|x: usize| #[trigger] queued_count(trial.ptqs(), x) + scheduled_count(result@, x)
                        == queued_count(queues0, x) by {
                        law_schedule_conserves_tasks(dag, queues0, system.resources@, trial.strategy, x);
                    }
                }
                self.processor_task_queues = trial.processor_task_queues;
                Some(result)
            },
            None => None,
        }
    }

    /// The scheduler reacts to events: it is not static.
    pub fn is_static(&self) -> (b: bool)
        ensures
            !b,
    {
        false
    }
}

} // verus!
