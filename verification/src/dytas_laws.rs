//! What every scheduling pass and every round-robin deal keeps: no task is
//! lost or duplicated, only ready tasks are scheduled, and each on a
//! resource it fits.
use crate::dag::{count_of, lemma_count_concat, TaskState, DAG};
use crate::dytas::{
    distribute, next_fit, next_pos, placeable, pos_after, round_robin,
    checked, entry_valid, queue_exists,
    cores_for, entry_at, entry_taken, fits, lemma_scan_progress, lemma_scan_queue_ok, pass_from, scan_limit, scan_next, queue_index, resource_view, scan_queue,
    scan_queues, schedule_entry, schedule_pass, skips, PassState,
};
use crate::strategy::{MultiCoreCriterion, PTQNavigationCriterion, Strategy};
use crate::system::{Action, Resource};
use vstd::prelude::*;

verus! {

/// How many times `x` is queued, over all the queues.
pub open spec fn queued_count(queues: Seq<Seq<usize>>, x: usize) -> nat
    decreases queues.len(),
{
    if queues.len() == 0 {
        0
    } else {
        queued_count(queues.drop_last(), x) + count_of(queues.last(), x)
    }
}

/// How many of `actions` schedule task `x`.
pub open spec fn scheduled_count(actions: Seq<Action>, x: usize) -> nat
    decreases actions.len(),
{
    if actions.len() == 0 {
        0
    } else {
        scheduled_count(actions.drop_last(), x) + match actions.last() {
            Action::ScheduleTask { task, .. } => if task == x {
                1nat
            } else {
                0nat
            },
        }
    }
}

proof fn lemma_count_remove(s: Seq<usize>, i: int, x: usize)
    requires
        0 <= i < s.len(),
    ensures
        count_of(s.remove(i), x) + (if s[i] == x {
            1nat
        } else {
            0nat
        }) == count_of(s, x),
{
    assert(s =~= s.take(i) + (seq![s[i]] + s.skip(i + 1)));
    assert(s.remove(i) =~= s.take(i) + s.skip(i + 1));
    lemma_count_concat(s.take(i), seq![s[i]] + s.skip(i + 1), x);
    lemma_count_concat(seq![s[i]], s.skip(i + 1), x);
    lemma_count_concat(s.take(i), s.skip(i + 1), x);
    let one = seq![s[i]];
    assert(one.drop_last() =~= Seq::<usize>::empty());
    assert(count_of(one.drop_last(), x) == 0);
    assert(one.last() == s[i]);
    assert(count_of(seq![s[i]], x) == if s[i] == x {
        1nat
    } else {
        0nat
    });
    assert(count_of(s, x) == count_of(s.take(i) + (seq![s[i]] + s.skip(i + 1)), x));
}

proof fn lemma_queued_update(queues: Seq<Seq<usize>>, q: int, t: Seq<usize>, x: usize)
    requires
        0 <= q < queues.len(),
    ensures
        queued_count(queues.update(q, t), x) + count_of(queues[q], x) == queued_count(queues, x)
            + count_of(t, x),
    decreases queues.len(),
{
    let nq = queues.update(q, t);
    if q == queues.len() - 1 {
        assert(nq.drop_last() =~= queues.drop_last());
    } else {
        assert(nq.drop_last() =~= queues.drop_last().update(q, t));
        lemma_queued_update(queues.drop_last(), q, t, x);
    }
}

/// A task scheduled is a task no longer queued.
proof fn lemma_entry_conserves(dag: &DAG, st: PassState, strategy: Strategy, k: int, q: int, s: int, x: usize)
    requires
        entry_at(st.queues, q, s).is_some(),
    ensures
        ({
            let st2 = schedule_entry(dag, st, strategy, k, q, s, entry_at(st.queues, q, s).unwrap());
            queued_count(st2.queues, x) + scheduled_count(st2.actions, x) == queued_count(st.queues, x)
                + scheduled_count(st.actions, x)
        }),
{
    let t = entry_at(st.queues, q, s).unwrap();
    let st2 = schedule_entry(dag, st, strategy, k, q, s, t);
    lemma_count_remove(st.queues[q], s, x);
    lemma_queued_update(st.queues, q, st.queues[q].remove(s), x);
    assert(st2.actions.drop_last() == st.actions);
}

proof fn lemma_scan_queue_conserves(dag: &DAG, st: PassState, strategy: Strategy, k: int, q: int, s: int, x: usize)
    ensures
        ({
            let st2 = scan_queue(dag, st, strategy, k, q, s).0;
            queued_count(st2.queues, x) + scheduled_count(st2.actions, x) == queued_count(st.queues, x)
                + scheduled_count(st.actions, x)
        }),
    decreases scan_limit(st, strategy, q) - s,
{
    if s < scan_limit(st, strategy, q) {
        let st1 = checked(st, entry_valid(dag, st, q, s));
        if entry_taken(dag, st1, k, q, s) {
            let st2 = schedule_entry(dag, st1, strategy, k, q, s, entry_at(st1.queues, q, s).unwrap());
            lemma_entry_conserves(dag, st1, strategy, k, q, s, x);
            if strategy.multi_core_criterion == MultiCoreCriterion::UseAllCores {
                lemma_scan_progress(dag, st1, strategy, k, q, s);
                lemma_scan_queue_conserves(dag, st2, strategy, k, q, scan_next(strategy, s), x);
            }
        } else {
            lemma_scan_queue_conserves(dag, st1, strategy, k, q, s + 1, x);
        }
    }
}

proof fn lemma_scan_queues_conserves(dag: &DAG, st: PassState, strategy: Strategy, k: int, i: int, n: int, x: usize)
    ensures
        ({
            let st2 = scan_queues(dag, st, strategy, k, i, n);
            queued_count(st2.queues, x) + scheduled_count(st2.actions, x) == queued_count(st.queues, x)
                + scheduled_count(st.actions, x)
        }),
    decreases n - i,
{
    if i < n {
        let q = queue_index(i, k, n);
        let st1 = checked(st, queue_exists(st, strategy, q));
        lemma_scan_queue_conserves(dag, st1, strategy, k, q, 0, x);
        let (st2, stopped) = scan_queue(dag, st1, strategy, k, q, 0);
        if !stopped {
            lemma_scan_queues_conserves(dag, st2, strategy, k, i + 1, n, x);
        }
    }
}

proof fn lemma_pass_from_conserves(dag: &DAG, st: PassState, strategy: Strategy, k: int, n: int, x: usize)
    ensures
        ({
            let st2 = pass_from(dag, st, strategy, k, n);
            queued_count(st2.queues, x) + scheduled_count(st2.actions, x) == queued_count(st.queues, x)
                + scheduled_count(st.actions, x)
        }),
    decreases n - k,
{
    if k < n {
        if skips(st, strategy, k) {
            lemma_pass_from_conserves(dag, st, strategy, k + 1, n, x);
        } else {
            lemma_scan_queues_conserves(dag, st, strategy, k, 0, n, x);
            lemma_pass_from_conserves(dag, scan_queues(dag, st, strategy, k, 0, n), strategy, k + 1, n, x);
        }
    }
}

/// A scheduling pass loses and duplicates no task: each task is scheduled
/// as many times as it leaves the queues.
pub proof fn law_schedule_conserves_tasks(
    dag: &DAG,
    queues: Seq<Seq<usize>>,
    resources: Seq<Resource>,
    strategy: Strategy,
    x: usize,
)
    ensures
        queued_count(schedule_pass(dag, queues, resources, strategy).queues, x) + scheduled_count(
            schedule_pass(dag, queues, resources, strategy).actions,
            x,
        ) == queued_count(queues, x),
{
    let st = PassState { queues, resources: resource_view(resources), actions: Seq::empty(), ok: true };
    lemma_pass_from_conserves(dag, st, strategy, 0, resources.len() as int, x);
}

/// `a` schedules a ready task of the DAG on one of `resources`, where the
/// task may run, with no more cores than the task can use, than the
/// resource has, or than the resource has free.
pub open spec fn action_ok(dag: &DAG, resources: Seq<Resource>, a: Action) -> bool {
    match a {
        Action::ScheduleTask { task, resource, cores } => {
            &&& task < dag.num_tasks()
            &&& dag.task_seq()[task as int].state == TaskState::Ready
            &&& dag.task_seq()[task as int].allowed_on(resource)
            &&& resource < resources.len()
            &&& cores <= dag.task_seq()[task as int].max_cores
            &&& cores <= resources[resource as int].cores
            &&& cores <= resources[resource as int].cores_available
        },
    }
}

/// The pass state agrees with `base` on the resources' total cores and, while
/// it is sound, every action taken so far is sound.
pub open spec fn pass_sound(dag: &DAG, base: Seq<Resource>, st: PassState) -> bool {
    &&& st.resources.len() == base.len()
    &&& base.len() <= usize::MAX
    &&& forall|r: int|
        0 <= r < base.len() ==> (#[trigger] st.resources[r]).cores == base[r].cores
            && st.resources[r].cores_available <= base[r].cores_available
    &&& st.ok ==> forall|i: int| 0 <= i < st.actions.len() ==> action_ok(dag, base, #[trigger] st.actions[i])
}

proof fn lemma_entry_sound(dag: &DAG, base: Seq<Resource>, st: PassState, strategy: Strategy, k: int, q: int, s: int)
    requires
        pass_sound(dag, base, st),
        0 <= k < base.len(),
        entry_taken(dag, st, k, q, s),
        st.ok ==> entry_valid(dag, st, q, s),
    ensures
        pass_sound(dag, base, schedule_entry(dag, st, strategy, k, q, s, entry_at(st.queues, q, s).unwrap())),
{
    let t = entry_at(st.queues, q, s).unwrap();
    let st2 = schedule_entry(dag, st, strategy, k, q, s, t);
    assert(st.resources[k].cores == base[k].cores);
    assert forall|r: int| 0 <= r < base.len() implies (#[trigger] st2.resources[r]).cores == base[r].cores
        && st2.resources[r].cores_available <= base[r].cores_available by {
        assert(st.resources[r].cores == base[r].cores);
        assert(st.resources[r].cores_available <= base[r].cores_available);
    }
    assert forall|i: int| st2.ok && 0 <= i < st2.actions.len() implies action_ok(dag, base, #[trigger] st2.actions[i]) by {
        if i < st.actions.len() {
            assert(st2.actions[i] == st.actions[i]);
        } else {
            let task = dag.task_seq()[t as int];
            assert(fits(task, st.resources[k], k as usize));
            assert(st.resources[k].cores == base[k].cores);
            assert(st.resources[k].cores_available <= base[k].cores_available);
            assert(st2.actions[i] == Action::ScheduleTask {
                task: t,
                resource: k as usize,
                cores: cores_for(task, st.resources[k]),
            });
        }
    }
}

proof fn lemma_scan_queue_sound(dag: &DAG, base: Seq<Resource>, st: PassState, strategy: Strategy, k: int, q: int, s: int)
    requires
        pass_sound(dag, base, st),
        0 <= k < base.len(),
    ensures
        pass_sound(dag, base, scan_queue(dag, st, strategy, k, q, s).0),
    decreases scan_limit(st, strategy, q) - s,
{
    if s < scan_limit(st, strategy, q) {
        let st1 = checked(st, entry_valid(dag, st, q, s));
        if entry_taken(dag, st1, k, q, s) {
            let st2 = schedule_entry(dag, st1, strategy, k, q, s, entry_at(st1.queues, q, s).unwrap());
            lemma_entry_sound(dag, base, st1, strategy, k, q, s);
            if strategy.multi_core_criterion == MultiCoreCriterion::UseAllCores {
                lemma_scan_progress(dag, st1, strategy, k, q, s);
                lemma_scan_queue_sound(dag, base, st2, strategy, k, q, scan_next(strategy, s));
            }
        } else {
            lemma_scan_queue_sound(dag, base, st1, strategy, k, q, s + 1);
        }
    }
}

proof fn lemma_scan_queues_sound(dag: &DAG, base: Seq<Resource>, st: PassState, strategy: Strategy, k: int, i: int, n: int)
    requires
        pass_sound(dag, base, st),
        0 <= k < base.len(),
    ensures
        pass_sound(dag, base, scan_queues(dag, st, strategy, k, i, n)),
    decreases n - i,
{
    if i < n {
        let q = queue_index(i, k, n);
        let st1 = checked(st, queue_exists(st, strategy, q));
        lemma_scan_queue_sound(dag, base, st1, strategy, k, q, 0);
        let (st2, stopped) = scan_queue(dag, st1, strategy, k, q, 0);
        if !stopped {
            lemma_scan_queues_sound(dag, base, st2, strategy, k, i + 1, n);
        }
    }
}

proof fn lemma_pass_from_sound(dag: &DAG, base: Seq<Resource>, st: PassState, strategy: Strategy, k: int)
    requires
        pass_sound(dag, base, st),
        0 <= k,
    ensures
        pass_sound(dag, base, pass_from(dag, st, strategy, k, base.len() as int)),
    decreases base.len() - k,
{
    if k < base.len() {
        if skips(st, strategy, k) {
            lemma_pass_from_sound(dag, base, st, strategy, k + 1);
        } else {
            lemma_scan_queues_sound(dag, base, st, strategy, k, 0, base.len() as int);
            lemma_pass_from_sound(dag, base, scan_queues(dag, st, strategy, k, 0, base.len() as int), strategy, k + 1);
        }
    }
}

/// Every action of a scheduling pass that can be made schedules a ready task
/// of the DAG, on a resource of the system that the task may run on, with as
/// many cores as the task can use up to the cores of the resource.
pub proof fn law_schedule_actions_sound(
    dag: &DAG,
    queues: Seq<Seq<usize>>,
    resources: Seq<Resource>,
    strategy: Strategy,
)
    requires
        resources.len() <= usize::MAX,
    ensures
        schedule_pass(dag, queues, resources, strategy).ok ==> forall|i: int|
            0 <= i < schedule_pass(dag, queues, resources, strategy).actions.len() ==> action_ok(
                dag,
                resources,
                #[trigger] schedule_pass(dag, queues, resources, strategy).actions[i],
            ),
{
    let base = resource_view(resources);
    let st = PassState { queues, resources: base, actions: Seq::empty(), ok: true };
    lemma_pass_from_sound(dag, base, st, strategy, 0);
    let fin = schedule_pass(dag, queues, resources, strategy);
    assert forall|i: int| fin.ok && 0 <= i < fin.actions.len() implies action_ok(dag, resources, #[trigger] fin.actions[i]) by {
        assert(action_ok(dag, base, fin.actions[i]));
        match fin.actions[i] {
            Action::ScheduleTask { task, resource, cores } => {
                assert(base[resource as int].cores == resources[resource as int].cores);
            },
        }
    }
}

/// The resource an action schedules on.
pub open spec fn action_resource(a: Action) -> usize {
    match a {
        Action::ScheduleTask { resource, .. } => resource,
    }
}

/// The cores an action assigns.
pub open spec fn action_cores(a: Action) -> u32 {
    match a {
        Action::ScheduleTask { cores, .. } => cores,
    }
}

/// The task an action schedules.
pub open spec fn action_task(a: Action) -> usize {
    match a {
        Action::ScheduleTask { task, .. } => task,
    }
}

/// `a` schedules on resource `k` a task that fits on it, with no more
/// cores than the resource has free.
pub open spec fn fits_on(dag: &DAG, resources: Seq<Resource>, a: Action, k: int) -> bool {
    &&& action_resource(a) == k
    &&& fits(dag.task_seq()[action_task(a) as int], resources[k], k as usize)
    &&& action_cores(a) <= resources[k].cores_available
}

proof fn lemma_scan_queue_one(dag: &DAG, st: PassState, strategy: Strategy, k: int, q: int, s: int)
    requires
        strategy.multi_core_criterion == MultiCoreCriterion::SkipActiveNodes,
        0 <= k <= usize::MAX,
    ensures
        ({
            let (st2, stopped) = scan_queue(dag, st, strategy, k, q, s);
            &&& st2.resources == st.resources
            &&& !stopped ==> st2.actions == st.actions
            &&& stopped ==> st2.actions.len() == st.actions.len() + 1 && st2.actions.drop_last()
                == st.actions && fits_on(dag, st.resources, st2.actions.last(), k)
        }),
    decreases scan_limit(st, strategy, q) - s,
{
    if s < scan_limit(st, strategy, q) {
        let st1 = checked(st, entry_valid(dag, st, q, s));
        assert(st1.resources == st.resources && st1.actions == st.actions && st1.queues == st.queues);
        if entry_taken(dag, st1, k, q, s) {
            let st2 = schedule_entry(dag, st1, strategy, k, q, s, entry_at(st1.queues, q, s).unwrap());
            assert(st2.actions.drop_last() =~= st.actions);
        } else {
            lemma_scan_queue_one(dag, st1, strategy, k, q, s + 1);
        }
    }
}

proof fn lemma_scan_queues_one(dag: &DAG, st: PassState, strategy: Strategy, k: int, i: int, n: int)
    requires
        strategy.multi_core_criterion == MultiCoreCriterion::SkipActiveNodes,
        0 <= k <= usize::MAX,
    ensures
        ({
            let st2 = scan_queues(dag, st, strategy, k, i, n);
            &&& st2.resources == st.resources
            &&& st2.actions == st.actions || (st2.actions.len() == st.actions.len() + 1
                && st2.actions.drop_last() == st.actions && fits_on(dag, st.resources, st2.actions.last(), k))
        }),
    decreases n - i,
{
    if i < n {
        let q = queue_index(i, k, n);
        let st1 = checked(st, queue_exists(st, strategy, q));
        lemma_scan_queue_one(dag, st1, strategy, k, q, 0);
        let (st2, stopped) = scan_queue(dag, st1, strategy, k, q, 0);
        if !stopped {
            lemma_scan_queues_one(dag, st2, strategy, k, i + 1, n);
        }
    }
}

/// The actions take resources in increasing order, each idle and fitting
/// its task, all below `k`.
pub open spec fn one_per_idle_resource(dag: &DAG, resources: Seq<Resource>, actions: Seq<Action>, k: int) -> bool {
    &&& forall|i: int, j: int|
        0 <= i < j < actions.len() ==> action_resource(#[trigger] actions[i]) < action_resource(
            #[trigger] actions[j],
        )
    &&& forall|i: int|
        0 <= i < actions.len() ==> action_resource(#[trigger] actions[i]) < k && fits_on(
            dag,
            resources,
            actions[i],
            action_resource(actions[i]) as int,
        ) && resources[action_resource(actions[i]) as int].cores_available
            == resources[action_resource(actions[i]) as int].cores
}

proof fn lemma_pass_from_one(dag: &DAG, base: Seq<Resource>, st: PassState, strategy: Strategy, k: int)
    requires
        strategy.multi_core_criterion == MultiCoreCriterion::SkipActiveNodes,
        base.len() <= usize::MAX,
        0 <= k <= base.len(),
        st.resources == base,
        one_per_idle_resource(dag, base, st.actions, k),
    ensures
        pass_from(dag, st, strategy, k, base.len() as int).resources == base,
        one_per_idle_resource(dag, base, pass_from(dag, st, strategy, k, base.len() as int).actions, base.len() as int),
    decreases base.len() - k,
{
    if k < base.len() {
        if skips(st, strategy, k) {
            lemma_pass_from_one(dag, base, st, strategy, k + 1);
        } else {
            let st2 = scan_queues(dag, st, strategy, k, 0, base.len() as int);
            lemma_scan_queues_one(dag, st, strategy, k, 0, base.len() as int);
            assert(one_per_idle_resource(dag, base, st2.actions, k + 1)) by {
                if st2.actions != st.actions {
                    let a = st2.actions.last();
                    assert forall|i: int| 0 <= i < st2.actions.len() implies action_resource(
                        #[trigger] st2.actions[i],
                    ) < k + 1 && fits_on(dag, base, st2.actions[i], action_resource(st2.actions[i]) as int)
                        && base[action_resource(st2.actions[i]) as int].cores_available
                        == base[action_resource(st2.actions[i]) as int].cores by {
                        if i < st.actions.len() {
                            assert(st2.actions[i] == st.actions[i]);
                        }
                    }
                    assert forall|i: int, j: int|
                        0 <= i < j < st2.actions.len() implies action_resource(#[trigger] st2.actions[i])
                        < action_resource(#[trigger] st2.actions[j]) by {
                        assert(st2.actions[i] == st.actions[i]);
                        if j < st.actions.len() {
                            assert(st2.actions[j] == st.actions[j]);
                        }
                    }
                }
            }
            lemma_pass_from_one(dag, base, st2, strategy, k + 1);
        }
    }
}

/// Skipping active nodes, a scheduling pass gives each resource at most one
/// task, in increasing order of resource, and only to a resource that is
/// idle (all of its cores free) and that the task fits on; the resources are
/// left as they were.
pub proof fn law_skip_active_nodes(dag: &DAG, queues: Seq<Seq<usize>>, resources: Seq<Resource>, strategy: Strategy)
    requires
        strategy.multi_core_criterion == MultiCoreCriterion::SkipActiveNodes,
        resources.len() <= usize::MAX,
    ensures
        schedule_pass(dag, queues, resources, strategy).resources == resource_view(resources),
        one_per_idle_resource(
            dag,
            resource_view(resources),
            schedule_pass(dag, queues, resources, strategy).actions,
            resources.len() as int,
        ),
{
    let base = resource_view(resources);
    let st = PassState { queues, resources: base, actions: Seq::empty(), ok: true };
    lemma_pass_from_one(dag, base, st, strategy, 0);
}

/// The memory of the tasks that `actions` schedule on resource `r`.
pub open spec fn memory_used(dag: &DAG, actions: Seq<Action>, r: int) -> nat
    decreases actions.len(),
{
    if actions.len() == 0 {
        0
    } else {
        memory_used(dag, actions.drop_last(), r) + if action_resource(actions.last()) == r {
            dag.task_seq()[action_task(actions.last()) as int].memory as nat
        } else {
            0nat
        }
    }
}

/// The cores that `actions` assign on resource `r`.
pub open spec fn cores_used(actions: Seq<Action>, r: int) -> nat
    decreases actions.len(),
{
    if actions.len() == 0 {
        0
    } else {
        cores_used(actions.drop_last(), r) + match actions.last() {
            Action::ScheduleTask { resource, cores, .. } => if resource == r {
                cores as nat
            } else {
                0nat
            },
        }
    }
}

/// Free memory and free cores of each resource are what `base` had, less
/// what the actions took.
pub open spec fn accounted(dag: &DAG, base: Seq<Resource>, st: PassState) -> bool {
    &&& st.resources.len() == base.len()
    &&& base.len() <= usize::MAX
    &&& forall|r: int|
        0 <= r < base.len() ==> #[trigger] st.resources[r].memory_available + memory_used(
            dag,
            st.actions,
            r,
        ) == base[r].memory_available
    &&& forall|r: int|
        0 <= r < base.len() ==> #[trigger] st.resources[r].cores_available + cores_used(st.actions, r)
            == base[r].cores_available
}

proof fn lemma_entry_accounted(dag: &DAG, base: Seq<Resource>, st: PassState, strategy: Strategy, k: int, q: int, s: int)
    requires
        strategy.multi_core_criterion == MultiCoreCriterion::UseAllCores,
        accounted(dag, base, st),
        0 <= k < base.len(),
        entry_taken(dag, st, k, q, s),
    ensures
        accounted(dag, base, schedule_entry(dag, st, strategy, k, q, s, entry_at(st.queues, q, s).unwrap())),
{
    let t = entry_at(st.queues, q, s).unwrap();
    let st2 = schedule_entry(dag, st, strategy, k, q, s, t);
    let task = dag.task_seq()[t as int];
    assert(st2.actions.drop_last() == st.actions);
    assert forall|r: int| 0 <= r < base.len() implies #[trigger] st2.resources[r].memory_available
        + memory_used(dag, st2.actions, r) == base[r].memory_available by {
        assert(st.resources[r].memory_available + memory_used(dag, st.actions, r) == base[r].memory_available);
    }
    assert forall|r: int| 0 <= r < base.len() implies #[trigger] st2.resources[r].cores_available
        + cores_used(st2.actions, r) == base[r].cores_available by {
        assert(st.resources[r].cores_available + cores_used(st.actions, r) == base[r].cores_available);
    }
}

proof fn lemma_scan_queue_accounted(dag: &DAG, base: Seq<Resource>, st: PassState, strategy: Strategy, k: int, q: int, s: int)
    requires
        strategy.multi_core_criterion == MultiCoreCriterion::UseAllCores,
        accounted(dag, base, st),
        0 <= k < base.len(),
    ensures
        accounted(dag, base, scan_queue(dag, st, strategy, k, q, s).0),
    decreases scan_limit(st, strategy, q) - s,
{
    if s < scan_limit(st, strategy, q) {
        let st1 = checked(st, entry_valid(dag, st, q, s));
        if entry_taken(dag, st1, k, q, s) {
            let st2 = schedule_entry(dag, st1, strategy, k, q, s, entry_at(st1.queues, q, s).unwrap());
            lemma_entry_accounted(dag, base, st1, strategy, k, q, s);
            lemma_scan_progress(dag, st1, strategy, k, q, s);
            lemma_scan_queue_accounted(dag, base, st2, strategy, k, q, scan_next(strategy, s));
        } else {
            lemma_scan_queue_accounted(dag, base, st1, strategy, k, q, s + 1);
        }
    }
}

proof fn lemma_scan_queues_accounted(dag: &DAG, base: Seq<Resource>, st: PassState, strategy: Strategy, k: int, i: int, n: int)
    requires
        strategy.multi_core_criterion == MultiCoreCriterion::UseAllCores,
        accounted(dag, base, st),
        0 <= k < base.len(),
    ensures
        accounted(dag, base, scan_queues(dag, st, strategy, k, i, n)),
    decreases n - i,
{
    if i < n {
        let q = queue_index(i, k, n);
        let st1 = checked(st, queue_exists(st, strategy, q));
        lemma_scan_queue_accounted(dag, base, st1, strategy, k, q, 0);
        let (st2, stopped) = scan_queue(dag, st1, strategy, k, q, 0);
        if !stopped {
            lemma_scan_queues_accounted(dag, base, st2, strategy, k, i + 1, n);
        }
    }
}

proof fn lemma_pass_from_accounted(dag: &DAG, base: Seq<Resource>, st: PassState, strategy: Strategy, k: int)
    requires
        strategy.multi_core_criterion == MultiCoreCriterion::UseAllCores,
        accounted(dag, base, st),
        0 <= k,
    ensures
        accounted(dag, base, pass_from(dag, st, strategy, k, base.len() as int)),
    decreases base.len() - k,
{
    if k < base.len() {
        if skips(st, strategy, k) {
            lemma_pass_from_accounted(dag, base, st, strategy, k + 1);
        } else {
            lemma_scan_queues_accounted(dag, base, st, strategy, k, 0, base.len() as int);
            lemma_pass_from_accounted(dag, base, scan_queues(dag, st, strategy, k, 0, base.len() as int), strategy, k + 1);
        }
    }
}

/// Using all cores, a scheduling pass never commits more memory or more
/// cores on a resource than it had free: what is left free is what was free
/// less the memory of the tasks scheduled there and the cores assigned to
/// them.
pub proof fn law_use_all_cores_accounting(dag: &DAG, queues: Seq<Seq<usize>>, resources: Seq<Resource>, strategy: Strategy)
    requires
        strategy.multi_core_criterion == MultiCoreCriterion::UseAllCores,
        resources.len() <= usize::MAX,
    ensures
        forall|r: int|
            0 <= r < resources.len() ==> #[trigger] schedule_pass(dag, queues, resources, strategy).resources[r].memory_available
                + memory_used(dag, schedule_pass(dag, queues, resources, strategy).actions, r)
                == resources[r].memory_available,
        forall|r: int|
            0 <= r < resources.len() ==> #[trigger] schedule_pass(dag, queues, resources, strategy).resources[r].cores_available
                + cores_used(schedule_pass(dag, queues, resources, strategy).actions, r)
                == resources[r].cores_available,
{
    let base = resource_view(resources);
    let st = PassState { queues, resources: base, actions: Seq::empty(), ok: true };
    lemma_pass_from_accounted(dag, base, st, strategy, 0);
    let fin = schedule_pass(dag, queues, resources, strategy);
    assert forall|r: int| 0 <= r < resources.len() implies #[trigger] fin.resources[r].memory_available
        + memory_used(dag, fin.actions, r) == resources[r].memory_available by {
        assert(base[r].memory_available == resources[r].memory_available);
    }
    assert forall|r: int| 0 <= r < resources.len() implies #[trigger] fin.resources[r].cores_available
        + cores_used(fin.actions, r) == resources[r].cores_available by {
        assert(base[r].cores_available == resources[r].cores_available);
    }
}

proof fn lemma_next_fit_fits(dag: &DAG, resources: Seq<Resource>, t: usize, p: int, fuel: nat, j: int)
    requires
        0 <= p < resources.len(),
        0 <= j < fuel <= resources.len(),
        fits(
            dag.task_seq()[t as int],
            resources[pos_after(p, j, resources.len() as int)],
            pos_after(p, j, resources.len() as int) as usize,
        ),
    ensures
        ({
            let r = next_fit(dag, resources, t, p, fuel);
            fits(dag.task_seq()[t as int], resources[r], r as usize)
        }),
    decreases fuel,
{
    let n = resources.len() as int;
    if !fits(dag.task_seq()[t as int], resources[p], p as usize) {
        assert(j != 0);
        assert(pos_after(next_pos(p, n), j - 1, n) == pos_after(p, j, n));
        lemma_next_fit_fits(dag, resources, t, next_pos(p, n), (fuel - 1) as nat, j - 1);
    }
}

proof fn lemma_next_fit_placeable(dag: &DAG, resources: Seq<Resource>, t: usize, p: int)
    requires
        0 <= p < resources.len(),
        placeable(dag, resources, t as int),
    ensures
        ({
            let r = next_fit(dag, resources, t, p, resources.len());
            0 <= r < resources.len() && fits(dag.task_seq()[t as int], resources[r], r as usize)
        }),
{
    let n = resources.len() as int;
    let k = choose|k: int| 0 <= k < n && #[trigger] fits(dag.task_seq()[t as int], resources[k], k as usize);
    let j = if k >= p {
        k - p
    } else {
        k + n - p
    };
    assert(pos_after(p, j, n) == k);
    lemma_next_fit_fits(dag, resources, t, p, resources.len(), j);
    lemma_next_fit_range_laws(dag, resources, t, p, resources.len());
}

proof fn lemma_next_fit_range_laws(dag: &DAG, resources: Seq<Resource>, t: usize, p: int, fuel: nat)
    requires
        0 <= p < resources.len(),
    ensures
        0 <= next_fit(dag, resources, t, p, fuel) < resources.len(),
    decreases fuel,
{
    if fuel > 0 && !fits(dag.task_seq()[t as int], resources[p], p as usize) {
        lemma_next_fit_range_laws(dag, resources, t, next_pos(p, resources.len() as int), (fuel - 1) as nat);
    }
}

/// Each queue keeps what it held, and everything added to queue `q` fits
/// on resource `q`.
pub open spec fn grown_with_fitting(dag: &DAG, resources: Seq<Resource>, before: Seq<Seq<usize>>, after: Seq<Seq<usize>>) -> bool {
    &&& after.len() == before.len()
    &&& forall|q: int|
        0 <= q < before.len() ==> (#[trigger] after[q]).len() >= before[q].len() && after[q].take(
            before[q].len() as int,
        ) == before[q]
    &&& forall|q: int, j: int|
        0 <= q < resources.len() && before[q].len() <= j < after[q].len() ==> fits(
            dag.task_seq()[#[trigger] after[q][j] as int],
            resources[q],
            q as usize,
        )
    &&& forall|q: int| resources.len() <= q < before.len() ==> #[trigger] after[q] == before[q]
}

proof fn lemma_round_robin_laws(
    dag: &DAG,
    resources: Seq<Resource>,
    order: Seq<usize>,
    p: int,
    queues: Seq<Seq<usize>>,
    x: usize,
)
    requires
        0 <= p < resources.len() <= queues.len(),
        resources.len() <= usize::MAX,
        forall|i: int| 0 <= i < order.len() ==> placeable(dag, resources, #[trigger] order[i] as int),
    ensures
        grown_with_fitting(dag, resources, queues, round_robin(dag, resources, order, p, resources.len(), queues)),
        queued_count(round_robin(dag, resources, order, p, resources.len(), queues), x) == queued_count(
            queues,
            x,
        ) + count_of(order, x),
    decreases order.len(),
{
    let n = resources.len() as int;
    if order.len() == 0 {
        assert forall|q: int| 0 <= q < queues.len() implies (#[trigger] queues[q]).len() >= queues[q].len()
            && queues[q].take(queues[q].len() as int) == queues[q] by {
            assert(queues[q].take(queues[q].len() as int) =~= queues[q]);
        }
    } else {
        let t = order[0];
        assert(placeable(dag, resources, order[0] as int));
        lemma_next_fit_placeable(dag, resources, t, p);
        let r = next_fit(dag, resources, t, p, resources.len());
        let nq = queues.update(r, queues[r].push(t));
        let rest = order.drop_first();
        assert forall|i: int| 0 <= i < rest.len() implies placeable(dag, resources, #[trigger] rest[i] as int) by {
            assert(rest[i] == order[i + 1]);
        }
        lemma_round_robin_laws(dag, resources, rest, next_pos(r, n), nq, x);
        let fin = round_robin(dag, resources, rest, next_pos(r, n), resources.len(), nq);
        assert(fin == round_robin(dag, resources, order, p, resources.len(), queues));
        // counts
        lemma_queued_update(queues, r, queues[r].push(t), x);
        crate::dag::lemma_count_push(queues[r], t, x);
        assert(order =~= seq![t] + rest);
        lemma_count_concat(seq![t], rest, x);
        let one = seq![t];
        assert(one.drop_last() =~= Seq::<usize>::empty());
        assert(count_of(one.drop_last(), x) == 0);
        assert(count_of(one, x) == if t == x {
            1nat
        } else {
            0nat
        });
        // growth
        assert forall|q: int| 0 <= q < queues.len() implies (#[trigger] fin[q]).len() >= queues[q].len()
            && fin[q].take(queues[q].len() as int) == queues[q] by {
            assert(fin[q].take(nq[q].len() as int) == nq[q]);
            if q == r {
                assert(fin[q].take(queues[q].len() as int) =~= nq[q].take(queues[q].len() as int));
                assert(nq[q].take(queues[q].len() as int) =~= queues[q]);
            } else {
                assert(nq[q] == queues[q]);
            }
        }
        assert forall|q: int, j: int|
            0 <= q < resources.len() && queues[q].len() <= j < fin[q].len() implies fits(
            dag.task_seq()[#[trigger] fin[q][j] as int],
            resources[q],
            q as usize,
        ) by {
            if q == r && j == queues[q].len() {
                assert(fin[q].take(nq[q].len() as int) == nq[q]);
                assert(fin[q][j] == fin[q].take(nq[q].len() as int)[j]);
                assert(nq[q][j] == t);
            } else if q == r {
                assert(nq[q].len() <= j);
            } else {
                assert(nq[q] == queues[q]);
            }
        }
        assert forall|q: int| resources.len() <= q < queues.len() implies #[trigger] fin[q] == queues[q] by {
            assert(fin[q] == nq[q]);
        }
    }
}

/// Dealing the tasks out round robin loses and duplicates no task, keeps
/// what each queue held, and puts each task on the queue of a resource it
/// fits on (queues beyond the resources are left as they are), provided
/// every task fits on some resource.
pub proof fn law_distribute(dag: &DAG, resources: Seq<Resource>, order: Seq<usize>, queues: Seq<Seq<usize>>, x: usize)
    requires
        0 < resources.len() <= queues.len(),
        resources.len() <= usize::MAX,
        forall|i: int| 0 <= i < order.len() ==> placeable(dag, resources, #[trigger] order[i] as int),
    ensures
        grown_with_fitting(dag, resources, queues, distribute(dag, resources, order, queues)),
        queued_count(distribute(dag, resources, order, queues), x) == queued_count(queues, x) + count_of(
            order,
            x,
        ),
{
    lemma_round_robin_laws(dag, resources, order, 0, queues, x);
}

/// Empty queues added at the end hold nothing.
pub proof fn lemma_queued_empty_suffix(queues: Seq<Seq<usize>>, m: nat, x: usize)
    ensures
        queued_count(queues + crate::queue_set::empty_queues::<usize>(m), x) == queued_count(queues, x),
    decreases m,
{
    let e = crate::queue_set::empty_queues::<usize>(m);
    if m > 0 {
        let e1 = crate::queue_set::empty_queues::<usize>((m - 1) as nat);
        assert((queues + e).drop_last() =~= queues + e1);
        assert((queues + e).last() =~= Seq::<usize>::empty());
        lemma_queued_empty_suffix(queues, (m - 1) as nat, x);
    } else {
        assert(queues + e =~= queues);
    }
}

/// In a sequence without duplicates, an element occurs once.
pub proof fn lemma_count_once(s: Seq<usize>, x: usize)
    requires
        s.no_duplicates(),
        s.contains(x),
    ensures
        count_of(s, x) == 1,
    decreases s.len(),
{
    let pre = s.drop_last();
    if s.last() == x {
        assert(!pre.contains(x)) by {
            if pre.contains(x) {
                let k = choose|k: int| 0 <= k < pre.len() && pre[k] == x;
                assert(s[k] == s[s.len() - 1]);
            }
        }
        crate::dag::lemma_count_absent(pre, x);
    } else {
        let k = choose|k: int| 0 <= k < s.len() && s[k] == x;
        assert(pre[k] == x);
        lemma_count_once(pre, x);
    }
}

/// Each queue of `after` is what is left of the same queue of `before` once
/// some tasks are taken from its front.
pub open spec fn fronts_taken(before: Seq<Seq<usize>>, after: Seq<Seq<usize>>) -> bool {
    &&& after.len() == before.len()
    &&& forall|q: int|
        0 <= q < before.len() ==> (#[trigger] after[q]).len() <= before[q].len() && after[q]
            == before[q].skip(before[q].len() - after[q].len())
}

proof fn lemma_fronts_taken_step(before: Seq<Seq<usize>>, mid: Seq<Seq<usize>>, q: int)
    requires
        fronts_taken(before, mid),
        0 <= q < mid.len(),
        mid[q].len() > 0,
    ensures
        fronts_taken(before, mid.update(q, mid[q].remove(0))),
{
    let after = mid.update(q, mid[q].remove(0));
    assert forall|r: int| 0 <= r < before.len() implies (#[trigger] after[r]).len() <= before[r].len()
        && after[r] == before[r].skip(before[r].len() - after[r].len()) by {
        if r == q {
            assert(mid[q] == before[q].skip(before[q].len() - mid[q].len()));
            assert(after[q] =~= before[q].skip(before[q].len() - after[q].len()));
        }
    }
}

proof fn lemma_scan_queue_front(dag: &DAG, before: Seq<Seq<usize>>, st: PassState, strategy: Strategy, k: int, q: int, s: int)
    requires
        fronts_taken(before, st.queues),
        s == 0,
        strategy.ptq_navigation_criterion == PTQNavigationCriterion::Front,
    ensures
        fronts_taken(before, scan_queue(dag, st, strategy, k, q, s).0.queues),
    decreases scan_limit(st, strategy, q) - s,
{
    if s < scan_limit(st, strategy, q) {
        let st1 = checked(st, entry_valid(dag, st, q, s));
        if entry_taken(dag, st1, k, q, s) {
            let st2 = schedule_entry(dag, st1, strategy, k, q, s, entry_at(st1.queues, q, s).unwrap());
            lemma_fronts_taken_step(before, st.queues, q);
            assert(scan_queue(dag, st2, strategy, k, q, scan_next(strategy, s)).0 == st2);
        } else {
            assert(scan_queue(dag, st1, strategy, k, q, s + 1).0 == st1);
        }
    }
}

proof fn lemma_scan_queues_front(dag: &DAG, before: Seq<Seq<usize>>, st: PassState, strategy: Strategy, k: int, i: int, n: int)
    requires
        strategy.ptq_navigation_criterion == PTQNavigationCriterion::Front,
        fronts_taken(before, st.queues),
    ensures
        fronts_taken(before, scan_queues(dag, st, strategy, k, i, n).queues),
    decreases n - i,
{
    if i < n {
        let q = queue_index(i, k, n);
        let st1 = checked(st, queue_exists(st, strategy, q));
        lemma_scan_queue_front(dag, before, st1, strategy, k, q, 0);
        let (st2, stopped) = scan_queue(dag, st1, strategy, k, q, 0);
        if !stopped {
            lemma_scan_queues_front(dag, before, st2, strategy, k, i + 1, n);
        }
    }
}

proof fn lemma_pass_from_front(dag: &DAG, before: Seq<Seq<usize>>, st: PassState, strategy: Strategy, k: int, n: int)
    requires
        strategy.ptq_navigation_criterion == PTQNavigationCriterion::Front,
        fronts_taken(before, st.queues),
    ensures
        fronts_taken(before, pass_from(dag, st, strategy, k, n).queues),
    decreases n - k,
{
    if k < n {
        if skips(st, strategy, k) {
            lemma_pass_from_front(dag, before, st, strategy, k + 1, n);
        } else {
            lemma_scan_queues_front(dag, before, st, strategy, k, 0, n);
            lemma_pass_from_front(dag, before, scan_queues(dag, st, strategy, k, 0, n), strategy, k + 1, n);
        }
    }
}

/// Navigating queue fronts only, a scheduling pass takes tasks from the
/// front of the queues only: each queue is left as a suffix of what it was.
pub proof fn law_front_navigation(dag: &DAG, queues: Seq<Seq<usize>>, resources: Seq<Resource>, strategy: Strategy)
    requires
        strategy.ptq_navigation_criterion == PTQNavigationCriterion::Front,
    ensures
        fronts_taken(queues, schedule_pass(dag, queues, resources, strategy).queues),
{
    assert forall|q: int| 0 <= q < queues.len() implies (#[trigger] queues[q]).len() <= queues[q].len()
        && queues[q] == queues[q].skip(queues[q].len() - queues[q].len()) by {
        assert(queues[q].skip(0) =~= queues[q]);
    }
    let st = PassState { queues, resources: resource_view(resources), actions: Seq::empty(), ok: true };
    lemma_pass_from_front(dag, queues, st, strategy, 0, resources.len() as int);
}

proof fn lemma_scan_queue_whole(dag: &DAG, st: PassState, strategy: Strategy, k: int, q: int, s: int)
    requires
        strategy.ptq_navigation_criterion == PTQNavigationCriterion::Whole,
        0 <= q < st.queues.len(),
        0 <= k < st.resources.len(),
        0 <= s,
        forall|j: int| 0 <= j < s ==> !#[trigger] entry_taken(dag, st, k, q, j),
    ensures
        ({
            let (st2, stopped) = scan_queue(dag, st, strategy, k, q, s);
            st2.ok && !stopped ==> forall|j: int|
                0 <= j < st2.queues[q].len() ==> !#[trigger] entry_taken(dag, st2, k, q, j)
        }),
    decreases scan_limit(st, strategy, q) - s,
{
    if s < scan_limit(st, strategy, q) {
        let st1 = checked(st, entry_valid(dag, st, q, s));
        if entry_taken(dag, st1, k, q, s) {
            let t = entry_at(st1.queues, q, s).unwrap();
            let st2 = schedule_entry(dag, st1, strategy, k, q, s, t);
            if strategy.multi_core_criterion == MultiCoreCriterion::UseAllCores {
                lemma_scan_progress(dag, st1, strategy, k, q, s);
                lemma_scan_queue_ok(dag, st2, strategy, k, q, s);
                if st2.ok {
                    assert forall|j: int| 0 <= j < s implies !#[trigger] entry_taken(dag, st2, k, q, j) by {
                        assert(!entry_taken(dag, st, k, q, j));
                        assert(st2.queues[q][j] == st.queues[q][j]);
                    }
                    lemma_scan_queue_whole(dag, st2, strategy, k, q, s);
                } else {
                    lemma_scan_queue_ok(dag, st2, strategy, k, q, scan_next(strategy, s));
                }
            }
        } else {
            assert forall|j: int| 0 <= j < s + 1 implies !#[trigger] entry_taken(dag, st1, k, q, j) by {
                if j < s {
                    assert(!entry_taken(dag, st, k, q, j));
                }
            }
            lemma_scan_queue_whole(dag, st1, strategy, k, q, s + 1);
        }
    }
}

/// Navigating whole queues, a search of a queue for a resource checks every
/// task of it: once the search has gone through the queue (taking tasks as
/// long as the resource has room), no task left in the queue is ready and
/// fits on the resource as it then stands.
pub proof fn law_whole_navigation_checks_every_task(dag: &DAG, st: PassState, strategy: Strategy, k: int, q: int)
    requires
        strategy.ptq_navigation_criterion == PTQNavigationCriterion::Whole,
        0 <= q < st.queues.len(),
        0 <= k < st.resources.len(),
    ensures
        ({
            let (st2, stopped) = scan_queue(dag, st, strategy, k, q, 0);
            st2.ok && !stopped ==> forall|j: int|
                0 <= j < st2.queues[q].len() ==> !#[trigger] entry_taken(dag, st2, k, q, j)
        }),
{
    lemma_scan_queue_whole(dag, st, strategy, k, q, 0);
}

/// Actions on no resource `r` assign it no cores.
proof fn lemma_cores_used_none(actions: Seq<Action>, r: int)
    requires
        forall|i: int| 0 <= i < actions.len() ==> action_resource(#[trigger] actions[i]) != r,
    ensures
        cores_used(actions, r) == 0,
    decreases actions.len(),
{
    if actions.len() > 0 {
        assert(action_resource(actions[actions.len() - 1]) != r);
        assert forall|i: int| 0 <= i < actions.len() - 1 implies action_resource(
            #[trigger] actions.drop_last()[i],
        ) != r by {
            assert(actions.drop_last()[i] == actions[i]);
        }
        lemma_cores_used_none(actions.drop_last(), r);
    }
}

/// Actions on resources in increasing order, each with no more cores than
/// its resource has free, assign no resource more cores than it has free.
proof fn lemma_cores_used_one(actions: Seq<Action>, resources: Seq<Resource>, r: int)
    requires
        0 <= r < resources.len(),
        forall|i: int, j: int|
            0 <= i < j < actions.len() ==> action_resource(#[trigger] actions[i]) < action_resource(
                #[trigger] actions[j],
            ),
        forall|i: int|
            0 <= i < actions.len() ==> action_cores(#[trigger] actions[i]) <= resources[action_resource(
                actions[i],
            ) as int].cores_available,
    ensures
        cores_used(actions, r) <= resources[r].cores_available,
    decreases actions.len(),
{
    if actions.len() > 0 {
        let prefix = actions.drop_last();
        let last = actions[actions.len() - 1];
        assert(action_cores(last) <= resources[action_resource(last) as int].cores_available);
        if action_resource(last) == r {
            assert forall|i: int| 0 <= i < prefix.len() implies action_resource(#[trigger] prefix[i]) != r by {
                assert(prefix[i] == actions[i]);
                assert(action_resource(actions[i]) < action_resource(actions[actions.len() - 1]));
            }
            lemma_cores_used_none(prefix, r);
        } else {
            assert forall|i: int, j: int| 0 <= i < j < prefix.len() implies action_resource(
                #[trigger] prefix[i],
            ) < action_resource(#[trigger] prefix[j]) by {
                assert(prefix[i] == actions[i] && prefix[j] == actions[j]);
            }
            assert forall|i: int| 0 <= i < prefix.len() implies action_cores(#[trigger] prefix[i])
                <= resources[action_resource(prefix[i]) as int].cores_available by {
                assert(prefix[i] == actions[i]);
            }
            lemma_cores_used_one(prefix, resources, r);
        }
        match last {
            Action::ScheduleTask { resource, cores, .. } => {},
        }
    }
}

/// Whatever the strategy, a scheduling pass never assigns a resource more
/// cores, over all the tasks it schedules there, than the resource had free.
pub proof fn law_schedule_within_free_cores(
    dag: &DAG,
    queues: Seq<Seq<usize>>,
    resources: Seq<Resource>,
    strategy: Strategy,
)
    requires
        resources.len() <= usize::MAX,
    ensures
        forall|r: int|
            0 <= r < resources.len() ==> #[trigger] cores_used(
                schedule_pass(dag, queues, resources, strategy).actions,
                r,
            ) <= resources[r].cores_available,
{
    let fin = schedule_pass(dag, queues, resources, strategy);
    let base = resource_view(resources);
    if strategy.multi_core_criterion == MultiCoreCriterion::UseAllCores {
        law_use_all_cores_accounting(dag, queues, resources, strategy);
        assert forall|r: int| 0 <= r < resources.len() implies #[trigger] cores_used(fin.actions, r)
            <= resources[r].cores_available by {
            assert(fin.resources[r].cores_available + cores_used(fin.actions, r) == resources[r].cores_available);
        }
    } else {
        law_skip_active_nodes(dag, queues, resources, strategy);
        assert forall|r: int| 0 <= r < resources.len() implies #[trigger] cores_used(fin.actions, r)
            <= resources[r].cores_available by {
            assert forall|i: int| 0 <= i < fin.actions.len() implies action_cores(#[trigger] fin.actions[i])
                <= base[action_resource(fin.actions[i]) as int].cores_available by {
                assert(fits_on(dag, base, fin.actions[i], action_resource(fin.actions[i]) as int));
            }
            lemma_cores_used_one(fin.actions, base, r);
            assert(base[r].cores_available == resources[r].cores_available);
        }
    }
}
} // verus!
