//! In what order a scheduling pass searches the processor task queues, and
//! in what order a round-robin deal tries the resources: a served resource
//! `k` searches queue `k`, then `k + 1`, and so on modulo the number of
//! queues; a task dealt after one placed on resource `r` is tried first on
//! resource `r + 1` modulo the number of resources.
use crate::dag::{TaskState, DAG};
use crate::dytas::{
    checked, cores_for, distribute, entry_at, entry_taken, entry_valid, fits, lemma_scan_progress, next_fit, next_pos,
    pass_from, queue_exists, queue_index, resource_view, round_robin, scan_limit, scan_next, scan_queue,
    scan_queues, schedule_entry, schedule_pass, skips, PassState,
};
use crate::dytas_laws::action_resource;
use crate::strategy::{MultiCoreCriterion, PTQNavigationCriterion, Strategy};
use crate::system::{Action, Resource};
use vstd::arithmetic::div_mod::{lemma_fundamental_div_mod_converse, lemma_mod_add_multiples_vanish, lemma_small_mod};
use vstd::prelude::*;

verus! {

/// Task `t` is a ready task of the DAG that fits on resource `k`.
pub open spec fn ready_fit(dag: &DAG, resources: Seq<Resource>, t: usize, k: int) -> bool {
    &&& t < dag.num_tasks()
    &&& dag.task_seq()[t as int].state == TaskState::Ready
    &&& fits(dag.task_seq()[t as int], resources[k], k as usize)
}

/// A pass passes over the resource `r`: it is running while tasks go one
/// at a time, or it has no free core while all cores are used.
pub open spec fn passed_over(r: Resource, strategy: Strategy) -> bool {
    ||| strategy.multi_core_criterion == MultiCoreCriterion::SkipActiveNodes && r.cores_available != r.cores
    ||| strategy.multi_core_criterion == MultiCoreCriterion::UseAllCores && r.cores_available == 0
}

/// Resource `k` is the one resource that a pass serves.
pub open spec fn serves_only(resources: Seq<Resource>, strategy: Strategy, k: int) -> bool {
    &&& 0 <= k < resources.len()
    &&& !passed_over(resources[k], strategy)
    &&& forall|j: int| 0 <= j < resources.len() && j != k ==> #[trigger] passed_over(resources[j], strategy)
}

/// Every queued entry is a task of the DAG.
pub open spec fn queued_tasks_valid(dag: &DAG, queues: Seq<Seq<usize>>) -> bool {
    forall|q: int, s: int| 0 <= q < queues.len() && 0 <= s < queues[q].len() ==> #[trigger] queues[q][s] < dag.num_tasks()
}

/// `x` modulo `n`, for `x` below `2 n`.
proof fn lemma_mod_wrap(x: int, n: int)
    requires
        0 < n,
        0 <= x < 2 * n,
    ensures
        x % n == if x < n { x } else { x - n },
{
    if x < n {
        lemma_small_mod(x as nat, n as nat);
    } else {
        lemma_fundamental_div_mod_converse(x, n, 1, x - n);
    }
}

/// What a search of one queue for resource `k` does: it only adds actions,
/// all on `k`, and changes no other resource; and when it adds none, it
/// changes nothing and no entry it looked at could be taken.
proof fn lemma_scan_queue_facts(dag: &DAG, st: PassState, strategy: Strategy, k: int, q: int, s: int)
    requires
        0 <= k < st.resources.len() <= usize::MAX + 1,
    ensures
        ({
            let (r, stopped) = scan_queue(dag, st, strategy, k, q, s);
            &&& r.resources.len() == st.resources.len()
            &&& forall|j: int| 0 <= j < st.resources.len() && j != k ==> #[trigger] r.resources[j] == st.resources[j]
            &&& r.actions.len() >= st.actions.len()
            &&& forall|i: int| 0 <= i < st.actions.len() ==> #[trigger] r.actions[i] == st.actions[i]
            &&& forall|i: int| st.actions.len() <= i < r.actions.len() ==> action_resource(#[trigger] r.actions[i]) == k
            &&& r.actions.len() == st.actions.len() ==> {
                &&& !stopped
                &&& r.queues == st.queues
                &&& r.resources == st.resources
                &&& forall|p: int| s <= p < scan_limit(st, strategy, q) ==> !#[trigger] entry_taken(dag, st, k, q, p)
            }
        }),
    decreases scan_limit(st, strategy, q) - s,
{
    if s < scan_limit(st, strategy, q) {
        let st1 = checked(st, entry_valid(dag, st, q, s));
        if entry_taken(dag, st1, k, q, s) {
            let st2 = schedule_entry(dag, st1, strategy, k, q, s, entry_at(st1.queues, q, s).unwrap());
            assert(st1.resources == st.resources);
            assert(st2.resources.len() == st.resources.len());
            assert(forall|j: int| 0 <= j < st.resources.len() && j != k ==> #[trigger] st2.resources[j] == st.resources[j]);
            assert(st2.actions.len() == st.actions.len() + 1);
            assert(action_resource(st2.actions[st.actions.len() as int]) == k);
            assert forall|i: int| 0 <= i < st.actions.len() implies #[trigger] st2.actions[i] == st.actions[i] by {}
            if strategy.multi_core_criterion == MultiCoreCriterion::UseAllCores {
                lemma_scan_progress(dag, st1, strategy, k, q, s);
                lemma_scan_queue_facts(dag, st2, strategy, k, q, scan_next(strategy, s));
                let r = scan_queue(dag, st2, strategy, k, q, scan_next(strategy, s)).0;
                assert forall|i: int| 0 <= i < st.actions.len() implies #[trigger] r.actions[i] == st.actions[i] by {
                    assert(r.actions[i] == st2.actions[i]);
                }
                assert forall|i: int| st.actions.len() <= i < r.actions.len() implies action_resource(
                    #[trigger] r.actions[i],
                ) == k by {
                    if i == st.actions.len() {
                        assert(r.actions[i] == st2.actions[i]);
                    }
                }
                assert forall|j: int| 0 <= j < st.resources.len() && j != k implies #[trigger] r.resources[j]
                    == st.resources[j] by {
                    assert(r.resources[j] == st2.resources[j]);
                }
            }
        } else {
            lemma_scan_queue_facts(dag, st1, strategy, k, q, s + 1);
            assert(scan_limit(st1, strategy, q) == scan_limit(st, strategy, q));
            let r = scan_queue(dag, st1, strategy, k, q, s + 1).0;
            if r.actions.len() == st.actions.len() {
                assert forall|p: int| s <= p < scan_limit(st, strategy, q) implies !#[trigger] entry_taken(
                    dag,
                    st,
                    k,
                    q,
                    p,
                ) by {
                    assert(entry_taken(dag, st, k, q, p) == entry_taken(dag, st1, k, q, p));
                }
            }
        }
    }
}

/// What a search of the queues `i..n` for resource `k` does: it only adds
/// actions, all on `k`, and changes no other resource; and when it adds
/// none, it changes nothing and no entry it looked at could be taken.
proof fn lemma_scan_queues_facts(dag: &DAG, st: PassState, strategy: Strategy, k: int, i: int, n: int)
    requires
        0 <= k < st.resources.len() <= usize::MAX + 1,
    ensures
        ({
            let r = scan_queues(dag, st, strategy, k, i, n);
            &&& r.resources.len() == st.resources.len()
            &&& forall|j: int| 0 <= j < st.resources.len() && j != k ==> #[trigger] r.resources[j] == st.resources[j]
            &&& r.actions.len() >= st.actions.len()
            &&& forall|a: int| 0 <= a < st.actions.len() ==> #[trigger] r.actions[a] == st.actions[a]
            &&& forall|a: int| st.actions.len() <= a < r.actions.len() ==> action_resource(#[trigger] r.actions[a]) == k
            &&& r.actions.len() == st.actions.len() ==> {
                &&& r.queues == st.queues
                &&& r.resources == st.resources
                &&& forall|j: int, p: int|
                    i <= j < n && 0 <= p < scan_limit(st, strategy, queue_index(j, k, n)) ==> !#[trigger] entry_taken(
                        dag,
                        st,
                        k,
                        queue_index(j, k, n),
                        p,
                    )
            }
        }),
    decreases n - i,
{
    if i < n {
        let q = queue_index(i, k, n);
        let st1 = checked(st, queue_exists(st, strategy, q));
        lemma_scan_queue_facts(dag, st1, strategy, k, q, 0);
        let (st2, stopped) = scan_queue(dag, st1, strategy, k, q, 0);
        if !stopped {
            lemma_scan_queues_facts(dag, st2, strategy, k, i + 1, n);
            let r = scan_queues(dag, st2, strategy, k, i + 1, n);
            assert forall|a: int| 0 <= a < st.actions.len() implies #[trigger] r.actions[a] == st.actions[a] by {
                assert(r.actions[a] == st2.actions[a]);
            }
            assert forall|a: int| st.actions.len() <= a < r.actions.len() implies action_resource(
                #[trigger] r.actions[a],
            ) == k by {
                if a < st2.actions.len() {
                    assert(r.actions[a] == st2.actions[a]);
                }
            }
            assert forall|j: int| 0 <= j < st.resources.len() && j != k implies #[trigger] r.resources[j]
                == st.resources[j] by {
                assert(r.resources[j] == st2.resources[j]);
            }
            if r.actions.len() == st.actions.len() {
                assert(st2.queues == st.queues && st2.resources == st.resources);
                assert forall|j: int, p: int|
                    i <= j < n && 0 <= p < scan_limit(st, strategy, queue_index(j, k, n)) implies !#[trigger] entry_taken(
                    dag,
                    st,
                    k,
                    queue_index(j, k, n),
                    p,
                ) by {
                    if j == i {
                        assert(scan_limit(st1, strategy, q) == scan_limit(st, strategy, q));
                        assert(entry_taken(dag, st1, k, q, p) == entry_taken(dag, st, k, q, p));
                    } else {
                        let qj = queue_index(j, k, n);
                        assert(scan_limit(st2, strategy, qj) == scan_limit(st, strategy, qj));
                        assert(entry_taken(dag, st2, k, qj, p) == entry_taken(dag, st, k, qj, p));
                    }
                }
            }
        }
    }
}

/// A search of a queue in which no entry it looks at can be taken adds
/// nothing and changes nothing.
proof fn lemma_scan_queue_none(dag: &DAG, st: PassState, strategy: Strategy, k: int, q: int, s: int)
    requires
        forall|p: int| s <= p < scan_limit(st, strategy, q) ==> !#[trigger] entry_taken(dag, st, k, q, p),
    ensures
        ({
            let (r, stopped) = scan_queue(dag, st, strategy, k, q, s);
            &&& !stopped
            &&& r.queues == st.queues
            &&& r.resources == st.resources
            &&& r.actions == st.actions
        }),
    decreases scan_limit(st, strategy, q) - s,
{
    if s < scan_limit(st, strategy, q) {
        let st1 = checked(st, entry_valid(dag, st, q, s));
        assert(!entry_taken(dag, st, k, q, s));
        assert(scan_limit(st1, strategy, q) == scan_limit(st, strategy, q));
        assert forall|p: int| s + 1 <= p < scan_limit(st1, strategy, q) implies !#[trigger] entry_taken(dag, st1, k, q, p) by {
            assert(!entry_taken(dag, st, k, q, p));
        }
        lemma_scan_queue_none(dag, st1, strategy, k, q, s + 1);
    }
}

/// Resources passed over from `from` up to `k` leave the pass as it was.
proof fn lemma_pass_skip_to(dag: &DAG, st: PassState, strategy: Strategy, from: int, k: int, n: int)
    requires
        from <= k <= n,
        forall|j: int| from <= j < k ==> #[trigger] skips(st, strategy, j),
    ensures
        pass_from(dag, st, strategy, from, n) == pass_from(dag, st, strategy, k, n),
    decreases k - from,
{
    if from < k {
        lemma_pass_skip_to(dag, st, strategy, from + 1, k, n);
    }
}

/// A pass in which every resource from `from` on is passed over leaves the
/// state as it was.
proof fn lemma_pass_skip_rest(dag: &DAG, st: PassState, strategy: Strategy, from: int, n: int)
    requires
        forall|j: int| from <= j < n ==> #[trigger] skips(st, strategy, j),
    ensures
        pass_from(dag, st, strategy, from, n) == st,
    decreases n - from,
{
    if from < n {
        lemma_pass_skip_rest(dag, st, strategy, from + 1, n);
    }
}

/// The queue `i` steps after queue `k`, among `n` queues.
pub open spec fn steps_after(k: int, i: int, n: int) -> int {
    (k + i) % n
}

/// The state a pass starts from.
pub open spec fn pass_start(queues: Seq<Seq<usize>>, resources: Seq<Resource>) -> PassState {
    PassState { queues, resources: resource_view(resources), actions: Seq::empty(), ok: true }
}

/// The search order counted arithmetically.
proof fn lemma_queue_index_steps(k: int, i: int, n: int)
    requires
        0 <= k < n,
        0 <= i < n,
    ensures
        queue_index(i, k, n) == steps_after(k, i, n),
{
    lemma_mod_wrap(k + i, n);
}

/// A pass that serves resource `k` alone is the search of the queues for
/// `k`.
proof fn lemma_pass_serves_only(dag: &DAG, queues: Seq<Seq<usize>>, resources: Seq<Resource>, strategy: Strategy, k: int)
    requires
        resources.len() <= usize::MAX,
        serves_only(resources, strategy, k),
    ensures
        schedule_pass(dag, queues, resources, strategy) == scan_queues(
            dag,
            pass_start(queues, resources),
            strategy,
            k,
            0,
            resources.len() as int,
        ),
{
    let n = resources.len() as int;
    let base = resource_view(resources);
    let st0 = pass_start(queues, resources);
    assert forall|j: int| 0 <= j < n implies #[trigger] skips(st0, strategy, j) == passed_over(resources[j], strategy) by {
        assert(base[j].cores == resources[j].cores && base[j].cores_available == resources[j].cores_available);
    }
    assert forall|j: int| 0 <= j < k implies #[trigger] skips(st0, strategy, j) by {
        assert(passed_over(resources[j], strategy));
    }
    lemma_pass_skip_to(dag, st0, strategy, 0, k, n);
    assert(!skips(st0, strategy, k));
    let r = scan_queues(dag, st0, strategy, k, 0, n);
    lemma_scan_queues_facts(dag, st0, strategy, k, 0, n);
    assert forall|j: int| k + 1 <= j < n implies #[trigger] skips(r, strategy, j) by {
        assert(r.resources[j] == st0.resources[j]);
        assert(skips(st0, strategy, j) == passed_over(resources[j], strategy));
        assert(passed_over(resources[j], strategy));
    }
    lemma_pass_skip_rest(dag, r, strategy, k + 1, n);
}

/// Searching queue `q` for resource `k` from position `p`, where nothing
/// before position `s` can be taken and the entry at `s` can, takes that
/// entry first; one at a time, it is the only one.
proof fn lemma_scan_queue_first(dag: &DAG, st: PassState, strategy: Strategy, k: int, q: int, p: int, s: int)
    requires
        0 <= k < st.resources.len() <= usize::MAX + 1,
        0 <= p <= s < scan_limit(st, strategy, q),
        forall|m: int| p <= m < s ==> !#[trigger] entry_taken(dag, st, k, q, m),
        entry_taken(dag, st, k, q, s),
    ensures
        ({
            let (r, stopped) = scan_queue(dag, st, strategy, k, q, p);
            let t = st.queues[q][s];
            &&& r.actions.len() > st.actions.len()
            &&& r.actions[st.actions.len() as int] == Action::ScheduleTask {
                task: t,
                resource: k as usize,
                cores: cores_for(dag.task_seq()[t as int], st.resources[k]),
            }
            &&& strategy.multi_core_criterion == MultiCoreCriterion::SkipActiveNodes ==> stopped && r.actions.len()
                == st.actions.len() + 1
        }),
    decreases s - p,
{
    let st1 = checked(st, entry_valid(dag, st, q, p));
    assert(scan_limit(st1, strategy, q) == scan_limit(st, strategy, q));
    if p < s {
        assert(!entry_taken(dag, st, k, q, p));
        assert forall|m: int| p + 1 <= m < s implies !#[trigger] entry_taken(dag, st1, k, q, m) by {
            assert(!entry_taken(dag, st, k, q, m));
        }
        assert(entry_taken(dag, st1, k, q, s));
        lemma_scan_queue_first(dag, st1, strategy, k, q, p + 1, s);
    } else {
        assert(entry_taken(dag, st1, k, q, s));
        let t = entry_at(st1.queues, q, s).unwrap();
        let st2 = schedule_entry(dag, st1, strategy, k, q, s, t);
        assert(st2.actions[st.actions.len() as int] == Action::ScheduleTask {
            task: t,
            resource: k as usize,
            cores: cores_for(dag.task_seq()[t as int], st.resources[k]),
        });
        if strategy.multi_core_criterion == MultiCoreCriterion::UseAllCores {
            lemma_scan_progress(dag, st1, strategy, k, q, s);
            assert(st2.resources.len() == st.resources.len());
            lemma_scan_queue_facts(dag, st2, strategy, k, q, scan_next(strategy, s));
            let r = scan_queue(dag, st2, strategy, k, q, scan_next(strategy, s)).0;
            assert(r.actions[st.actions.len() as int] == st2.actions[st.actions.len() as int]);
        }
    }
}

/// Searching the queues `i..n` for resource `k`, where nothing in the
/// queues before step `j`, nor before position `s` of the queue at step `j`,
/// can be taken and the entry at `s` can, takes that entry first.
proof fn lemma_scan_queues_first(dag: &DAG, st: PassState, strategy: Strategy, k: int, i: int, j: int, n: int, s: int)
    requires
        0 <= k < st.resources.len() <= usize::MAX + 1,
        0 <= i <= j < n,
        forall|m: int, p: int|
            i <= m < j && 0 <= p < scan_limit(st, strategy, queue_index(m, k, n)) ==> !#[trigger] entry_taken(
                dag,
                st,
                k,
                queue_index(m, k, n),
                p,
            ),
        0 <= s < scan_limit(st, strategy, queue_index(j, k, n)),
        forall|p: int| 0 <= p < s ==> !#[trigger] entry_taken(dag, st, k, queue_index(j, k, n), p),
        entry_taken(dag, st, k, queue_index(j, k, n), s),
    ensures
        ({
            let r = scan_queues(dag, st, strategy, k, i, n);
            let t = st.queues[queue_index(j, k, n)][s];
            &&& r.actions.len() > st.actions.len()
            &&& r.actions[st.actions.len() as int] == Action::ScheduleTask {
                task: t,
                resource: k as usize,
                cores: cores_for(dag.task_seq()[t as int], st.resources[k]),
            }
            &&& strategy.multi_core_criterion == MultiCoreCriterion::SkipActiveNodes ==> r.actions.len()
                == st.actions.len() + 1
        }),
    decreases j - i,
{
    let q = queue_index(i, k, n);
    let st1 = checked(st, queue_exists(st, strategy, q));
    assert(scan_limit(st1, strategy, q) == scan_limit(st, strategy, q));
    if i < j {
        assert forall|p: int| 0 <= p < scan_limit(st1, strategy, q) implies !#[trigger] entry_taken(dag, st1, k, q, p) by {
            assert(!entry_taken(dag, st, k, q, p));
        }
        lemma_scan_queue_none(dag, st1, strategy, k, q, 0);
        let st2 = scan_queue(dag, st1, strategy, k, q, 0).0;
        assert forall|m: int, p: int|
            i + 1 <= m < j && 0 <= p < scan_limit(st2, strategy, queue_index(m, k, n)) implies !#[trigger] entry_taken(
            dag,
            st2,
            k,
            queue_index(m, k, n),
            p,
        ) by {
            let qm = queue_index(m, k, n);
            assert(scan_limit(st2, strategy, qm) == scan_limit(st, strategy, qm));
            assert(entry_taken(dag, st2, k, qm, p) == entry_taken(dag, st, k, qm, p));
        }
        let qj = queue_index(j, k, n);
        assert(scan_limit(st2, strategy, qj) == scan_limit(st, strategy, qj));
        assert forall|p: int| 0 <= p < s implies !#[trigger] entry_taken(dag, st2, k, qj, p) by {
            assert(!entry_taken(dag, st, k, qj, p));
        }
        assert(entry_taken(dag, st2, k, qj, s) == entry_taken(dag, st, k, qj, s));
        lemma_scan_queues_first(dag, st2, strategy, k, i + 1, j, n, s);
        assert(st2.queues == st.queues && st2.resources == st.resources && st2.actions == st.actions);
        assert(scan_queues(dag, st, strategy, k, i, n) == scan_queues(dag, st2, strategy, k, i + 1, n));
    } else {
        assert forall|p: int| 0 <= p < s implies !#[trigger] entry_taken(dag, st1, k, q, p) by {
            assert(!entry_taken(dag, st, k, q, p));
        }
        assert(entry_taken(dag, st1, k, q, s));
        lemma_scan_queue_first(dag, st1, strategy, k, q, 0, s);
        let (st3, stopped) = scan_queue(dag, st1, strategy, k, q, 0);
        if !stopped {
            lemma_scan_queue_facts(dag, st1, strategy, k, q, 0);
            lemma_scan_queues_facts(dag, st3, strategy, k, i + 1, n);
            let r = scan_queues(dag, st3, strategy, k, i + 1, n);
            assert(r.actions[st.actions.len() as int] == st3.actions[st.actions.len() as int]);
            assert(scan_queues(dag, st, strategy, k, i, n) == r);
        } else {
            assert(scan_queues(dag, st, strategy, k, i, n) == st3);
        }
    }
}

/// The fewest of three core counts.
pub open spec fn fewest(a: u32, b: u32, c: u32) -> u32 {
    if a <= b && a <= c {
        a
    } else if b <= c {
        b
    } else {
        c
    }
}

/// Serving resource `k` alone, a pass searches queue `k` first, then queue
/// `k + 1`, and so on, modulo the number `n` of queues, each from its front
/// (whole queues, or only their fronts): when no task in the queues fewer
/// than `j` steps after `k`, nor before position `s` of the queue `j` steps
/// after `k`, is ready and fits on `k`, and the task at `s` is, that task is
/// the first scheduled, on `k`, with as many cores as it can use, the
/// resource has and the resource has free; skipping active nodes, it is the
/// only one.
pub proof fn law_search_order(
    dag: &DAG,
    queues: Seq<Seq<usize>>,
    resources: Seq<Resource>,
    strategy: Strategy,
    k: int,
    j: int,
    s: int,
)
    requires
        resources.len() <= usize::MAX,
        queues.len() == resources.len(),
        queued_tasks_valid(dag, queues),
        serves_only(resources, strategy, k),
        0 <= j < resources.len(),
        forall|i: int, p: int|
            0 <= i < j && 0 <= p < queues[steps_after(k, i, resources.len() as int)].len() ==> !ready_fit(
                dag,
                resources,
                #[trigger] queues[steps_after(k, i, resources.len() as int)][p],
                k,
            ),
        0 <= s < queues[steps_after(k, j, resources.len() as int)].len(),
        strategy.ptq_navigation_criterion == PTQNavigationCriterion::Front ==> s == 0,
        forall|p: int|
            0 <= p < s ==> !ready_fit(dag, resources, #[trigger] queues[steps_after(k, j, resources.len() as int)][p], k),
        ready_fit(dag, resources, queues[steps_after(k, j, resources.len() as int)][s], k),
    ensures
        ({
            let actions = schedule_pass(dag, queues, resources, strategy).actions;
            let t = queues[steps_after(k, j, resources.len() as int)][s];
            &&& actions.len() >= 1
            &&& actions[0] == Action::ScheduleTask {
                task: t,
                resource: k as usize,
                cores: fewest(dag.task_seq()[t as int].max_cores, resources[k].cores, resources[k].cores_available),
            }
            &&& strategy.multi_core_criterion == MultiCoreCriterion::SkipActiveNodes ==> actions.len() == 1
        }),
{
    let n = resources.len() as int;
    let st0 = pass_start(queues, resources);
    let base = resource_view(resources);
    lemma_pass_serves_only(dag, queues, resources, strategy, k);
    assert(base[k].cores == resources[k].cores && base[k].cores_available == resources[k].cores_available
        && base[k].memory_available == resources[k].memory_available);
    assert forall|m: int, p: int|
        0 <= m < j && 0 <= p < scan_limit(st0, strategy, queue_index(m, k, n)) implies !#[trigger] entry_taken(
        dag,
        st0,
        k,
        queue_index(m, k, n),
        p,
    ) by {
        lemma_queue_index_steps(k, m, n);
        let q = steps_after(k, m, n);
        lemma_mod_wrap(k + m, n);
        if entry_taken(dag, st0, k, q, p) {
            let t = queues[q][p];
            assert(t < dag.num_tasks());
            assert(ready_fit(dag, resources, queues[steps_after(k, m, n)][p], k));
        }
    }
    lemma_queue_index_steps(k, j, n);
    lemma_mod_wrap(k + j, n);
    let qj = steps_after(k, j, n);
    assert forall|p: int| 0 <= p < s implies !#[trigger] entry_taken(dag, st0, k, queue_index(j, k, n), p) by {
        if entry_taken(dag, st0, k, qj, p) {
            assert(queues[qj][p] < dag.num_tasks());
            assert(ready_fit(dag, resources, queues[qj][p], k));
        }
    }
    assert(entry_taken(dag, st0, k, queue_index(j, k, n), s));
    lemma_scan_queues_first(dag, st0, strategy, k, 0, j, n, s);
    let t = queues[qj][s];
    assert(cores_for(dag.task_seq()[t as int], base[k]) == fewest(
        dag.task_seq()[t as int].max_cores,
        resources[k].cores,
        resources[k].cores_available,
    ));
}

/// Serving resource `k` alone, a pass finds any ready task that fits on `k`
/// wherever the search looks (anywhere in a queue when whole queues are
/// searched, at the front of a queue otherwise), in any queue: it schedules
/// at least one task, and every task it schedules goes to `k`.
pub proof fn law_served_resource_takes_a_task(
    dag: &DAG,
    queues: Seq<Seq<usize>>,
    resources: Seq<Resource>,
    strategy: Strategy,
    k: int,
    q: int,
    s: int,
)
    requires
        resources.len() <= usize::MAX,
        queues.len() == resources.len(),
        serves_only(resources, strategy, k),
        0 <= q < queues.len(),
        0 <= s < queues[q].len(),
        strategy.ptq_navigation_criterion == PTQNavigationCriterion::Front ==> s == 0,
        ready_fit(dag, resources, queues[q][s], k),
    ensures
        schedule_pass(dag, queues, resources, strategy).actions.len() >= 1,
        forall|i: int|
            0 <= i < schedule_pass(dag, queues, resources, strategy).actions.len() ==> action_resource(
                #[trigger] schedule_pass(dag, queues, resources, strategy).actions[i],
            ) == k,
{
    let n = resources.len() as int;
    let st0 = pass_start(queues, resources);
    let base = resource_view(resources);
    lemma_pass_serves_only(dag, queues, resources, strategy, k);
    lemma_scan_queues_facts(dag, st0, strategy, k, 0, n);
    let r = scan_queues(dag, st0, strategy, k, 0, n);
    if r.actions.len() == 0 {
        let j = if q >= k {
            q - k
        } else {
            q - k + n
        };
        lemma_queue_index_steps(k, j, n);
        lemma_mod_wrap(k + j, n);
        assert(queue_index(j, k, n) == q);
        assert(base[k].cores_available == resources[k].cores_available
            && base[k].memory_available == resources[k].memory_available);
        assert(entry_taken(dag, st0, k, q, s));
        assert(s < scan_limit(st0, strategy, q));
        assert(!entry_taken(dag, st0, k, queue_index(j, k, n), s));
    }
}

/// The first resource that a task is tried on and fits, counting `j` steps
/// from `p` modulo the number `n` of resources: when task `t` fits on the
/// resource `j` steps after `p`, and on none fewer steps after `p`, it is
/// placed on that resource.
pub proof fn law_next_fit_first(dag: &DAG, resources: Seq<Resource>, t: usize, p: int, fuel: nat, j: int)
    requires
        0 <= p < resources.len(),
        0 <= j < fuel <= resources.len(),
        fits(
            dag.task_seq()[t as int],
            resources[steps_after(p, j, resources.len() as int)],
            steps_after(p, j, resources.len() as int) as usize,
        ),
        forall|i: int|
            0 <= i < j ==> !fits(
                dag.task_seq()[t as int],
                resources[#[trigger] steps_after(p, i, resources.len() as int)],
                steps_after(p, i, resources.len() as int) as usize,
            ),
    ensures
        next_fit(dag, resources, t, p, fuel) == steps_after(p, j, resources.len() as int),
    decreases j,
{
    let n = resources.len() as int;
    lemma_mod_wrap(p, n);
    assert(steps_after(p, 0, n) == p);
    if j > 0 {
        assert(!fits(dag.task_seq()[t as int], resources[steps_after(p, 0, n)], steps_after(p, 0, n) as usize));
        let p1 = next_pos(p, n);
        assert(0 <= p1 < n);
        assert forall|i: int| 0 <= i < n - 1 implies #[trigger] steps_after(p1, i, n) == steps_after(p, i + 1, n) by {
            lemma_mod_wrap(p1 + i, n);
            lemma_mod_wrap(p + i + 1, n);
        }
        assert forall|i: int| 0 <= i < j - 1 implies !fits(
            dag.task_seq()[t as int],
            resources[#[trigger] steps_after(p1, i, n)],
            steps_after(p1, i, n) as usize,
        ) by {
            assert(steps_after(p1, i, n) == steps_after(p, i + 1, n));
        }
        assert(steps_after(p1, j - 1, n) == steps_after(p, j, n));
        law_next_fit_first(dag, resources, t, p1, (fuel - 1) as nat, j - 1);
    }
}

/// The resource a task is placed on is one of the resources.
proof fn lemma_next_fit_in_range(dag: &DAG, resources: Seq<Resource>, t: usize, p: int, fuel: nat)
    requires
        0 <= p < resources.len(),
    ensures
        0 <= next_fit(dag, resources, t, p, fuel) < resources.len(),
    decreases fuel,
{
    if fuel > 0 && !fits(dag.task_seq()[t as int], resources[p], p as usize) {
        lemma_next_fit_in_range(dag, resources, t, next_pos(p, resources.len() as int), (fuel - 1) as nat);
    }
}

/// In a round-robin deal, the task after one placed on resource `r` is
/// tried first on resource `r + 1`, modulo the number of resources.
pub proof fn law_deal_step(
    dag: &DAG,
    resources: Seq<Resource>,
    order: Seq<usize>,
    p: int,
    fuel: nat,
    queues: Seq<Seq<usize>>,
)
    requires
        0 <= p < resources.len(),
        order.len() > 0,
    ensures
        ({
            let r = next_fit(dag, resources, order[0], p, fuel);
            round_robin(dag, resources, order, p, fuel, queues) == round_robin(
                dag,
                resources,
                order.drop_first(),
                steps_after(r, 1, resources.len() as int),
                resources.len(),
                queues.update(r, queues[r].push(order[0])),
            )
        }),
{
    let n = resources.len() as int;
    let r = next_fit(dag, resources, order[0], p, fuel);
    lemma_next_fit_in_range(dag, resources, order[0], p, fuel);
    lemma_mod_wrap(r + 1, n);
    assert(next_pos(r, n) == steps_after(r, 1, n));
}

/// Dealing `a` and then `b`, where every task of `a` fits on every
/// resource, is dealing `a ++ b`: `b` starts `a.len()` resources on.
proof fn lemma_deal_concat(
    dag: &DAG,
    resources: Seq<Resource>,
    a: Seq<usize>,
    b: Seq<usize>,
    p: int,
    queues: Seq<Seq<usize>>,
)
    requires
        0 <= p < resources.len(),
        forall|m: int, r: int|
            0 <= m < a.len() && 0 <= r < resources.len() ==> #[trigger] fits(dag.task_seq()[a[m] as int], resources[r], r as usize),
    ensures
        round_robin(dag, resources, a + b, p, resources.len(), queues) == round_robin(
            dag,
            resources,
            b,
            (p + a.len()) % (resources.len() as int),
            resources.len(),
            round_robin(dag, resources, a, p, resources.len(), queues),
        ),
    decreases a.len(),
{
    let n = resources.len() as int;
    if a.len() == 0 {
        assert(a + b =~= b);
        lemma_mod_wrap(p, n);
    } else {
        let x = a[0];
        assert(fits(dag.task_seq()[a[0] as int], resources[p], p as usize));
        assert((a + b)[0] == x);
        assert((a + b).drop_first() =~= a.drop_first() + b);
        let p1 = next_pos(p, n);
        let q1 = queues.update(p, queues[p].push(x));
        assert forall|m: int, r: int|
            0 <= m < a.drop_first().len() && 0 <= r < n implies #[trigger] fits(dag.task_seq()[a.drop_first()[m] as int], resources[r], r as usize) by {
            assert(a.drop_first()[m] == a[m + 1]);
            assert(fits(dag.task_seq()[a[m + 1] as int], resources[r], r as usize));
        }
        lemma_deal_concat(dag, resources, a.drop_first(), b, p1, q1);
        if p + 1 < n {
            assert(p1 + a.drop_first().len() == p + a.len());
        } else {
            lemma_mod_add_multiples_vanish(a.len() - 1, n);
            assert(p + a.len() == n + (a.len() - 1));
        }
    }
}

/// Where every task of the order fits on every resource, the deal places
/// the tasks in turn on resources `0, 1, .., n - 1, 0, 1, ..`: dealing the
/// first `j + 1` tasks is dealing the first `j` and then adding task `j` at
/// the back of queue `j % n`.
pub proof fn law_deal_all_fit(
    dag: &DAG,
    resources: Seq<Resource>,
    order: Seq<usize>,
    queues: Seq<Seq<usize>>,
    j: int,
)
    requires
        resources.len() > 0,
        0 <= j < order.len(),
        forall|m: int, r: int|
            0 <= m < order.len() && 0 <= r < resources.len() ==> #[trigger] fits(dag.task_seq()[order[m] as int], resources[r], r as usize),
    ensures
        ({
            let n = resources.len() as int;
            let dealt = distribute(dag, resources, order.take(j), queues);
            distribute(dag, resources, order.take(j + 1), queues) == dealt.update(
                j % n,
                dealt[j % n].push(order[j]),
            )
        }),
{
    let n = resources.len() as int;
    let a = order.take(j);
    let b = seq![order[j]];
    assert(a + b =~= order.take(j + 1));
    assert forall|m: int, r: int|
        0 <= m < a.len() && 0 <= r < n implies #[trigger] fits(dag.task_seq()[a[m] as int], resources[r], r as usize) by {
        assert(a[m] == order[m]);
        assert(fits(dag.task_seq()[order[m] as int], resources[r], r as usize));
    }
    lemma_deal_concat(dag, resources, a, b, 0, queues);
    let dealt = distribute(dag, resources, a, queues);
    let p = j % n;
    assert(0 <= p < n) by {
        vstd::arithmetic::div_mod::lemma_mod_bound(j, n);
    }
    assert(fits(dag.task_seq()[order[j] as int], resources[p], p as usize));
    assert(b[0] == order[j]);
    assert(next_fit(dag, resources, order[j], p, resources.len()) == p);
    assert(b.drop_first() =~= Seq::<usize>::empty());
    assert((0int + a.len()) % n == p);
    let d1 = dealt.update(p, dealt[p].push(order[j]));
    assert(round_robin(dag, resources, b.drop_first(), next_pos(p, n), resources.len(), d1) == d1);
    assert(round_robin(dag, resources, b, p, resources.len(), dealt) == d1);
}

/// Each queue of `after` holds only entries that the same queue of `before`
/// held.
pub open spec fn only_taken_from(before: Seq<Seq<usize>>, after: Seq<Seq<usize>>) -> bool {
    &&& after.len() == before.len()
    &&& forall|q: int, x: usize| 0 <= q < after.len() && #[trigger] after[q].contains(x) ==> before[q].contains(x)
}

proof fn lemma_only_taken_from_trans(a: Seq<Seq<usize>>, b: Seq<Seq<usize>>, c: Seq<Seq<usize>>)
    requires
        only_taken_from(a, b),
        only_taken_from(b, c),
    ensures
        only_taken_from(a, c),
{
    assert forall|q: int, x: usize| 0 <= q < c.len() && #[trigger] c[q].contains(x) implies a[q].contains(x) by {
        assert(b[q].contains(x));
    }
}

/// Taking an entry out of a queue leaves only entries it held.
proof fn lemma_remove_only_taken(queues: Seq<Seq<usize>>, q: int, s: int)
    requires
        0 <= q < queues.len(),
        0 <= s < queues[q].len(),
    ensures
        only_taken_from(queues, queues.update(q, queues[q].remove(s))),
{
    let after = queues.update(q, queues[q].remove(s));
    queues[q].remove_ensures(s);
    assert forall|r: int, x: usize| 0 <= r < after.len() && #[trigger] after[r].contains(x) implies queues[r].contains(x) by {
        if r == q {
            let i = choose|i: int| 0 <= i < after[r].len() && after[r][i] == x;
            if i < s {
                assert(queues[q][i] == x);
            } else {
                assert(queues[q][i + 1] == x);
            }
        }
    }
}

proof fn lemma_scan_queue_only_taken(dag: &DAG, st: PassState, strategy: Strategy, k: int, q: int, s: int)
    ensures
        only_taken_from(st.queues, scan_queue(dag, st, strategy, k, q, s).0.queues),
    decreases scan_limit(st, strategy, q) - s,
{
    if s < scan_limit(st, strategy, q) {
        let st1 = checked(st, entry_valid(dag, st, q, s));
        if entry_taken(dag, st1, k, q, s) {
            let st2 = schedule_entry(dag, st1, strategy, k, q, s, entry_at(st1.queues, q, s).unwrap());
            lemma_remove_only_taken(st.queues, q, s);
            if strategy.multi_core_criterion == MultiCoreCriterion::UseAllCores {
                lemma_scan_progress(dag, st1, strategy, k, q, s);
                lemma_scan_queue_only_taken(dag, st2, strategy, k, q, scan_next(strategy, s));
                lemma_only_taken_from_trans(
                    st.queues,
                    st2.queues,
                    scan_queue(dag, st2, strategy, k, q, scan_next(strategy, s)).0.queues,
                );
            }
        } else {
            lemma_scan_queue_only_taken(dag, st1, strategy, k, q, s + 1);
        }
    }
}

proof fn lemma_scan_queues_only_taken(dag: &DAG, st: PassState, strategy: Strategy, k: int, i: int, n: int)
    ensures
        only_taken_from(st.queues, scan_queues(dag, st, strategy, k, i, n).queues),
    decreases n - i,
{
    if i < n {
        let q = queue_index(i, k, n);
        let st1 = checked(st, queue_exists(st, strategy, q));
        lemma_scan_queue_only_taken(dag, st1, strategy, k, q, 0);
        let (st2, stopped) = scan_queue(dag, st1, strategy, k, q, 0);
        if !stopped {
            lemma_scan_queues_only_taken(dag, st2, strategy, k, i + 1, n);
            lemma_only_taken_from_trans(st.queues, st2.queues, scan_queues(dag, st2, strategy, k, i + 1, n).queues);
        }
    }
}

proof fn lemma_pass_from_only_taken(dag: &DAG, st: PassState, strategy: Strategy, k: int, n: int)
    ensures
        only_taken_from(st.queues, pass_from(dag, st, strategy, k, n).queues),
    decreases n - k,
{
    if k < n {
        if skips(st, strategy, k) {
            lemma_pass_from_only_taken(dag, st, strategy, k + 1, n);
        } else {
            let st2 = scan_queues(dag, st, strategy, k, 0, n);
            lemma_scan_queues_only_taken(dag, st, strategy, k, 0, n);
            lemma_pass_from_only_taken(dag, st2, strategy, k + 1, n);
            lemma_only_taken_from_trans(st.queues, st2.queues, pass_from(dag, st2, strategy, k + 1, n).queues);
        }
    }
}

/// The resources from `from` on that a pass serves add actions only on
/// themselves and prefix what was there.
proof fn lemma_pass_from_facts(dag: &DAG, st: PassState, strategy: Strategy, from: int, n: int)
    requires
        0 <= from,
        n <= st.resources.len() <= usize::MAX + 1,
    ensures
        ({
            let r = pass_from(dag, st, strategy, from, n);
            &&& r.resources.len() == st.resources.len()
            &&& forall|j: int| 0 <= j < from ==> #[trigger] r.resources[j] == st.resources[j]
            &&& r.actions.len() >= st.actions.len()
            &&& forall|a: int| 0 <= a < st.actions.len() ==> #[trigger] r.actions[a] == st.actions[a]
            &&& forall|a: int| st.actions.len() <= a < r.actions.len() ==> from <= action_resource(#[trigger] r.actions[a])
        }),
    decreases n - from,
{
    if from < n {
        if skips(st, strategy, from) {
            lemma_pass_from_facts(dag, st, strategy, from + 1, n);
        } else {
            let st2 = scan_queues(dag, st, strategy, from, 0, n);
            lemma_scan_queues_facts(dag, st, strategy, from, 0, n);
            lemma_pass_from_facts(dag, st2, strategy, from + 1, n);
            let r = pass_from(dag, st2, strategy, from + 1, n);
            assert forall|a: int| 0 <= a < st.actions.len() implies #[trigger] r.actions[a] == st.actions[a] by {
                assert(r.actions[a] == st2.actions[a]);
            }
            assert forall|a: int| st.actions.len() <= a < r.actions.len() implies from <= action_resource(
                #[trigger] r.actions[a],
            ) by {
                if a < st2.actions.len() {
                    assert(r.actions[a] == st2.actions[a]);
                }
            }
            assert forall|j: int| 0 <= j < from implies #[trigger] r.resources[j] == st.resources[j] by {
                assert(r.resources[j] == st2.resources[j]);
            }
        }
    }
}

/// Searching whole queues: when a pass reaches resource `k` (not passed
/// over) in the state `st` and gives it no task, nothing left in the queues
/// after the pass is a task that could be taken for `k` as it stood then.
proof fn lemma_pass_from_unserved(dag: &DAG, st: PassState, strategy: Strategy, from: int, k: int, n: int)
    requires
        strategy.ptq_navigation_criterion == PTQNavigationCriterion::Whole,
        0 <= from <= k < n,
        n == st.resources.len() <= usize::MAX,
        n == st.queues.len(),
        !skips(st, strategy, k),
        forall|a: int|
            st.actions.len() <= a < pass_from(dag, st, strategy, from, n).actions.len() ==> action_resource(
                #[trigger] pass_from(dag, st, strategy, from, n).actions[a],
            ) != k,
    ensures
        ({
            let r = pass_from(dag, st, strategy, from, n);
            forall|q: int, p: int|
                0 <= q < r.queues.len() && 0 <= p < r.queues[q].len() ==> !(#[trigger] dag.task_seq()[r.queues[q][p] as int].state
                    == TaskState::Ready && fits(
                    dag.task_seq()[r.queues[q][p] as int],
                    st.resources[k],
                    k as usize,
                ))
        }),
    decreases k - from,
{
    let r = pass_from(dag, st, strategy, from, n);
    if from < k {
        if skips(st, strategy, from) {
            lemma_pass_from_unserved(dag, st, strategy, from + 1, k, n);
        } else {
            let st2 = scan_queues(dag, st, strategy, from, 0, n);
            lemma_scan_queues_facts(dag, st, strategy, from, 0, n);
            lemma_scan_queues_only_taken(dag, st, strategy, from, 0, n);
            assert(st2.resources[k] == st.resources[k]);
            assert(skips(st2, strategy, k) == skips(st, strategy, k));
            lemma_pass_from_facts(dag, st2, strategy, from + 1, n);
            assert forall|a: int| st2.actions.len() <= a < r.actions.len() implies action_resource(
                #[trigger] r.actions[a],
            ) != k by {}
            lemma_pass_from_unserved(dag, st2, strategy, from + 1, k, n);
        }
    } else {
        let st2 = scan_queues(dag, st, strategy, k, 0, n);
        lemma_scan_queues_facts(dag, st, strategy, k, 0, n);
        lemma_pass_from_facts(dag, st2, strategy, k + 1, n);
        if st2.actions.len() > st.actions.len() {
            let a = st.actions.len() as int;
            assert(r.actions[a] == st2.actions[a]);
            assert(action_resource(st2.actions[a]) == k);
        }
        assert(st2.queues == st.queues);
        lemma_pass_from_only_taken(dag, st2, strategy, k + 1, n);
        assert forall|q: int, p: int|
            0 <= q < r.queues.len() && 0 <= p < r.queues[q].len() implies !(#[trigger] dag.task_seq()[r.queues[q][p] as int].state
            == TaskState::Ready && fits(dag.task_seq()[r.queues[q][p] as int], st.resources[k], k as usize)) by {
            let x = r.queues[q][p];
            assert(r.queues[q].contains(x));
            assert(st.queues[q].contains(x));
            let p0 = choose|p0: int| 0 <= p0 < st.queues[q].len() && st.queues[q][p0] == x;
            let j = if q >= k {
                q - k
            } else {
                q - k + n
            };
            lemma_queue_index_steps(k, j, n);
            lemma_mod_wrap(k + j, n);
            assert(queue_index(j, k, n) == q);
            assert(p0 < scan_limit(st, strategy, q));
            assert(!entry_taken(dag, st, k, queue_index(j, k, n), p0));
        }
    }
}

/// Searching whole queues, a pass leaves no resource hungry: a resource
/// that is neither running while tasks go one at a time nor without a free
/// core, and that gets no task in the pass, finds no ready task that fits
/// on it left in any queue.
pub proof fn law_unserved_resource_finds_nothing(
    dag: &DAG,
    queues: Seq<Seq<usize>>,
    resources: Seq<Resource>,
    strategy: Strategy,
    k: int,
)
    requires
        resources.len() <= usize::MAX,
        queues.len() == resources.len(),
        strategy.ptq_navigation_criterion == PTQNavigationCriterion::Whole,
        0 <= k < resources.len(),
        !passed_over(resources[k], strategy),
        forall|a: int|
            0 <= a < schedule_pass(dag, queues, resources, strategy).actions.len() ==> action_resource(
                #[trigger] schedule_pass(dag, queues, resources, strategy).actions[a],
            ) != k,
    ensures
        forall|q: int, p: int|
            0 <= q < schedule_pass(dag, queues, resources, strategy).queues.len() && 0 <= p < schedule_pass(
                dag,
                queues,
                resources,
                strategy,
            ).queues[q].len() ==> !ready_fit(
                dag,
                resources,
                #[trigger] schedule_pass(dag, queues, resources, strategy).queues[q][p],
                k,
            ),
{
    let n = resources.len() as int;
    let st0 = pass_start(queues, resources);
    let base = resource_view(resources);
    assert(base[k].cores == resources[k].cores && base[k].cores_available == resources[k].cores_available
        && base[k].memory_available == resources[k].memory_available);
    assert(!skips(st0, strategy, k));
    assert(schedule_pass(dag, queues, resources, strategy) == pass_from(dag, st0, strategy, 0, n));
    lemma_pass_from_unserved(dag, st0, strategy, 0, k, n);
    let r = schedule_pass(dag, queues, resources, strategy);
    assert forall|q: int, p: int| 0 <= q < r.queues.len() && 0 <= p < r.queues[q].len() implies !ready_fit(
        dag,
        resources,
        #[trigger] r.queues[q][p],
        k,
    ) by {
        assert(!(dag.task_seq()[r.queues[q][p] as int].state == TaskState::Ready && fits(
            dag.task_seq()[r.queues[q][p] as int],
            base[k],
            k as usize,
        )));
    }
}

} // verus!
