//! The two topological sorts the scheduler can order its tasks by: Kahn's
//! algorithm and depth-first search, each with the exact order it produces.
use crate::dag::{
    count_of, lemma_contains_count, lemma_count_absent, lemma_count_concat, lemma_count_present, DAG,
};
use crate::graph::{
    ids, inputs_produced, lemma_edge_in_succ, lemma_has_edge_pred, lemma_ids_bound, lemma_no_dup_len,
    lemma_permutation_contains_all, lemma_producers_of_index, lemma_succ_in_range, lemma_succ_pred_count,
    pred_seq, succ_seq, task_predecessors, task_successors, lemma_consumers_of_member,
};
use std::collections::VecDeque;
use vstd::prelude::*;

verus! {

/// How many elements of `p` are not in `done`.
pub open spec fn count_outside(p: Seq<usize>, done: Seq<usize>) -> nat
    decreases p.len(),
{
    if p.len() == 0 {
        0
    } else {
        count_outside(p.drop_last(), done) + if done.contains(p.last()) {
            0nat
        } else {
            1nat
        }
    }
}

proof fn lemma_count_outside_empty(p: Seq<usize>, done: Seq<usize>)
    requires
        done.len() == 0,
    ensures
        count_outside(p, done) == p.len(),
    decreases p.len(),
{
    if p.len() > 0 {
        lemma_count_outside_empty(p.drop_last(), done);
    }
}

/// Marking `u` done removes its occurrences from the count.
proof fn lemma_count_outside_push(p: Seq<usize>, done: Seq<usize>, u: usize)
    requires
        !done.contains(u),
    ensures
        count_outside(p, done) == count_outside(p, done.push(u)) + count_of(p, u),
    decreases p.len(),
{
    if p.len() > 0 {
        lemma_count_outside_push(p.drop_last(), done, u);
        let y = p.last();
        if done.push(u).contains(y) && y != u {
            let k = choose|k: int| 0 <= k < done.push(u).len() && done.push(u)[k] == y;
            assert(done[k] == y);
        }
        if done.contains(y) {
            let k = choose|k: int| 0 <= k < done.len() && done[k] == y;
            assert(done.push(u)[k] == y);
        }
        if y == u {
            assert(done.push(u)[done.len() as int] == y);
        }
    }
}

proof fn lemma_count_outside_zero(p: Seq<usize>, done: Seq<usize>)
    requires
        forall|i: int| 0 <= i < p.len() ==> done.contains(#[trigger] p[i]),
    ensures
        count_outside(p, done) == 0,
    decreases p.len(),
{
    if p.len() > 0 {
        assert(done.contains(p[p.len() - 1]));
        assert forall|i: int| 0 <= i < p.drop_last().len() implies done.contains(
            #[trigger] p.drop_last()[i],
        ) by {
            assert(done.contains(p[i]));
        }
        lemma_count_outside_zero(p.drop_last(), done);
    }
}

proof fn lemma_count_outside_zero_inv(p: Seq<usize>, done: Seq<usize>)
    requires
        count_outside(p, done) == 0,
    ensures
        forall|i: int| 0 <= i < p.len() ==> done.contains(#[trigger] p[i]),
    decreases p.len(),
{
    if p.len() > 0 {
        lemma_count_outside_zero_inv(p.drop_last(), done);
        assert forall|i: int| 0 <= i < p.len() implies done.contains(#[trigger] p[i]) by {
            if i < p.len() - 1 {
                assert(p[i] == p.drop_last()[i]);
            }
        }
    }
}

/// A prefix of `s` holds no more occurrences of `x` than `s`.
proof fn lemma_count_take(s: Seq<usize>, j: int, x: usize)
    requires
        0 <= j < s.len(),
    ensures
        count_of(s.take(j + 1), x) == count_of(s.take(j), x) + if s[j] == x {
            1nat
        } else {
            0nat
        },
        count_of(s.take(j + 1), x) <= count_of(s, x),
{
    assert(s.take(j + 1).drop_last() =~= s.take(j));
    assert(s =~= s.take(j + 1) + s.skip(j + 1));
    lemma_count_concat(s.take(j + 1), s.skip(j + 1), x);
}

/// The first position of `ord` whose element is not in `done`.
proof fn lemma_first_missing(ord: Seq<usize>, done: Seq<usize>, i: int) -> (j: int)
    requires
        0 <= i < ord.len(),
        !done.contains(ord[i]),
    ensures
        0 <= j <= i,
        !done.contains(ord[j]),
        forall|k: int| 0 <= k < j ==> done.contains(#[trigger] ord[k]),
    decreases i,
{
    if exists|k: int| 0 <= k < i && !done.contains(#[trigger] ord[k]) {
        let k = choose|k: int| 0 <= k < i && !done.contains(#[trigger] ord[k]);
        lemma_first_missing(ord, done, k)
    } else {
        i
    }
}

/// Kahn's invariant over the tasks sorted so far (`done`), the queue of
/// tasks whose predecessors are all sorted (`queue`) and the remaining
/// in-degrees.
pub open spec fn kahn_inv(dag: &DAG, in_degree: Seq<usize>, done: Seq<usize>, queue: Seq<usize>) -> bool {
    let n = dag.num_tasks();
    &&& in_degree.len() == n
    &&& forall|v: int|
        0 <= v < n ==> #[trigger] in_degree[v] == count_outside(pred_seq(dag, v), done)
    &&& (done + queue).no_duplicates()
    &&& forall|i: int| 0 <= i < (done + queue).len() ==> #[trigger] (done + queue)[i] < n
    &&& forall|i: int| 0 <= i < queue.len() ==> in_degree[#[trigger] queue[i] as int] == 0
    &&& forall|v: int|
        0 <= v < n && #[trigger] in_degree[v] == 0 && !done.contains(v as usize) ==> queue.contains(
            v as usize,
        )
    &&& sorted_after_predecessors(dag, done)
}

/// Every task of `done` comes after all of its predecessors.
pub open spec fn sorted_after_predecessors(dag: &DAG, done: Seq<usize>) -> bool {
    forall|k: int, i: int|
        0 <= k < done.len() && 0 <= i < pred_seq(dag, done[k] as int).len() ==> done.take(k).contains(
            #[trigger] pred_seq(dag, #[trigger] done[k] as int)[i],
        )
}

/// The state of Kahn's algorithm: the in-degree left to each task, the
/// queue of tasks ready to be sorted, and the tasks sorted so far.
pub struct KahnState {
    pub in_degree: Seq<usize>,
    pub queue: Seq<usize>,
    pub sorted: Seq<usize>,
}

/// Releases the successors `succs[j..]` of a task just sorted: each loses
/// one unit of in-degree and joins the queue when it reaches zero.
pub open spec fn kahn_release(st: KahnState, succs: Seq<usize>, j: int) -> KahnState
    decreases succs.len() - j,
{
    if j >= succs.len() || j < 0 {
        st
    } else {
        let v = succs[j];
        let d = (st.in_degree[v as int] - 1) as usize;
        kahn_release(
            KahnState {
                in_degree: st.in_degree.update(v as int, d),
                queue: if d == 0 {
                    st.queue.push(v)
                } else {
                    st.queue
                },
                sorted: st.sorted,
            },
            succs,
            j + 1,
        )
    }
}

/// One step of Kahn's algorithm: the task at the front of the queue is
/// sorted, and its successors released.
pub open spec fn kahn_step(dag: &DAG, st: KahnState) -> KahnState {
    let u = st.queue[0];
    kahn_release(
        KahnState { in_degree: st.in_degree, queue: st.queue.drop_first(), sorted: st.sorted.push(u) },
        succ_seq(dag, u as int),
        0,
    )
}

/// Up to `fuel` steps of Kahn's algorithm, stopping when the queue is empty.
pub open spec fn kahn_run(dag: &DAG, st: KahnState, fuel: nat) -> KahnState
    decreases fuel,
{
    if fuel == 0 || st.queue.len() == 0 {
        st
    } else {
        kahn_run(dag, kahn_step(dag, st), (fuel - 1) as nat)
    }
}

/// The tasks below `i` that depend on no task, in increasing order.
pub open spec fn kahn_sources(dag: &DAG, i: int) -> Seq<usize>
    decreases i,
{
    if i <= 0 {
        Seq::empty()
    } else if pred_seq(dag, i - 1).len() == 0 {
        kahn_sources(dag, i - 1).push((i - 1) as usize)
    } else {
        kahn_sources(dag, i - 1)
    }
}

/// Kahn's algorithm before its first step.
pub open spec fn kahn_initial(dag: &DAG) -> KahnState {
    KahnState {
        in_degree: Seq::new(dag.num_tasks(), |v: int| pred_seq(dag, v).len() as usize),
        queue: kahn_sources(dag, dag.num_tasks() as int),
        sorted: Seq::empty(),
    }
}

/// The order in which Kahn's algorithm sorts the tasks.
pub open spec fn kahn_order(dag: &DAG) -> Seq<usize> {
    kahn_run(dag, kahn_initial(dag), dag.num_tasks()).sorted
}

/// Kahn's algorithm on a DAG in which every input is produced: `Some` of a
/// topological order exactly when the tasks have one, and `None` when the
/// dependencies hold a cycle.
pub fn try_khan_topological_sort(dag: &DAG) -> (res: Option<Vec<usize>>)
    requires
        dag.all_inputs_produced(),
    ensures
        res.is_some() <==> dag.is_acyclic(),
        res matches Some(order) ==> dag.is_topological_order(order@) && order@ == kahn_order(dag),
{
    proof {
        use_type_invariant(dag);
    }
    let n = dag.get_tasks().len();
    let mut in_degree: Vec<usize> = vec![0; n];
    let mut sorted_tasks: Vec<usize> = Vec::new();
    let mut queue: VecDeque<usize> = VecDeque::new();

    // Compute in-degree (number of dependencies) for each task
    for task_id in 0..n
        invariant
            dag.wf(),
            dag.all_inputs_produced(),
            n == dag.num_tasks(),
            in_degree@.len() == n,
            forall|v: int| 0 <= v < task_id ==> #[trigger] in_degree@[v] == pred_seq(dag, v).len(),
    {
        assert(inputs_produced(dag, task_id as int)) by {
            assert forall|k: int| 0 <= k < dag.inputs(task_id as int).len() implies (
            #[trigger] dag.producer(dag.inputs(task_id as int)[k] as int)).is_some() by {}
        }
        let predecessors = task_predecessors(task_id, dag);
        in_degree.set(task_id, predecessors.len());
    }
    proof {
        assert forall|v: int| 0 <= v < n implies #[trigger] in_degree@[v] == count_outside(
            pred_seq(dag, v),
            sorted_tasks@,
        ) by {
            lemma_count_outside_empty(pred_seq(dag, v), sorted_tasks@);
        }
    }

    // Find tasks with no dependencies (in-degree = 0)
    for task_id in 0..n
        invariant
            dag.wf(),
            n == dag.num_tasks(),
            in_degree@.len() == n,
            sorted_tasks@.len() == 0,
            forall|v: int|
                0 <= v < n ==> #[trigger] in_degree@[v] == count_outside(pred_seq(dag, v), sorted_tasks@),
            forall|v: int| 0 <= v < n ==> #[trigger] in_degree@[v] == pred_seq(dag, v).len(),
            queue@ == kahn_sources(dag, task_id as int),
            queue@.no_duplicates(),
            forall|i: int| 0 <= i < queue@.len() ==> #[trigger] queue@[i] < task_id,
            forall|i: int| 0 <= i < queue@.len() ==> in_degree@[#[trigger] queue@[i] as int] == 0,
            forall|v: int|
                0 <= v < task_id && #[trigger] in_degree@[v] == 0 ==> queue@.contains(v as usize),
    {
        if in_degree[task_id] == 0 {
            let ghost before = queue@;
            assert(pred_seq(dag, task_id as int).len() == 0);
            queue.push_back(task_id);
            proof {
                assert forall|v: int|
                    0 <= v < task_id + 1 && #[trigger] in_degree@[v] == 0 implies queue@.contains(
                    v as usize,
                ) by {
                    if v < task_id {
                        let k = choose|k: int| 0 <= k < before.len() && before[k] == v as usize;
                        assert(queue@[k] == v as usize);
                    } else {
                        assert(queue@[before.len() as int] == v as usize);
                    }
                }
            }
        }
    }
    proof {
        assert(sorted_tasks@ + queue@ =~= queue@);
        assert(in_degree@ =~= kahn_initial(dag).in_degree);
    }
    let ghost fin = kahn_run(dag, kahn_initial(dag), n as nat);

    // Process tasks in topological order
    loop
        invariant
            dag.wf(),
            dag.all_inputs_produced(),
            n == dag.num_tasks(),
            kahn_inv(dag, in_degree@, sorted_tasks@, queue@),
            sorted_tasks@.len() <= n,
            fin == kahn_run(dag, kahn_initial(dag), n as nat),
            kahn_run(
                dag,
                KahnState { in_degree: in_degree@, queue: queue@, sorted: sorted_tasks@ },
                (n - sorted_tasks@.len()) as nat,
            ) == fin,
        ensures
            queue@.len() == 0,
        decreases n - sorted_tasks@.len(),
    {
        let ghost done0 = sorted_tasks@;
        let ghost queue0 = queue@;
        let ghost deg_start = in_degree@;
        proof {
            assert forall|i: int| 0 <= i < (done0 + queue0).len() implies #[trigger] (done0 + queue0)[i] < n by {}
            lemma_ids_bound(done0 + queue0, n as nat);
        }
        let task_id = match queue.pop_front() {
            Some(t) => t,
            None => break,
        };
        proof {
            assert((done0 + queue0)[done0.len() as int] == task_id);
            assert(!done0.contains(task_id)) by {
                if done0.contains(task_id) {
                    let k = choose|k: int| 0 <= k < done0.len() && done0[k] == task_id;
                    assert((done0 + queue0)[k] == task_id);
                }
            }
            assert(queue0[0] == task_id);
            assert(in_degree@[task_id as int] == 0);
            lemma_count_outside_zero_inv(pred_seq(dag, task_id as int), done0);
        }
        sorted_tasks.push(task_id);
        let successors = task_successors(task_id, dag);
        proof {
            assert(kahn_step(dag, KahnState { in_degree: deg_start, queue: queue0, sorted: done0 })
                == kahn_release(KahnState { in_degree: in_degree@, queue: queue@, sorted: sorted_tasks@ }, successors@, 0));
            let done = sorted_tasks@;
            assert(done0 + queue0 =~= done + queue@);
            lemma_succ_in_range(dag, task_id as int);
            // the in-degree equation, with `task_id` now done
            assert forall|v: int| 0 <= v < n implies #[trigger] in_degree@[v] + count_of(
                successors@.take(0),
                v as usize,
            ) == count_outside(pred_seq(dag, v), done) + count_of(successors@, v as usize) by {
                lemma_count_outside_push(pred_seq(dag, v), done0, task_id);
                assert(inputs_produced(dag, v)) by {
                    assert forall|k: int| 0 <= k < dag.inputs(v).len() implies (
                    #[trigger] dag.producer(dag.inputs(v)[k] as int)).is_some() by {}
                }
                lemma_succ_pred_count(dag, task_id, v as usize);
                assert(successors@.take(0) =~= Seq::<usize>::empty());
            }
            assert forall|v: int|
                0 <= v < n && #[trigger] in_degree@[v] == 0 && !done.contains(v as usize) implies queue@.contains(
                v as usize,
            ) by {
                assert(!done0.contains(v as usize)) by {
                    if done0.contains(v as usize) {
                        let k = choose|k: int| 0 <= k < done0.len() && done0[k] == v as usize;
                        assert(done[k] == v as usize);
                    }
                }
                let k = choose|k: int| 0 <= k < queue0.len() && queue0[k] == v as usize;
                if k == 0 {
                    assert(done[done0.len() as int] == v as usize);
                } else {
                    assert(queue@[k - 1] == v as usize);
                }
            }
            assert forall|i: int| 0 <= i < queue@.len() implies in_degree@[#[trigger] queue@[i] as int] == 0 by {
                assert(queue@[i] == queue0[i + 1]);
            }
            // no task already sorted is a successor of `task_id`
            assert forall|k: int| 0 <= k < done.len() implies count_of(
                successors@,
                #[trigger] done[k],
            ) == 0 by {
                let x = done[k];
                assert(x < n) by {
                    assert((done + queue@)[k] == x);
                }
                assert(inputs_produced(dag, x as int)) by {
                    assert forall|i: int| 0 <= i < dag.inputs(x as int).len() implies (
                    #[trigger] dag.producer(dag.inputs(x as int)[i] as int)).is_some() by {}
                }
                lemma_succ_pred_count(dag, task_id, x);
                if pred_seq(dag, x as int).contains(task_id) {
                    let i = choose|i: int|
                        0 <= i < pred_seq(dag, x as int).len() && pred_seq(dag, x as int)[i]
                            == task_id;
                    if k < done0.len() {
                        assert(done0[k] == x);
                        assert(done0.take(k).contains(pred_seq(dag, done0[k] as int)[i]));
                        let m = choose|m: int| 0 <= m < done0.take(k).len() && done0.take(k)[m] == task_id;
                        assert(done0[m] == task_id);
                    } else {
                        assert(x == task_id);
                        assert(done0.contains(pred_seq(dag, task_id as int)[i]));
                    }
                }
                lemma_count_absent(pred_seq(dag, x as int), task_id);
            }
            // `task_id` comes after all of its predecessors
            assert forall|k: int, i: int|
                0 <= k < done.len() && 0 <= i < pred_seq(dag, done[k] as int).len() implies done.take(
                k,
            ).contains(#[trigger] pred_seq(dag, #[trigger] done[k] as int)[i]) by {
                if k < done0.len() {
                    assert(done.take(k) =~= done0.take(k));
                    assert(done0[k] == done[k]);
                } else {
                    assert(done.take(k) =~= done0);
                }
            }
        }

        let mut j: usize = 0;
        while j < successors.len()
            invariant
                dag.wf(),
                dag.all_inputs_produced(),
                n == dag.num_tasks(),
                task_id < n,
                successors@ == succ_seq(dag, task_id as int),
                forall|i: int| 0 <= i < successors@.len() ==> #[trigger] successors@[i] < n,
                j <= successors@.len(),
                sorted_tasks@.len() > 0,
                in_degree@.len() == n,
                forall|v: int|
                    0 <= v < n ==> #[trigger] in_degree@[v] + count_of(successors@.take(j as int), v as usize)
                        == count_outside(pred_seq(dag, v), sorted_tasks@) + count_of(
                        successors@,
                        v as usize,
                    ),
                (sorted_tasks@ + queue@).no_duplicates(),
                forall|i: int|
                    0 <= i < (sorted_tasks@ + queue@).len() ==> #[trigger] (sorted_tasks@ + queue@)[i] < n,
                forall|i: int| 0 <= i < queue@.len() ==> in_degree@[#[trigger] queue@[i] as int] == 0,
                forall|v: int|
                    0 <= v < n && #[trigger] in_degree@[v] == 0 && !sorted_tasks@.contains(v as usize)
                        ==> queue@.contains(v as usize),
                forall|k: int| 0 <= k < sorted_tasks@.len() ==> count_of(successors@, #[trigger] sorted_tasks@[k]) == 0,
                sorted_after_predecessors(dag, sorted_tasks@),
                sorted_tasks@.len() <= n,
                kahn_run(
                    dag,
                    kahn_release(
                        KahnState { in_degree: in_degree@, queue: queue@, sorted: sorted_tasks@ },
                        successors@,
                        j as int,
                    ),
                    (n - sorted_tasks@.len()) as nat,
                ) == fin,
            decreases successors@.len() - j,
        {
            let successor_id = successors[j];
            proof {
                lemma_count_take(successors@, j as int, successor_id);
                assert(in_degree@[successor_id as int] >= 1);
            }
            let ghost deg0 = in_degree@;
            let ghost q0 = queue@;
            let ghost before_release = KahnState { in_degree: in_degree@, queue: queue@, sorted: sorted_tasks@ };
            in_degree.set(successor_id, in_degree[successor_id] - 1);
            proof {
                assert(deg0[successor_id as int] >= 1);
                assert(in_degree@ == deg0.update(successor_id as int, (deg0[successor_id as int] - 1) as usize));
                assert forall|v: int| 0 <= v < n implies #[trigger] in_degree@[v] + count_of(
                    successors@.take(j as int + 1),
                    v as usize,
                ) == count_outside(pred_seq(dag, v), sorted_tasks@) + count_of(successors@, v as usize) by {
                    lemma_count_take(successors@, j as int, v as usize);
                    assert(deg0[v] + count_of(successors@.take(j as int), v as usize) == count_outside(
                        pred_seq(dag, v),
                        sorted_tasks@,
                    ) + count_of(successors@, v as usize));
                }
            }
            // If a task has no remaining dependencies, add it to the queue
            if in_degree[successor_id] == 0 {
                queue.push_back(successor_id);
                proof {
                    let done = sorted_tasks@;
                    assert(!done.contains(successor_id)) by {
                        if done.contains(successor_id) {
                            let k = choose|k: int| 0 <= k < done.len() && done[k] == successor_id;
                            assert(count_of(successors@, done[k]) == 0);
                            assert(successors@.contains(successor_id)) by {
                                assert(successors@[j as int] == successor_id);
                            }
                            lemma_contains_count(successors@, successor_id);
                        }
                    }
                    assert(!q0.contains(successor_id)) by {
                        if q0.contains(successor_id) {
                            let k = choose|k: int| 0 <= k < q0.len() && q0[k] == successor_id;
                            assert(deg0[q0[k] as int] == 0);
                        }
                    }
                    assert(done + queue@ =~= (done + q0).push(successor_id));
                    assert forall|i: int, k: int|
                        0 <= i < (done + queue@).len() && 0 <= k < (done + queue@).len() && i != k
                            implies (done + queue@)[i] != (done + queue@)[k] by {
                        if i < (done + q0).len() && k < (done + q0).len() {
                        } else if i < (done + q0).len() {
                            if (done + q0)[i] == successor_id {
                                if i < done.len() {
                                    assert(done[i] == successor_id);
                                } else {
                                    assert(q0[i - done.len()] == successor_id);
                                }
                            }
                        } else if k < (done + q0).len() {
                            if (done + q0)[k] == successor_id {
                                if k < done.len() {
                                    assert(done[k] == successor_id);
                                } else {
                                    assert(q0[k - done.len()] == successor_id);
                                }
                            }
                        }
                    }
                    assert forall|i: int| 0 <= i < queue@.len() implies in_degree@[#[trigger] queue@[i] as int]
                        == 0 by {
                        if i < q0.len() {
                            assert(queue@[i] == q0[i]);
                            assert((done + q0)[done.len() + i] == q0[i]);
                            assert(deg0[q0[i] as int] == 0);
                            assert(q0[i] != successor_id);
                        }
                    }
                    assert forall|v: int|
                        0 <= v < n && #[trigger] in_degree@[v] == 0 && !done.contains(v as usize)
                            implies queue@.contains(v as usize) by {
                        if v == successor_id {
                            assert(queue@[q0.len() as int] == successor_id);
                        } else {
                            assert(deg0[v] == 0);
                            let k = choose|k: int| 0 <= k < q0.len() && q0[k] == v as usize;
                            assert(queue@[k] == v as usize);
                        }
                    }
                }
            } else {
                proof {
                    assert forall|i: int| 0 <= i < queue@.len() implies in_degree@[#[trigger] queue@[i] as int]
                        == 0 by {
                        assert(queue@[i] == q0[i]);
                        assert((sorted_tasks@ + q0)[sorted_tasks@.len() + i] == q0[i]);
                        assert(deg0[q0[i] as int] == 0);
                        assert(q0[i] != successor_id);
                    }
                    assert forall|v: int|
                        0 <= v < n && #[trigger] in_degree@[v] == 0 && !sorted_tasks@.contains(v as usize)
                            implies queue@.contains(v as usize) by {
                        assert(deg0[v] == 0);
                    }
                }
            }
            proof {
                assert(kahn_release(before_release, successors@, j as int) == kahn_release(
                    KahnState { in_degree: in_degree@, queue: queue@, sorted: sorted_tasks@ },
                    successors@,
                    j + 1,
                ));
            }
            j = j + 1;
        }
        proof {
            assert(successors@.take(j as int) =~= successors@);
            assert forall|i: int| 0 <= i < sorted_tasks@.len() implies #[trigger] sorted_tasks@[i] < n by {
                assert((sorted_tasks@ + queue@)[i] == sorted_tasks@[i]);
            }
            assert forall|i: int, k: int|
                0 <= i < sorted_tasks@.len() && 0 <= k < sorted_tasks@.len() && i != k implies sorted_tasks@[i]
                    != sorted_tasks@[k] by {
                assert((sorted_tasks@ + queue@)[i] == sorted_tasks@[i]);
                assert((sorted_tasks@ + queue@)[k] == sorted_tasks@[k]);
            }
            lemma_ids_bound(sorted_tasks@, n as nat);
        }
    }
    proof {
        lemma_kahn_outcome(dag, in_degree@, sorted_tasks@, queue@);
    }
    // Ensure the DAG has no cycles
    if sorted_tasks.len() != n {
        None
    } else {
        Some(sorted_tasks)
    }
}

/// When Kahn's queue runs empty, the tasks sorted form a topological order
/// if they are all the tasks, and no topological order exists otherwise.
proof fn lemma_kahn_outcome(dag: &DAG, in_degree: Seq<usize>, done: Seq<usize>, queue: Seq<usize>)
    requires
        dag.wf(),
        dag.all_inputs_produced(),
        kahn_inv(dag, in_degree, done, queue),
        queue.len() == 0,
    ensures
        done.len() == dag.num_tasks() ==> dag.is_topological_order(done),
        done.len() == dag.num_tasks() <==> dag.is_acyclic(),
{
    let n = dag.num_tasks();
    assert(done + queue =~= done);
    if done.len() == n {
        assert forall|i: int, j: int|
            0 <= i < done.len() && 0 <= j < done.len() && #[trigger] dag.has_edge(done[i], done[j])
                implies i < j by {
            assert(inputs_produced(dag, done[j] as int)) by {
                assert forall|k: int| 0 <= k < dag.inputs(done[j] as int).len() implies (
                #[trigger] dag.producer(dag.inputs(done[j] as int)[k] as int)).is_some() by {}
            }
            lemma_has_edge_pred(dag, done[i], done[j]);
            let p = choose|p: int|
                0 <= p < pred_seq(dag, done[j] as int).len() && pred_seq(dag, done[j] as int)[p]
                    == done[i];
            assert(done.take(j).contains(pred_seq(dag, done[j] as int)[p]));
            let m = choose|m: int| 0 <= m < done.take(j).len() && done.take(j)[m] == done[i];
            assert(done[m] == done[i]);
        }
        assert(dag.is_topological_order(done));
    } else {
        if dag.is_acyclic() {
            let ord = choose|ord: Seq<usize>| dag.is_topological_order(ord);
            // some task of `ord` was never sorted
            let i0 = if forall|i: int| 0 <= i < ord.len() ==> done.contains(#[trigger] ord[i]) {
                lemma_no_dup_len(ord, done);
                lemma_ids_bound(done, n);
                0
            } else {
                choose|i: int| 0 <= i < ord.len() && !done.contains(#[trigger] ord[i])
            };
            if 0 <= i0 < ord.len() && !done.contains(ord[i0]) {
                let j = lemma_first_missing(ord, done, i0);
                let v = ord[j];
                assert(inputs_produced(dag, v as int)) by {
                    assert forall|k: int| 0 <= k < dag.inputs(v as int).len() implies (
                    #[trigger] dag.producer(dag.inputs(v as int)[k] as int)).is_some() by {}
                }
                lemma_producers_of_index(dag, dag.inputs(v as int));
                assert forall|i: int| 0 <= i < pred_seq(dag, v as int).len() implies done.contains(
                    #[trigger] pred_seq(dag, v as int)[i],
                ) by {
                    let p = pred_seq(dag, v as int)[i];
                    let d = dag.inputs(v as int)[i];
                    assert(dag.producer(d as int).is_some());
                    assert(d < dag.num_items());
                    assert(p < n);
                    lemma_has_edge_pred(dag, p, v);
                    lemma_permutation_contains_all(ord, n, p);
                    let i2 = choose|i2: int| 0 <= i2 < ord.len() && ord[i2] == p;
                    assert(dag.has_edge(ord[i2], ord[j]));
                }
                lemma_count_outside_zero(pred_seq(dag, v as int), done);
                assert(in_degree[v as int] == 0);
            }
        }
    }
}

/// Kahn's topological sort of the tasks of an acyclic DAG in which every
/// input is produced.
pub fn khan_topological_sort(dag: &DAG) -> (sorted: Vec<usize>)
    requires
        dag.all_inputs_produced(),
        dag.is_acyclic(),
    ensures
        dag.is_topological_order(sorted@),
        sorted@ == kahn_order(dag),
{
    proof {
        use_type_invariant(dag);
    }
    match try_khan_topological_sort(dag) {
        Some(sorted) => sorted,
        None => Vec::new(),
    }
}

/// How many entries of `visited` are false.
pub open spec fn count_unvisited(visited: Seq<bool>) -> nat
    decreases visited.len(),
{
    if visited.len() == 0 {
        0
    } else {
        count_unvisited(visited.drop_last()) + if visited.last() {
            0nat
        } else {
            1nat
        }
    }
}

/// Marking more entries visited never adds unvisited ones, and marking an
/// unvisited one visited removes at least one.
proof fn lemma_count_unvisited_mono(a: Seq<bool>, b: Seq<bool>, k: int)
    requires
        a.len() == b.len(),
        forall|i: int| 0 <= i < a.len() && #[trigger] a[i] ==> b[i],
    ensures
        count_unvisited(b) <= count_unvisited(a),
        0 <= k < a.len() && !a[k] && b[k] ==> count_unvisited(b) < count_unvisited(a),
    decreases a.len(),
{
    if a.len() > 0 {
        lemma_count_unvisited_mono(a.drop_last(), b.drop_last(), k);
    }
}

/// The position of `x` in `ord`.
pub open spec fn index_of(ord: Seq<usize>, x: usize) -> int {
    choose|i: int| 0 <= i < ord.len() && ord[i] == x
}

proof fn lemma_index_of(dag: &DAG, ord: Seq<usize>, x: usize)
    requires
        dag.is_topological_order(ord),
        x < dag.num_tasks(),
    ensures
        0 <= index_of(ord, x) < ord.len(),
        ord[index_of(ord, x)] == x,
{
    lemma_permutation_contains_all(ord, dag.num_tasks(), x);
}

/// In a topological order, a task comes after each task it depends on.
proof fn lemma_edge_index(dag: &DAG, ord: Seq<usize>, u: usize, v: usize)
    requires
        dag.is_topological_order(ord),
        u < dag.num_tasks(),
        v < dag.num_tasks(),
        dag.has_edge(u, v),
    ensures
        index_of(ord, u) < index_of(ord, v),
{
    lemma_index_of(dag, ord, u);
    lemma_index_of(dag, ord, v);
    assert(dag.has_edge(ord[index_of(ord, u)], ord[index_of(ord, v)]));
}

/// Every task of `done` comes after all of its successors.
pub open spec fn finished_after_successors(dag: &DAG, done: Seq<usize>) -> bool {
    forall|k: int, i: int|
        0 <= k < done.len() && 0 <= i < succ_seq(dag, done[k] as int).len() ==> done.take(k).contains(
            #[trigger] succ_seq(dag, #[trigger] done[k] as int)[i],
        )
}

/// The depth-first search state: `done` lists distinct visited tasks.
pub open spec fn dfs_inv(dag: &DAG, visited: Seq<bool>, done: Seq<usize>) -> bool {
    &&& visited.len() == dag.num_tasks()
    &&& done.no_duplicates()
    &&& forall|i: int| 0 <= i < done.len() ==> #[trigger] done[i] < dag.num_tasks()
    &&& forall|i: int| 0 <= i < done.len() ==> visited[#[trigger] done[i] as int]
}

/// Task `w` is visited and not yet finished.
pub open spec fn in_progress(visited: Seq<bool>, done: Seq<usize>, w: int) -> bool {
    visited[w] && !done.contains(w as usize)
}

/// Depth-first search from `v`, with at most `fuel` nested visits: marks
/// `v` visited, searches from each unvisited successor in turn, then
/// appends `v`.
pub open spec fn dfs_visit(dag: &DAG, fuel: nat, v: usize, vis: Seq<bool>, res: Seq<usize>) -> (Seq<bool>, Seq<usize>)
    decreases fuel, 0nat, 0int,
{
    if fuel == 0 {
        (vis, res)
    } else {
        let (vis2, res2) = dfs_succs(dag, (fuel - 1) as nat, v, 0, vis.update(v as int, true), res);
        (vis2, res2.push(v))
    }
}

/// Depth-first search from the successors `j..` of `v` not visited yet.
pub open spec fn dfs_succs(dag: &DAG, fuel: nat, v: usize, j: int, vis: Seq<bool>, res: Seq<usize>) -> (Seq<bool>, Seq<usize>)
    decreases fuel, 1nat, succ_seq(dag, v as int).len() - j,
{
    if j < 0 || j >= succ_seq(dag, v as int).len() {
        (vis, res)
    } else {
        let s = succ_seq(dag, v as int)[j];
        if !vis[s as int] {
            let (vis2, res2) = dfs_visit(dag, fuel, s, vis, res);
            dfs_succs(dag, fuel, v, j + 1, vis2, res2)
        } else {
            dfs_succs(dag, fuel, v, j + 1, vis, res)
        }
    }
}

/// Depth-first search from each task `i..` not visited yet, in id order.
pub open spec fn dfs_all(dag: &DAG, i: int, vis: Seq<bool>, res: Seq<usize>) -> (Seq<bool>, Seq<usize>)
    decreases dag.num_tasks() - i,
{
    if i < 0 || i >= dag.num_tasks() {
        (vis, res)
    } else if !vis[i] {
        let (vis2, res2) = dfs_visit(dag, dag.num_tasks(), i as usize, vis, res);
        dfs_all(dag, i + 1, vis2, res2)
    } else {
        dfs_all(dag, i + 1, vis, res)
    }
}

/// The order in which the depth-first sort lists the tasks: the reverse of
/// the order in which the search finishes them.
pub open spec fn dfs_order(dag: &DAG) -> Seq<usize> {
    dfs_all(dag, 0, Seq::new(dag.num_tasks(), |i: int| false), Seq::empty()).1.reverse()
}

proof fn lemma_count_unvisited_le(vis: Seq<bool>)
    ensures
        count_unvisited(vis) <= vis.len(),
    decreases vis.len(),
{
    if vis.len() > 0 {
        lemma_count_unvisited_le(vis.drop_last());
    }
}

proof fn lemma_count_unvisited_pos(vis: Seq<bool>, k: int)
    requires
        0 <= k < vis.len(),
        !vis[k],
    ensures
        count_unvisited(vis) >= 1,
    decreases vis.len(),
{
    if k < vis.len() - 1 {
        lemma_count_unvisited_pos(vis.drop_last(), k);
    }
}

/// Visits `v` and every task reachable from it that is not visited yet,
/// appending each task after all of its successors.
fn dfs(
    v: usize,
    dag: &DAG,
    visited: &mut Vec<bool>,
    result: &mut Vec<usize>,
    Ghost(ord): Ghost<Seq<usize>>,
    Ghost(acyclic): Ghost<bool>,
    Ghost(fuel): Ghost<nat>,
)
    requires
        fuel >= count_unvisited(old(visited)@),
        dag.wf(),
        v < dag.num_tasks(),
        !old(visited)@[v as int],
        dfs_inv(dag, old(visited)@, old(result)@),
        acyclic ==> dag.is_topological_order(ord),
        acyclic ==> finished_after_successors(dag, old(result)@),
        acyclic ==> forall|w: int|
            0 <= w < dag.num_tasks() && #[trigger] in_progress(old(visited)@, old(result)@, w)
                ==> index_of(ord, w as usize) < index_of(ord, v),
    ensures
        dfs_inv(dag, final(visited)@, final(result)@),
        final(result)@.len() > old(result)@.len(),
        final(result)@.take(old(result)@.len() as int) == old(result)@,
        final(result)@.contains(v),
        forall|w: int| 0 <= w < dag.num_tasks() && #[trigger] old(visited)@[w] ==> final(visited)@[w],
        forall|w: int|
            0 <= w < dag.num_tasks() ==> (#[trigger] in_progress(final(visited)@, final(result)@, w)
                <==> in_progress(old(visited)@, old(result)@, w)),
        acyclic ==> finished_after_successors(dag, final(result)@),
        (final(visited)@, final(result)@) == dfs_visit(dag, fuel, v, old(visited)@, old(result)@),
    decreases count_unvisited(old(visited)@),
{
    let ghost visited0 = visited@;
    let ghost result0 = result@;
    proof {
        dag.lemma_ids_fit();
        lemma_count_unvisited_pos(visited@, v as int);
    }
    visited.set(v, true);
    let successors = task_successors(v, dag);
    proof {
        lemma_succ_in_range(dag, v as int);
    }
    let mut j: usize = 0;
    while j < successors.len()
        invariant
            dag.wf(),
            v < dag.num_tasks(),
            successors@ == succ_seq(dag, v as int),
            forall|i: int| 0 <= i < successors@.len() ==> #[trigger] successors@[i] < dag.num_tasks(),
            j <= successors@.len(),
            dfs_inv(dag, visited@, result@),
            visited@[v as int],
            !result@.contains(v),
            !visited0[v as int],
            visited0 == old(visited)@,
            visited0.len() == dag.num_tasks(),
            result@.len() >= result0.len(),
            result@.take(result0.len() as int) == result0,
            forall|w: int| 0 <= w < dag.num_tasks() && #[trigger] visited0[w] ==> visited@[w],
            forall|w: int|
                0 <= w < dag.num_tasks() && w != v ==> (#[trigger] in_progress(visited@, result@, w)
                    <==> in_progress(visited0, result0, w)),
            acyclic ==> dag.is_topological_order(ord),
            acyclic ==> finished_after_successors(dag, result@),
            acyclic ==> forall|w: int|
                0 <= w < dag.num_tasks() && #[trigger] in_progress(visited0, result0, w)
                    ==> index_of(ord, w as usize) < index_of(ord, v),
            acyclic ==> forall|i: int| 0 <= i < j ==> result@.contains(#[trigger] successors@[i]),
            fuel >= count_unvisited(visited0),
            fuel >= 1,
            dfs_succs(dag, (fuel - 1) as nat, v, j as int, visited@, result@) == dfs_succs(
                dag,
                (fuel - 1) as nat,
                v,
                0,
                visited0.update(v as int, true),
                result0,
            ),
        decreases successors@.len() - j,
    {
        let succ = successors[j];
        let ghost visited1 = visited@;
        let ghost result1 = result@;
        if !visited[succ] {
            proof {
                lemma_count_unvisited_mono(visited0, visited@, v as int);
                if acyclic {
                    assert(succ_seq(dag, v as int).contains(succ)) by {
                        assert(successors@[j as int] == succ);
                    }
                    assert(dag.has_edge(v, succ)) by {
                        lemma_succ_is_edge(dag, v, j as int);
                    }
                    lemma_edge_index(dag, ord, v, succ);
                    assert forall|w: int|
                        0 <= w < dag.num_tasks() && #[trigger] in_progress(visited@, result@, w)
                            implies index_of(ord, w as usize) < index_of(ord, succ) by {
                        if w != v {
                            assert(in_progress(visited0, result0, w));
                        }
                    }
                }
            }
            assert(count_unvisited(visited@) < count_unvisited(visited0));
            dfs(succ, dag, visited, result, Ghost(ord), Ghost(acyclic), Ghost((fuel - 1) as nat));
            proof {
                assert(result@.take(result0.len() as int) =~= result1.take(result0.len() as int)) by {
                    assert forall|i: int| 0 <= i < result0.len() implies result@[i] == result1[i] by {
                        assert(result@.take(result1.len() as int)[i] == result1[i]);
                    }
                }
                assert(!result@.contains(v)) by {
                    assert(in_progress(visited@, result@, v as int) == in_progress(visited1, result1, v as int));
                }
                if acyclic {
                    assert forall|i: int| 0 <= i < j + 1 implies result@.contains(#[trigger] successors@[i]) by {
                        if i < j {
                            let k = choose|k: int| 0 <= k < result1.len() && result1[k] == successors@[i];
                            assert(result@.take(result1.len() as int)[k] == result1[k]);
                        }
                    }
                }
            }
        } else {
            proof {
                if acyclic {
                    assert(dag.has_edge(v, succ)) by {
                        lemma_succ_is_edge(dag, v, j as int);
                    }
                    lemma_edge_index(dag, ord, v, succ);
                    if !result@.contains(succ) {
                        assert(in_progress(visited@, result@, succ as int));
                        if succ != v {
                            assert(in_progress(visited0, result0, succ as int));
                        }
                    }
                }
            }
        }
        j = j + 1;
    }
    let ghost result2 = result@;
    result.push(v);
    proof {
        assert(dfs_succs(dag, (fuel - 1) as nat, v, j as int, visited@, result2) == (visited@, result2));
    }
    proof {
        assert(result@.take(result0.len() as int) =~= result2.take(result0.len() as int));
        assert(result@.drop_last() =~= result2);
        assert forall|i: int, k: int|
            0 <= i < result@.len() && 0 <= k < result@.len() && i != k implies result@[i] != result@[k] by {
            if i < result2.len() && k < result2.len() {
            } else if i < result2.len() {
                assert(result2[i] != v);
            } else {
                assert(result2[k] != v);
            }
        }
        assert(result@[result2.len() as int] == v);
        assert forall|w: int|
            0 <= w < dag.num_tasks() implies (#[trigger] in_progress(visited@, result@, w) <==> in_progress(
            visited0,
            result0,
            w,
        )) by {
            if w == v {
                assert(result@.contains(v));
            } else {
                assert(in_progress(visited@, result2, w) <==> in_progress(visited0, result0, w));
                if result2.contains(w as usize) {
                    let k = choose|k: int| 0 <= k < result2.len() && result2[k] == w as usize;
                    assert(result@[k] == w as usize);
                }
                if result@.contains(w as usize) {
                    let k = choose|k: int| 0 <= k < result@.len() && result@[k] == w as usize;
                    assert(result@[result2.len() as int] == v);
                    assert(k < result2.len());
                    assert(result2[k] == w as usize);
                }
            }
        }
        if acyclic {
            assert forall|k: int, i: int|
                0 <= k < result@.len() && 0 <= i < succ_seq(dag, result@[k] as int).len() implies result@.take(
                k,
            ).contains(#[trigger] succ_seq(dag, #[trigger] result@[k] as int)[i]) by {
                if k < result2.len() {
                    assert(result@.take(k) =~= result2.take(k));
                    assert(result2[k] == result@[k]);
                } else {
                    assert(result@.take(k) =~= result2);
                    assert(result2.contains(successors@[i]));
                }
            }
        }
    }
}

/// Element `j` of the successors of `u` depends on `u`.
proof fn lemma_succ_is_edge(dag: &DAG, u: usize, j: int)
    requires
        dag.wf(),
        u < dag.num_tasks(),
        0 <= j < succ_seq(dag, u as int).len(),
    ensures
        dag.has_edge(u, succ_seq(dag, u as int)[j]),
{
    let v = succ_seq(dag, u as int)[j];
    lemma_consumers_of_member(dag, dag.outputs(u as int), j);
    let (k, i) = choose|k: int, i: int|
        0 <= k < dag.outputs(u as int).len() && 0 <= i < dag.consumers(dag.outputs(u as int)[k] as int).len()
            && #[trigger] dag.consumers(dag.outputs(u as int)[k] as int)[i] == v;
    let d = dag.outputs(u as int)[k];
    assert(d < dag.num_items());
    assert(v < dag.num_tasks());
    assert(dag.consumers(d as int).contains(v));
    lemma_contains_count(dag.consumers(d as int), v);
    assert(count_of(dag.inputs(v as int), (d as int) as usize) == count_of(dag.consumers(d as int), (v as int) as usize));
    lemma_count_present(dag.inputs(v as int), d);
    let m = choose|m: int| 0 <= m < dag.inputs(v as int).len() && dag.inputs(v as int)[m] == d;
    assert(dag.outputs(u as int).contains((d as int) as usize) <==> dag.producer(d as int) == Some(
        (u as int) as usize,
    ));
    assert(dag.producer(dag.inputs(v as int)[m] as int) == Some(u));
}

/// `v` in reverse order.
pub fn reversed(v: &Vec<usize>) -> (r: Vec<usize>)
    ensures
        r@ == v@.reverse(),
{
    let mut r: Vec<usize> = Vec::new();
    let mut i: usize = v.len();
    while i > 0
        invariant
            i <= v@.len(),
            r@.len() == v@.len() - i,
            forall|k: int| 0 <= k < r@.len() ==> #[trigger] r@[k] == v@[v@.len() - 1 - k],
        decreases i,
    {
        i = i - 1;
        r.push(v[i]);
    }
    assert(r@ =~= v@.reverse());
    r
}

/// Depth-first topological sort: every task once, each after all tasks it
/// depends on whenever the dependencies hold no cycle.
pub fn topsort(dag: &DAG) -> (order: Vec<usize>)
    ensures
        dag.is_task_permutation(order@),
        dag.is_acyclic() ==> dag.is_topological_order(order@),
        order@ == dfs_order(dag),
{
    proof {
        use_type_invariant(dag);
    }
    let n = dag.get_tasks().len();
    let mut visited: Vec<bool> = vec![false; n];
    let mut result: Vec<usize> = Vec::new();
    let ghost acyclic = dag.is_acyclic();
    let ghost ord = if acyclic {
        choose|o: Seq<usize>| dag.is_topological_order(o)
    } else {
        Seq::empty()
    };
    assert(visited@ =~= Seq::new(dag.num_tasks(), |i: int| false));
    for i in 0..n
        invariant
            dag.wf(),
            n == dag.num_tasks(),
            dfs_inv(dag, visited@, result@),
            forall|w: int| 0 <= w < i ==> #[trigger] visited@[w],
            forall|w: int| 0 <= w < n ==> !#[trigger] in_progress(visited@, result@, w),
            acyclic ==> dag.is_topological_order(ord),
            acyclic ==> finished_after_successors(dag, result@),
            dfs_all(dag, i as int, visited@, result@) == dfs_all(
                dag,
                0,
                Seq::new(dag.num_tasks(), |i: int| false),
                Seq::empty(),
            ),
    {
        if !visited[i] {
            let ghost before = visited@;
            proof {
                lemma_count_unvisited_le(visited@);
            }
            dfs(i, dag, &mut visited, &mut result, Ghost(ord), Ghost(acyclic), Ghost(n as nat));
            proof {
                let k = choose|k: int| 0 <= k < result@.len() && result@[k] == i;
                assert(visited@[result@[k] as int]);
                assert forall|w: int| 0 <= w < i + 1 implies #[trigger] visited@[w] by {
                    if w < i {
                        assert(before[w]);
                    }
                }
            }
        }
    }
    proof {
        dag.lemma_ids_fit();
        assert forall|w: int| 0 <= w < n implies result@.contains(#[trigger] ids(n as nat)[w]) by {
            assert(visited@[w]);
            assert(!in_progress(visited@, result@, w));
        }
        lemma_no_dup_len(ids(n as nat), result@);
        lemma_ids_bound(result@, n as nat);
    }
    let order = reversed(&result);
    proof {
        let r = result@;
        assert forall|i: int| 0 <= i < order@.len() implies #[trigger] order@[i] < n by {
            assert(order@[i] == r[r.len() - 1 - i]);
        }
        assert forall|i: int, j: int|
            0 <= i < order@.len() && 0 <= j < order@.len() && i != j implies order@[i] != order@[j] by {
            assert(order@[i] == r[r.len() - 1 - i]);
            assert(order@[j] == r[r.len() - 1 - j]);
        }
        if acyclic {
            assert forall|i: int, j: int|
                0 <= i < order@.len() && 0 <= j < order@.len() && #[trigger] dag.has_edge(
                    order@[i],
                    order@[j],
                ) implies i < j by {
                let k = r.len() - 1 - i;
                assert(order@[i] == r[k]);
                assert(order@[j] == r[r.len() - 1 - j]);
                lemma_edge_in_succ(dag, r[k], order@[j]);
                let p = choose|p: int|
                    0 <= p < succ_seq(dag, r[k] as int).len() && succ_seq(dag, r[k] as int)[p] == order@[j];
                assert(r.take(k).contains(succ_seq(dag, r[k] as int)[p]));
                let m = choose|m: int| 0 <= m < r.take(k).len() && r.take(k)[m] == order@[j];
                assert(r[m] == r[r.len() - 1 - j]);
            }
        }
    }
    order
}

/// `path` is a closed walk along dependencies: each task depends on the one
/// before it, and the last task is the first.
pub open spec fn is_cycle(dag: &DAG, path: Seq<usize>) -> bool {
    &&& path.len() >= 2
    &&& path[0] == path.last()
    &&& forall|i: int| 0 <= i < path.len() ==> #[trigger] path[i] < dag.num_tasks()
    &&& forall|i: int| 0 <= i < path.len() - 1 ==> #[trigger] dag.has_edge(path[i], path[i + 1])
}

proof fn lemma_walk_increases(dag: &DAG, ord: Seq<usize>, path: Seq<usize>, k: int)
    requires
        dag.is_topological_order(ord),
        1 <= k < path.len(),
        forall|i: int| 0 <= i < path.len() ==> #[trigger] path[i] < dag.num_tasks(),
        forall|i: int| 0 <= i < path.len() - 1 ==> #[trigger] dag.has_edge(path[i], path[i + 1]),
    ensures
        index_of(ord, path[0]) < index_of(ord, path[k]),
    decreases k,
{
    let i = k - 1;
    assert(dag.has_edge(path[i], path[i + 1]));
    assert(path[i + 1] == path[k]);
    lemma_edge_index(dag, ord, path[k - 1], path[k]);
    if k > 1 {
        lemma_walk_increases(dag, ord, path, k - 1);
    }
}

/// A DAG whose dependencies close a cycle has no topological order: this is
/// the case that makes Kahn's algorithm stop short.
pub proof fn lemma_cycle_not_acyclic(dag: &DAG, path: Seq<usize>)
    requires
        is_cycle(dag, path),
    ensures
        !dag.is_acyclic(),
{
    if dag.is_acyclic() {
        let ord = choose|o: Seq<usize>| dag.is_topological_order(o);
        lemma_walk_increases(dag, ord, path, path.len() - 1);
    }
}

} // verus!
