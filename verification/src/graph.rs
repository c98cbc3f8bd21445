//! The dependencies between tasks: the predecessors and successors of a
//! task, how the two agree, and counting facts about sequences of task ids.
use crate::dag::{
    count_of, lemma_contains_count, lemma_count_concat, lemma_count_present, lemma_count_push, DAG,
};
use vstd::prelude::*;

verus! {


/// The producers of `items`, one per item, in order.
pub open spec fn producers_of(dag: &DAG, items: Seq<usize>) -> Seq<usize>
    decreases items.len(),
{
    if items.len() == 0 {
        Seq::empty()
    } else {
        producers_of(dag, items.drop_last()).push(dag.producer(items.last() as int).unwrap())
    }
}

/// The consumers of `items`, item after item.
pub open spec fn consumers_of(dag: &DAG, items: Seq<usize>) -> Seq<usize>
    decreases items.len(),
{
    if items.len() == 0 {
        Seq::empty()
    } else {
        consumers_of(dag, items.drop_last()) + dag.consumers(items.last() as int)
    }
}

/// The predecessors of task `v`: the producer of each of its inputs.
pub open spec fn pred_seq(dag: &DAG, v: int) -> Seq<usize> {
    producers_of(dag, dag.inputs(v))
}

/// The successors of task `u`: every consumer of each of its outputs.
pub open spec fn succ_seq(dag: &DAG, u: int) -> Seq<usize> {
    consumers_of(dag, dag.outputs(u))
}

/// Every input of task `v` has a producer.
pub open spec fn inputs_produced(dag: &DAG, v: int) -> bool {
    forall|k: int|
        0 <= k < dag.inputs(v).len() ==> (#[trigger] dag.producer(dag.inputs(v)[k] as int)).is_some()
}

pub proof fn lemma_producers_of_index(dag: &DAG, items: Seq<usize>)
    ensures
        producers_of(dag, items).len() == items.len(),
        forall|k: int|
            0 <= k < items.len() ==> #[trigger] producers_of(dag, items)[k] == dag.producer(
                items[k] as int,
            ).unwrap(),
    decreases items.len(),
{
    if items.len() > 0 {
        lemma_producers_of_index(dag, items.drop_last());
    }
}

/// Task `v` depends on task `u` exactly when `u` is among its predecessors.
pub proof fn lemma_has_edge_pred(dag: &DAG, u: usize, v: usize)
    requires
        inputs_produced(dag, v as int),
    ensures
        dag.has_edge(u, v) <==> pred_seq(dag, v as int).contains(u),
{
    lemma_producers_of_index(dag, dag.inputs(v as int));
    if dag.has_edge(u, v) {
        let k = choose|k: int|
            0 <= k < dag.inputs(v as int).len() && #[trigger] dag.producer(
                dag.inputs(v as int)[k] as int,
            ) == Some(u);
        assert(pred_seq(dag, v as int)[k] == u);
    }
    if pred_seq(dag, v as int).contains(u) {
        let k = choose|k: int| 0 <= k < pred_seq(dag, v as int).len() && pred_seq(dag, v as int)[k] == u;
        assert(dag.producer(dag.inputs(v as int)[k] as int).is_some());
    }
}

/// The consumers of one of `items` are among `consumers_of(items)`.
pub proof fn lemma_consumers_of_contains(dag: &DAG, items: Seq<usize>, k: int, j: int)
    requires
        0 <= k < items.len(),
        0 <= j < dag.consumers(items[k] as int).len(),
    ensures
        consumers_of(dag, items).contains(dag.consumers(items[k] as int)[j]),
    decreases items.len(),
{
    let c = dag.consumers(items[k] as int)[j];
    let pre = consumers_of(dag, items.drop_last());
    if k == items.len() - 1 {
        assert(consumers_of(dag, items)[pre.len() + j] == c);
    } else {
        lemma_consumers_of_contains(dag, items.drop_last(), k, j);
        let i = choose|i: int| 0 <= i < pre.len() && pre[i] == c;
        assert(consumers_of(dag, items)[i] == c);
    }
}

/// Every element of `consumers_of(items)` is a consumer of one of `items`.
pub proof fn lemma_consumers_of_member(dag: &DAG, items: Seq<usize>, i: int)
    requires
        0 <= i < consumers_of(dag, items).len(),
    ensures
        exists|k: int, j: int|
            0 <= k < items.len() && 0 <= j < dag.consumers(items[k] as int).len() && #[trigger] dag.consumers(
                items[k] as int,
            )[j] == consumers_of(dag, items)[i],
    decreases items.len(),
{
    let pre = consumers_of(dag, items.drop_last());
    if i < pre.len() {
        lemma_consumers_of_member(dag, items.drop_last(), i);
        let (k, j) = choose|k: int, j: int|
            0 <= k < items.drop_last().len() && 0 <= j < dag.consumers(
                items.drop_last()[k] as int,
            ).len() && #[trigger] dag.consumers(items.drop_last()[k] as int)[j] == pre[i];
        assert(items[k] == items.drop_last()[k]);
    } else {
        let k = items.len() - 1;
        let j = i - pre.len();
        assert(dag.consumers(items[k] as int)[j] == consumers_of(dag, items)[i]);
    }
}

/// The successors of a task are tasks.
pub proof fn lemma_succ_in_range(dag: &DAG, u: int)
    requires
        dag.wf(),
        0 <= u < dag.num_tasks(),
    ensures
        forall|i: int| 0 <= i < succ_seq(dag, u).len() ==> #[trigger] succ_seq(dag, u)[i] < dag.num_tasks(),
{
    assert forall|i: int| 0 <= i < succ_seq(dag, u).len() implies #[trigger] succ_seq(dag, u)[i]
        < dag.num_tasks() by {
        lemma_consumers_of_member(dag, dag.outputs(u), i);
        let (k, j) = choose|k: int, j: int|
            0 <= k < dag.outputs(u).len() && 0 <= j < dag.consumers(dag.outputs(u)[k] as int).len()
                && #[trigger] dag.consumers(dag.outputs(u)[k] as int)[j] == succ_seq(dag, u)[i];
        assert(dag.outputs(u)[k] < dag.num_items());
    }
}

/// When `v` depends on `u`, `v` is among the successors of `u`.
pub proof fn lemma_edge_in_succ(dag: &DAG, u: usize, v: usize)
    requires
        dag.wf(),
        u < dag.num_tasks(),
        v < dag.num_tasks(),
        dag.has_edge(u, v),
    ensures
        succ_seq(dag, u as int).contains(v),
{
    let k = choose|k: int|
        0 <= k < dag.inputs(v as int).len() && #[trigger] dag.producer(dag.inputs(v as int)[k] as int)
            == Some(u);
    let d = dag.inputs(v as int)[k];
    assert(d < dag.num_items());
    assert(dag.producer(d as int) == Some(u));
    assert(dag.outputs(u as int).contains((d as int) as usize) <==> dag.producer(d as int) == Some(
        (u as int) as usize,
    ));
    assert(dag.outputs(u as int).contains(d));
    let ko = choose|ko: int| 0 <= ko < dag.outputs(u as int).len() && dag.outputs(u as int)[ko] == d;
    assert(dag.inputs(v as int).contains(d));
    lemma_contains_count(dag.inputs(v as int), d);
    assert(count_of(dag.inputs(v as int), d) == count_of(dag.consumers(d as int), v));
    lemma_count_present(dag.consumers(d as int), v);
    let j = choose|j: int| 0 <= j < dag.consumers(d as int).len() && dag.consumers(d as int)[j] == v;
    lemma_consumers_of_contains(dag, dag.outputs(u as int), ko, j);
}

/// How many elements of `s` are among `items`.
pub open spec fn count_in(s: Seq<usize>, items: Seq<usize>) -> nat
    decreases s.len(),
{
    if s.len() == 0 {
        0
    } else {
        count_in(s.drop_last(), items) + if items.contains(s.last()) {
            1nat
        } else {
            0nat
        }
    }
}

/// The occurrences in `s` of each of `items`, added up.
pub open spec fn sum_counts(s: Seq<usize>, items: Seq<usize>) -> nat
    decreases items.len(),
{
    if items.len() == 0 {
        0
    } else {
        sum_counts(s, items.drop_last()) + count_of(s, items.last())
    }
}

/// The occurrences of `v` among the consumers of each of `items`, added up.
pub open spec fn sum_consumer_counts(dag: &DAG, items: Seq<usize>, v: usize) -> nat
    decreases items.len(),
{
    if items.len() == 0 {
        0
    } else {
        sum_consumer_counts(dag, items.drop_last(), v) + count_of(dag.consumers(items.last() as int), v)
    }
}

proof fn lemma_consumers_of_count(dag: &DAG, items: Seq<usize>, v: usize)
    ensures
        count_of(consumers_of(dag, items), v) == sum_consumer_counts(dag, items, v),
    decreases items.len(),
{
    if items.len() > 0 {
        lemma_consumers_of_count(dag, items.drop_last(), v);
        lemma_count_concat(
            consumers_of(dag, items.drop_last()),
            dag.consumers(items.last() as int),
            v,
        );
    }
}

proof fn lemma_consumer_counts_are_input_counts(dag: &DAG, items: Seq<usize>, v: usize)
    requires
        dag.wf(),
        v < dag.num_tasks(),
        forall|k: int| 0 <= k < items.len() ==> #[trigger] items[k] < dag.num_items(),
    ensures
        sum_consumer_counts(dag, items, v) == sum_counts(dag.inputs(v as int), items),
    decreases items.len(),
{
    if items.len() > 0 {
        let d = items.last();
        assert(d < dag.num_items());
        assert(count_of(dag.inputs(v as int), (d as int) as usize) == count_of(
            dag.consumers(d as int),
            (v as int) as usize,
        ));
        lemma_consumer_counts_are_input_counts(dag, items.drop_last(), v);
    }
}

proof fn lemma_count_in_push(s: Seq<usize>, items: Seq<usize>, x: usize)
    requires
        !items.contains(x),
    ensures
        count_in(s, items.push(x)) == count_in(s, items) + count_of(s, x),
    decreases s.len(),
{
    if s.len() > 0 {
        lemma_count_in_push(s.drop_last(), items, x);
        let y = s.last();
        if items.push(x).contains(y) && y != x {
            let k = choose|k: int| 0 <= k < items.push(x).len() && items.push(x)[k] == y;
            assert(items[k] == y);
        }
        if items.contains(y) {
            let k = choose|k: int| 0 <= k < items.len() && items[k] == y;
            assert(items.push(x)[k] == y);
        }
        if y == x {
            assert(items.push(x)[items.len() as int] == y);
        }
    }
}

proof fn lemma_sum_counts_is_count_in(s: Seq<usize>, items: Seq<usize>)
    requires
        items.no_duplicates(),
    ensures
        sum_counts(s, items) == count_in(s, items),
    decreases items.len(),
{
    if items.len() == 0 {
        lemma_count_in_empty(s, items);
    } else {
        let pre = items.drop_last();
        assert(pre.no_duplicates());
        lemma_sum_counts_is_count_in(s, pre);
        assert(!pre.contains(items.last())) by {
            if pre.contains(items.last()) {
                let k = choose|k: int| 0 <= k < pre.len() && pre[k] == items.last();
                assert(items[k] == items[items.len() - 1]);
            }
        }
        assert(pre.push(items.last()) =~= items);
        lemma_count_in_push(s, pre, items.last());
    }
}

proof fn lemma_count_in_empty(s: Seq<usize>, items: Seq<usize>)
    requires
        items.len() == 0,
    ensures
        count_in(s, items) == 0,
    decreases s.len(),
{
    if s.len() > 0 {
        lemma_count_in_empty(s.drop_last(), items);
    }
}

proof fn lemma_producer_count(dag: &DAG, s: Seq<usize>, u: usize)
    requires
        dag.wf(),
        u < dag.num_tasks(),
        forall|k: int| 0 <= k < s.len() ==> #[trigger] s[k] < dag.num_items(),
        forall|k: int| 0 <= k < s.len() ==> (#[trigger] dag.producer(s[k] as int)).is_some(),
    ensures
        count_of(producers_of(dag, s), u) == count_in(s, dag.outputs(u as int)),
    decreases s.len(),
{
    if s.len() > 0 {
        let d = s.last();
        assert(d < dag.num_items());
        assert(dag.producer(s[s.len() - 1] as int).is_some());
        assert(dag.outputs(u as int).contains((d as int) as usize) <==> dag.producer(d as int) == Some(
            (u as int) as usize,
        ));
        lemma_producer_count(dag, s.drop_last(), u);
        lemma_count_push(producers_of(dag, s.drop_last()), dag.producer(d as int).unwrap(), u);
    }
}

/// Each dependency is recorded alike on both of its ends: `v` occurs among
/// the successors of `u` as often as `u` occurs among the predecessors of
/// `v`.
pub proof fn lemma_succ_pred_count(dag: &DAG, u: usize, v: usize)
    requires
        dag.wf(),
        u < dag.num_tasks(),
        v < dag.num_tasks(),
        inputs_produced(dag, v as int),
    ensures
        count_of(succ_seq(dag, u as int), v) == count_of(pred_seq(dag, v as int), u),
{
    let outs = dag.outputs(u as int);
    let ins = dag.inputs(v as int);
    lemma_consumers_of_count(dag, outs, v);
    assert forall|k: int| 0 <= k < outs.len() implies #[trigger] outs[k] < dag.num_items() by {}
    lemma_consumer_counts_are_input_counts(dag, outs, v);
    assert(outs.no_duplicates());
    lemma_sum_counts_is_count_in(ins, outs);
    assert forall|k: int| 0 <= k < ins.len() implies #[trigger] ins[k] < dag.num_items() by {}
    assert forall|k: int| 0 <= k < ins.len() implies (#[trigger] dag.producer(ins[k] as int)).is_some() by {
        assert(dag.producer(dag.inputs(v as int)[k] as int).is_some());
    }
    lemma_producer_count(dag, ins, u);
}

/// A sequence without duplicates whose elements all occur in `b` is no
/// longer than `b`.
pub proof fn lemma_no_dup_len(a: Seq<usize>, b: Seq<usize>)
    requires
        a.no_duplicates(),
        forall|i: int| 0 <= i < a.len() ==> b.contains(#[trigger] a[i]),
    ensures
        a.len() <= b.len(),
{
    a.unique_seq_to_set();
    b.lemma_cardinality_of_set();
    assert(a.to_set().subset_of(b.to_set())) by {
        assert forall|x: usize| a.to_set().contains(x) implies b.to_set().contains(x) by {
            let i = choose|i: int| 0 <= i < a.len() && a[i] == x;
            assert(b.contains(a[i]));
        }
    }
    vstd::set_lib::lemma_len_subset(a.to_set(), b.to_set());
}

/// The ids `0..n`.
pub open spec fn ids(n: nat) -> Seq<usize> {
    Seq::new(n, |i: int| i as usize)
}

/// A sequence without duplicates of values below `n` has at most `n`
/// elements.
pub proof fn lemma_ids_bound(a: Seq<usize>, n: nat)
    requires
        a.no_duplicates(),
        forall|i: int| 0 <= i < a.len() ==> #[trigger] a[i] < n,
    ensures
        a.len() <= n,
{
    assert forall|i: int| 0 <= i < a.len() implies ids(n).contains(#[trigger] a[i]) by {
        assert(ids(n)[a[i] as int] == a[i]);
    }
    lemma_no_dup_len(a, ids(n));
}

/// `n` distinct values below `n` are all the values below `n`.
pub proof fn lemma_permutation_contains_all(a: Seq<usize>, n: nat, v: usize)
    requires
        a.no_duplicates(),
        a.len() == n,
        forall|i: int| 0 <= i < a.len() ==> #[trigger] a[i] < n,
        v < n,
    ensures
        a.contains(v),
{
    if !a.contains(v) {
        let others = Seq::new((n - 1) as nat, |i: int| if i < v { i as usize } else { (i + 1) as usize });
        assert forall|i: int| 0 <= i < a.len() implies others.contains(#[trigger] a[i]) by {
            if a[i] < v {
                assert(others[a[i] as int] == a[i]);
            } else {
                assert(a[i] != v);
                assert(others[a[i] - 1] == a[i]);
            }
        }
        lemma_no_dup_len(a, others);
    }
}

/// The predecessors of task `v`: the producer of each data item it reads.
pub fn task_predecessors(v: usize, dag: &DAG) -> (result: Vec<usize>)
    requires
        v < dag.num_tasks(),
        inputs_produced(dag, v as int),
    ensures
        result@ == pred_seq(dag, v as int),
{
    proof {
        use_type_invariant(dag);
    }
    let mut result: Vec<usize> = Vec::new();
    let inputs = &dag.get_task(v).inputs;
    let mut i: usize = 0;
    while i < inputs.len()
        invariant
            dag.wf(),
            v < dag.num_tasks(),
            inputs_produced(dag, v as int),
            inputs@ == dag.inputs(v as int),
            i <= inputs@.len(),
            result@ == producers_of(dag, inputs@.take(i as int)),
        decreases inputs@.len() - i,
    {
        let data_item_id = inputs[i];
        assert(data_item_id < dag.num_items());
        let data_item = dag.get_data_item(data_item_id);
        assert(dag.producer(inputs@[i as int] as int).is_some());
        let producer = match data_item.producer {
            Some(p) => p,
            None => 0,
        };
        result.push(producer);
        assert(inputs@.take(i as int + 1).drop_last() =~= inputs@.take(i as int));
        i = i + 1;
    }
    assert(inputs@.take(i as int) =~= inputs@);
    result
}

/// The successors of task `v`: every consumer of each data item it writes.
pub fn task_successors(v: usize, dag: &DAG) -> (result: Vec<usize>)
    requires
        v < dag.num_tasks(),
    ensures
        result@ == succ_seq(dag, v as int),
{
    proof {
        use_type_invariant(dag);
    }
    let mut result: Vec<usize> = Vec::new();
    let outputs = &dag.get_task(v).outputs;
    let mut i: usize = 0;
    while i < outputs.len()
        invariant
            dag.wf(),
            v < dag.num_tasks(),
            outputs@ == dag.outputs(v as int),
            i <= outputs@.len(),
            result@ == consumers_of(dag, outputs@.take(i as int)),
        decreases outputs@.len() - i,
    {
        let data_item_id = outputs[i];
        assert(data_item_id < dag.num_items());
        let consumers = &dag.get_data_item(data_item_id).consumers;
        let ghost before = result@;
        let mut j: usize = 0;
        while j < consumers.len()
            invariant
                consumers@ == dag.consumers(data_item_id as int),
                j <= consumers@.len(),
                result@ == before + consumers@.take(j as int),
            decreases consumers@.len() - j,
        {
            result.push(consumers[j]);
            assert(result@ =~= before + consumers@.take(j as int + 1));
            j = j + 1;
        }
        assert(consumers@.take(j as int) =~= consumers@);
        assert(outputs@.take(i as int + 1).drop_last() =~= outputs@.take(i as int));
        i = i + 1;
    }
    assert(outputs@.take(i as int) =~= outputs@);
    result
}

} // verus!
