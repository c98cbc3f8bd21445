//! The workflow model the scheduler reads: tasks joined by data items.
//!
//! A data item is produced by at most one task (its producer) and read by
//! any number of tasks (its consumers). Task `v` depends on task `u` when one
//! of the inputs of `v` is an output of `u`.
use crate::strategy::str_eq;
use vstd::prelude::*;

verus! {

/// The life cycle of a task.
#[derive(Clone, Copy, Debug, PartialEq, Eq, Structural)]
pub enum TaskState {
    Pending,
    Ready,
    Scheduled,
    Runnable,
    Running,
    Done,
}

/// A task of the workflow.
pub struct Task {
    pub name: String,
    /// Memory the task needs while it runs.
    pub memory: u64,
    /// The fewest cores the task can run on.
    pub min_cores: u32,
    /// The most cores the task can use.
    pub max_cores: u32,
    /// The data items the task reads.
    pub inputs: Vec<usize>,
    /// The data items the task writes.
    pub outputs: Vec<usize>,
    pub state: TaskState,
    /// The resources the task may run on; `None` when it may run on any.
    pub allowed_resources: Option<Vec<usize>>,
}

/// A piece of data passed between tasks.
pub struct DataItem {
    pub name: String,
    /// The task that writes the item; `None` for an input of the workflow.
    pub producer: Option<usize>,
    /// The tasks that read the item, once per read.
    pub consumers: Vec<usize>,
}

impl Task {
    /// Whether the task may run on `resource`.
    pub open spec fn allowed_on(&self, resource: usize) -> bool {
        match self.allowed_resources {
            None => true,
            Some(v) => v@.contains(resource),
        }
    }

    /// Whether the task may run on `resource`.
    pub fn is_allowed_on(&self, resource: usize) -> (b: bool)
        ensures
            b == self.allowed_on(resource),
    {
        match &self.allowed_resources {
            None => true,
            Some(v) => {
                let mut i: usize = 0;
                while i < v.len()
                    invariant
                        self.allowed_resources == Some(*v),
                        i <= v@.len(),
                        forall|j: int| 0 <= j < i ==> v@[j] != resource,
                    decreases v@.len() - i,
                {
                    if v[i] == resource {
                        assert(v@[i as int] == resource);
                        return true;
                    }
                    i = i + 1;
                }
                false
            },
        }
    }
}

/// How many times `x` occurs in `s`.
pub open spec fn count_of(s: Seq<usize>, x: usize) -> nat
    decreases s.len(),
{
    if s.len() == 0 {
        0
    } else {
        count_of(s.drop_last(), x) + if s.last() == x {
            1nat
        } else {
            0nat
        }
    }
}

/// Appending `x` adds one occurrence of `x` and none of anything else.
pub proof fn lemma_count_push(s: Seq<usize>, x: usize, y: usize)
    ensures
        count_of(s.push(x), y) == count_of(s, y) + if x == y {
            1nat
        } else {
            0nat
        },
{
    assert(s.push(x).drop_last() =~= s);
}

/// Counts add up over a concatenation.
pub proof fn lemma_count_concat(a: Seq<usize>, b: Seq<usize>, x: usize)
    ensures
        count_of(a + b, x) == count_of(a, x) + count_of(b, x),
    decreases b.len(),
{
    if b.len() == 0 {
        assert(a + b =~= a);
    } else {
        assert((a + b).drop_last() =~= a + b.drop_last());
        lemma_count_concat(a, b.drop_last(), x);
    }
}

/// A value that does not occur has count zero.
pub proof fn lemma_count_absent(s: Seq<usize>, x: usize)
    requires
        !s.contains(x),
    ensures
        count_of(s, x) == 0,
    decreases s.len(),
{
    if s.len() > 0 {
        assert forall|i: int| 0 <= i < s.drop_last().len() implies s.drop_last()[i] != x by {
            assert(s[i] == s.drop_last()[i]);
        }
        lemma_count_absent(s.drop_last(), x);
    }
}

/// A value with a positive count occurs.
pub proof fn lemma_count_present(s: Seq<usize>, x: usize)
    requires
        count_of(s, x) > 0,
    ensures
        s.contains(x),
{
    if !s.contains(x) {
        lemma_count_absent(s, x);
    }
}

/// A value that occurs has a positive count.
pub proof fn lemma_contains_count(s: Seq<usize>, x: usize)
    requires
        s.contains(x),
    ensures
        count_of(s, x) > 0,
    decreases s.len(),
{
    if s.last() != x {
        let i = choose|i: int| 0 <= i < s.len() && s[i] == x;
        assert(s.drop_last()[i] == x);
        lemma_contains_count(s.drop_last(), x);
    }
}

/// A DAG that keeps the links of a well-formed DAG, and adds to it only
/// tasks and data items with no links, is well formed.
pub proof fn lemma_wf_extend(a: DAG, b: DAG)
    requires
        a.wf(),
        a.num_tasks() <= b.num_tasks(),
        a.num_items() <= b.num_items(),
        b.num_tasks() <= usize::MAX,
        b.num_items() <= usize::MAX,
        forall|t: int|
            0 <= t < a.num_tasks() ==> a.inputs(t) == b.inputs(t) && a.outputs(t) == b.outputs(t),
        forall|d: int|
            0 <= d < a.num_items() ==> a.producer(d) == b.producer(d) && a.consumers(d) == b.consumers(d),
        forall|t: int|
            a.num_tasks() <= t < b.num_tasks() ==> b.inputs(t).len() == 0 && b.outputs(t).len() == 0,
        forall|d: int|
            a.num_items() <= d < b.num_items() ==> b.producer(d) is None && b.consumers(d).len() == 0,
    ensures
        b.wf(),
{
    assert forall|t: int, d: int|
        0 <= t < b.num_tasks() && 0 <= d < b.num_items() implies count_of(
        #[trigger] b.inputs(t),
        d as usize,
    ) == count_of(#[trigger] b.consumers(d), t as usize) by {
        if t < a.num_tasks() && d < a.num_items() {
            assert(count_of(a.inputs(t), d as usize) == count_of(a.consumers(d), t as usize));
        } else {
            if t < a.num_tasks() {
                assert(a.inputs(t) == b.inputs(t));
                assert forall|k: int| 0 <= k < b.inputs(t).len() implies b.inputs(t)[k] != d as usize by {
                    assert(a.inputs(t)[k] < a.num_items());
                }
                lemma_count_absent(b.inputs(t), d as usize);
            } else {
                lemma_count_absent(b.inputs(t), d as usize);
            }
            if d < a.num_items() {
                assert(a.consumers(d) == b.consumers(d));
                assert forall|k: int| 0 <= k < b.consumers(d).len() implies b.consumers(d)[k] != t as usize by {
                    assert(a.consumers(d)[k] < a.num_tasks());
                }
                lemma_count_absent(b.consumers(d), t as usize);
            } else {
                lemma_count_absent(b.consumers(d), t as usize);
            }
        }
    }
    assert forall|t: int, d: int|
        0 <= t < b.num_tasks() && 0 <= d < b.num_items() implies (#[trigger] b.outputs(t).contains(
        d as usize,
    ) <==> #[trigger] b.producer(d) == Some(t as usize)) by {
        if t < a.num_tasks() && d < a.num_items() {
            assert(a.outputs(t).contains(d as usize) <==> a.producer(d) == Some(t as usize));
        } else {
            if t < a.num_tasks() && b.outputs(t).contains(d as usize) {
                let k = choose|k: int| 0 <= k < b.outputs(t).len() && b.outputs(t)[k] == d as usize;
                assert(a.outputs(t)[k] < a.num_items());
            }
            if d < a.num_items() && a.producer(d) is Some {
                assert(a.producer(d).unwrap() < a.num_tasks());
            }
        }
    }
    assert forall|t: int| 0 <= t < b.num_tasks() implies (#[trigger] b.outputs(t)).no_duplicates() by {
        if t < a.num_tasks() {
            assert(a.outputs(t).no_duplicates());
        }
    }
    assert forall|t: int, k: int|
        0 <= t < b.num_tasks() && 0 <= k < b.inputs(t).len() implies #[trigger] b.inputs(t)[k]
        < b.num_items() by {
        assert(a.inputs(t)[k] < a.num_items());
    }
    assert forall|t: int, k: int|
        0 <= t < b.num_tasks() && 0 <= k < b.outputs(t).len() implies #[trigger] b.outputs(t)[k]
        < b.num_items() by {
        assert(a.outputs(t)[k] < a.num_items());
    }
    assert forall|d: int|
        0 <= d < b.num_items() && (#[trigger] b.producer(d)).is_some() implies b.producer(d).unwrap()
        < b.num_tasks() by {
        assert(a.producer(d).unwrap() < a.num_tasks());
    }
    assert forall|d: int, k: int|
        0 <= d < b.num_items() && 0 <= k < b.consumers(d).len() implies #[trigger] b.consumers(d)[k]
        < b.num_tasks() by {
        assert(a.consumers(d)[k] < a.num_tasks());
    }
}

/// A directed acyclic graph of tasks and data items.
pub struct DAG {
    tasks: Vec<Task>,
    data_items: Vec<DataItem>,
}

impl DAG {
    /// The tasks, by id.
    pub closed spec fn task_seq(&self) -> Seq<Task> {
        self.tasks@
    }

    /// The data items, by id.
    pub closed spec fn item_seq(&self) -> Seq<DataItem> {
        self.data_items@
    }

    pub open spec fn num_tasks(&self) -> nat {
        self.task_seq().len()
    }

    pub open spec fn num_items(&self) -> nat {
        self.item_seq().len()
    }

    /// Task and data item ids fit in a `usize`.
    pub proof fn lemma_ids_fit(&self)
        ensures
            self.num_tasks() <= usize::MAX,
            self.num_items() <= usize::MAX,
    {
        assert(self.tasks.len() == self.tasks@.len());
        assert(self.data_items.len() == self.data_items@.len());
    }

    pub open spec fn inputs(&self, t: int) -> Seq<usize> {
        self.task_seq()[t].inputs@
    }

    pub open spec fn outputs(&self, t: int) -> Seq<usize> {
        self.task_seq()[t].outputs@
    }

    pub open spec fn producer(&self, d: int) -> Option<usize> {
        self.item_seq()[d].producer
    }

    pub open spec fn consumers(&self, d: int) -> Seq<usize> {
        self.item_seq()[d].consumers@
    }

    /// Every id that the tasks and data items hold is in range.
    pub open spec fn ids_in_range(&self) -> bool {
        &&& forall|t: int, k: int|
            0 <= t < self.num_tasks() && 0 <= k < self.inputs(t).len() ==> #[trigger] self.inputs(
                t,
            )[k] < self.num_items()
        &&& forall|t: int, k: int|
            0 <= t < self.num_tasks() && 0 <= k < self.outputs(t).len() ==> #[trigger] self.outputs(
                t,
            )[k] < self.num_items()
        &&& forall|d: int|
            0 <= d < self.num_items() && (#[trigger] self.producer(d)).is_some()
                ==> self.producer(d).unwrap() < self.num_tasks()
        &&& forall|d: int, k: int|
            0 <= d < self.num_items() && 0 <= k < self.consumers(d).len() ==> #[trigger] self.consumers(
                d,
            )[k] < self.num_tasks()
    }

    /// The outputs of a task are exactly the data items it produces, each
    /// listed once.
    pub open spec fn outputs_match_producers(&self) -> bool {
        &&& forall|t: int| 0 <= t < self.num_tasks() ==> (#[trigger] self.outputs(t)).no_duplicates()
        &&& forall|t: int, d: int|
            0 <= t < self.num_tasks() && 0 <= d < self.num_items() ==> (#[trigger] self.outputs(
                t,
            ).contains(d as usize) <==> #[trigger] self.producer(d) == Some(t as usize))
    }

    /// A task lists a data item among its inputs as many times as the item
    /// lists the task among its consumers.
    pub open spec fn inputs_match_consumers(&self) -> bool {
        forall|t: int, d: int|
            0 <= t < self.num_tasks() && 0 <= d < self.num_items() ==> count_of(
                #[trigger] self.inputs(t),
                d as usize,
            ) == count_of(#[trigger] self.consumers(d), t as usize)
    }

    /// The invariant that every DAG keeps: ids in range, and both sides of
    /// every producer and consumer link recorded alike.
    #[verifier::type_invariant]
    pub open spec fn wf(&self) -> bool {
        &&& self.ids_in_range()
        &&& self.outputs_match_producers()
        &&& self.inputs_match_consumers()
    }

    /// Every input of every task has a producer (the workflow reads no
    /// outside data).
    pub open spec fn all_inputs_produced(&self) -> bool {
        forall|t: int, k: int|
            0 <= t < self.num_tasks() && 0 <= k < self.inputs(t).len() ==> (#[trigger] self.producer(
                self.inputs(t)[k] as int,
            )).is_some()
    }

    /// Task `v` reads a data item that task `u` writes.
    pub open spec fn has_edge(&self, u: usize, v: usize) -> bool {
        exists|k: int|
            0 <= k < self.inputs(v as int).len() && #[trigger] self.producer(
                self.inputs(v as int)[k] as int,
            ) == Some(u)
    }

    /// `order` lists every task exactly once.
    pub open spec fn is_task_permutation(&self, order: Seq<usize>) -> bool {
        &&& order.len() == self.num_tasks()
        &&& forall|i: int| 0 <= i < order.len() ==> #[trigger] order[i] < self.num_tasks()
        &&& order.no_duplicates()
    }

    /// `order` lists every task once, and each task after every task it
    /// depends on.
    pub open spec fn is_topological_order(&self, order: Seq<usize>) -> bool {
        &&& self.is_task_permutation(order)
        &&& forall|i: int, j: int|
            0 <= i < order.len() && 0 <= j < order.len() && #[trigger] self.has_edge(
                order[i],
                order[j],
            ) ==> i < j
    }

    /// The tasks can be put in an order that respects every dependency.
    pub open spec fn is_acyclic(&self) -> bool {
        exists|order: Seq<usize>| self.is_topological_order(order)
    }

    /// An empty DAG.
    pub fn new() -> (dag: Self)
        ensures
            dag.num_tasks() == 0,
            dag.num_items() == 0,
    {
        DAG { tasks: Vec::new(), data_items: Vec::new() }
    }

    /// All tasks, by id.
    pub fn get_tasks(&self) -> (tasks: &Vec<Task>)
        ensures
            tasks@ == self.task_seq(),
    {
        &self.tasks
    }

    /// The task `task_id`.
    pub fn get_task(&self, task_id: usize) -> (task: &Task)
        requires
            task_id < self.num_tasks(),
        ensures
            *task == self.task_seq()[task_id as int],
    {
        &self.tasks[task_id]
    }

    /// All data items, by id.
    pub fn get_data_items(&self) -> (items: &Vec<DataItem>)
        ensures
            items@ == self.item_seq(),
    {
        &self.data_items
    }

    /// The data item `data_item_id`.
    pub fn get_data_item(&self, data_item_id: usize) -> (item: &DataItem)
        requires
            data_item_id < self.num_items(),
        ensures
            *item == self.item_seq()[data_item_id as int],
    {
        &self.data_items[data_item_id]
    }

    /// The first data item named `name`, if there is one.
    pub fn item_named(&self, name: &str) -> (res: Option<usize>)
        ensures
            res matches Some(d) ==> d < self.num_items() && self.item_seq()[d as int].name@ == name@
                && forall|j: int| 0 <= j < d ==> (#[trigger] self.item_seq()[j]).name@ != name@,
            res is None ==> forall|j: int|
                0 <= j < self.num_items() ==> (#[trigger] self.item_seq()[j]).name@ != name@,
    {
        let mut d: usize = 0;
        while d < self.data_items.len()
            invariant
                d <= self.num_items(),
                forall|j: int| 0 <= j < d ==> (#[trigger] self.item_seq()[j]).name@ != name@,
            decreases self.num_items() - d,
        {
            if str_eq(self.data_items[d].name.as_str(), name) {
                return Some(d);
            }
            d = d + 1;
        }
        None
    }

    /// Whether every input of every task has a producer.
    pub fn inputs_all_produced(&self) -> (b: bool)
        ensures
            b == self.all_inputs_produced(),
    {
        proof {
            use_type_invariant(&*self);
        }
        let mut t: usize = 0;
        while t < self.tasks.len()
            invariant
                t <= self.num_tasks(),
                self.wf(),
                forall|u: int, k: int|
                    0 <= u < t && 0 <= k < self.inputs(u).len() ==> (#[trigger] self.producer(
                        self.inputs(u)[k] as int,
                    )).is_some(),
            decreases self.num_tasks() - t,
        {
            let inputs = &self.tasks[t].inputs;
            let mut k: usize = 0;
            while k < inputs.len()
                invariant
                    t < self.num_tasks(),
                    self.wf(),
                    inputs@ == self.inputs(t as int),
                    k <= inputs@.len(),
                    forall|u: int, j: int|
                        0 <= u < t && 0 <= j < self.inputs(u).len() ==> (#[trigger] self.producer(
                            self.inputs(u)[j] as int,
                        )).is_some(),
                    forall|j: int|
                        0 <= j < k ==> (#[trigger] self.producer(self.inputs(t as int)[j] as int)).is_some(),
                decreases inputs@.len() - k,
            {
                let d = inputs[k];
                assert(d < self.num_items());
                if self.data_items[d].producer.is_none() {
                    assert(self.producer(self.inputs(t as int)[k as int] as int).is_none());
                    return false;
                }
                k = k + 1;
            }
            assert forall|u: int, j: int|
                0 <= u < t + 1 && 0 <= j < self.inputs(u).len() implies (#[trigger] self.producer(
                    self.inputs(u)[j] as int,
                )).is_some() by {
                if u == t {
                    assert(self.producer(self.inputs(t as int)[j] as int).is_some());
                }
            }
            t = t + 1;
        }
        true
    }

    /// Adds a task with no inputs and no outputs, ready to run, and returns
    /// its id.
    pub fn add_task(&mut self, name: &str, memory: u64, min_cores: u32, max_cores: u32) -> (id: usize)
        ensures
            id == old(self).num_tasks(),
            final(self).item_seq() == old(self).item_seq(),
            final(self).task_seq() == old(self).task_seq().push(final(self).task_seq()[id as int]),
            final(self).task_seq()[id as int].name@ == name@,
            final(self).task_seq()[id as int].memory == memory,
            final(self).task_seq()[id as int].min_cores == min_cores,
            final(self).task_seq()[id as int].max_cores == max_cores,
            final(self).task_seq()[id as int].inputs@ == Seq::<usize>::empty(),
            final(self).task_seq()[id as int].outputs@ == Seq::<usize>::empty(),
            final(self).task_seq()[id as int].state == TaskState::Ready,
            final(self).task_seq()[id as int].allowed_resources.is_none(),
    {
        proof {
            use_type_invariant(&*self);
        }
        let ghost before = *self;
        // The parts are taken out, changed, and put back together.
        let mut parts = DAG::new();
        std::mem::swap(self, &mut parts);
        let DAG { mut tasks, data_items } = parts;
        let id = tasks.len();
        let task = Task {
            name: name.to_owned(),
            memory,
            min_cores,
            max_cores,
            inputs: Vec::new(),
            outputs: Vec::new(),
            state: TaskState::Ready,
            allowed_resources: None,
        };
        tasks.push(task);
        let ghost after = DAG { tasks: tasks, data_items: data_items };
        proof {
            assert forall|t: int| 0 <= t < before.num_tasks() implies before.inputs(t) == after.inputs(t)
                && before.outputs(t) == after.outputs(t) by {
                assert(after.task_seq()[t] == before.task_seq()[t]);
            }
            assert(tasks.len() == after.num_tasks() && data_items.len() == after.num_items());
            lemma_wf_extend(before, after);
        }
        *self = DAG { tasks, data_items };
        id
    }

    /// Adds a data item that no task produces (an input of the workflow) and
    /// returns its id.
    pub fn add_data_item(&mut self, name: &str) -> (id: usize)
        ensures
            id == old(self).num_items(),
            final(self).task_seq() == old(self).task_seq(),
            final(self).item_seq() == old(self).item_seq().push(final(self).item_seq()[id as int]),
            final(self).item_seq()[id as int].name@ == name@,
            final(self).producer(id as int).is_none(),
            final(self).consumers(id as int) == Seq::<usize>::empty(),
    {
        proof {
            use_type_invariant(&*self);
        }
        let ghost before = *self;
        // The parts are taken out, changed, and put back together.
        let mut parts = DAG::new();
        std::mem::swap(self, &mut parts);
        let DAG { tasks, mut data_items } = parts;
        let id = data_items.len();
        let item = DataItem { name: name.to_owned(), producer: None, consumers: Vec::new() };
        data_items.push(item);
        let ghost after = DAG { tasks: tasks, data_items: data_items };
        proof {
            assert forall|d: int| 0 <= d < before.num_items() implies before.producer(d) == after.producer(d)
                && before.consumers(d) == after.consumers(d) by {
                assert(after.item_seq()[d] == before.item_seq()[d]);
            }
            assert(tasks.len() == after.num_tasks() && data_items.len() == after.num_items());
            lemma_wf_extend(before, after);
        }
        *self = DAG { tasks, data_items };
        id
    }

    /// Adds a data item written by the task `producer` and returns its id.
    pub fn add_task_output(&mut self, producer: usize, name: &str) -> (id: usize)
        requires
            producer < old(self).num_tasks(),
        ensures
            id == old(self).num_items(),
            final(self).num_tasks() == old(self).num_tasks(),
            forall|t: int|
                0 <= t < old(self).num_tasks() && t != producer ==> #[trigger] final(self).task_seq()[t]
                    == old(self).task_seq()[t],
            final(self).task_seq()[producer as int].outputs@ == old(self).outputs(
                producer as int,
            ).push(id),
            final(self).inputs(producer as int) == old(self).inputs(producer as int),
            final(self).task_seq()[producer as int].state == old(self).task_seq()[producer as int].state,
            final(self).task_seq()[producer as int].name == old(self).task_seq()[producer as int].name,
            final(self).task_seq()[producer as int].memory == old(self).task_seq()[producer as int].memory,
            final(self).task_seq()[producer as int].min_cores == old(self).task_seq()[producer as int].min_cores,
            final(self).task_seq()[producer as int].max_cores == old(self).task_seq()[producer as int].max_cores,
            final(self).task_seq()[producer as int].allowed_resources == old(self).task_seq()[producer as int].allowed_resources,
            final(self).item_seq() == old(self).item_seq().push(final(self).item_seq()[id as int]),
            final(self).item_seq()[id as int].name@ == name@,
            final(self).producer(id as int) == Some(producer),
            final(self).consumers(id as int) == Seq::<usize>::empty(),
    {
        proof {
            use_type_invariant(&*self);
        }
        let ghost before = *self;
        // The parts are taken out, changed, and put back together.
        let mut parts = DAG::new();
        std::mem::swap(self, &mut parts);
        let DAG { mut tasks, mut data_items } = parts;
        let id = data_items.len();
        let item = DataItem { name: name.to_owned(), producer: Some(producer), consumers: Vec::new() };
        data_items.push(item);
        tasks[producer].outputs.push(id);
        let ghost after = DAG { tasks: tasks, data_items: data_items };
        proof {
            assert(after.tasks.len() == after.tasks@.len());
            assert(forall|t: int|
                0 <= t < after.num_tasks() && t != producer ==> #[trigger] after.task_seq()[t]
                    == before.task_seq()[t]);
            assert(after.outputs(producer as int) == before.outputs(producer as int).push(id));
            assert(after.inputs(producer as int) == before.inputs(producer as int));
            assert forall|t: int, d: int|
                0 <= t < after.num_tasks() && 0 <= d < after.num_items() implies count_of(
                #[trigger] after.inputs(t),
                d as usize,
            ) == count_of(#[trigger] after.consumers(d), t as usize) by {
                assert(after.inputs(t) == before.inputs(t));
                if d == id {
                    assert forall|k: int| 0 <= k < after.inputs(t).len() implies after.inputs(t)[k]
                        != d as usize by {
                        assert(before.inputs(t)[k] < before.num_items());
                    }
                    lemma_count_absent(after.inputs(t), d as usize);
                } else {
                    assert(after.consumers(d) == before.consumers(d));
                }
            }
            assert forall|t: int, d: int|
                0 <= t < after.num_tasks() && 0 <= d < after.num_items() implies (
            #[trigger] after.outputs(t).contains(d as usize) <==> #[trigger] after.producer(d) == Some(
                t as usize,
            )) by {
                if t != producer {
                    assert(after.outputs(t) == before.outputs(t));
                }
                if d == id {
                    if t != producer && after.outputs(t).contains(d as usize) {
                        let k = choose|k: int|
                            0 <= k < after.outputs(t).len() && after.outputs(t)[k] == d as usize;
                        assert(before.outputs(t)[k] < before.num_items());
                    }
                    assert(after.producer(d) == Some(producer));
                    if t == producer {
                        assert(after.outputs(t)[before.outputs(t).len() as int] == d as usize);
                        assert(after.outputs(t).contains(d as usize));
                    } else {
                        assert(!after.outputs(t).contains(d as usize));
                    }
                } else {
                    assert(after.producer(d) == before.producer(d));
                    assert(before.outputs(t).contains(d as usize) <==> before.producer(d) == Some(
                        t as usize,
                    ));
                    if t == producer {
                        assert(before.outputs(t).contains(d as usize) ==> after.outputs(t).contains(
                            d as usize,
                        )) by {
                            if before.outputs(t).contains(d as usize) {
                                let k = choose|k: int|
                                    0 <= k < before.outputs(t).len() && before.outputs(t)[k]
                                        == d as usize;
                                assert(after.outputs(t)[k] == d as usize);
                            }
                        }
                        assert(after.outputs(t).contains(d as usize) ==> before.outputs(t).contains(
                            d as usize,
                        )) by {
                            if after.outputs(t).contains(d as usize) {
                                let k = choose|k: int|
                                    0 <= k < after.outputs(t).len() && after.outputs(t)[k] == d as usize;
                                assert(after.outputs(t)[before.outputs(t).len() as int] == id);
                                assert(before.outputs(t)[k] == d as usize);
                            }
                        }
                    }
                }
            }
            assert forall|t: int| 0 <= t < after.num_tasks() implies (#[trigger] after.outputs(t)).no_duplicates() by {
                if t == producer {
                    assert forall|k: int| 0 <= k < before.outputs(t).len() implies before.outputs(
                        t,
                    )[k] != id by {
                        assert(before.outputs(t)[k] < before.num_items());
                    }
                    assert(before.outputs(t).no_duplicates());
                } else {
                    assert(after.outputs(t) == before.outputs(t));
                }
            }
            assert forall|t: int, k: int|
                0 <= t < after.num_tasks() && 0 <= k < after.inputs(t).len() implies #[trigger] after.inputs(
                t,
            )[k] < after.num_items() by {
                assert(after.inputs(t) == before.inputs(t));
            }
            assert forall|t: int, k: int|
                0 <= t < after.num_tasks() && 0 <= k < after.outputs(t).len() implies #[trigger] after.outputs(
                t,
            )[k] < after.num_items() by {
                if t != producer || k < before.outputs(t).len() {
                    assert(before.outputs(t)[k] < before.num_items());
                }
            }
            assert forall|d: int|
                0 <= d < after.num_items() && (#[trigger] after.producer(d)).is_some() implies after.producer(
                d,
            ).unwrap() < after.num_tasks() by {
                if d != id {
                    assert(after.producer(d) == before.producer(d));
                }
            }
            assert forall|d: int, k: int|
                0 <= d < after.num_items() && 0 <= k < after.consumers(d).len() implies #[trigger] after.consumers(
                d,
            )[k] < after.num_tasks() by {
                assert(after.consumers(d) == before.consumers(d));
            }
        }
        *self = DAG { tasks, data_items };
        id
    }

    /// Makes the task `consumer` read the data item `data_item`. A ready
    /// task that now reads the output of another task waits for it: it
    /// becomes pending.
    pub fn add_data_dependency(&mut self, data_item: usize, consumer: usize)
        requires
            data_item < old(self).num_items(),
            consumer < old(self).num_tasks(),
        ensures
            final(self).num_tasks() == old(self).num_tasks(),
            final(self).num_items() == old(self).num_items(),
            forall|t: int|
                0 <= t < old(self).num_tasks() && t != consumer ==> #[trigger] final(self).task_seq()[t]
                    == old(self).task_seq()[t],
            forall|d: int|
                0 <= d < old(self).num_items() && d != data_item ==> #[trigger] final(self).item_seq()[d]
                    == old(self).item_seq()[d],
            final(self).inputs(consumer as int) == old(self).inputs(consumer as int).push(data_item),
            final(self).outputs(consumer as int) == old(self).outputs(consumer as int),
            final(self).consumers(data_item as int) == old(self).consumers(data_item as int).push(
                consumer,
            ),
            final(self).producer(data_item as int) == old(self).producer(data_item as int),
            final(self).task_seq()[consumer as int].state == if old(self).producer(
                data_item as int,
            ).is_some() && old(self).task_seq()[consumer as int].state == TaskState::Ready {
                TaskState::Pending
            } else {
                old(self).task_seq()[consumer as int].state
            },
            final(self).task_seq()[consumer as int].name == old(self).task_seq()[consumer as int].name,
            final(self).item_seq()[data_item as int].name == old(self).item_seq()[data_item as int].name,
            final(self).task_seq()[consumer as int].memory == old(self).task_seq()[consumer as int].memory,
            final(self).task_seq()[consumer as int].min_cores == old(self).task_seq()[consumer as int].min_cores,
            final(self).task_seq()[consumer as int].max_cores == old(self).task_seq()[consumer as int].max_cores,
            final(self).task_seq()[consumer as int].allowed_resources == old(self).task_seq()[consumer as int].allowed_resources,
    {
        proof {
            use_type_invariant(&*self);
        }
        let ghost before = *self;
        // The parts are taken out, changed, and put back together.
        let mut parts = DAG::new();
        std::mem::swap(self, &mut parts);
        let DAG { mut tasks, mut data_items } = parts;
        tasks[consumer].inputs.push(data_item);
        data_items[data_item].consumers.push(consumer);
        if data_items[data_item].producer.is_some() && tasks[consumer].state == TaskState::Ready {
            tasks[consumer].state = TaskState::Pending;
        }
        let ghost after = DAG { tasks: tasks, data_items: data_items };
        proof {
            assert(after.tasks.len() == after.tasks@.len());
            assert(after.data_items.len() == after.data_items@.len());
            assert forall|t: int, d: int|
                0 <= t < after.num_tasks() && 0 <= d < after.num_items() implies count_of(
                #[trigger] after.inputs(t),
                d as usize,
            ) == count_of(#[trigger] after.consumers(d), t as usize) by {
                assert(count_of(before.inputs(t), d as usize) == count_of(
                    before.consumers(d),
                    t as usize,
                ));
                if t == consumer {
                    lemma_count_push(before.inputs(t), data_item, d as usize);
                } else {
                    assert(after.inputs(t) == before.inputs(t));
                }
                if d == data_item {
                    lemma_count_push(before.consumers(d), consumer, t as usize);
                } else {
                    assert(after.consumers(d) == before.consumers(d));
                }
            }
            assert forall|t: int, d: int|
                0 <= t < after.num_tasks() && 0 <= d < after.num_items() implies (
            #[trigger] after.outputs(t).contains(d as usize) <==> #[trigger] after.producer(d) == Some(
                t as usize,
            )) by {
                assert(after.outputs(t) == before.outputs(t));
                assert(after.producer(d) == before.producer(d));
                assert(before.outputs(t).contains(d as usize) <==> before.producer(d) == Some(
                    t as usize,
                ));
            }
            assert forall|t: int| 0 <= t < after.num_tasks() implies (#[trigger] after.outputs(t)).no_duplicates() by {
                assert(after.outputs(t) == before.outputs(t));
            }
            assert forall|t: int, k: int|
                0 <= t < after.num_tasks() && 0 <= k < after.inputs(t).len() implies #[trigger] after.inputs(
                t,
            )[k] < after.num_items() by {
                if t != consumer || k < before.inputs(t).len() {
                    assert(before.inputs(t)[k] < before.num_items());
                }
            }
            assert forall|t: int, k: int|
                0 <= t < after.num_tasks() && 0 <= k < after.outputs(t).len() implies #[trigger] after.outputs(
                t,
            )[k] < after.num_items() by {
                assert(before.outputs(t)[k] < before.num_items());
            }
            assert forall|d: int|
                0 <= d < after.num_items() && (#[trigger] after.producer(d)).is_some() implies after.producer(
                d,
            ).unwrap() < after.num_tasks() by {
                assert(after.producer(d) == before.producer(d));
            }
            assert forall|d: int, k: int|
                0 <= d < after.num_items() && 0 <= k < after.consumers(d).len() implies #[trigger] after.consumers(
                d,
            )[k] < after.num_tasks() by {
                if d != data_item || k < before.consumers(d).len() {
                    assert(before.consumers(d)[k] < before.num_tasks());
                }
            }
        }
        *self = DAG { tasks, data_items };
    }

    /// Sets the state of the task `task_id`.
    pub fn set_task_state(&mut self, task_id: usize, state: TaskState)
        requires
            task_id < old(self).num_tasks(),
        ensures
            final(self).item_seq() == old(self).item_seq(),
            final(self).num_tasks() == old(self).num_tasks(),
            forall|t: int|
                0 <= t < old(self).num_tasks() && t != task_id ==> #[trigger] final(self).task_seq()[t]
                    == old(self).task_seq()[t],
            final(self).task_seq()[task_id as int].state == state,
            final(self).task_seq()[task_id as int].name == old(self).task_seq()[task_id as int].name,
            final(self).inputs(task_id as int) == old(self).inputs(task_id as int),
            final(self).outputs(task_id as int) == old(self).outputs(task_id as int),
            final(self).task_seq()[task_id as int].memory == old(self).task_seq()[task_id as int].memory,
            final(self).task_seq()[task_id as int].min_cores == old(self).task_seq()[task_id as int].min_cores,
            final(self).task_seq()[task_id as int].max_cores == old(self).task_seq()[task_id as int].max_cores,
            final(self).task_seq()[task_id as int].allowed_resources == old(self).task_seq()[task_id as int].allowed_resources,
    {
        proof {
            use_type_invariant(&*self);
        }
        let ghost before = *self;
        // The parts are taken out, changed, and put back together.
        let mut parts = DAG::new();
        std::mem::swap(self, &mut parts);
        let DAG { mut tasks, data_items } = parts;
        tasks[task_id].state = state;
        let ghost after = DAG { tasks: tasks, data_items: data_items };
        proof {
            assert forall|t: int| 0 <= t < after.num_tasks() implies before.inputs(t) == after.inputs(t)
                && before.outputs(t) == after.outputs(t) by {}
            assert(tasks.len() == after.num_tasks() && data_items.len() == after.num_items());
            lemma_wf_extend(before, after);
        }
        *self = DAG { tasks, data_items };
    }

    /// Restricts the task `task_id` to the resources listed in `resources`,
    /// or lifts any restriction when it is `None`.
    pub fn set_allowed_resources(&mut self, task_id: usize, resources: Option<Vec<usize>>)
        requires
            task_id < old(self).num_tasks(),
        ensures
            final(self).item_seq() == old(self).item_seq(),
            final(self).num_tasks() == old(self).num_tasks(),
            forall|t: int|
                0 <= t < old(self).num_tasks() && t != task_id ==> #[trigger] final(self).task_seq()[t]
                    == old(self).task_seq()[t],
            final(self).task_seq()[task_id as int].allowed_resources == resources,
            final(self).task_seq()[task_id as int].state == old(self).task_seq()[task_id as int].state,
            final(self).task_seq()[task_id as int].name == old(self).task_seq()[task_id as int].name,
            final(self).inputs(task_id as int) == old(self).inputs(task_id as int),
            final(self).outputs(task_id as int) == old(self).outputs(task_id as int),
            final(self).task_seq()[task_id as int].memory == old(self).task_seq()[task_id as int].memory,
            final(self).task_seq()[task_id as int].min_cores == old(self).task_seq()[task_id as int].min_cores,
            final(self).task_seq()[task_id as int].max_cores == old(self).task_seq()[task_id as int].max_cores,
    {
        proof {
            use_type_invariant(&*self);
        }
        let ghost before = *self;
        // The parts are taken out, changed, and put back together.
        let mut parts = DAG::new();
        std::mem::swap(self, &mut parts);
        let DAG { mut tasks, data_items } = parts;
        tasks[task_id].allowed_resources = resources;
        let ghost after = DAG { tasks: tasks, data_items: data_items };
        proof {
            assert forall|t: int| 0 <= t < after.num_tasks() implies before.inputs(t) == after.inputs(t)
                && before.outputs(t) == after.outputs(t) by {}
            assert(tasks.len() == after.num_tasks() && data_items.len() == after.num_items());
            lemma_wf_extend(before, after);
        }
        *self = DAG { tasks, data_items };
    }
}

} // verus!
