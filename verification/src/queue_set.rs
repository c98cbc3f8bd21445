//! A fixed family of FIFO queues, one per processor: the processor task
//! queues of the scheduler.
use std::collections::VecDeque;
use vstd::prelude::*;

verus! {

/// Calls `VecDeque::get_mut`: a mutable reference to the element at `index`
/// (index 0 is the front), or `None` when `index` is out of bounds.
/// The contract claims exactly that: the reference points at that element,
/// and whatever is written through it becomes the element at `index`.
#[verifier::external_body]
fn deque_get_mut<T>(v: &mut VecDeque<T>, index: usize) -> (res: Option<&mut T>)
    ensures
        index >= old(v)@.len() ==> res.is_none() && final(v)@ == old(v)@,
        index < old(v)@.len() ==> res.is_some() && *res.unwrap() == old(v)@[index as int]
            && final(v)@ == old(v)@.update(index as int, *final(res.unwrap())),
{
    v.get_mut(index)
}

/// A set of queues, one for each processor (resource).
pub struct QueueSet<T> {
    /// The processor task queue of each resource.
    queues: Vec<VecDeque<T>>,
}

impl<T> View for QueueSet<T> {
    type V = Seq<Seq<T>>;

    closed spec fn view(&self) -> Seq<Seq<T>> {
        Seq::new(self.queues@.len(), |i: int| self.queues@[i]@)
    }
}

/// `n` empty queues.
pub open spec fn empty_queues<T>(n: nat) -> Seq<Seq<T>> {
    Seq::new(n, |i: int| Seq::<T>::empty())
}

impl<T> QueueSet<T> {
    /// Creates a new `QueueSet` with `num_queues` empty queues.
    pub fn new(num_queues: usize) -> (qs: Self)
        ensures
            qs@ == empty_queues::<T>(num_queues as nat),
    {
        let mut queues: Vec<VecDeque<T>> = Vec::with_capacity(num_queues);
        for i in 0..num_queues
            invariant
                queues@.len() == i,
                forall|j: int| 0 <= j < i ==> (#[trigger] queues@[j])@ == Seq::<T>::empty(),
        {
            queues.push(VecDeque::new());
        }
        let qs = Self { queues };
        assert(qs@ =~= empty_queues::<T>(num_queues as nat));
        qs
    }

    /// Expands the number of queues in the set by `num_queues` empty queues.
    pub fn add_queues(&mut self, num_queues: usize)
        ensures
            final(self)@ == old(self)@ + empty_queues::<T>(num_queues as nat),
    {
        let ghost start = self@;
        for i in 0..num_queues
            invariant
                self@ =~= start + empty_queues::<T>(i as nat),
        {
            let ghost prev = self.queues@;
            let ghost prev_view = self@;
            assert(prev_view.len() == start.len() + i);
            let empty: VecDeque<T> = VecDeque::new();
            self.queues.push(empty);
            assert(self@ =~= start + empty_queues::<T>((i + 1) as nat)) by {
                assert forall|j: int| 0 <= j < self@.len() implies self@[j] == (start
                    + empty_queues::<T>((i + 1) as nat))[j] by {
                    if j < prev.len() {
                        assert(self.queues@[j] == prev[j]);
                        assert(prev_view[j] == prev[j]@);
                        assert(prev_view[j] == (start + empty_queues::<T>(i as nat))[j]);
                    }
                }
            }
        }
    }

    /// Enqueues `value` at the back of the queue `queue_index`.
    pub fn enqueue(&mut self, queue_index: usize, value: T)
        requires
            queue_index < old(self)@.len(),
        ensures
            final(self)@ == old(self)@.update(
                queue_index as int,
                old(self)@[queue_index as int].push(value),
            ),
    {
        let ghost before = self@;
        self.queues[queue_index].push_back(value);
        assert(self@ =~= before.update(queue_index as int, before[queue_index as int].push(value)));
    }

    /// The element at position `queue_sub_index` of the queue `queue_index`,
    /// left in place, for reading or writing; `None` when either index is out
    /// of bounds.
    pub fn get_element_mut(&mut self, queue_index: usize, queue_sub_index: usize) -> (res: Option<&mut T>)
        ensures
            !(queue_index < old(self)@.len() && queue_sub_index < old(self)@[queue_index as int].len())
                ==> res.is_none() && final(self)@ == old(self)@,
            queue_index < old(self)@.len() && queue_sub_index < old(self)@[queue_index as int].len()
                ==> res.is_some()
                && *res.unwrap() == old(self)@[queue_index as int][queue_sub_index as int]
                && final(self)@ == old(self)@.update(
                    queue_index as int,
                    old(self)@[queue_index as int].update(queue_sub_index as int, *final(res.unwrap())),
                ),
    {
        if queue_index < self.queues.len() {
            let q = &mut self.queues[queue_index];
            deque_get_mut(q, queue_sub_index)
        } else {
            None
        }
    }

    /// The element at position `queue_sub_index` of the queue `queue_index`,
    /// left in place; `None` when either index is out of bounds.
    pub fn get_element(&self, queue_index: usize, queue_sub_index: usize) -> (res: Option<&T>)
        ensures
            queue_index < self@.len() && queue_sub_index < self@[queue_index as int].len()
                ==> res == Some(&self@[queue_index as int][queue_sub_index as int]),
            !(queue_index < self@.len() && queue_sub_index < self@[queue_index as int].len())
                ==> res.is_none(),
    {
        if queue_index < self.queues.len() && queue_sub_index < self.queues[queue_index].len() {
            Some(&self.queues[queue_index][queue_sub_index])
        } else {
            None
        }
    }

    /// Removes the element at position `queue_sub_index` of the queue
    /// `queue_index` and returns it; `None`, with nothing removed, when either
    /// index is out of bounds.
    pub fn remove_element(&mut self, queue_index: usize, queue_sub_index: usize) -> (res: Option<T>)
        ensures
            queue_index < old(self)@.len() && queue_sub_index < old(self)@[queue_index as int].len()
                ==> res == Some(old(self)@[queue_index as int][queue_sub_index as int])
                && final(self)@ == old(self)@.update(
                    queue_index as int,
                    old(self)@[queue_index as int].remove(queue_sub_index as int),
                ),
            !(queue_index < old(self)@.len() && queue_sub_index < old(self)@[queue_index as int].len())
                ==> res.is_none() && final(self)@ == old(self)@,
    {
        if queue_index < self.queues.len() {
            let ghost before = self@;
            let res = self.queues[queue_index].remove(queue_sub_index);
            assert(self@ =~= before.update(
                queue_index as int,
                before[queue_index as int].remove(queue_sub_index as int),
            ) || res.is_none());
            res
        } else {
            None
        }
    }

    /// The number of queues in the set.
    pub fn num_queues(&self) -> (n: usize)
        ensures
            n == self@.len(),
    {
        self.queues.len()
    }

    /// The length of the queue `queue_index`.
    pub fn queue_len(&mut self, queue_index: usize) -> (len: usize)
        requires
            queue_index < old(self)@.len(),
        ensures
            len == old(self)@[queue_index as int].len(),
            final(self)@ == old(self)@,
    {
        self.queues[queue_index].len()
    }
}

impl QueueSet<usize> {
    /// A copy of the set: the same queues, holding the same elements in the
    /// same order.
    pub fn duplicate(&self) -> (copy: Self)
        ensures
            copy@ == self@,
    {
        let mut queues: Vec<VecDeque<usize>> = Vec::new();
        let mut i: usize = 0;
        while i < self.queues.len()
            invariant
                i <= self.queues@.len(),
                queues@.len() == i,
                forall|j: int| 0 <= j < i ==> (#[trigger] queues@[j])@ == self.queues@[j]@,
            decreases self.queues@.len() - i,
        {
            let source = &self.queues[i];
            let mut queue: VecDeque<usize> = VecDeque::new();
            let mut j: usize = 0;
            while j < source.len()
                invariant
                    j <= source@.len(),
                    queue@ == source@.take(j as int),
                decreases source@.len() - j,
            {
                queue.push_back(source[j]);
                assert(queue@ =~= source@.take(j + 1));
                j = j + 1;
            }
            assert(queue@ =~= source@);
            queues.push(queue);
            i = i + 1;
        }
        let copy = QueueSet { queues };
        assert(copy@ =~= self@);
        copy
    }
}

} // verus!
