use vstd::prelude::*;

verus! {

/// Abstract state of a reorder window: the input index of the next result to
/// hand to the consumer, and one slot for each of the following input indices.
pub struct WindowState<T> {
    pub next: int,
    pub slots: Seq<Option<T>>,
}

/// The window after the result `data` of input `i` arrived, if the window
/// admits `i` and holds nothing for it yet.
pub open spec fn accept_result<T>(w: WindowState<T>, i: int, data: T) -> (WindowState<T>, bool) {
    if w.next <= i < w.next + w.slots.len() && w.slots[i - w.next] is None {
        (WindowState { next: w.next, slots: w.slots.update(i - w.next, Some(data)) }, true)
    } else {
        (w, false)
    }
}

/// The window after the consumer asked for the next result, and that result
/// if it has arrived.
pub open spec fn take_result<T>(w: WindowState<T>) -> (WindowState<T>, Option<T>) {
    if w.slots.len() > 0 && w.slots[0] is Some {
        (WindowState { next: w.next + 1, slots: w.slots.drop_first().push(None) }, w.slots[0])
    } else {
        (w, None)
    }
}

/// Number of results held in `slots`.
pub open spec fn held<T>(slots: Seq<Option<T>>) -> nat
    decreases slots.len(),
{
    if slots.len() == 0 {
        0
    } else {
        held(slots.drop_last()) + if slots.last() is Some {
            1nat
        } else {
            0nat
        }
    }
}

/// A producer with input index `i` may publish its result once fewer than
/// `capacity` results before it are still waiting for the consumer.
pub open spec fn admitted(delivered: int, capacity: int, i: int) -> bool {
    i < delivered + capacity
}

/// Whether the result of input `i` may be published, when `delivered`
/// results have been consumed and the window holds `capacity` slots.
pub fn may_send(delivered: usize, capacity: usize, i: usize) -> (r: bool)
    ensures
        r == admitted(delivered as int, capacity as int, i as int),
{
    i < delivered || i - delivered < capacity
}

/// Reorder buffer of the ordered parallel pipeline: results arrive in any
/// order, tagged with their input index, and leave in input order. It holds
/// at most `capacity` results, those of the inputs just after the last one
/// consumed.
pub struct OrderedWindow<T> {
    slots: Vec<Option<T>>,
    next_idx: usize,
}

impl<T> View for OrderedWindow<T> {
    type V = WindowState<T>;

    closed spec fn view(&self) -> WindowState<T> {
        WindowState { next: self.next_idx as int, slots: self.slots@ }
    }
}

impl<T> OrderedWindow<T> {
    /// An empty window of `capacity` slots, waiting for input 0.
    pub fn new(capacity: usize) -> (r: OrderedWindow<T>)
        ensures
            r@.next == 0,
            r@.slots == Seq::new(capacity as nat, |k: int| None::<T>),
    {
        let mut slots: Vec<Option<T>> = Vec::new();
        let mut k: usize = 0;
        while k < capacity
            invariant
                k <= capacity,
                slots@ == Seq::new(k as nat, |j: int| None::<T>),
            decreases capacity - k,
        {
            slots.push(None);
            k = k + 1;
            assert(slots@ =~= Seq::new(k as nat, |j: int| None::<T>));
        }
        OrderedWindow { slots, next_idx: 0 }
    }

    /// Number of results handed to the consumer so far.
    pub fn delivered(&self) -> (r: usize)
        ensures
            r == self@.next,
    {
        self.next_idx
    }

    /// Number of slots of the window.
    pub fn capacity(&self) -> (r: usize)
        ensures
            r == self@.slots.len(),
    {
        self.slots.len()
    }

    /// Stores the result of input `i`. Returns false, and changes nothing,
    /// where `i` lies outside the window or its result is already held.
    pub fn accept(&mut self, i: usize, data: T) -> (r: bool)
        ensures
            (final(self)@, r) == accept_result(old(self)@, i as int, data),
    {
        if i < self.next_idx || i - self.next_idx >= self.slots.len() {
            return false;
        }
        let k = i - self.next_idx;
        if self.slots[k].is_some() {
            return false;
        }
        self.slots.remove(k);
        self.slots.insert(k, Some(data));
        assert(self.slots@ =~= old(self).slots@.update(k as int, Some(data)));
        true
    }

    /// Hands out the result of input `delivered()` if it has arrived, and
    /// moves the window on by one.
    pub fn take_ready(&mut self) -> (r: Option<T>)
        requires
            old(self)@.next < usize::MAX,
        ensures
            (final(self)@, r) == take_result(old(self)@),
    {
        if self.slots.len() == 0 || self.slots[0].is_none() {
            return None;
        }
        let first = self.slots.remove(0);
        self.slots.push(None);
        self.next_idx = self.next_idx + 1;
        assert(self.slots@ =~= old(self).slots@.drop_first().push(None));
        first
    }
}

/// Results leave in input order: the result of input `w.next` that arrives
/// is the one the next take hands out, and the window moves on to `w.next + 1`.
pub proof fn results_leave_in_order<T>(w: WindowState<T>, data: T)
    requires
        w.slots.len() > 0,
    ensures
        accept_result(w, w.next, data).1 == (w.slots[0] is None),
        w.slots[0] is None ==> take_result(accept_result(w, w.next, data).0) == (
            WindowState { next: w.next + 1, slots: w.slots.update(0, Some(data)).drop_first().push(None) },
            Some(data),
        ),
        take_result(w).1 is Some ==> take_result(w).0.next == w.next + 1,
        take_result(w).1 is None ==> take_result(w).0 == w,
{
}

proof fn lemma_held_bound<T>(slots: Seq<Option<T>>)
    ensures
        held(slots) <= slots.len(),
    decreases slots.len(),
{
    if slots.len() > 0 {
        lemma_held_bound(slots.drop_last());
    }
}

/// The window never holds more results than it has slots, nor one for an
/// input outside `[next, next + capacity)`, whatever arrives and leaves.
pub proof fn window_stays_bounded<T>(w: WindowState<T>, i: int, data: T)
    ensures
        held(w.slots) <= w.slots.len(),
        accept_result(w, i, data).0.slots.len() == w.slots.len(),
        take_result(w).0.slots.len() == w.slots.len(),
        accept_result(w, i, data).1 ==> w.next <= i < w.next + w.slots.len(),
{
    lemma_held_bound(w.slots);
}


/// The window agrees with the producers' results `data`: each result it holds
/// for input `i` is `data(i)`, and the consumer has received exactly
/// `data(0), ..., data(next - 1)`, in that order.
pub open spec fn consistent<T>(w: WindowState<T>, data: spec_fn(int) -> T, received: Seq<T>) -> bool {
    &&& w.next == received.len()
    &&& forall|k: int| 0 <= k < received.len() ==> #[trigger] received[k] == data(k)
    &&& forall|k: int|
        0 <= k < w.slots.len() && #[trigger] w.slots[k] is Some ==> w.slots[k] == Some(data(w.next + k))
}

/// Input order holds over a whole run: starting from an empty window, after
/// any interleaving of arrivals of producers' results (in any order) and takes
/// by the consumer, the consumer has received exactly the results of inputs
/// `0, 1, ..., next - 1`, in that order. Each step keeps `consistent`.
pub proof fn run_keeps_input_order<T>(
    w: WindowState<T>,
    data: spec_fn(int) -> T,
    received: Seq<T>,
    i: int,
)
    requires
        consistent(w, data, received),
    ensures
        consistent(accept_result(w, i, data(i)).0, data, received),
        take_result(w).1 matches Some(x) ==> x == data(w.next) && consistent(
            take_result(w).0,
            data,
            received.push(x),
        ),
        take_result(w).1 is None ==> consistent(take_result(w).0, data, received),
{
    let (wa, ok) = accept_result(w, i, data(i));
    if ok {
        assert forall|k: int| 0 <= k < wa.slots.len() && #[trigger] wa.slots[k] is Some implies wa.slots[k]
            == Some(data(wa.next + k)) by {
            if k != i - w.next {
                assert(wa.slots[k] == w.slots[k]);
            }
        }
    }
    if let Some(x) = take_result(w).1 {
        let wt = take_result(w).0;
        let r2 = received.push(x);
        assert(w.slots[0] == Some(data(w.next + 0)));
        assert forall|k: int| 0 <= k < r2.len() implies #[trigger] r2[k] == data(k) by {
            if k < received.len() {
                assert(r2[k] == received[k]);
            }
        }
        assert forall|k: int| 0 <= k < wt.slots.len() && #[trigger] wt.slots[k] is Some implies wt.slots[k]
            == Some(data(wt.next + k)) by {
            assert(wt.slots[k] == w.slots[k + 1]);
        }
    }
}

/// A new window is consistent with any producers' results, nothing received.
pub proof fn new_window_is_consistent<T>(capacity: nat, data: spec_fn(int) -> T)
    ensures
        consistent(WindowState { next: 0, slots: Seq::new(capacity, |k: int| None::<T>) }, data, Seq::empty()),
{
}

} // verus!
