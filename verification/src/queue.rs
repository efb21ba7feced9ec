use vstd::prelude::*;
use priority_queue::PriorityQueue;

verus! {

/// The priority queue of the `priority-queue` crate, known to Verus only as an
/// opaque type; what it holds is named by [`queue_entries`].
#[verifier::external_type_specification]
#[verifier::external_body]
#[verifier::reject_recursive_types(I)]
#[verifier::reject_recursive_types(P)]
#[verifier::reject_recursive_types(H)]
pub struct ExPriorityQueue<I, P, H>(PriorityQueue<I, P, H>) where
    I: std::hash::Hash + Eq,
    P: Ord,
;

/// The entries of a queue of grid positions: each position it holds, with
/// the priority it holds it at (a position is held at most once).
pub uninterp spec fn queue_entries(q: PriorityQueue<(i32, i32), i32>) -> Map<(i32, i32), i32>;

/// The entry at the top of a queue's heap: the entry `PriorityQueue::peek`
/// shows and `PriorityQueue::pop` removes (`None` for an empty queue).
pub uninterp spec fn queue_top(q: PriorityQueue<(i32, i32), i32>) -> Option<((i32, i32), i32)>;

/// The entry map of an empty queue.
pub open spec fn no_entries() -> Map<(i32, i32), i32> {
    Map::empty()
}

/// `true` when `p` is the greatest priority among the entries of `m`.
pub open spec fn is_top_priority(m: Map<(i32, i32), i32>, p: i32) -> bool {
    forall|j: (i32, i32)| #[trigger] m.contains_key(j) ==> m[j] <= p
}

/// Calls `PriorityQueue::new`, which builds a queue with no entries.
#[verifier::external_body]
pub(crate) fn queue_new() -> (q: PriorityQueue<(i32, i32), i32>)
    ensures
        queue_entries(q) == no_entries(),
{
    PriorityQueue::new()
}

/// Calls `PriorityQueue::push`: the item is inserted with the given priority,
/// or, when the queue already held it, its priority is replaced and the old
/// one is returned.
#[verifier::external_body]
pub(crate) fn queue_push(q: &mut PriorityQueue<(i32, i32), i32>, item: (i32, i32), priority: i32) -> (prev: Option<i32>)
    ensures
        queue_entries(*final(q)) == queue_entries(*old(q)).insert(item, priority),
        prev == (if queue_entries(*old(q)).contains_key(item) {
            Some(queue_entries(*old(q))[item])
        } else {
            None::<i32>
        }),
{
    q.push(item, priority)
}

/// Calls `PriorityQueue::peek`: the entry at the top of the heap, which is
/// `None` on an empty queue and otherwise an entry with the greatest
/// priority (which one, among entries of equal priority, depends on the
/// heap's layout and is only named, by [`queue_top`]).
#[verifier::external_body]
pub(crate) fn queue_peek(q: &PriorityQueue<(i32, i32), i32>) -> (top: Option<((i32, i32), i32)>)
    ensures
        top == queue_top(*q),
        top is None <==> queue_entries(*q) == no_entries(),
        top matches Some((item, p)) ==> {
            &&& queue_entries(*q).contains_key(item)
            &&& queue_entries(*q)[item] == p
            &&& is_top_priority(queue_entries(*q), p)
        },
{
    q.peek().map(|(item, p)| (*item, *p))
}

/// Calls `PriorityQueue::pop`: `None` on an empty queue, which stays empty;
/// otherwise the entry at the top of the heap (the one `peek` shows, named
/// by [`queue_top`]), which has the greatest priority, is removed and
/// returned.
#[verifier::external_body]
pub(crate) fn queue_pop(q: &mut PriorityQueue<(i32, i32), i32>) -> (top: Option<((i32, i32), i32)>)
    ensures
        top == queue_top(*old(q)),
        top is None <==> queue_entries(*old(q)) == no_entries(),
        top is None ==> queue_entries(*final(q)) == queue_entries(*old(q)),
        top matches Some((item, p)) ==> {
            &&& queue_entries(*old(q)).contains_key(item)
            &&& queue_entries(*old(q))[item] == p
            &&& is_top_priority(queue_entries(*old(q)), p)
            &&& queue_entries(*final(q)) == queue_entries(*old(q)).remove(item)
        },
{
    q.pop()
}

/// Calls `PriorityQueue::is_empty`: `true` exactly when the queue has no entries.
#[verifier::external_body]
pub(crate) fn queue_is_empty(q: &PriorityQueue<(i32, i32), i32>) -> (empty: bool)
    ensures
        empty <==> queue_entries(*q) == no_entries(),
{
    q.is_empty()
}

} // verus!
