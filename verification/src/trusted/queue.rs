use priority_queue::PriorityQueue;
use vstd::prelude::*;

verus! {

/// `priority_queue::PriorityQueue`, of which the verifier sees nothing but
/// what the wrappers below say.
#[verifier::external_type_specification]
#[verifier::external_body]
#[verifier::reject_recursive_types(I)]
#[verifier::reject_recursive_types(P)]
#[verifier::reject_recursive_types(H)]
pub struct ExPriorityQueue<I, P, H>(PriorityQueue<I, P, H>);

/// What a queue holds: each item with its priority.
pub uninterp spec fn queue_entries(q: PriorityQueue<u64, i128>) -> Map<u64, i128>;

/// `PriorityQueue::new`: a queue that holds nothing.
#[verifier::external_body]
pub(crate) fn queue_new() -> (q: PriorityQueue<u64, i128>)
    ensures
        queue_entries(q).dom() == Set::<u64>::empty(),
{
    PriorityQueue::new()
}

/// `PriorityQueue::push`: the item enters the queue with the priority; an
/// item that the queue already holds gets the priority in place of its old one.
#[verifier::external_body]
pub(crate) fn queue_push(q: &mut PriorityQueue<u64, i128>, item: u64, priority: i128)
    ensures
        queue_entries(*final(q)) == queue_entries(*old(q)).insert(item, priority),
{
    q.push(item, priority);
}

/// `PriorityQueue::pop`: takes out an item than which the queue holds none
/// of greater priority, and returns it with its priority; `None` exactly when
/// the queue holds nothing, and then the queue stays as it is.
#[verifier::external_body]
pub(crate) fn queue_pop(q: &mut PriorityQueue<u64, i128>) -> (top: Option<(u64, i128)>)
    ensures
        match top {
            Some((item, priority)) => {
                &&& queue_entries(*old(q)).contains_key(item)
                &&& queue_entries(*old(q))[item] == priority
                &&& forall|other: u64| #[trigger]
                    queue_entries(*old(q)).contains_key(other) ==> queue_entries(*old(q))[other]
                        <= priority
                &&& queue_entries(*final(q)) == queue_entries(*old(q)).remove(item)
            },
            None => {
                &&& queue_entries(*old(q)).dom() == Set::<u64>::empty()
                &&& queue_entries(*final(q)) == queue_entries(*old(q))
            },
        },
{
    q.pop()
}

} // verus!
