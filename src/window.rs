use vstd::prelude::*;

verus! {

#[verifier::external_type_specification]
#[verifier::external_body]
#[verifier::reject_recursive_types(T)]
pub struct ExQueue<T, const N: usize>(heapless::spsc::Queue<T, N>);

/// The bytes that a window holds, from front to back.
pub uninterp spec fn window_items(q: heapless::spsc::Queue<u8, 64>) -> Seq<u8>;

/// Relies on heapless::spsc::Queue::new: the queue starts empty.
#[verifier::external_body]
pub(crate) fn window_new() -> (r: heapless::spsc::Queue<u8, 64>)
    ensures
        window_items(r) == Seq::<u8>::empty(),
{
    heapless::spsc::Queue::new()
}

/// Relies on heapless::spsc::Queue::len: the number of queued items.
#[verifier::external_body]
pub(crate) fn window_len(q: &heapless::spsc::Queue<u8, 64>) -> (r: usize)
    ensures
        r == window_items(*q).len(),
{
    q.len()
}

/// Relies on heapless::spsc::Queue::enqueue: a queue of `N` slots holds
/// `N - 1` items; below that the item goes to the back, else it is handed back.
#[verifier::external_body]
pub(crate) fn window_enqueue(q: &mut heapless::spsc::Queue<u8, 64>, b: u8) -> (r: Result<(), u8>)
    ensures
        r.is_ok() == (window_items(*old(q)).len() < 63),
        r.is_ok() ==> window_items(*final(q)) == window_items(*old(q)).push(b),
        r is Err ==> r->Err_0 == b,
        r.is_err() ==> window_items(*final(q)) == window_items(*old(q)),
{
    q.enqueue(b)
}

/// Relies on heapless::spsc::Queue::dequeue: the front item leaves the queue.
#[verifier::external_body]
pub(crate) fn window_dequeue(q: &mut heapless::spsc::Queue<u8, 64>) -> (r: Option<u8>)
    ensures
        r.is_none() == (window_items(*old(q)).len() == 0),
        r.is_none() ==> window_items(*final(q)) == window_items(*old(q)),
        r.is_some() ==> r == Some(window_items(*old(q))[0]),
        r.is_some() ==> window_items(*final(q)) == window_items(*old(q)).drop_first(),
{
    q.dequeue()
}

} // verus!
