//! Greedy packing as mathematics, over sequences of octets: what the packer
//! holds, what a push does to it, and what holds of the datagrams that come
//! out.

use vstd::prelude::*;

verus! {

/// A string of octets.
pub type Octets = Seq<u8>;

/// What a packer holds at a given moment: the buffers that are sealed, in the
/// order in which they were sealed, and the buffer that is being filled.
pub struct PackState {
    pub completed: Seq<Octets>,
    pub current: Octets,
}

/// The state before anything was pushed.
pub open spec fn empty_state() -> PackState {
    PackState { completed: Seq::empty(), current: Seq::empty() }
}

/// Whether `item` still goes into the buffer that is being filled.
pub open spec fn fits(st: PackState, item: Octets, max_size: nat) -> bool {
    st.current.len() + item.len() <= max_size
}

/// The state after one item was pushed. An item that fits is appended to the
/// current buffer; one that does not seals it and starts the next buffer.
pub open spec fn push_item(st: PackState, item: Octets, max_size: nat) -> PackState {
    if fits(st, item, max_size) {
        PackState { completed: st.completed, current: st.current + item }
    } else {
        PackState { completed: st.completed.push(st.current), current: item }
    }
}

/// The state after all of `items` were pushed, first to last.
pub open spec fn push_all(st: PackState, items: Seq<Octets>, max_size: nat) -> PackState
    decreases items.len(),
{
    if items.len() == 0 {
        st
    } else {
        push_item(push_all(st, items.drop_last(), max_size), items.last(), max_size)
    }
}

/// The buffers that a state stands for once packing ends: the sealed ones,
/// then the current one unless it is empty.
pub open spec fn sealed(st: PackState) -> Seq<Octets> {
    if st.current.len() > 0 {
        st.completed.push(st.current)
    } else {
        st.completed
    }
}

/// The datagrams that greedy packing makes of `items`.
pub open spec fn pack(items: Seq<Octets>, max_size: nat) -> Seq<Octets> {
    sealed(push_all(empty_state(), items, max_size))
}

/// Every item is at most `max_size` long.
pub open spec fn all_fit(items: Seq<Octets>, max_size: nat) -> bool {
    forall|i: int| 0 <= i < items.len() ==> (#[trigger] items[i]).len() <= max_size
}

/// What holds of every state that pushing items of at most `max_size` octets
/// can reach: no buffer is longer than `max_size`, and no sealed buffer is
/// empty.
pub open spec fn bounded(st: PackState, max_size: nat) -> bool {
    &&& st.current.len() <= max_size
    &&& forall|i: int|
        0 <= i < st.completed.len() ==> 0 < (#[trigger] st.completed[i]).len() <= max_size
}

/// Every buffer holds at least one octet and at most `max_size`.
pub open spec fn within_capacity(datagrams: Seq<Octets>, max_size: nat) -> bool {
    forall|i: int| 0 <= i < datagrams.len() ==> 0 < (#[trigger] datagrams[i]).len() <= max_size
}

/// How many buffers of a state hold octets.
pub open spec fn buffers_in_use(st: PackState) -> nat {
    if st.current.len() > 0 {
        st.completed.len() + 1
    } else {
        st.completed.len()
    }
}

/// The octets of a state, buffer after buffer.
pub open spec fn state_octets(st: PackState) -> Octets {
    st.completed.flatten() + st.current
}

/// The strings of octets that a list of buffers holds.
pub open spec fn octets_of(buffers: Seq<Vec<u8>>) -> Seq<Octets> {
    Seq::new(buffers.len(), |i: int| buffers[i]@)
}

/// Packing no item gives no datagram.
pub proof fn lemma_pack_nothing(max_size: nat)
    ensures
        pack(Seq::empty(), max_size) == Seq::<Octets>::empty(),
{
}

/// Boundary: an item that is exactly as long as the room left in the current
/// buffer goes into that buffer and fills it; no buffer is sealed.
pub proof fn lemma_exact_fit_is_appended(st: PackState, item: Octets, max_size: nat)
    requires
        st.current.len() + item.len() == max_size,
    ensures
        push_item(st, item, max_size).completed == st.completed,
        push_item(st, item, max_size).current == st.current + item,
        push_item(st, item, max_size).current.len() == max_size,
{
}

/// One octet more than the room left, and the item starts the next buffer:
/// the current one is sealed as it is.
pub proof fn lemma_overflow_starts_next(st: PackState, item: Octets, max_size: nat)
    requires
        st.current.len() + item.len() > max_size,
    ensures
        push_item(st, item, max_size).completed == st.completed.push(st.current),
        push_item(st, item, max_size).current == item,
{
}

/// Where no item is too long, the last one is not, nor any of those before
/// it.
pub proof fn lemma_all_fit_last(items: Seq<Octets>, max_size: nat)
    requires
        all_fit(items, max_size),
        items.len() > 0,
    ensures
        all_fit(items.drop_last(), max_size),
        items.last().len() <= max_size,
{
    assert forall|i: int| 0 <= i < items.drop_last().len() implies (
    #[trigger] items.drop_last()[i]).len() <= max_size by {
        assert(items.drop_last()[i] == items[i]);
    }
    assert(items[items.len() - 1].len() <= max_size);
}

/// Pushing an item that is not too long keeps a state bounded.
pub proof fn lemma_push_item_bounded(st: PackState, item: Octets, max_size: nat)
    requires
        bounded(st, max_size),
        item.len() <= max_size,
    ensures
        bounded(push_item(st, item, max_size), max_size),
{
    let next = push_item(st, item, max_size);
    if !fits(st, item, max_size) {
        assert forall|i: int| 0 <= i < next.completed.len() implies 0 < (
        #[trigger] next.completed[i]).len() <= max_size by {
            if i < st.completed.len() {
                assert(next.completed[i] == st.completed[i]);
            }
        }
    }
}

/// Pushing items that are not too long keeps a state bounded.
pub proof fn lemma_push_all_bounded(st: PackState, items: Seq<Octets>, max_size: nat)
    requires
        bounded(st, max_size),
        all_fit(items, max_size),
    ensures
        bounded(push_all(st, items, max_size), max_size),
    decreases items.len(),
{
    if items.len() > 0 {
        lemma_all_fit_last(items, max_size);
        lemma_push_all_bounded(st, items.drop_last(), max_size);
        lemma_push_item_bounded(
            push_all(st, items.drop_last(), max_size),
            items.last(),
            max_size,
        );
    }
}

/// The datagrams of a bounded state are within capacity.
pub proof fn lemma_sealed_bounded(st: PackState, max_size: nat)
    requires
        bounded(st, max_size),
    ensures
        within_capacity(sealed(st), max_size),
{
    let out = sealed(st);
    assert forall|i: int| 0 <= i < out.len() implies 0 < (#[trigger] out[i]).len()
        <= max_size by {
        if i < st.completed.len() {
            assert(out[i] == st.completed[i]);
        }
    }
}

/// Capacity: where no item is longer than `max_size`, no datagram is, and
/// none is empty.
pub proof fn lemma_pack_within_capacity(items: Seq<Octets>, max_size: nat)
    requires
        all_fit(items, max_size),
    ensures
        within_capacity(pack(items, max_size), max_size),
{
    lemma_push_all_bounded(empty_state(), items, max_size);
    lemma_sealed_bounded(push_all(empty_state(), items, max_size), max_size);
}

/// Pushing items that are not too long takes at most one buffer for each.
pub proof fn lemma_push_all_count(items: Seq<Octets>, max_size: nat)
    requires
        all_fit(items, max_size),
    ensures
        buffers_in_use(push_all(empty_state(), items, max_size)) <= items.len(),
    decreases items.len(),
{
    if items.len() > 0 {
        lemma_all_fit_last(items, max_size);
        lemma_push_all_count(items.drop_last(), max_size);
    }
}

/// There are no more datagrams than items, where no item is too long.
pub proof fn lemma_pack_count(items: Seq<Octets>, max_size: nat)
    requires
        all_fit(items, max_size),
    ensures
        pack(items, max_size).len() <= items.len(),
{
    lemma_push_all_count(items, max_size);
}

/// The state after pushing `items` holds their octets, in order.
pub proof fn lemma_push_all_keeps_octets(items: Seq<Octets>, max_size: nat)
    ensures
        state_octets(push_all(empty_state(), items, max_size)) == items.flatten(),
    decreases items.len(),
{
    if items.len() == 0 {
        assert(state_octets(empty_state()) =~= items.flatten());
    } else {
        let before = push_all(empty_state(), items.drop_last(), max_size);
        lemma_push_all_keeps_octets(items.drop_last(), max_size);
        items.drop_last().lemma_flatten_push(items.last());
        assert(items.drop_last().push(items.last()) =~= items);
        if fits(before, items.last(), max_size) {
            assert(state_octets(push_item(before, items.last(), max_size)) =~= state_octets(
                before,
            ) + items.last());
        } else {
            before.completed.lemma_flatten_push(before.current);
        }
    }
}

/// Packing keeps the octets: the datagrams, one after another, hold exactly
/// what the items hold one after another.
pub proof fn lemma_pack_keeps_octets(items: Seq<Octets>, max_size: nat)
    ensures
        pack(items, max_size).flatten() == items.flatten(),
{
    lemma_push_all_keeps_octets(items, max_size);
    let st = push_all(empty_state(), items, max_size);
    if st.current.len() > 0 {
        st.completed.lemma_flatten_push(st.current);
    } else {
        assert(st.completed.flatten() + st.current =~= st.completed.flatten());
    }
}

/// Taking one buffer more adds that buffer's octets to the concatenation,
/// and no prefix of a list of buffers holds more octets than the whole list.
pub proof fn lemma_flatten_take(buffers: Seq<Octets>, i: int)
    requires
        0 <= i < buffers.len(),
    ensures
        buffers.take(i + 1).flatten() == buffers.take(i).flatten() + buffers[i],
        buffers.take(i + 1).flatten().len() <= buffers.flatten().len(),
    decreases buffers.len() - i,
{
    assert(buffers.take(i + 1) =~= buffers.take(i).push(buffers[i]));
    buffers.take(i).lemma_flatten_push(buffers[i]);
    if i + 1 < buffers.len() {
        lemma_flatten_take(buffers, i + 1);
        buffers.take(i + 1).lemma_flatten_push(buffers[i + 1]);
        assert(buffers.take(i + 2) =~= buffers.take(i + 1).push(buffers[i + 1]));
    } else {
        assert(buffers.take(i + 1) =~= buffers);
    }
}

} // verus!
