//! Greedy packing takes as few datagrams as any packing can that keeps the
//! messages whole and in order.

use crate::framing::{
    each, encode_all, encoded, encoded_state, group_all, lemma_encode_push,
    lemma_encode_single, lemma_group_encodes, lemma_no_message_is_split, runs_of, takes_room,
};
use crate::packing::{
    all_fit, bounded, empty_state, fits, lemma_push_all_bounded, pack, Octets,
};
use vstd::prelude::*;

verus! {

/// `parts` is a way to put `messages` into datagrams of at most `max_size`
/// octets: each part is a run of whole messages that holds at least one and
/// whose encodings fit into one datagram together, and the parts in order are
/// the messages.
pub open spec fn is_grouping<M>(
    write: spec_fn(M) -> Octets,
    parts: Seq<Seq<M>>,
    messages: Seq<M>,
    max_size: nat,
) -> bool {
    &&& parts.flatten() == messages
    &&& forall|j: int|
        0 <= j < parts.len() ==> (#[trigger] parts[j]).len() > 0 && encode_all(
            write,
            parts[j],
        ).len() <= max_size
}

/// Parts that hold a message each hold at least as many messages as there
/// are parts.
pub proof fn lemma_parts_hold_messages<M>(parts: Seq<Seq<M>>)
    requires
        forall|j: int| 0 <= j < parts.len() ==> (#[trigger] parts[j]).len() > 0,
    ensures
        parts.flatten().len() >= parts.len(),
    decreases parts.len(),
{
    if parts.len() > 0 {
        assert forall|j: int| 0 <= j < parts.drop_last().len() implies (
        #[trigger] parts.drop_last()[j]).len() > 0 by {
            assert(parts.drop_last()[j] == parts[j]);
        }
        lemma_parts_hold_messages(parts.drop_last());
        parts.drop_last().lemma_flatten_push(parts.last());
        assert(parts.drop_last().push(parts.last()) =~= parts);
        assert(parts[parts.len() - 1].len() > 0);
    }
}

/// A grouping of all messages but the last: the grouping of all of them with
/// the last message taken out of its last part, and without that part if
/// nothing else was in it.
pub open spec fn without_last<M>(parts: Seq<Seq<M>>) -> Seq<Seq<M>> {
    if parts.last().len() > 1 {
        parts.drop_last().push(parts.last().drop_last())
    } else {
        parts.drop_last()
    }
}

/// Taking the last message out of a grouping leaves a grouping of the
/// messages before it.
pub proof fn lemma_without_last<M>(
    write: spec_fn(M) -> Octets,
    parts: Seq<Seq<M>>,
    messages: Seq<M>,
    max_size: nat,
)
    requires
        is_grouping(write, parts, messages, max_size),
        messages.len() > 0,
    ensures
        parts.len() > 0,
        parts.last().len() > 0,
        parts.last().last() == messages.last(),
        encode_all(write, parts.last()) == encode_all(write, parts.last().drop_last()) + write(
            messages.last(),
        ),
        is_grouping(write, without_last(parts), messages.drop_last(), max_size),
{
    if parts.len() == 0 {
        assert(parts.flatten() =~= Seq::empty());
    }
    let front = parts.drop_last();
    let last = parts.last();
    assert(parts[parts.len() - 1].len() > 0);
    front.lemma_flatten_push(last);
    assert(front.push(last) =~= parts);
    assert(messages =~= front.flatten() + last);
    assert(last =~= last.drop_last().push(last.last()));
    lemma_encode_push(write, last.drop_last(), last.last());
    let rest = without_last(parts);
    if last.len() > 1 {
        front.lemma_flatten_push(last.drop_last());
        assert(rest.flatten() =~= messages.drop_last());
    } else {
        assert(rest.flatten() =~= messages.drop_last());
    }
    assert forall|j: int| 0 <= j < rest.len() implies (#[trigger] rest[j]).len() > 0
        && encode_all(write, rest[j]).len() <= max_size by {
        if j < front.len() {
            assert(rest[j] == parts[j]);
        }
    }
}

/// Greedy grouping stays ahead of every grouping: after the same messages it
/// has started fewer datagrams, or as many with no more octets in the last.
pub proof fn lemma_greedy_stays_ahead<M>(
    write: spec_fn(M) -> Octets,
    parts: Seq<Seq<M>>,
    messages: Seq<M>,
    max_size: nat,
)
    requires
        is_grouping(write, parts, messages, max_size),
        messages.len() > 0,
    ensures
        ({
            let runs = group_all(write, messages, max_size);
            ||| runs.completed.len() + 1 < parts.len()
            ||| runs.completed.len() + 1 == parts.len() && encode_all(write, runs.current).len()
                <= encode_all(write, parts.last()).len()
        }),
    decreases messages.len(),
{
    lemma_without_last(write, parts, messages, max_size);
    let rest = without_last(parts);
    let before = group_all(write, messages.drop_last(), max_size);
    assert(encode_all(write, parts[parts.len() - 1]).len() <= max_size);
    if messages.len() == 1 {
        assert(messages.drop_last() =~= Seq::empty());
        assert(encode_all(write, before.current) =~= Seq::empty());
        lemma_parts_hold_messages(rest);
        lemma_encode_push(write, before.current, messages.last());
    } else {
        lemma_greedy_stays_ahead(write, rest, messages.drop_last(), max_size);
        if fits(encoded_state(write, before), write(messages.last()), max_size) {
            lemma_encode_push(write, before.current, messages.last());
        } else {
            lemma_encode_single(write, messages.last());
            if parts.last().len() > 1 {
                assert(rest.last() == parts.last().drop_last());
            }
        }
    }
}

/// Fewest datagrams: whatever way there is to put `messages` whole and in
/// order into datagrams of at most `max_size` octets, greedy packing of their
/// encodings makes no more datagrams than it.
pub proof fn lemma_fewest_datagrams<M>(
    write: spec_fn(M) -> Octets,
    parts: Seq<Seq<M>>,
    messages: Seq<M>,
    max_size: nat,
)
    requires
        is_grouping(write, parts, messages, max_size),
    ensures
        pack(messages.map_values(write), max_size).len() <= parts.len(),
{
    lemma_group_encodes(write, messages, max_size);
    if messages.len() > 0 {
        lemma_greedy_stays_ahead(write, parts, messages, max_size);
    }
}

/// Greedy packing is itself such a way: its runs are a grouping of the
/// messages, where each message takes room and none is too long.
pub proof fn lemma_greedy_is_grouping<M>(
    write: spec_fn(M) -> Octets,
    messages: Seq<M>,
    max_size: nat,
)
    requires
        each(messages, |m: M| takes_room(write, m)),
        all_fit(messages.map_values(write), max_size),
    ensures
        is_grouping(write, runs_of(write, messages, max_size), messages, max_size),
        runs_of(write, messages, max_size).len() == pack(
            messages.map_values(write),
            max_size,
        ).len(),
{
    let runs = group_all(write, messages, max_size);
    let parts = runs_of(write, messages, max_size);
    lemma_no_message_is_split(write, messages, max_size);
    lemma_group_encodes(write, messages, max_size);
    lemma_push_all_bounded(empty_state(), messages.map_values(write), max_size);
    assert(bounded(encoded_state(write, runs), max_size));
    assert forall|j: int| 0 <= j < parts.len() implies (#[trigger] parts[j]).len() > 0
        && encode_all(write, parts[j]).len() <= max_size by {
        if j < runs.completed.len() {
            assert(parts[j] == runs.completed[j]);
            assert(encoded(write, runs.completed)[j] == encode_all(write, parts[j]));
            if parts[j].len() == 0 {
                assert(parts[j] =~= Seq::empty());
                assert(encode_all(write, parts[j]) =~= Seq::empty());
            }
        }
    }
}

} // verus!
