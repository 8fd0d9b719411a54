//! Messages and their encodings, as mathematics: how greedy packing groups
//! whole messages into datagrams, and what reading the datagrams gives back.
//!
//! A message type's codec enters as two functions. `write` gives the octets
//! of a message. `read` looks at the front of a string of octets and gives the
//! message that starts there together with the number of octets it takes, or
//! `None` where no message starts there. The laws hold for every such pair of
//! functions; that a message type's own code behaves like one is not proved
//! here.

use crate::packing::{empty_state, fits, pack, push_all, Octets, PackState};
use vstd::prelude::*;

verus! {

/// The octets of a run of messages: their encodings, one after another.
pub open spec fn encode_all<M>(write: spec_fn(M) -> Octets, messages: Seq<M>) -> Octets {
    messages.map_values(write).flatten()
}

/// The messages behind a state of the packer: a run for each sealed buffer,
/// and the run in the buffer that is being filled.
pub struct Runs<M> {
    pub completed: Seq<Seq<M>>,
    pub current: Seq<M>,
}

/// The strings of octets that the runs of `runs` encode to.
pub open spec fn encoded<M>(write: spec_fn(M) -> Octets, runs: Seq<Seq<M>>) -> Seq<Octets> {
    runs.map_values(|run: Seq<M>| encode_all(write, run))
}

/// The state of the packer that holds the encodings of `runs`.
pub open spec fn encoded_state<M>(write: spec_fn(M) -> Octets, runs: Runs<M>) -> PackState {
    PackState {
        completed: encoded(write, runs.completed),
        current: encode_all(write, runs.current),
    }
}

/// The runs after one more message: it joins the current run if its encoding
/// fits into the current buffer, and starts a run of its own if not.
pub open spec fn push_message<M>(
    write: spec_fn(M) -> Octets,
    runs: Runs<M>,
    message: M,
    max_size: nat,
) -> Runs<M> {
    if fits(encoded_state(write, runs), write(message), max_size) {
        Runs { completed: runs.completed, current: runs.current.push(message) }
    } else {
        Runs { completed: runs.completed.push(runs.current), current: seq![message] }
    }
}

/// The runs after all of `messages`, first to last.
pub open spec fn group_all<M>(
    write: spec_fn(M) -> Octets,
    messages: Seq<M>,
    max_size: nat,
) -> Runs<M>
    decreases messages.len(),
{
    if messages.len() == 0 {
        Runs { completed: Seq::empty(), current: Seq::empty() }
    } else {
        push_message(
            write,
            group_all(write, messages.drop_last(), max_size),
            messages.last(),
            max_size,
        )
    }
}

/// The runs of messages that end up in one datagram each, in order.
pub open spec fn runs_of<M>(
    write: spec_fn(M) -> Octets,
    messages: Seq<M>,
    max_size: nat,
) -> Seq<Seq<M>> {
    let runs = group_all(write, messages, max_size);
    if runs.current.len() > 0 {
        runs.completed.push(runs.current)
    } else {
        runs.completed
    }
}

/// Every message of the list satisfies `p`.
pub open spec fn each<M>(messages: Seq<M>, p: spec_fn(M) -> bool) -> bool {
    forall|i: int| 0 <= i < messages.len() ==> p(#[trigger] messages[i])
}

/// Every message of every run satisfies `p`.
pub open spec fn each_of_runs<M>(runs: Seq<Seq<M>>, p: spec_fn(M) -> bool) -> bool {
    forall|j: int| 0 <= j < runs.len() ==> each(#[trigger] runs[j], p)
}

/// The encoding of `message` holds at least one octet.
pub open spec fn takes_room<M>(write: spec_fn(M) -> Octets, message: M) -> bool {
    write(message).len() > 0
}

/// Encoding a run with one more message appends that message's octets.
pub proof fn lemma_encode_push<M>(write: spec_fn(M) -> Octets, run: Seq<M>, message: M)
    ensures
        encode_all(write, run.push(message)) == encode_all(write, run) + write(message),
{
    assert(run.push(message).map_values(write) =~= run.map_values(write).push(write(message)));
    run.map_values(write).lemma_flatten_push(write(message));
}

/// A run of one message encodes to that message's octets.
pub proof fn lemma_encode_single<M>(write: spec_fn(M) -> Octets, message: M)
    ensures
        encode_all(write, seq![message]) == write(message),
{
    lemma_encode_push(write, Seq::empty(), message);
    assert(Seq::<M>::empty().push(message) =~= seq![message]);
    assert(encode_all(write, Seq::<M>::empty()) =~= Seq::empty());
    assert(encode_all(write, seq![message]) =~= write(message));
}

/// Encoding a run that starts with `message` starts with that message's
/// octets.
pub proof fn lemma_encode_first<M>(write: spec_fn(M) -> Octets, run: Seq<M>)
    requires
        run.len() > 0,
    ensures
        encode_all(write, run) == write(run.first()) + encode_all(write, run.drop_first()),
{
    assert(run.map_values(write).drop_first() =~= run.drop_first().map_values(write));
}

/// A run of messages that all take room encodes to nothing only if it is
/// empty.
pub proof fn lemma_encode_takes_room<M>(write: spec_fn(M) -> Octets, run: Seq<M>)
    requires
        each(run, |m: M| takes_room(write, m)),
        run.len() > 0,
    ensures
        encode_all(write, run).len() > 0,
{
    lemma_encode_first(write, run);
    assert((|m: M| takes_room(write, m))(run[0]));
}

/// The packer's state after the encodings of `messages` is the encoding of
/// their runs: packing octets and grouping messages go in step.
pub proof fn lemma_group_encodes<M>(write: spec_fn(M) -> Octets, messages: Seq<M>, max_size: nat)
    ensures
        encoded_state(write, group_all(write, messages, max_size)) == push_all(
            empty_state(),
            messages.map_values(write),
            max_size,
        ),
    decreases messages.len(),
{
    let items = messages.map_values(write);
    let runs = group_all(write, messages, max_size);
    if messages.len() == 0 {
        assert(encoded(write, runs.completed) =~= Seq::empty());
        assert(encode_all(write, runs.current) =~= Seq::empty());
    } else {
        let before = group_all(write, messages.drop_last(), max_size);
        lemma_group_encodes(write, messages.drop_last(), max_size);
        assert(items.drop_last() =~= messages.drop_last().map_values(write));
        assert(items.last() == write(messages.last()));
        let st = encoded_state(write, before);
        if fits(st, write(messages.last()), max_size) {
            lemma_encode_push(write, before.current, messages.last());
        } else {
            assert(encoded(write, before.completed.push(before.current)) =~= st.completed.push(
                st.current,
            ));
            lemma_encode_single(write, messages.last());
        }
    }
}

/// The runs, read one after another, are the messages: grouping neither
/// drops nor reorders nor repeats a message.
pub proof fn lemma_group_partitions<M>(
    write: spec_fn(M) -> Octets,
    messages: Seq<M>,
    max_size: nat,
)
    ensures
        ({
            let runs = group_all(write, messages, max_size);
            runs.completed.flatten() + runs.current == messages
        }),
    decreases messages.len(),
{
    let runs = group_all(write, messages, max_size);
    if messages.len() == 0 {
        assert(runs.completed.flatten() + runs.current =~= messages);
    } else {
        let before = group_all(write, messages.drop_last(), max_size);
        lemma_group_partitions(write, messages.drop_last(), max_size);
        assert(messages =~= messages.drop_last().push(messages.last()));
        if fits(encoded_state(write, before), write(messages.last()), max_size) {
            assert(runs.completed.flatten() + runs.current =~= (before.completed.flatten()
                + before.current).push(messages.last()));
        } else {
            before.completed.lemma_flatten_push(before.current);
            assert(runs.completed.flatten() + runs.current =~= (before.completed.flatten()
                + before.current).push(messages.last()));
        }
    }
}

/// What holds of every message holds of every message of every run.
pub proof fn lemma_group_keeps<M>(
    write: spec_fn(M) -> Octets,
    messages: Seq<M>,
    max_size: nat,
    p: spec_fn(M) -> bool,
)
    requires
        each(messages, p),
    ensures
        each_of_runs(group_all(write, messages, max_size).completed, p),
        each(group_all(write, messages, max_size).current, p),
        each_of_runs(runs_of(write, messages, max_size), p),
    decreases messages.len(),
{
    let runs = group_all(write, messages, max_size);
    if messages.len() > 0 {
        let before = group_all(write, messages.drop_last(), max_size);
        assert forall|i: int| 0 <= i < messages.drop_last().len() implies p(
            #[trigger] messages.drop_last()[i],
        ) by {
            assert(messages.drop_last()[i] == messages[i]);
        }
        lemma_group_keeps(write, messages.drop_last(), max_size, p);
        assert(p(messages[messages.len() - 1]));
        if fits(encoded_state(write, before), write(messages.last()), max_size) {
            assert forall|i: int| 0 <= i < runs.current.len() implies p(
                #[trigger] runs.current[i],
            ) by {
                if i < before.current.len() {
                    assert(runs.current[i] == before.current[i]);
                }
            }
        } else {
            assert forall|j: int| 0 <= j < runs.completed.len() implies each(
                #[trigger] runs.completed[j],
                p,
            ) by {
                if j < before.completed.len() {
                    assert(runs.completed[j] == before.completed[j]);
                }
            }
        }
    }
    let all = runs_of(write, messages, max_size);
    assert forall|j: int| 0 <= j < all.len() implies each(#[trigger] all[j], p) by {
        if j < runs.completed.len() {
            assert(all[j] == runs.completed[j]);
        }
    }
}

/// No message is split: the datagrams that packing makes of the encodings
/// of `messages` are the encodings of runs of whole messages, one run for
/// each datagram, and the runs in order are the messages themselves. It is
/// stated for messages that take room; the encoding of one that takes none
/// lies in no datagram when nothing precedes it.
pub proof fn lemma_no_message_is_split<M>(
    write: spec_fn(M) -> Octets,
    messages: Seq<M>,
    max_size: nat,
)
    requires
        each(messages, |m: M| takes_room(write, m)),
    ensures
        pack(messages.map_values(write), max_size) == encoded(
            write,
            runs_of(write, messages, max_size),
        ),
        runs_of(write, messages, max_size).flatten() == messages,
{
    let runs = group_all(write, messages, max_size);
    let st = encoded_state(write, runs);
    lemma_group_encodes(write, messages, max_size);
    lemma_group_partitions(write, messages, max_size);
    lemma_group_keeps(write, messages, max_size, |m: M| takes_room(write, m));
    if runs.current.len() > 0 {
        lemma_encode_takes_room(write, runs.current);
        runs.completed.lemma_flatten_push(runs.current);
        assert(encoded(write, runs.completed.push(runs.current)) =~= st.completed.push(
            st.current,
        ));
    } else {
        assert(runs.current =~= Seq::empty());
        assert(encode_all(write, runs.current) =~= Seq::empty());
        assert(runs.completed.flatten() + runs.current =~= runs.completed.flatten());
    }
}

/// The messages that reading `octets` from front to end gives, or `None`
/// where reading fails: where no message starts at some point, where one
/// would take more octets than are left, or where one takes none.
pub open spec fn read_all<M>(read: spec_fn(Octets) -> Option<(M, nat)>, octets: Octets) -> Option<
    Seq<M>,
>
    decreases octets.len(),
{
    if octets.len() == 0 {
        Some(Seq::empty())
    } else {
        match read(octets) {
            Some((message, taken)) if 0 < taken <= octets.len() => {
                match read_all(read, octets.skip(taken as int)) {
                    Some(rest) => Some(seq![message] + rest),
                    None => None,
                }
            },
            _ => None,
        }
    }
}

/// The messages that reading each datagram in turn gives, as one list, or
/// `None` where reading one of them fails.
pub open spec fn read_datagrams<M>(
    read: spec_fn(Octets) -> Option<(M, nat)>,
    datagrams: Seq<Octets>,
) -> Option<Seq<M>>
    decreases datagrams.len(),
{
    if datagrams.len() == 0 {
        Some(Seq::empty())
    } else {
        match (read_datagrams(read, datagrams.drop_last()), read_all(read, datagrams.last())) {
            (Some(before), Some(last)) => Some(before + last),
            _ => None,
        }
    }
}

/// Reading a single datagram as a list of one is reading that datagram.
pub proof fn lemma_read_single_datagram<M>(
    read: spec_fn(Octets) -> Option<(M, nat)>,
    datagram: Octets,
)
    ensures
        read_datagrams(read, seq![datagram]) == read_all(read, datagram),
{
    let datagrams = seq![datagram];
    assert(datagrams.drop_last() =~= Seq::empty());
    assert(read_datagrams(read, datagrams.drop_last()) == Some(Seq::<M>::empty()));
    assert(datagrams.last() == datagram);
    match read_all(read, datagram) {
        Some(messages) => {
            assert(Seq::<M>::empty() + messages =~= messages);
        },
        None => {},
    }
}

/// The datagrams that hold at least one octet, in order.
pub open spec fn non_empty(datagrams: Seq<Octets>) -> Seq<Octets> {
    datagrams.filter(|d: Octets| d.len() > 0)
}

/// Empty datagrams add nothing: reading a list of datagrams gives what
/// reading the non-empty ones among them gives.
pub proof fn lemma_empty_datagrams_add_nothing<M>(
    read: spec_fn(Octets) -> Option<(M, nat)>,
    datagrams: Seq<Octets>,
)
    ensures
        read_datagrams(read, datagrams) == read_datagrams(read, non_empty(datagrams)),
    decreases datagrams.len(),
{
    reveal(Seq::filter);
    if datagrams.len() > 0 {
        let before = datagrams.drop_last();
        lemma_empty_datagrams_add_nothing(read, before);
        if datagrams.last().len() > 0 {
            let kept = non_empty(before).push(datagrams.last());
            assert(non_empty(datagrams) == kept);
            assert(kept.drop_last() =~= non_empty(before));
            assert(kept.last() == datagrams.last());
        } else {
            assert(non_empty(datagrams) == non_empty(before));
            match read_datagrams(read, before) {
                Some(messages) => {
                    assert(messages + Seq::<M>::empty() =~= messages);
                },
                None => {},
            }
        }
    }
}

/// `read` gives `message` back from its encoding, whatever follows it, and
/// the encoding takes room.
pub open spec fn reads_back<M>(
    write: spec_fn(M) -> Octets,
    read: spec_fn(Octets) -> Option<(M, nat)>,
    message: M,
) -> bool {
    &&& write(message).len() > 0
    &&& forall|rest: Octets| #[trigger]
        read(write(message) + rest) == Some((message, write(message).len()))
}

/// Reading the encoding of a run gives the run back.
pub proof fn lemma_read_run<M>(
    write: spec_fn(M) -> Octets,
    read: spec_fn(Octets) -> Option<(M, nat)>,
    run: Seq<M>,
)
    requires
        each(run, |m: M| reads_back(write, read, m)),
    ensures
        read_all(read, encode_all(write, run)) == Some(run),
    decreases run.len(),
{
    if run.len() == 0 {
        assert(encode_all(write, run) =~= Seq::empty());
        assert(run =~= Seq::empty());
    } else {
        let first = run.first();
        let rest = encode_all(write, run.drop_first());
        lemma_encode_first(write, run);
        assert((|m: M| reads_back(write, read, m))(run[0]));
        assert(read(write(first) + rest) == Some((first, write(first).len())));
        assert((write(first) + rest).skip(write(first).len() as int) =~= rest);
        assert forall|i: int| 0 <= i < run.drop_first().len() implies (|m: M|
            reads_back(write, read, m))(#[trigger] run.drop_first()[i]) by {
            assert(run.drop_first()[i] == run[i + 1]);
        }
        lemma_read_run(write, read, run.drop_first());
        assert(seq![first] + run.drop_first() =~= run);
    }
}

/// Reading the encodings of runs gives the runs back, one after another.
pub proof fn lemma_read_runs<M>(
    write: spec_fn(M) -> Octets,
    read: spec_fn(Octets) -> Option<(M, nat)>,
    runs: Seq<Seq<M>>,
)
    requires
        each_of_runs(runs, |m: M| reads_back(write, read, m)),
    ensures
        read_datagrams(read, encoded(write, runs)) == Some(runs.flatten()),
    decreases runs.len(),
{
    if runs.len() == 0 {
        assert(runs.flatten() =~= Seq::empty());
    } else {
        let datagrams = encoded(write, runs);
        assert(datagrams.drop_last() =~= encoded(write, runs.drop_last()));
        assert(datagrams.last() == encode_all(write, runs.last()));
        assert forall|j: int| 0 <= j < runs.drop_last().len() implies each(
            #[trigger] runs.drop_last()[j],
            |m: M| reads_back(write, read, m),
        ) by {
            assert(runs.drop_last()[j] == runs[j]);
        }
        lemma_read_runs(write, read, runs.drop_last());
        assert(each(runs[runs.len() - 1], |m: M| reads_back(write, read, m)));
        lemma_read_run(write, read, runs.last());
        runs.drop_last().lemma_flatten_push(runs.last());
        assert(runs.drop_last().push(runs.last()) =~= runs);
    }
}

/// Round trip: where `read` gives each of `messages` back from its encoding,
/// reading the datagrams that packing makes of the encodings gives exactly
/// `messages`, in order.
pub proof fn lemma_round_trip<M>(
    write: spec_fn(M) -> Octets,
    read: spec_fn(Octets) -> Option<(M, nat)>,
    messages: Seq<M>,
    max_size: nat,
)
    requires
        each(messages, |m: M| reads_back(write, read, m)),
    ensures
        read_datagrams(read, pack(messages.map_values(write), max_size)) == Some(messages),
{
    assert forall|i: int| 0 <= i < messages.len() implies (|m: M| takes_room(write, m))(
        #[trigger] messages[i],
    ) by {
        assert((|m: M| reads_back(write, read, m))(messages[i]));
    }
    lemma_no_message_is_split(write, messages, max_size);
    lemma_group_keeps(write, messages, max_size, |m: M| reads_back(write, read, m));
    lemma_read_runs(write, read, runs_of(write, messages, max_size));
}

} // verus!
