//! What is read of a stream of chunks over a whole run, from its first write to its end.
//!
//! A run is what a [`Writer`](crate::chunker::Writer) and a [`Reader`](crate::chunker::Reader) of
//! one stream do in turn. What each of them does to the stream is what the contracts of
//! `Writer::write`, `Writer::flush`, `Writer::close` and `Reader::poll_next` say.

use crate::chunker::{
    flush_effect, joined, lemma_joined_push, poll_effect, ready_content, write_effect, Channel,
    Effect, Polling,
};
use vstd::prelude::*;

verus! {

/// One turn of a run.
pub enum Act {
    /// These bytes are offered to be written.
    Write(Seq<u8>),
    /// What is held back is flushed.
    Flush,
    /// The writer goes.
    Close,
    /// The reader is polled.
    Poll,
}

/// What the writer of a stream holds back, and what its reader holds.
pub struct State<E> {
    pub buffered: Seq<u8>,
    pub channel: Channel<E>,
}

/// A stream to which nothing was written yet.
pub open spec fn start<E>() -> State<E> {
    State {
        buffered: Seq::empty(),
        channel: Channel::Open { ready: Seq::empty(), writer_dropped: false },
    }
}

/// What a turn of the writer does to a stream with chunks of size `cap`, if it is one.
pub open spec fn writer_effect<E>(cap: nat, state: State<E>, act: Act) -> Effect<E> {
    match act {
        Act::Write(data) => write_effect(state.buffered, cap, state.channel, data),
        Act::Flush => flush_effect(state.buffered, state.channel, false),
        _ => flush_effect(state.buffered, state.channel, true),
    }
}

/// The state of a stream after a turn.
pub open spec fn after_act<E>(cap: nat, state: State<E>, act: Act) -> State<E> {
    if act is Poll {
        State { buffered: state.buffered, channel: poll_effect(state.channel).1 }
    } else {
        let effect = writer_effect(cap, state, act);
        State { buffered: effect.buffered, channel: effect.channel }
    }
}

/// The state of a stream after these turns.
pub open spec fn state_after<E>(cap: nat, acts: Seq<Act>) -> State<E>
    decreases acts.len(),
{
    if acts.len() == 0 {
        start()
    } else {
        after_act(cap, state_after(cap, acts.drop_last()), acts.last())
    }
}

/// Whether the writer has gone.
pub open spec fn is_closed(acts: Seq<Act>) -> bool
    decreases acts.len(),
{
    acts.len() > 0 && (acts.last() is Close || is_closed(acts.drop_last()))
}

/// Whether these are the turns of a run: the writer does nothing after it has gone.
pub open spec fn is_run(acts: Seq<Act>) -> bool
    decreases acts.len(),
{
    acts.len() == 0 || (is_run(acts.drop_last()) && (acts.last() is Poll || !is_closed(
        acts.drop_last(),
    )))
}

/// The bytes that a turn writes: as many of those that are offered as are taken.
pub open spec fn taken<E>(cap: nat, state: State<E>, act: Act) -> Seq<u8> {
    match (act, writer_effect(cap, state, act).taken) {
        (Act::Write(data), Some(n)) => data.take(n),
        _ => Seq::empty(),
    }
}

/// The bytes that were written.
pub open spec fn written<E>(cap: nat, acts: Seq<Act>) -> Seq<u8>
    decreases acts.len(),
{
    if acts.len() == 0 {
        Seq::empty()
    } else {
        let earlier = acts.drop_last();
        written::<E>(cap, earlier) + taken::<E>(cap, state_after(cap, earlier), acts.last())
    }
}

/// What the polls of the reader gave.
pub open spec fn polls<E>(cap: nat, acts: Seq<Act>) -> Seq<Polling<E>>
    decreases acts.len(),
{
    if acts.len() == 0 {
        Seq::empty()
    } else if acts.last() is Poll {
        let state = state_after(cap, acts.drop_last());
        polls(cap, acts.drop_last()).push(poll_effect(state.channel).0)
    } else {
        polls(cap, acts.drop_last())
    }
}

/// The chunks among what polls gave.
pub open spec fn chunks<E>(polls: Seq<Polling<E>>) -> Seq<Seq<u8>>
    decreases polls.len(),
{
    if polls.len() == 0 {
        Seq::empty()
    } else {
        match polls.last() {
            Polling::Chunk(chunk) => chunks(polls.drop_last()).push(chunk),
            _ => chunks(polls.drop_last()),
        }
    }
}

/// Whether a flush or the end of the stream came when `count` bytes had been written.
pub open spec fn is_cut<E>(cap: nat, acts: Seq<Act>, count: nat) -> bool
    decreases acts.len(),
{
    acts.len() > 0 && {
        ||| is_cut::<E>(cap, acts.drop_last(), count)
        ||| (acts.last() is Flush || acts.last() is Close) && written::<E>(
            cap,
            acts.drop_last(),
        ).len() == count
    }
}

/// Whether the sizes of chunks, of which the first stands at the beginning of the stream, are in
/// order: none is empty or longer than `cap`, and a shorter one ends where a flush or the end of
/// the stream came.
pub open spec fn are_sizes_in_order<E>(cap: nat, acts: Seq<Act>, all: Seq<Seq<u8>>) -> bool {
    forall|i: int|
        0 <= i < all.len() ==> {
            &&& 0 < (#[trigger] all[i]).len() <= cap
            &&& all[i].len() < cap ==> is_cut::<E>(cap, acts, joined(all.take(i + 1)).len())
        }
}

/// The chunks that were handed to the reader and not read yet.
spec fn waiting<E>(channel: Channel<E>) -> Seq<Seq<u8>> {
    match channel {
        Channel::Open { ready, .. } => ready,
        _ => Seq::empty(),
    }
}

/// All chunks that were handed to the reader.
spec fn handed_over<E>(cap: nat, acts: Seq<Act>) -> Seq<Seq<u8>> {
    chunks(polls::<E>(cap, acts)) + waiting(state_after::<E>(cap, acts).channel)
}

/// What holds of a stream at every moment of a run.
spec fn is_accounted_for<E>(cap: nat, acts: Seq<Act>) -> bool {
    let state = state_after::<E>(cap, acts);
    &&& if is_closed(acts) {
        &&& state.buffered.len() == 0
        &&& state.channel is Fused || state.channel is Open && state.channel->writer_dropped
    } else {
        &&& state.buffered.len() < cap
        &&& state.channel is Open && !state.channel->writer_dropped
    }
    &&& joined(handed_over::<E>(cap, acts)) + state.buffered == written::<E>(cap, acts)
    &&& are_sizes_in_order::<E>(cap, acts, handed_over::<E>(cap, acts))
    &&& forall|i: int|
        0 <= i < polls::<E>(cap, acts).len() ==> !(#[trigger] polls::<E>(cap, acts)[i] is Failed)
}

proof fn lemma_run<E>(cap: nat, acts: Seq<Act>)
    requires
        0 < cap,
        is_run(acts),
    ensures
        is_accounted_for::<E>(cap, acts),
    decreases acts.len(),
{
    if acts.len() == 0 {
        assert(handed_over::<E>(cap, acts) =~= Seq::empty());
        assert(joined(handed_over::<E>(cap, acts)) + Seq::empty() =~= Seq::empty());
    } else {
        let earlier = acts.drop_last();
        lemma_run::<E>(cap, earlier);
        if acts.last() is Poll {
            lemma_poll::<E>(cap, acts);
        } else {
            lemma_writer_turn::<E>(cap, acts);
        }
    }
}

/// The sizes stay in order in a longer run.
proof fn lemma_sizes<E>(cap: nat, acts: Seq<Act>, all: Seq<Seq<u8>>)
    requires
        acts.len() > 0,
        are_sizes_in_order::<E>(cap, acts.drop_last(), all),
    ensures
        are_sizes_in_order::<E>(cap, acts, all),
{
}

proof fn lemma_poll<E>(cap: nat, acts: Seq<Act>)
    requires
        0 < cap,
        acts.len() > 0,
        acts.last() is Poll,
        is_accounted_for::<E>(cap, acts.drop_last()),
    ensures
        is_accounted_for::<E>(cap, acts),
{
    let earlier = acts.drop_last();
    let before = state_after::<E>(cap, earlier);
    let given = polls::<E>(cap, acts);
    assert(given.drop_last() =~= polls::<E>(cap, earlier));
    assert(handed_over::<E>(cap, acts) =~= handed_over::<E>(cap, earlier));
    assert(written::<E>(cap, acts) =~= written::<E>(cap, earlier));
    lemma_sizes::<E>(cap, acts, handed_over::<E>(cap, acts));
    assert forall|i: int| 0 <= i < given.len() implies !(#[trigger] given[i] is Failed) by {
        if i < given.len() - 1 {
            assert(given[i] == polls::<E>(cap, earlier)[i]);
        }
    }
}

proof fn lemma_writer_turn<E>(cap: nat, acts: Seq<Act>)
    requires
        0 < cap,
        acts.len() > 0,
        !(acts.last() is Poll),
        !is_closed(acts.drop_last()),
        is_accounted_for::<E>(cap, acts.drop_last()),
    ensures
        is_accounted_for::<E>(cap, acts),
{
    let earlier = acts.drop_last();
    let before = state_after::<E>(cap, earlier);
    let after = state_after::<E>(cap, acts);
    let all = handed_over::<E>(cap, earlier);
    let all_after = handed_over::<E>(cap, acts);
    let more = taken::<E>(cap, before, acts.last());
    lemma_sizes::<E>(cap, acts, all);
    // What is held back and what is written becomes a chunk, or is held back.
    let chunk = before.buffered + more;
    if waiting(after.channel) == waiting(before.channel) {
        assert(all_after == all);
        assert(after.buffered =~= chunk);
        assert(joined(all) + after.buffered =~= joined(all) + before.buffered + more);
    } else {
        assert(waiting(after.channel) =~= waiting(before.channel).push(chunk));
        assert(all_after =~= all.push(chunk));
        assert(after.buffered =~= Seq::empty());
        lemma_joined_push(all, chunk);
        assert(joined(all_after) + after.buffered =~= joined(all) + before.buffered + more);
        assert forall|i: int| 0 <= i < all_after.len() implies {
            &&& 0 < (#[trigger] all_after[i]).len() <= cap
            &&& all_after[i].len() < cap ==> is_cut::<E>(
                cap,
                acts,
                joined(all_after.take(i + 1)).len(),
            )
        } by {
            if i < all.len() {
                assert(all_after[i] == all[i]);
                assert(all_after.take(i + 1) =~= all.take(i + 1));
            } else {
                assert(all_after.take(i + 1) =~= all_after);
            }
        }
    }
}

/// Of a stream that was written to, flushed, polled and closed in any order, and then polled to its
/// end, the chunks that were read hold all the bytes that were written, in their order. No poll
/// gives an error, no chunk is empty or longer than the size that the stream was made with, and one
/// is shorter only where a flush or the end of the stream has cut it.
pub proof fn law_all_is_read<E>(cap: nat, acts: Seq<Act>)
    requires
        0 < cap,
        is_run(acts),
        polls::<E>(cap, acts).len() > 0,
        polls::<E>(cap, acts).last() is End,
    ensures
        joined(chunks(polls::<E>(cap, acts))) == written::<E>(cap, acts),
        are_sizes_in_order::<E>(cap, acts, chunks(polls::<E>(cap, acts))),
        forall|i: int|
            0 <= i < polls::<E>(cap, acts).len() ==> !(#[trigger] polls::<E>(cap, acts)[i] is
                Failed),
{
    lemma_run::<E>(cap, acts);
    lemma_ended::<E>(cap, acts);
    let read = chunks(polls::<E>(cap, acts));
    assert(handed_over::<E>(cap, acts) =~= read);
    assert(joined(read) + Seq::<u8>::empty() =~= joined(read));
}

/// After a poll that gave the end, nothing waits any more.
proof fn lemma_ended<E>(cap: nat, acts: Seq<Act>)
    requires
        0 < cap,
        is_run(acts),
        polls::<E>(cap, acts).len() > 0,
        polls::<E>(cap, acts).last() is End,
    ensures
        is_closed(acts),
        state_after::<E>(cap, acts).channel is Fused,
    decreases acts.len(),
{
    let earlier = acts.drop_last();
    lemma_run::<E>(cap, acts);
    lemma_run::<E>(cap, earlier);
    if !(acts.last() is Poll) {
        lemma_ended::<E>(cap, earlier);
    }
}

/// At every moment of a run, what was read, what waits and what is held back is together what was
/// written. Once the writer has gone, nothing is held back, and a poll gives a chunk or the end.
pub proof fn law_nothing_is_lost_on_the_way<E>(cap: nat, acts: Seq<Act>)
    requires
        0 < cap,
        is_run(acts),
    ensures
        ({
            let state = state_after::<E>(cap, acts);
            let polling = poll_effect(state.channel).0;
            &&& joined(chunks(polls::<E>(cap, acts))) + ready_content(state.channel)
                + state.buffered == written::<E>(cap, acts)
            &&& is_closed(acts) ==> state.buffered.len() == 0 && (polling is Chunk
                || polling is End)
            &&& !is_closed(acts) ==> polling is Chunk || polling is Pending
        }),
{
    lemma_run::<E>(cap, acts);
    let state = state_after::<E>(cap, acts);
    lemma_joined_concat(chunks(polls::<E>(cap, acts)), waiting(state.channel));
    assert(joined(Seq::empty()) =~= Seq::empty());
}

proof fn lemma_joined_concat(a: Seq<Seq<u8>>, b: Seq<Seq<u8>>)
    ensures
        joined(a + b) == joined(a) + joined(b),
    decreases b.len(),
{
    if b.len() == 0 {
        assert(a + b =~= a);
        assert(joined(a) + joined(b) =~= joined(a));
    } else {
        lemma_joined_concat(a, b.drop_last());
        lemma_joined_push(a + b.drop_last(), b.last());
        lemma_joined_push(b.drop_last(), b.last());
        assert((a + b.drop_last()).push(b.last()) =~= a + b);
        assert(b.drop_last().push(b.last()) =~= b);
        assert(joined(a + b) =~= joined(a) + joined(b));
    }
}

} // verus!
