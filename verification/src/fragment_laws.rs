//! Laws of reassembly: a message comes out once all of its fragments have arrived, in whatever
//! order, and messages do not disturb each other.
use crate::addr::SocketAddr;
use crate::clock::clock_reads;
use crate::fragment::{
    clocked_step, complete, fits, fresh_set, is_duplicate, named_set, process_fragment,
    stored_set, unexpired, ClockedView, FragmentKey, ReassemblerView, SetView,
};
use crate::protocol::FragmentView;
use crate::types::MessageView;
use std::time::Instant;
use vstd::prelude::*;

verus! {

/// Whether `frags` are the fragments of `msg`, in order. They may overlap.
pub open spec fn is_split(frags: Seq<FragmentView>, msg: MessageView) -> bool {
    &&& 0 < frags.len() <= u16::MAX
    &&& frags[0].channel == Some(msg.channel)
    &&& forall|i: int|
        0 <= i < frags.len() ==> fragment_of(#[trigger] frags[i], i, frags.len(), msg)
    &&& forall|p: int| 0 <= p < msg.data.len() ==> #[trigger] byte_carried(frags, p)
}

/// Whether one of the fragments carries the payload's byte at `p`.
pub open spec fn byte_carried(frags: Seq<FragmentView>, p: int) -> bool {
    exists|i: int| 0 <= i < frags.len() && #[trigger] holds_byte(frags[i], p)
}

/// Whether `frag` is fragment number `i` of the `n` fragments of `msg`, its channel name aside.
pub open spec fn fragment_of(frag: FragmentView, i: int, n: nat, msg: MessageView) -> bool {
    &&& frag.sequence_number == msg.sequence_number
    &&& frag.payload_size == msg.data.len()
    &&& frag.fragment_number == i
    &&& frag.n_fragments == n
    &&& frag.fragment_offset + frag.data.len() <= msg.data.len()
    &&& frag.data == msg.data.subrange(
        frag.fragment_offset as int,
        frag.fragment_offset + frag.data.len(),
    )
}

/// Whether a fragment carries the payload's byte at `p`.
pub open spec fn holds_byte(frag: FragmentView, p: int) -> bool {
    frag.fragment_offset <= p < frag.fragment_offset + frag.data.len()
}

/// Whether each of `n` fragments occurs among the arrivals.
pub open spec fn covers(arrivals: Seq<int>, n: nat) -> bool {
    forall|i: int| 0 <= i < n ==> #[trigger] arrivals.contains(i)
}

/// Whether the arrivals are numbers of `n` fragments.
pub open spec fn in_range(arrivals: Seq<int>, n: nat) -> bool {
    forall|k: int| 0 <= k < arrivals.len() ==> 0 <= #[trigger] arrivals[k] < n
}

/// What a reassembler holds after a run of fragments from one sender, and what each of them
/// completed. Fragment `k` is processed at the clock readings `times[k]`.
pub open spec fn process_all(
    state: ReassemblerView,
    frags: Seq<FragmentView>,
    sender: SocketAddr,
    times: Seq<(nat, nat)>,
) -> (ReassemblerView, Seq<Option<MessageView>>)
    decreases frags.len(),
{
    if frags.len() == 0 {
        (state, Seq::empty())
    } else {
        let (before, outcomes) = process_all(state, frags.drop_last(), sender, times);
        let (now, created_at) = times[frags.len() - 1];
        let (after, outcome) = process_fragment(before, frags.last(), sender, now, created_at);
        (after, outcomes.push(outcome))
    }
}

/// The fragments that the numbers in `arrivals` stand for.
pub open spec fn arrived(frags: Seq<FragmentView>, arrivals: Seq<int>) -> Seq<FragmentView> {
    arrivals.map_values(|i: int| frags[i])
}

/// Whether none of the fragments arrives later than the timeout after the first one.
pub open spec fn in_time(times: Seq<(nat, nat)>, timeout: nat) -> bool {
    forall|k: int| 0 < k < times.len() ==> #[trigger] times[k].0 <= times[0].1 + timeout
}

/// Whether `set` holds exactly what the arrivals brought of `msg`.
spec fn holds_arrivals(
    set: SetView,
    frags: Seq<FragmentView>,
    msg: MessageView,
    arrivals: Seq<int>,
    created_at: nat,
) -> bool {
    &&& set.payload_size == msg.data.len()
    &&& set.n_fragments == frags.len()
    &&& set.received.len() == frags.len()
    &&& set.buffer.len() == msg.data.len()
    &&& set.created_at == created_at
    &&& arrivals.contains(0) ==> set.channel == msg.channel
    &&& forall|i: int|
        0 <= i < frags.len() ==> #[trigger] set.received[i] == arrivals.contains(i)
    &&& forall|i: int, p: int|
        0 <= i < frags.len() && arrivals.contains(i) && #[trigger] holds_byte(frags[i], p)
            ==> set.buffer[p] == msg.data[p]
}

proof fn lemma_push_contains(arrivals: Seq<int>, i: int, j: int)
    ensures
        arrivals.push(i).contains(j) <==> arrivals.contains(j) || i == j,
{
    let after = arrivals.push(i);
    if arrivals.contains(j) {
        let k = arrivals.index_of(j);
        assert(after[k] == j);
    }
    if i == j {
        assert(after[arrivals.len() as int] == j);
    }
    if after.contains(j) {
        let k = after.index_of(j);
        if k < arrivals.len() {
            assert(arrivals[k] == j);
        }
    }
}

/// A set that holds some arrivals holds one more after the fragment was processed.
proof fn lemma_one_more(
    set: SetView,
    frags: Seq<FragmentView>,
    msg: MessageView,
    arrivals: Seq<int>,
    i: int,
    created_at: nat,
)
    requires
        is_split(frags, msg),
        holds_arrivals(set, frags, msg, arrivals, created_at),
        0 <= i < frags.len(),
    ensures
        ({
            let named = named_set(set, frags[i]);
            let full = stored_set(named, frags[i]);
            &&& is_duplicate(set, frags[i]) == arrivals.contains(i)
            &&& fits(named, frags[i]) == !arrivals.contains(i)
            &&& arrivals.contains(i) ==> holds_arrivals(
                set,
                frags,
                msg,
                arrivals.push(i),
                created_at,
            )
            &&& !arrivals.contains(i) ==> holds_arrivals(
                full,
                frags,
                msg,
                arrivals.push(i),
                created_at,
            )
            &&& complete(full) == covers(arrivals.push(i), frags.len())
        }),
{
    let frag = frags[i];
    let named = named_set(set, frag);
    let full = stored_set(named, frag);
    let after = arrivals.push(i);
    assert(fragment_of(frags[i], i, frags.len(), msg));
    assert(fragment_of(frags[0], 0, frags.len(), msg));
    assert forall|j: int| after.contains(j) == (arrivals.contains(j) || i == j) by {
        lemma_push_contains(arrivals, i, j);
    }
    if !arrivals.contains(i) {
        assert forall|j: int, p: int|
            0 <= j < frags.len() && after.contains(j) && #[trigger] holds_byte(
                frags[j],
                p,
            ) implies full.buffer[p] == msg.data[p] by {
            assert(fragment_of(frags[j], j, frags.len(), msg));
            if holds_byte(frag, p) {
                assert(full.buffer[p] == frag.data[p - frag.fragment_offset]);
            } else {
                assert(full.buffer[p] == named.buffer[p]);
            }
        }
    }
    if complete(full) {
        assert forall|j: int| 0 <= j < frags.len() implies #[trigger] after.contains(j) by {
            assert(full.received[j]);
        }
    }
    if covers(after, frags.len()) {
        assert forall|j: int| 0 <= j < full.received.len() implies #[trigger] full.received[j] by {
            assert(after.contains(j));
        }
    }
}

/// A set that holds all fragments holds the payload.
proof fn lemma_all_bytes(
    set: SetView,
    frags: Seq<FragmentView>,
    msg: MessageView,
    arrivals: Seq<int>,
    created_at: nat,
)
    requires
        is_split(frags, msg),
        holds_arrivals(set, frags, msg, arrivals, created_at),
        covers(arrivals, frags.len()),
    ensures
        set.buffer == msg.data,
{
    assert forall|p: int| 0 <= p < msg.data.len() implies set.buffer[p] == msg.data[p] by {
        assert(byte_carried(frags, p));
        let j = choose|j: int| 0 <= j < frags.len() && #[trigger] holds_byte(frags[j], p);
        assert(arrivals.contains(j));
    }
    assert(set.buffer =~= msg.data);
}

/// While a fragment is missing nothing comes out, and what has arrived is kept.
proof fn lemma_partial(
    state: ReassemblerView,
    frags: Seq<FragmentView>,
    msg: MessageView,
    sender: SocketAddr,
    arrivals: Seq<int>,
    times: Seq<(nat, nat)>,
)
    requires
        is_split(frags, msg),
        msg.data.len() <= state.max_message_size,
        arrivals.len() > 0,
        times.len() >= arrivals.len(),
        in_range(arrivals, frags.len()),
        in_time(times, state.timeout),
        !covers(arrivals, frags.len()),
        !unexpired(state.pending, times[0].0, state.timeout).contains_key(
            FragmentKey { sender, sequence_number: msg.sequence_number },
        ),
    ensures
        ({
            let (after, outcomes) = process_all(state, arrived(frags, arrivals), sender, times);
            let key = FragmentKey { sender, sequence_number: msg.sequence_number };
            &&& outcomes.len() == arrivals.len()
            &&& forall|k: int| 0 <= k < arrivals.len() ==> #[trigger] outcomes[k] is None
            &&& after.pending.contains_key(key)
            &&& holds_arrivals(after.pending[key], frags, msg, arrivals, times[0].1)
            &&& after.timeout == state.timeout
            &&& after.max_message_size == state.max_message_size
        }),
    decreases arrivals.len(),
{
    let key = FragmentKey { sender, sequence_number: msg.sequence_number };
    let earlier = arrivals.drop_last();
    let i = arrivals.last();
    assert(arrivals =~= earlier.push(i));
    assert(arrived(frags, arrivals).drop_last() =~= arrived(frags, earlier));
    assert(0 <= arrivals[arrivals.len() - 1] < frags.len());
    let (before, outcomes) = process_all(state, arrived(frags, earlier), sender, times);
    let (now, created_at) = times[arrivals.len() - 1];
    assert(fragment_of(frags[i], i, frags.len(), msg));
    let live = unexpired(before.pending, now, before.timeout);
    if earlier.len() == 0 {
        lemma_one_more(fresh_set(frags[i], created_at), frags, msg, earlier, i, created_at);
    } else {
        assert forall|k: int| 0 <= k < earlier.len() implies 0 <= #[trigger] earlier[k]
            < frags.len() by {
            assert(earlier[k] == arrivals[k]);
        }
        if covers(earlier, frags.len()) {
            assert forall|j: int| 0 <= j < frags.len() implies #[trigger] arrivals.contains(j) by {
                assert(earlier.contains(j));
                lemma_push_contains(earlier, i, j);
            }
        }
        lemma_partial(state, frags, msg, sender, earlier, times);
        assert(times[arrivals.len() - 1].0 <= times[0].1 + state.timeout);
        assert(live.contains_key(key));
        lemma_one_more(live[key], frags, msg, earlier, i, times[0].1);
    }
}

/// A message comes out whole, and just once, when the last of its fragments arrives. It does so
/// whatever order they arrive in, and however many arrive twice before that.
///
/// The message must not exceed the size limit, no set may be pending for it, and no fragment may
/// come later than the timeout after the first one.
pub proof fn law_reassembly_in_any_order(
    state: ReassemblerView,
    frags: Seq<FragmentView>,
    msg: MessageView,
    sender: SocketAddr,
    arrivals: Seq<int>,
    times: Seq<(nat, nat)>,
)
    requires
        is_split(frags, msg),
        msg.data.len() <= state.max_message_size,
        times.len() == arrivals.len(),
        in_range(arrivals, frags.len()),
        in_time(times, state.timeout),
        covers(arrivals, frags.len()),
        !covers(arrivals.drop_last(), frags.len()),
        !unexpired(state.pending, times[0].0, state.timeout).contains_key(
            FragmentKey { sender, sequence_number: msg.sequence_number },
        ),
    ensures
        ({
            let (after, outcomes) = process_all(state, arrived(frags, arrivals), sender, times);
            &&& outcomes.len() == arrivals.len()
            &&& forall|k: int| 0 <= k < arrivals.len() - 1 ==> #[trigger] outcomes[k] is None
            &&& outcomes.last() == Some(msg)
            &&& !after.pending.contains_key(
                FragmentKey { sender, sequence_number: msg.sequence_number },
            )
        }),
{
    let key = FragmentKey { sender, sequence_number: msg.sequence_number };
    assert(arrivals.contains(0));
    let earlier = arrivals.drop_last();
    let i = arrivals.last();
    let n = frags.len();
    assert(arrivals =~= earlier.push(i));
    assert(arrived(frags, arrivals).drop_last() =~= arrived(frags, earlier));
    assert(0 <= arrivals[arrivals.len() - 1] < n);
    let (before, outcomes) = process_all(state, arrived(frags, earlier), sender, times);
    let (now, created_at) = times[arrivals.len() - 1];
    let live = unexpired(before.pending, now, before.timeout);
    assert(fragment_of(frags[i], i, n, msg));
    assert(!earlier.contains(i)) by {
        let j = choose|j: int| 0 <= j < n && !#[trigger] earlier.contains(j);
        assert(arrivals.contains(j));
        lemma_push_contains(earlier, i, j);
    }
    let set = if earlier.len() == 0 {
        fresh_set(frags[i], created_at)
    } else {
        live[key]
    };
    if earlier.len() > 0 {
        assert forall|k: int| 0 <= k < earlier.len() implies 0 <= #[trigger] earlier[k] < n by {
            assert(earlier[k] == arrivals[k]);
        }
        lemma_partial(state, frags, msg, sender, earlier, times);
        assert(times[arrivals.len() - 1].0 <= times[0].1 + state.timeout);
        assert(live.contains_key(key));
    }
    lemma_one_more(set, frags, msg, earlier, i, times[0].1);
    let full = stored_set(named_set(set, frags[i]), frags[i]);
    lemma_all_bytes(full, frags, msg, arrivals, times[0].1);
}

/// A message of which a fragment is still missing never comes out, in whole or in part.
pub proof fn law_incomplete_message_withheld(
    state: ReassemblerView,
    frags: Seq<FragmentView>,
    msg: MessageView,
    sender: SocketAddr,
    arrivals: Seq<int>,
    times: Seq<(nat, nat)>,
)
    requires
        is_split(frags, msg),
        msg.data.len() <= state.max_message_size,
        times.len() == arrivals.len(),
        in_range(arrivals, frags.len()),
        in_time(times, state.timeout),
        !covers(arrivals, frags.len()),
        arrivals.len() > 0 ==> !unexpired(
            state.pending,
            times[0].0,
            state.timeout,
        ).contains_key(FragmentKey { sender, sequence_number: msg.sequence_number }),
    ensures
        ({
            let (_, outcomes) = process_all(state, arrived(frags, arrivals), sender, times);
            &&& outcomes.len() == arrivals.len()
            &&& forall|k: int| 0 <= k < arrivals.len() ==> #[trigger] outcomes[k] is None
        }),
{
    if arrivals.len() > 0 {
        lemma_partial(state, frags, msg, sender, arrivals, times);
    }
}

/// A fragment that arrives, with its sender and the clock readings at which it is processed.
pub struct Arrival {
    pub frag: FragmentView,
    pub sender: SocketAddr,
    pub now: nat,
    pub created_at: nat,
}

/// The key of the message that an arrival belongs to.
pub open spec fn arrival_key(arrival: Arrival) -> FragmentKey {
    FragmentKey { sender: arrival.sender, sequence_number: arrival.frag.sequence_number }
}

/// What a reassembler holds after a run of arrivals from any senders, and what each of them
/// completed.
pub open spec fn process_run(state: ReassemblerView, run: Seq<Arrival>) -> (
    ReassemblerView,
    Seq<Option<MessageView>>,
)
    decreases run.len(),
{
    if run.len() == 0 {
        (state, Seq::empty())
    } else {
        let (before, outcomes) = process_run(state, run.drop_last());
        let last = run.last();
        let (after, outcome) = process_fragment(
            before,
            last.frag,
            last.sender,
            last.now,
            last.created_at,
        );
        (after, outcomes.push(outcome))
    }
}

/// Whether `own` says of each arrival which fragment of the message under `key` it brings, if any.
pub open spec fn labelled(
    run: Seq<Arrival>,
    own: Seq<Option<int>>,
    frags: Seq<FragmentView>,
    key: FragmentKey,
) -> bool {
    &&& own.len() == run.len()
    &&& forall|k: int|
        0 <= k < run.len() ==> match #[trigger] own[k] {
            Some(i) => {
                &&& 0 <= i < frags.len()
                &&& run[k].frag == frags[i]
                &&& run[k].sender == key.sender
            },
            None => arrival_key(run[k]) != key,
        }
}

/// The numbers of the message's own fragments, in the order in which they arrive.
pub open spec fn own_numbers(own: Seq<Option<int>>) -> Seq<int>
    decreases own.len(),
{
    if own.len() == 0 {
        Seq::empty()
    } else {
        match own.last() {
            Some(i) => own_numbers(own.drop_last()).push(i),
            None => own_numbers(own.drop_last()),
        }
    }
}

/// Whether `first` is where the message's first fragment arrives.
pub open spec fn first_own(own: Seq<Option<int>>, first: int) -> bool {
    &&& 0 <= first < own.len()
    &&& own[first] is Some
    &&& forall|k: int| 0 <= k < first ==> #[trigger] own[k] is None
}

/// Whether no arrival after `first` comes later than the timeout after it.
pub open spec fn run_in_time(run: Seq<Arrival>, first: int, timeout: nat) -> bool {
    forall|k: int|
        first < k < run.len() ==> #[trigger] run[k].now <= run[first].created_at + timeout
}

/// Other messages' fragments make no set under the key.
proof fn lemma_others_only(
    state: ReassemblerView,
    run: Seq<Arrival>,
    own: Seq<Option<int>>,
    frags: Seq<FragmentView>,
    key: FragmentKey,
)
    requires
        labelled(run, own, frags, key),
        forall|k: int| 0 <= k < own.len() ==> #[trigger] own[k] is None,
    ensures
        own_numbers(own) == Seq::<int>::empty(),
        ({
            let (after, outcomes) = process_run(state, run);
            &&& outcomes.len() == run.len()
            &&& after.timeout == state.timeout
            &&& after.max_message_size == state.max_message_size
            &&& after.pending.contains_key(key) ==> state.pending.contains_key(key)
                && after.pending[key] == state.pending[key]
        }),
    decreases run.len(),
{
    if run.len() > 0 {
        lemma_labelled_earlier(run, own, frags, key);
        let last = run.last();
        assert(own[own.len() - 1] is None);
        assert forall|k: int| 0 <= k < own.drop_last().len() implies #[trigger] own.drop_last()[k]
            is None by {
            assert(own[k] is None);
        }
        lemma_others_only(state, run.drop_last(), own.drop_last(), frags, key);
        law_other_messages_untouched(
            process_run(state, run.drop_last()).0,
            last.frag,
            last.sender,
            last.now,
            last.created_at,
            key,
        );
    }
}

proof fn lemma_labelled_earlier(
    run: Seq<Arrival>,
    own: Seq<Option<int>>,
    frags: Seq<FragmentView>,
    key: FragmentKey,
)
    requires
        labelled(run, own, frags, key),
        run.len() > 0,
    ensures
        labelled(run.drop_last(), own.drop_last(), frags, key),
{
    let less = own.drop_last();
    assert forall|k: int| 0 <= k < run.drop_last().len() implies match #[trigger] less[k] {
        Some(i) => {
            &&& 0 <= i < frags.len()
            &&& run.drop_last()[k].frag == frags[i]
            &&& run.drop_last()[k].sender == key.sender
        },
        None => arrival_key(run.drop_last()[k]) != key,
    } by {
        assert(own[k] == less[k]);
    }
}

/// Before an own fragment arrives, what has arrived of the message is kept, whatever else has.
proof fn lemma_kept_among_others(
    state: ReassemblerView,
    frags: Seq<FragmentView>,
    msg: MessageView,
    key: FragmentKey,
    run: Seq<Arrival>,
    own: Seq<Option<int>>,
    first: int,
)
    requires
        is_split(frags, msg),
        key.sequence_number == msg.sequence_number,
        msg.data.len() <= state.max_message_size,
        labelled(run, own, frags, key),
        first_own(own, first),
        run_in_time(run, first, state.timeout),
        !covers(own_numbers(own), frags.len()),
        !unexpired(state.pending, run[first].now, state.timeout).contains_key(key),
    ensures
        ({
            let (after, outcomes) = process_run(state, run);
            &&& outcomes.len() == run.len()
            &&& forall|k: int|
                0 <= k < run.len() && own[k] is Some ==> #[trigger] outcomes[k] is None
            &&& after.pending.contains_key(key)
            &&& holds_arrivals(
                after.pending[key],
                frags,
                msg,
                own_numbers(own),
                run[first].created_at,
            )
            &&& after.timeout == state.timeout
            &&& after.max_message_size == state.max_message_size
        }),
    decreases run.len(),
{
    let n = run.len() - 1;
    let last = run[n];
    let less = own.drop_last();
    let earlier = run.drop_last();
    let (before, outcomes) = process_run(state, earlier);
    lemma_labelled_earlier(run, own, frags, key);
    assert(own[n] == own.last());
    if first == n {
        assert forall|k: int| 0 <= k < less.len() implies #[trigger] less[k] is None by {
            assert(own[k] is None);
        }
        lemma_others_only(state, earlier, less, frags, key);
        let i = own[n]->0;
        assert(fragment_of(frags[i], i, frags.len(), msg));
        lemma_one_more(
            fresh_set(frags[i], last.created_at),
            frags,
            msg,
            own_numbers(less),
            i,
            last.created_at,
        );
    } else {
        assert forall|k: int| 0 <= k < first implies #[trigger] less[k] is None by {
            assert(own[k] is None);
        }
        assert(less[first] == own[first]);
        assert forall|k: int| first < k < earlier.len() implies #[trigger] earlier[k].now
            <= earlier[first].created_at + state.timeout by {
            assert(earlier[k] == run[k]);
        }
        if covers(own_numbers(less), frags.len()) {
            assert forall|j: int| 0 <= j < frags.len() implies #[trigger] own_numbers(
                own,
            ).contains(j) by {
                assert(own_numbers(less).contains(j));
                if let Some(i) = own[n] {
                    lemma_push_contains(own_numbers(less), i, j);
                }
            }
        }
        lemma_kept_among_others(state, frags, msg, key, earlier, less, first);
        assert(run[n].now <= run[first].created_at + state.timeout);
        let live = unexpired(before.pending, last.now, before.timeout);
        assert(live.contains_key(key));
        match own[n] {
            Some(i) => {
                assert(fragment_of(frags[i], i, frags.len(), msg));
                lemma_one_more(
                    live[key],
                    frags,
                    msg,
                    own_numbers(less),
                    i,
                    run[first].created_at,
                );
            },
            None => {
                law_other_messages_untouched(
                    before,
                    last.frag,
                    last.sender,
                    last.now,
                    last.created_at,
                    key,
                );
            },
        }
        let all = process_run(state, run).1;
        assert forall|k: int| 0 <= k < run.len() && own[k] is Some implies #[trigger] all[k]
            is None by {
            if k < n {
                assert(less[k] == own[k]);
                assert(outcomes[k] is None);
            }
        }
    }
}

/// A message comes out whole, and just once, when the last of its fragments arrives, with any
/// fragments of other messages, from the same sender or from others, in between. Its own may
/// arrive in any order, and more than once before that.
///
/// The message must not exceed the size limit, no set may be pending for it, and nothing may come
/// later than the timeout after its first fragment.
pub proof fn law_reassembly_among_others(
    state: ReassemblerView,
    frags: Seq<FragmentView>,
    msg: MessageView,
    key: FragmentKey,
    run: Seq<Arrival>,
    own: Seq<Option<int>>,
    first: int,
)
    requires
        is_split(frags, msg),
        key.sequence_number == msg.sequence_number,
        msg.data.len() <= state.max_message_size,
        labelled(run, own, frags, key),
        first_own(own, first),
        run_in_time(run, first, state.timeout),
        covers(own_numbers(own), frags.len()),
        !covers(own_numbers(own.drop_last()), frags.len()),
        !unexpired(state.pending, run[first].now, state.timeout).contains_key(key),
    ensures
        ({
            let (after, outcomes) = process_run(state, run);
            &&& outcomes.len() == run.len()
            &&& forall|k: int|
                0 <= k < run.len() - 1 && own[k] is Some ==> #[trigger] outcomes[k] is None
            &&& outcomes.last() == Some(msg)
            &&& !after.pending.contains_key(key)
        }),
{
    let n = run.len() - 1;
    let last = run[n];
    let less = own.drop_last();
    let earlier = run.drop_last();
    let (before, outcomes) = process_run(state, earlier);
    let live = unexpired(before.pending, last.now, before.timeout);
    lemma_labelled_earlier(run, own, frags, key);
    assert(own[n] == own.last());
    let i = own[n]->0;
    let numbers = own_numbers(less);
    assert(own_numbers(own) == numbers.push(i));
    assert(fragment_of(frags[i], i, frags.len(), msg));
    assert(!numbers.contains(i)) by {
        let j = choose|j: int| 0 <= j < frags.len() && !#[trigger] numbers.contains(j);
        assert(own_numbers(own).contains(j));
        lemma_push_contains(numbers, i, j);
    }
    let set = if first == n {
        fresh_set(frags[i], last.created_at)
    } else {
        live[key]
    };
    if first == n {
        assert forall|k: int| 0 <= k < less.len() implies #[trigger] less[k] is None by {
            assert(own[k] is None);
        }
        lemma_others_only(state, earlier, less, frags, key);
    } else {
        assert forall|k: int| 0 <= k < first implies #[trigger] less[k] is None by {
            assert(own[k] is None);
        }
        assert(less[first] == own[first]);
        assert forall|k: int| first < k < earlier.len() implies #[trigger] earlier[k].now
            <= earlier[first].created_at + state.timeout by {
            assert(earlier[k] == run[k]);
        }
        lemma_kept_among_others(state, frags, msg, key, earlier, less, first);
        assert(run[n].now <= run[first].created_at + state.timeout);
        assert(live.contains_key(key));
    }
    lemma_one_more(set, frags, msg, numbers, i, run[first].created_at);
    let full = stored_set(named_set(set, frags[i]), frags[i]);
    lemma_all_bytes(full, frags, msg, own_numbers(own), run[first].created_at);
    assert(own_numbers(own).contains(0));
    let all = process_run(state, run).1;
    assert forall|k: int| 0 <= k < n && own[k] is Some implies #[trigger] all[k] is None by {
        assert(less[k] == own[k]);
        assert(first != n);
        assert(outcomes[k] is None);
    }
}

/// Whether each of a chain of states comes from the one before by processing the fragment at its
/// place, at readings of the reassembler's own clock, with the outcome at its place.
pub open spec fn clocked_chain(
    chain: Seq<ClockedView>,
    run: Seq<(FragmentView, SocketAddr)>,
    outcomes: Seq<Option<MessageView>>,
) -> bool {
    &&& chain.len() == run.len() + 1
    &&& outcomes.len() == run.len()
    &&& forall|k: int|
        0 <= k < run.len() ==> clocked_step(
            chain[k],
            (#[trigger] run[k]).0,
            run[k].1,
            chain[k + 1],
            outcomes[k],
        )
}

/// Whether `own` says of each fragment of a run which fragment of the message under `key` it is,
/// if any.
pub open spec fn labelled_run(
    run: Seq<(FragmentView, SocketAddr)>,
    own: Seq<Option<int>>,
    frags: Seq<FragmentView>,
    key: FragmentKey,
) -> bool {
    &&& own.len() == run.len()
    &&& forall|k: int|
        0 <= k < run.len() ==> match #[trigger] own[k] {
            Some(i) => 0 <= i < frags.len() && run[k] == (frags[i], key.sender),
            None => run[k].1 != key.sender || run[k].0.sequence_number != key.sequence_number,
        }
}

/// A reading is not less than the one before.
proof fn lemma_reading_grows(origin: Instant, before: nat, reading: nat)
    requires
        clock_reads(origin, before, reading),
    ensures
        before <= reading,
{
}

/// A chain of states is a run of arrivals at readings that never go down.
proof fn lemma_chain_run(
    chain: Seq<ClockedView>,
    run: Seq<(FragmentView, SocketAddr)>,
    outcomes: Seq<Option<MessageView>>,
) -> (arrivals: Seq<Arrival>)
    requires
        clocked_chain(chain, run, outcomes),
    ensures
        arrivals.len() == run.len(),
        process_run(chain[0].state, arrivals) == (chain.last().state, outcomes),
        chain[0].reading <= chain.last().reading,
        forall|k: int|
            0 <= k < run.len() ==> {
                &&& (#[trigger] arrivals[k]).frag == run[k].0
                &&& arrivals[k].sender == run[k].1
                &&& arrivals[k].now <= arrivals[k].created_at
                &&& arrivals[k].created_at == chain[k + 1].reading
                &&& chain[k].reading <= arrivals[k].now
                &&& arrivals[k].created_at <= chain.last().reading
            },
    decreases run.len(),
{
    if run.len() == 0 {
        assert(outcomes =~= Seq::empty());
        Seq::empty()
    } else {
        let n = run.len() - 1;
        let less = chain.drop_last();
        assert forall|k: int| 0 <= k < run.drop_last().len() implies clocked_step(
            less[k],
            (#[trigger] run.drop_last()[k]).0,
            run.drop_last()[k].1,
            less[k + 1],
            outcomes.drop_last()[k],
        ) by {
            assert(run[k] == run.drop_last()[k]);
        }
        let earlier = lemma_chain_run(less, run.drop_last(), outcomes.drop_last());
        assert(run[n] == run.last());
        let (now, created_at) = choose|now: nat, created_at: nat|
            {
                &&& #[trigger] process_fragment(
                    chain[n].state,
                    run[n].0,
                    run[n].1,
                    now,
                    created_at,
                ) == (chain[n + 1].state, outcomes[n])
                &&& clock_reads(chain[n].origin, chain[n].reading, now)
                &&& clock_reads(chain[n].origin, now, created_at)
                &&& chain[n + 1].reading == created_at
                &&& chain[n + 1].origin == chain[n].origin
            };
        lemma_reading_grows(chain[n].origin, chain[n].reading, now);
        lemma_reading_grows(chain[n].origin, now, created_at);
        let last = Arrival { frag: run[n].0, sender: run[n].1, now, created_at };
        let arrivals = earlier.push(last);
        assert(arrivals.drop_last() =~= earlier);
        assert(outcomes.drop_last().push(outcomes[n]) =~= outcomes);
        assert forall|k: int| 0 <= k < run.len() implies {
            &&& (#[trigger] arrivals[k]).frag == run[k].0
            &&& arrivals[k].sender == run[k].1
            &&& arrivals[k].now <= arrivals[k].created_at
            &&& arrivals[k].created_at == chain[k + 1].reading
            &&& chain[k].reading <= arrivals[k].now
            &&& arrivals[k].created_at <= chain.last().reading
        } by {
            if k < n {
                assert(earlier[k] == arrivals[k]);
                assert(run.drop_last()[k] == run[k]);
                assert(less[k + 1] == chain[k + 1]);
            }
        }
        arrivals
    }
}

/// However long a reassembler has been in use: a message comes out whole, and just once, with the
/// last of its fragments, if that is processed within the timeout of the first one by the
/// reassembler's own clock. Fragments of other messages may come in between, and its own in any
/// order and more than once before that.
///
/// The message must not exceed the size limit, and no set may be pending for it.
pub proof fn law_delivered_within_timeout(
    chain: Seq<ClockedView>,
    run: Seq<(FragmentView, SocketAddr)>,
    outcomes: Seq<Option<MessageView>>,
    frags: Seq<FragmentView>,
    msg: MessageView,
    key: FragmentKey,
    own: Seq<Option<int>>,
    first: int,
)
    requires
        clocked_chain(chain, run, outcomes),
        is_split(frags, msg),
        key.sequence_number == msg.sequence_number,
        msg.data.len() <= chain[0].state.max_message_size,
        !chain[0].state.pending.contains_key(key),
        labelled_run(run, own, frags, key),
        first_own(own, first),
        covers(own_numbers(own), frags.len()),
        !covers(own_numbers(own.drop_last()), frags.len()),
        chain.last().reading <= chain[first + 1].reading + chain[0].state.timeout,
    ensures
        forall|k: int| 0 <= k < run.len() - 1 && own[k] is Some ==> #[trigger] outcomes[k] is None,
        outcomes.last() == Some(msg),
        !chain.last().state.pending.contains_key(key),
{
    let arrivals = lemma_chain_run(chain, run, outcomes);
    assert forall|k: int| 0 <= k < arrivals.len() implies match #[trigger] own[k] {
        Some(i) => {
            &&& 0 <= i < frags.len()
            &&& arrivals[k].frag == frags[i]
            &&& arrivals[k].sender == key.sender
        },
        None => arrival_key(arrivals[k]) != key,
    } by {
        assert(arrivals[k].frag == run[k].0);
    }
    assert(arrivals[first].created_at == chain[first + 1].reading);
    assert forall|k: int| first < k < arrivals.len() implies #[trigger] arrivals[k].now
        <= arrivals[first].created_at + chain[0].state.timeout by {
        assert(arrivals[k].now <= chain.last().reading);
    }
    law_reassembly_among_others(chain[0].state, frags, msg, key, arrivals, own, first);
}

/// By the reassembler's own clock nothing is kept beyond the timeout: whatever is pending after a
/// fragment is no older than the timeout was when the clock was last read before.
pub proof fn law_clock_expires_sets(
    before: ClockedView,
    frag: FragmentView,
    sender: SocketAddr,
    after: ClockedView,
    outcome: Option<MessageView>,
    key: FragmentKey,
)
    requires
        clocked_step(before, frag, sender, after, outcome),
        after.state.pending.contains_key(key),
    ensures
        before.reading <= after.state.pending[key].created_at + before.state.timeout,
{
    let (now, created_at) = choose|now: nat, created_at: nat|
        {
            &&& #[trigger] process_fragment(before.state, frag, sender, now, created_at) == (
                after.state,
                outcome,
            )
            &&& clock_reads(before.origin, before.reading, now)
            &&& clock_reads(before.origin, now, created_at)
            &&& after.reading == created_at
            &&& after.origin == before.origin
        };
    lemma_reading_grows(before.origin, before.reading, now);
    lemma_reading_grows(before.origin, now, created_at);
}

/// By the reassembler's own clock nothing is lost before the timeout: a pending set of another
/// message that is no older than the timeout when the fragment was processed stays as it is.
pub proof fn law_clock_spares_sets(
    before: ClockedView,
    frag: FragmentView,
    sender: SocketAddr,
    after: ClockedView,
    outcome: Option<MessageView>,
    key: FragmentKey,
)
    requires
        clocked_step(before, frag, sender, after, outcome),
        before.state.pending.contains_key(key),
        key.sender != sender || key.sequence_number != frag.sequence_number,
        after.reading <= before.state.pending[key].created_at + before.state.timeout,
    ensures
        after.state.pending.contains_key(key),
        after.state.pending[key] == before.state.pending[key],
{
    let (now, created_at) = choose|now: nat, created_at: nat|
        {
            &&& #[trigger] process_fragment(before.state, frag, sender, now, created_at) == (
                after.state,
                outcome,
            )
            &&& clock_reads(before.origin, before.reading, now)
            &&& clock_reads(before.origin, now, created_at)
            &&& after.reading == created_at
            &&& after.origin == before.origin
        };
    lemma_reading_grows(before.origin, now, created_at);
}

/// The clock does not go down from fragment to fragment, nor is it started anew, and the limits of
/// a reassembler stay what they are.
pub proof fn law_clock_and_limits_kept(
    before: ClockedView,
    frag: FragmentView,
    sender: SocketAddr,
    after: ClockedView,
    outcome: Option<MessageView>,
)
    requires
        clocked_step(before, frag, sender, after, outcome),
    ensures
        before.reading <= after.reading,
        after.origin == before.origin,
        after.state.timeout == before.state.timeout,
        after.state.max_message_size == before.state.max_message_size,
{
    let (now, created_at) = choose|now: nat, created_at: nat|
        {
            &&& #[trigger] process_fragment(before.state, frag, sender, now, created_at) == (
                after.state,
                outcome,
            )
            &&& clock_reads(before.origin, before.reading, now)
            &&& clock_reads(before.origin, now, created_at)
            &&& after.reading == created_at
            &&& after.origin == before.origin
        };
    lemma_reading_grows(before.origin, before.reading, now);
    lemma_reading_grows(before.origin, now, created_at);
}

/// A fragment is processed by two readings of the reassembler's own clock: old sets expire by one
/// that is not earlier than the last reading before, and a set made for the fragment is stamped
/// with the last reading of all, which is not earlier than that.
pub proof fn law_processed_by_clock(
    before: ClockedView,
    frag: FragmentView,
    sender: SocketAddr,
    after: ClockedView,
    outcome: Option<MessageView>,
)
    requires
        clocked_step(before, frag, sender, after, outcome),
    ensures
        exists|now: nat|
            {
                &&& #[trigger] process_fragment(
                    before.state,
                    frag,
                    sender,
                    now,
                    after.reading,
                ) == (after.state, outcome)
                &&& before.reading <= now <= after.reading
                &&& clock_reads(before.origin, before.reading, now)
                &&& clock_reads(before.origin, now, after.reading)
            },
{
    let (now, created_at) = choose|now: nat, created_at: nat|
        {
            &&& #[trigger] process_fragment(before.state, frag, sender, now, created_at) == (
                after.state,
                outcome,
            )
            &&& clock_reads(before.origin, before.reading, now)
            &&& clock_reads(before.origin, now, created_at)
            &&& after.reading == created_at
            &&& after.origin == before.origin
        };
    lemma_reading_grows(before.origin, before.reading, now);
    lemma_reading_grows(before.origin, now, created_at);
    assert(process_fragment(before.state, frag, sender, now, after.reading) == (
        after.state,
        outcome,
    ));
}

/// A set that is made for a fragment is stamped with the clock's last reading, and takes its sizes
/// from the fragment.
pub proof fn law_new_set_stamped(
    before: ClockedView,
    frag: FragmentView,
    sender: SocketAddr,
    after: ClockedView,
    outcome: Option<MessageView>,
    key: FragmentKey,
)
    requires
        clocked_step(before, frag, sender, after, outcome),
        !before.state.pending.contains_key(key),
        after.state.pending.contains_key(key),
    ensures
        key == (FragmentKey { sender, sequence_number: frag.sequence_number }),
        after.state.pending[key].created_at == after.reading,
        after.state.pending[key].payload_size == frag.payload_size,
        after.state.pending[key].n_fragments == frag.n_fragments,
        after.state.pending[key].received.len() == frag.n_fragments,
        after.state.pending[key].buffer.len() == frag.payload_size,
{
}

/// A duplicate changes nothing and completes nothing, whatever name and data it carries: a fragment
/// that agrees with the earlier ones about the size of the message and the number of its fragments,
/// and whose number has arrived.
pub proof fn law_duplicate_ignored(
    state: ReassemblerView,
    frag: FragmentView,
    sender: SocketAddr,
    now: nat,
    created_at: nat,
)
    requires
        ({
            let key = FragmentKey { sender, sequence_number: frag.sequence_number };
            let live = unexpired(state.pending, now, state.timeout);
            &&& live.contains_key(key)
            &&& frag.payload_size == live[key].payload_size
            &&& frag.n_fragments == live[key].n_fragments
            &&& frag.fragment_number < live[key].received.len()
            &&& live[key].received[frag.fragment_number as int]
        }),
    ensures
        process_fragment(state, frag, sender, now, created_at) == (
            ReassemblerView { pending: unexpired(state.pending, now, state.timeout), ..state },
            None::<MessageView>,
        ),
{
    let key = FragmentKey { sender, sequence_number: frag.sequence_number };
    let live = unexpired(state.pending, now, state.timeout);
    assert(live.insert(key, live[key]) =~= live);
}

/// A fragment that fits is stored, whatever has arrived before: its data overwrites the payload
/// from its offset on and nothing else, its number counts as received, and a first fragment names
/// the message. The message comes out just where no other number is missing; else the set is kept.
/// Where no set is pending, that is so of a set of zeros in which nothing was received.
pub proof fn law_fitting_fragment_stored(
    state: ReassemblerView,
    frag: FragmentView,
    sender: SocketAddr,
    now: nat,
    created_at: nat,
    set: SetView,
)
    requires
        frag.payload_size <= state.max_message_size,
        ({
            let key = FragmentKey { sender, sequence_number: frag.sequence_number };
            let live = unexpired(state.pending, now, state.timeout);
            if live.contains_key(key) {
                set == live[key]
            } else {
                &&& set.channel == Seq::<char>::empty()
                &&& set.payload_size == frag.payload_size
                &&& set.n_fragments == frag.n_fragments
                &&& set.received.len() == frag.n_fragments
                &&& forall|i: int| 0 <= i < set.received.len() ==> !#[trigger] set.received[i]
                &&& set.buffer.len() == frag.payload_size
                &&& forall|p: int| 0 <= p < set.buffer.len() ==> #[trigger] set.buffer[p] == 0
                &&& set.created_at == created_at
            }
        }),
        frag.payload_size == set.payload_size,
        frag.n_fragments == set.n_fragments,
        frag.fragment_number < set.received.len(),
        !set.received[frag.fragment_number as int],
        frag.fragment_offset + frag.data.len() <= set.buffer.len(),
    ensures
        ({
            let key = FragmentKey { sender, sequence_number: frag.sequence_number };
            let live = unexpired(state.pending, now, state.timeout);
            let n = frag.fragment_number as int;
            let (after, outcome) = process_fragment(state, frag, sender, now, created_at);
            let last = forall|i: int|
                0 <= i < set.received.len() && i != n ==> #[trigger] set.received[i];
            let buffer = if outcome is Some {
                outcome->0.data
            } else {
                after.pending[key].buffer
            };
            let channel = if outcome is Some {
                outcome->0.channel
            } else {
                after.pending[key].channel
            };
            &&& outcome is Some <==> last
            &&& outcome is Some ==> {
                &&& outcome->0.sequence_number == frag.sequence_number
                &&& after.pending == live.remove(key)
            }
            &&& outcome is None ==> {
                &&& after.pending == live.insert(key, after.pending[key])
                &&& after.pending[key].payload_size == set.payload_size
                &&& after.pending[key].n_fragments == set.n_fragments
                &&& after.pending[key].created_at == set.created_at
                &&& after.pending[key].received == set.received.update(n, true)
            }
            &&& channel == if n == 0 && frag.channel is Some {
                frag.channel->0
            } else {
                set.channel
            }
            &&& buffer.len() == set.buffer.len()
            &&& forall|p: int|
                0 <= p < buffer.len() ==> #[trigger] buffer[p] == if frag.fragment_offset <= p
                    < frag.fragment_offset + frag.data.len() {
                    frag.data[p - frag.fragment_offset]
                } else {
                    set.buffer[p]
                }
        }),
{
    let key = FragmentKey { sender, sequence_number: frag.sequence_number };
    let live = unexpired(state.pending, now, state.timeout);
    let n = frag.fragment_number as int;
    if !live.contains_key(key) {
        let fresh = fresh_set(frag, created_at);
        assert(set.received =~= fresh.received);
        assert(set.buffer =~= fresh.buffer);
        assert(set == fresh);
    }
    let named = named_set(set, frag);
    let full = stored_set(named, frag);
    assert(full.received == set.received.update(n, true));
    if complete(full) {
        assert forall|i: int| 0 <= i < set.received.len() && i != n implies #[trigger]
            set.received[i] by {
            assert(full.received[i]);
        }
    }
    if forall|i: int| 0 <= i < set.received.len() && i != n ==> #[trigger] set.received[i] {
        assert forall|i: int| 0 <= i < full.received.len() implies #[trigger] full.received[i] by {
            if i != n {
                assert(set.received[i]);
            }
        }
    }
    let after = process_fragment(state, frag, sender, now, created_at).0;
    if !complete(full) {
        assert(after.pending =~= live.insert(key, after.pending[key]));
    }
}

/// The first fragment to arrive of a message, where it does not fit, leaves an empty set behind.
pub proof fn law_unfit_begins_message(
    state: ReassemblerView,
    frag: FragmentView,
    sender: SocketAddr,
    now: nat,
    created_at: nat,
)
    requires
        frag.payload_size <= state.max_message_size,
        !unexpired(state.pending, now, state.timeout).contains_key(
            FragmentKey { sender, sequence_number: frag.sequence_number },
        ),
        frag.fragment_number >= frag.n_fragments || frag.fragment_offset + frag.data.len()
            > frag.payload_size,
    ensures
        ({
            let key = FragmentKey { sender, sequence_number: frag.sequence_number };
            let live = unexpired(state.pending, now, state.timeout);
            let (after, outcome) = process_fragment(state, frag, sender, now, created_at);
            let set = after.pending[key];
            &&& outcome is None
            &&& after.pending == live.insert(key, set)
            &&& set.channel == if frag.fragment_number == 0 && frag.channel is Some {
                frag.channel->0
            } else {
                Seq::empty()
            }
            &&& set.payload_size == frag.payload_size
            &&& set.n_fragments == frag.n_fragments
            &&& set.created_at == created_at
            &&& set.received.len() == frag.n_fragments
            &&& set.buffer.len() == frag.payload_size
            &&& forall|i: int| 0 <= i < set.received.len() ==> !#[trigger] set.received[i]
            &&& forall|p: int| 0 <= p < set.buffer.len() ==> #[trigger] set.buffer[p] == 0
        }),
{
    let key = FragmentKey { sender, sequence_number: frag.sequence_number };
    let live = unexpired(state.pending, now, state.timeout);
    let after = process_fragment(state, frag, sender, now, created_at).0;
    assert(after.pending =~= live.insert(key, after.pending[key]));
}

/// A fragment that disagrees with the earlier ones about the size of the message or the number of
/// its fragments, or that is none of them, or whose data lies outside the payload, adds no data
/// and completes nothing. A first fragment still names the message, unless it is a duplicate;
/// nothing else changes.
pub proof fn law_unfit_adds_nothing(
    state: ReassemblerView,
    frag: FragmentView,
    sender: SocketAddr,
    now: nat,
    created_at: nat,
)
    requires
        frag.payload_size <= state.max_message_size,
        ({
            let key = FragmentKey { sender, sequence_number: frag.sequence_number };
            let live = unexpired(state.pending, now, state.timeout);
            &&& live.contains_key(key)
            &&& {
                ||| frag.payload_size != live[key].payload_size
                ||| frag.n_fragments != live[key].n_fragments
                ||| frag.fragment_number >= live[key].received.len()
                ||| frag.fragment_offset + frag.data.len() > live[key].buffer.len()
            }
        }),
    ensures
        ({
            let key = FragmentKey { sender, sequence_number: frag.sequence_number };
            let live = unexpired(state.pending, now, state.timeout);
            let set = live[key];
            let duplicate = frag.payload_size == set.payload_size && frag.n_fragments
                == set.n_fragments && frag.fragment_number < set.received.len()
                && set.received[frag.fragment_number as int];
            let channel = if frag.fragment_number == 0 && frag.channel is Some && !duplicate {
                frag.channel->0
            } else {
                set.channel
            };
            process_fragment(state, frag, sender, now, created_at) == (
                ReassemblerView {
                    pending: live.insert(key, SetView { channel, ..set }),
                    ..state
                },
                None::<MessageView>,
            )
        }),
{
}

/// A message above the size limit is refused at its first fragment: no set is made for it and
/// nothing comes out.
pub proof fn law_oversized_rejected(
    state: ReassemblerView,
    frag: FragmentView,
    sender: SocketAddr,
    now: nat,
    created_at: nat,
)
    requires
        frag.payload_size > state.max_message_size,
    ensures
        process_fragment(state, frag, sender, now, created_at) == (
            ReassemblerView { pending: unexpired(state.pending, now, state.timeout), ..state },
            None::<MessageView>,
        ),
{
}

/// A fragment touches the set of its own sender and sequence number only: any other set stays as
/// it is, unless it has expired.
pub proof fn law_other_messages_untouched(
    state: ReassemblerView,
    frag: FragmentView,
    sender: SocketAddr,
    now: nat,
    created_at: nat,
    other: FragmentKey,
)
    requires
        other != (FragmentKey { sender, sequence_number: frag.sequence_number }),
    ensures
        ({
            let after = process_fragment(state, frag, sender, now, created_at).0;
            let live = unexpired(state.pending, now, state.timeout);
            &&& after.pending.contains_key(other) == live.contains_key(other)
            &&& live.contains_key(other) ==> after.pending[other] == state.pending[other]
        }),
{
}

/// What a fragment completes, and what is kept of its message, depends on nothing but the set of
/// its own sender and sequence number.
pub proof fn law_senders_kept_apart(
    one: ReassemblerView,
    two: ReassemblerView,
    frag: FragmentView,
    sender: SocketAddr,
    now: nat,
    created_at: nat,
)
    requires
        one.timeout == two.timeout,
        one.max_message_size == two.max_message_size,
        ({
            let key = FragmentKey { sender, sequence_number: frag.sequence_number };
            &&& one.pending.contains_key(key) == two.pending.contains_key(key)
            &&& one.pending.contains_key(key) ==> one.pending[key] == two.pending[key]
        }),
    ensures
        ({
            let key = FragmentKey { sender, sequence_number: frag.sequence_number };
            let (after_one, out_one) = process_fragment(one, frag, sender, now, created_at);
            let (after_two, out_two) = process_fragment(two, frag, sender, now, created_at);
            &&& out_one == out_two
            &&& after_one.pending.contains_key(key) == after_two.pending.contains_key(key)
            &&& after_one.pending.contains_key(key) ==> after_one.pending[key]
                == after_two.pending[key]
        }),
{
}

/// After a fragment no set is older than the timeout.
pub proof fn law_stale_sets_dropped(
    state: ReassemblerView,
    frag: FragmentView,
    sender: SocketAddr,
    now: nat,
    created_at: nat,
    key: FragmentKey,
)
    requires
        now <= created_at,
        process_fragment(state, frag, sender, now, created_at).0.pending.contains_key(key),
    ensures
        now <= process_fragment(
            state,
            frag,
            sender,
            now,
            created_at,
        ).0.pending[key].created_at + state.timeout,
{
}

/// A set that has exceeded the timeout is as good as none: the message starts afresh.
pub proof fn law_expired_set_forgotten(
    state: ReassemblerView,
    frag: FragmentView,
    sender: SocketAddr,
    now: nat,
    created_at: nat,
    key: FragmentKey,
)
    requires
        state.pending.contains_key(key),
        now > state.pending[key].created_at + state.timeout,
    ensures
        process_fragment(state, frag, sender, now, created_at) == process_fragment(
            ReassemblerView { pending: state.pending.remove(key), ..state },
            frag,
            sender,
            now,
            created_at,
        ),
{
    let without = state.pending.remove(key);
    assert(unexpired(state.pending, now, state.timeout) =~= unexpired(
        without,
        now,
        state.timeout,
    ));
}

/// A set that has not exceeded the timeout counts, just as it is, and no other does.
pub proof fn law_unexpired_sets(
    pending: Map<FragmentKey, SetView>,
    now: nat,
    timeout: nat,
    key: FragmentKey,
)
    ensures
        unexpired(pending, now, timeout).contains_key(key) <==> pending.contains_key(key) && now
            <= pending[key].created_at + timeout,
        unexpired(pending, now, timeout).contains_key(key) ==> unexpired(
            pending,
            now,
            timeout,
        )[key] == pending[key],
{
}

} // verus!
