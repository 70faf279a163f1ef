//! Reassembly of fragmented LCM messages, with a timeout and a bound on the message size.
use crate::addr::SocketAddr;
use crate::clock::{clock_reads, duration_nanos, Clock};
use crate::protocol::{Fragment, FragmentView};
use crate::types::{message_contents, LcmMessage, MessageView};
use core::time::Duration;
use std::time::Instant;
use vstd::prelude::*;

verus! {

/// Key for fragment reassembly: sender address and sequence number. Publishers that happen to
/// share a sequence number are kept apart by their addresses.
#[derive(Clone, Copy, Debug, PartialEq, Eq, Structural)]
pub struct FragmentKey {
    pub sender: SocketAddr,
    pub sequence_number: u32,
}

/// What has arrived of one message.
pub struct SetView {
    /// The channel name, empty until the first fragment has arrived.
    pub channel: Seq<char>,
    pub payload_size: u32,
    pub n_fragments: u16,
    /// For each fragment number, whether that fragment was stored.
    pub received: Seq<bool>,
    /// The payload, zero where nothing was stored yet.
    pub buffer: Seq<u8>,
    /// The clock reading, in nanoseconds, when the set was made.
    pub created_at: nat,
}

/// What a reassembler holds.
pub struct ReassemblerView {
    /// The messages that are not complete yet.
    pub pending: Map<FragmentKey, SetView>,
    /// The longest time, in nanoseconds, that a message may stay incomplete.
    pub timeout: nat,
    /// The largest payload that is accepted.
    pub max_message_size: nat,
}

/// How old a set is. A clock that went backwards makes it no age at all.
pub open spec fn age(set: SetView, now: nat) -> nat {
    if now < set.created_at {
        0
    } else {
        (now - set.created_at) as nat
    }
}

/// The sets that have not exceeded the timeout.
pub open spec fn unexpired(
    pending: Map<FragmentKey, SetView>,
    now: nat,
    timeout: nat,
) -> Map<FragmentKey, SetView> {
    Map::new(
        |key: FragmentKey| pending.contains_key(key) && age(pending[key], now) <= timeout,
        |key: FragmentKey| pending[key],
    )
}

/// The empty set for the message that a fragment belongs to.
pub open spec fn fresh_set(frag: FragmentView, created_at: nat) -> SetView {
    SetView {
        channel: Seq::empty(),
        payload_size: frag.payload_size,
        n_fragments: frag.n_fragments,
        received: Seq::new(frag.n_fragments as nat, |i: int| false),
        buffer: Seq::new(frag.payload_size as nat, |i: int| 0u8),
        created_at,
    }
}

/// A set after it has taken over the channel name of a first fragment.
pub open spec fn named_set(set: SetView, frag: FragmentView) -> SetView {
    match frag.channel {
        Some(channel) if frag.fragment_number == 0 => SetView { channel, ..set },
        _ => set,
    }
}

/// Whether a fragment is stored: it agrees with the set about the message, its number is one
/// that has not arrived yet, and its data lies within the payload.
pub open spec fn fits(set: SetView, frag: FragmentView) -> bool {
    &&& frag.payload_size == set.payload_size
    &&& frag.n_fragments == set.n_fragments
    &&& frag.fragment_number < set.received.len()
    &&& !set.received[frag.fragment_number as int]
    &&& frag.fragment_offset + frag.data.len() <= set.buffer.len()
}

/// Whether a fragment is a duplicate: it agrees with the set about the message, and its number has
/// arrived before.
pub open spec fn is_duplicate(set: SetView, frag: FragmentView) -> bool {
    &&& frag.payload_size == set.payload_size
    &&& frag.n_fragments == set.n_fragments
    &&& frag.fragment_number < set.received.len()
    &&& set.received[frag.fragment_number as int]
}

/// `buffer` with `data` written at `at`.
pub open spec fn overwritten(buffer: Seq<u8>, at: int, data: Seq<u8>) -> Seq<u8> {
    buffer.take(at) + data + buffer.skip(at + data.len())
}

/// A set after a fragment that fits was stored.
pub open spec fn stored_set(set: SetView, frag: FragmentView) -> SetView {
    SetView {
        received: set.received.update(frag.fragment_number as int, true),
        buffer: overwritten(set.buffer, frag.fragment_offset as int, frag.data),
        ..set
    }
}

/// Whether every fragment has arrived.
pub open spec fn complete(set: SetView) -> bool {
    forall|i: int| 0 <= i < set.received.len() ==> #[trigger] set.received[i]
}

/// The set of `key` that a fragment is looked up in or made for.
pub open spec fn current_set(
    live: Map<FragmentKey, SetView>,
    key: FragmentKey,
    frag: FragmentView,
    created_at: nat,
) -> SetView {
    if live.contains_key(key) {
        live[key]
    } else {
        fresh_set(frag, created_at)
    }
}

/// What a reassembler holds after a fragment, and the message that the fragment completed.
///
/// A duplicate leaves no trace. Any other first fragment names the message, even where it does not
/// fit and its data is dropped.
///
/// `now` is the clock reading by which old sets expire, `created_at` the one that a set made for
/// this fragment is stamped with.
pub open spec fn process_fragment(
    state: ReassemblerView,
    frag: FragmentView,
    sender: SocketAddr,
    now: nat,
    created_at: nat,
) -> (ReassemblerView, Option<MessageView>) {
    let live = unexpired(state.pending, now, state.timeout);
    let key = FragmentKey { sender, sequence_number: frag.sequence_number };
    if frag.payload_size > state.max_message_size {
        (ReassemblerView { pending: live, ..state }, None)
    } else {
        let set = current_set(live, key, frag, created_at);
        let named = named_set(set, frag);
        if is_duplicate(set, frag) {
            (ReassemblerView { pending: live.insert(key, set), ..state }, None)
        } else if !fits(named, frag) {
            (ReassemblerView { pending: live.insert(key, named), ..state }, None)
        } else {
            let full = stored_set(named, frag);
            if complete(full) {
                (
                    ReassemblerView { pending: live.remove(key), ..state },
                    Some(
                        MessageView {
                            channel: full.channel,
                            sequence_number: frag.sequence_number,
                            data: full.buffer,
                        },
                    ),
                )
            } else {
                (ReassemblerView { pending: live.insert(key, full), ..state }, None)
            }
        }
    }
}

/// Whether a fragment may lead from one state to another with the given outcome, at some pair of
/// clock readings.
pub open spec fn fragment_step(
    before: ReassemblerView,
    frag: FragmentView,
    sender: SocketAddr,
    after: ReassemblerView,
    outcome: Option<MessageView>,
) -> bool {
    exists|now: nat, created_at: nat|
        #[trigger] process_fragment(before, frag, sender, now, created_at) == (after, outcome)
}

/// A reassembler with its clock.
pub struct ClockedView {
    pub state: ReassemblerView,
    /// When the clock was started.
    pub origin: Instant,
    /// The clock's last reading, in nanoseconds.
    pub reading: nat,
}

/// Whether a fragment leads from one state to another with the given outcome, at two successive
/// readings of the reassembler's own clock.
pub open spec fn clocked_step(
    before: ClockedView,
    frag: FragmentView,
    sender: SocketAddr,
    after: ClockedView,
    outcome: Option<MessageView>,
) -> bool {
    exists|now: nat, created_at: nat|
        {
            &&& #[trigger] process_fragment(before.state, frag, sender, now, created_at) == (
                after.state,
                outcome,
            )
            &&& clock_reads(before.origin, before.reading, now)
            &&& clock_reads(before.origin, now, created_at)
            &&& after.reading == created_at
            &&& after.origin == before.origin
        }
}

/// How many entries are `true`.
pub open spec fn count_true(flags: Seq<bool>) -> nat
    decreases flags.len(),
{
    if flags.len() == 0 {
        0
    } else {
        count_true(flags.drop_last()) + if flags.last() {
            1nat
        } else {
            0nat
        }
    }
}

proof fn lemma_count_bound(flags: Seq<bool>)
    ensures
        count_true(flags) <= flags.len(),
        count_true(flags) == flags.len() <==> (forall|i: int|
            0 <= i < flags.len() ==> #[trigger] flags[i]),
    decreases flags.len(),
{
    if flags.len() > 0 {
        let rest = flags.drop_last();
        lemma_count_bound(rest);
        if count_true(flags) == flags.len() {
            assert forall|i: int| 0 <= i < flags.len() implies #[trigger] flags[i] by {
                if i < rest.len() {
                    assert(rest[i]);
                }
            }
        }
        if forall|i: int| 0 <= i < flags.len() ==> #[trigger] flags[i] {
            assert(flags[flags.len() - 1]);
            assert forall|i: int| 0 <= i < rest.len() implies #[trigger] rest[i] by {
                assert(flags[i]);
            }
        }
    }
}

proof fn lemma_count_set(flags: Seq<bool>, at: int)
    requires
        0 <= at < flags.len(),
        !flags[at],
    ensures
        count_true(flags.update(at, true)) == count_true(flags) + 1,
    decreases flags.len(),
{
    let after = flags.update(at, true);
    if at == flags.len() - 1 {
        assert(after.drop_last() =~= flags.drop_last());
    } else {
        lemma_count_set(flags.drop_last(), at);
        assert(after.drop_last() =~= flags.drop_last().update(at, true));
    }
}

proof fn lemma_count_none(flags: Seq<bool>)
    requires
        forall|i: int| 0 <= i < flags.len() ==> !#[trigger] flags[i],
    ensures
        count_true(flags) == 0,
    decreases flags.len(),
{
    if flags.len() > 0 {
        let rest = flags.drop_last();
        assert forall|i: int| 0 <= i < rest.len() implies !#[trigger] rest[i] by {
            assert(!flags[i]);
        }
        lemma_count_none(rest);
        assert(!flags[flags.len() - 1]);
    }
}

/// State for an in-progress fragment reassembly.
#[derive(Debug)]
struct FragmentSet {
    channel: String,
    payload_size: u32,
    n_fragments: u16,
    fragments_received: u16,
    buffer: Vec<u8>,
    /// Tracks which fragment numbers have been received, so that none is counted twice.
    received_mask: Vec<bool>,
    created_at: u128,
}

impl View for FragmentSet {
    type V = SetView;

    closed spec fn view(&self) -> SetView {
        SetView {
            channel: self.channel@,
            payload_size: self.payload_size,
            n_fragments: self.n_fragments,
            received: self.received_mask@,
            buffer: self.buffer@,
            created_at: self.created_at as nat,
        }
    }
}

impl FragmentSet {
    /// The mask has one entry per fragment, the counter counts the mask, and the buffer has the
    /// size of the payload.
    spec fn wf(self) -> bool {
        &&& self.received_mask@.len() == self.n_fragments
        &&& self.fragments_received == count_true(self.received_mask@)
        &&& self.buffer@.len() == self.payload_size
    }

    /// The empty set for the message that `fragment` belongs to.
    fn new(fragment: &Fragment<'_>, created_at: u128) -> (set: Self)
        ensures
            set.wf(),
            set@ == fresh_set(fragment@, created_at as nat),
    {
        let buffer: Vec<u8> = vec![0u8; fragment.payload_size as usize];
        let received_mask: Vec<bool> = vec![false; fragment.n_fragments as usize];
        let set = FragmentSet {
            channel: String::new(),
            payload_size: fragment.payload_size,
            n_fragments: fragment.n_fragments,
            fragments_received: 0,
            buffer,
            received_mask,
            created_at,
        };
        proof {
            lemma_count_none(set.received_mask@);
            assert(set@.received =~= fresh_set(fragment@, created_at as nat).received);
            assert(set@.buffer =~= fresh_set(fragment@, created_at as nat).buffer);
        }
        set
    }

    /// Takes over the channel name of a first fragment.
    fn take_channel(&mut self, fragment: &Fragment<'_>)
        requires
            old(self).wf(),
        ensures
            final(self).wf(),
            final(self)@ == named_set(old(self)@, fragment@),
    {
        if fragment.fragment_number == 0 {
            if let Some(channel) = fragment.channel {
                self.channel = channel.to_owned();
            }
        }
    }

    /// Whether `fragment` is a duplicate.
    fn has_received(&self, fragment: &Fragment<'_>) -> (duplicate: bool)
        requires
            self.wf(),
        ensures
            duplicate == is_duplicate(self@, fragment@),
    {
        if fragment.payload_size != self.payload_size || fragment.n_fragments != self.n_fragments {
            return false;
        }
        let frag_idx: usize = fragment.fragment_number as usize;
        frag_idx < self.received_mask.len() && self.received_mask[frag_idx]
    }

    /// Whether `fragment` is consistent with the set, new to it and within its payload.
    fn accepts(&self, fragment: &Fragment<'_>) -> (accepted: bool)
        requires
            self.wf(),
        ensures
            accepted == fits(self@, fragment@),
    {
        if fragment.payload_size != self.payload_size || fragment.n_fragments != self.n_fragments {
            return false;
        }
        let frag_idx: usize = fragment.fragment_number as usize;
        if frag_idx >= self.received_mask.len() {
            return false;
        }
        if self.received_mask[frag_idx] {
            return false;
        }
        let offset: usize = fragment.fragment_offset as usize;
        let len: usize = fragment.data.len();
        len <= self.buffer.len() && offset <= self.buffer.len() - len
    }

    /// Copies the data of a fragment that fits into the buffer and marks it as received.
    fn store(&mut self, fragment: &Fragment<'_>)
        requires
            old(self).wf(),
            fits(old(self)@, fragment@),
        ensures
            final(self).wf(),
            final(self)@ == stored_set(old(self)@, fragment@),
    {
        let ghost before = self@;
        let frag_idx: usize = fragment.fragment_number as usize;
        let offset: usize = fragment.fragment_offset as usize;
        let len: usize = fragment.data.len();
        let total: usize = self.buffer.len();
        proof {
            lemma_count_set(self.received_mask@, frag_idx as int);
            lemma_count_bound(self.received_mask@.update(frag_idx as int, true));
        }
        let mut i: usize = 0;
        while i < len
            invariant
                i <= len == fragment.data@.len(),
                offset + len <= total == before.buffer.len(),
                self.buffer@ == overwritten(
                    before.buffer,
                    offset as int,
                    fragment.data@.take(i as int),
                ),
                *self == (FragmentSet { buffer: self.buffer, ..*old(self) }),
            decreases len - i,
        {
            self.buffer.set(offset + i, fragment.data[i]);
            i = i + 1;
            assert(self.buffer@ =~= overwritten(
                before.buffer,
                offset as int,
                fragment.data@.take(i as int),
            ));
        }
        assert(fragment.data@.take(len as int) =~= fragment.data@);
        self.received_mask.set(frag_idx, true);
        self.fragments_received = self.fragments_received + 1;
    }

    /// Whether all fragments have arrived.
    fn is_complete(&self) -> (done: bool)
        requires
            self.wf(),
        ensures
            done == complete(self@),
    {
        proof {
            lemma_count_bound(self.received_mask@);
            assert(self@.received == self.received_mask@);
        }
        self.fragments_received == self.n_fragments
    }

    /// Whether the set has exceeded the timeout.
    fn expired(&self, now: u128, timeout: u128) -> (expired: bool)
        ensures
            expired == (age(self@, now as nat) > timeout),
    {
        now > self.created_at && now - self.created_at > timeout
    }
}

/// One entry of the table of pending sets.
#[derive(Debug)]
struct PendingSet {
    key: FragmentKey,
    set: FragmentSet,
}

/// Whether the entries' keys are all different.
spec fn distinct_keys(entries: Seq<PendingSet>) -> bool {
    forall|i: int, j: int|
        0 <= i < j < entries.len() ==> (#[trigger] entries[i]).key != (#[trigger] entries[j]).key
}

/// Whether some entry has the key.
spec fn has_key(entries: Seq<PendingSet>, key: FragmentKey) -> bool {
    exists|i: int| 0 <= i < entries.len() && (#[trigger] entries[i]).key == key
}

/// The table as a map.
spec fn pending_map(entries: Seq<PendingSet>) -> Map<FragmentKey, SetView> {
    Map::new(
        |key: FragmentKey| has_key(entries, key),
        |key: FragmentKey|
            entries[choose|i: int|
                0 <= i < entries.len() && (#[trigger] entries[i]).key == key].set@,
    )
}

proof fn lemma_entry(entries: Seq<PendingSet>, i: int)
    requires
        distinct_keys(entries),
        0 <= i < entries.len(),
    ensures
        pending_map(entries).contains_key(entries[i].key),
        pending_map(entries)[entries[i].key] == entries[i].set@,
{
    let key = entries[i].key;
    let j = choose|j: int| 0 <= j < entries.len() && (#[trigger] entries[j]).key == key;
    assert(has_key(entries, key));
    if i < j {
        assert(entries[i].key != entries[j].key);
    } else if j < i {
        assert(entries[j].key != entries[i].key);
    }
}

proof fn lemma_push(entries: Seq<PendingSet>, entry: PendingSet)
    requires
        distinct_keys(entries),
        !has_key(entries, entry.key),
    ensures
        distinct_keys(entries.push(entry)),
        pending_map(entries.push(entry)) == pending_map(entries).insert(entry.key, entry.set@),
{
    let after = entries.push(entry);
    assert forall|i: int, j: int| 0 <= i < j < after.len() implies (#[trigger] after[i]).key
        != (#[trigger] after[j]).key by {
        assert(after[i] == entries[i]);
        if j < entries.len() {
            assert(after[j] == entries[j]);
        }
    }
    lemma_entry(after, entries.len() as int);
    assert forall|key: FragmentKey| #[trigger]
        pending_map(after).contains_key(key) == pending_map(entries).insert(
            entry.key,
            entry.set@,
        ).contains_key(key) by {
        if has_key(entries, key) {
            let i = choose|i: int| 0 <= i < entries.len() && (#[trigger] entries[i]).key == key;
            assert(after[i].key == key);
        }
        if has_key(after, key) && key != entry.key {
            let i = choose|i: int| 0 <= i < after.len() && (#[trigger] after[i]).key == key;
            assert(entries[i].key == key);
        }
    }
    assert forall|key: FragmentKey| #[trigger]
        pending_map(after).contains_key(key) implies pending_map(after)[key] == pending_map(
        entries,
    ).insert(entry.key, entry.set@)[key] by {
        if key != entry.key {
            let i = choose|i: int| 0 <= i < after.len() && (#[trigger] after[i]).key == key;
            assert(entries[i] == after[i]);
            lemma_entry(after, i);
            lemma_entry(entries, i);
        }
    }
    assert(pending_map(after) =~= pending_map(entries).insert(entry.key, entry.set@));
}

/// Taking an entry out, whichever way the others are rearranged, takes its key out of the map.
proof fn lemma_take_out(entries: Seq<PendingSet>, at: int)
    requires
        distinct_keys(entries),
        0 <= at < entries.len(),
    ensures
        ({
            let after = entries.update(at, entries.last()).drop_last();
            &&& distinct_keys(after)
            &&& !has_key(after, entries[at].key)
            &&& pending_map(after) == pending_map(entries).remove(entries[at].key)
        }),
{
    let last = entries.len() - 1;
    let after = entries.update(at, entries.last()).drop_last();
    let gone = entries[at].key;
    assert forall|i: int, j: int| 0 <= i < j < after.len() implies (#[trigger] after[i]).key
        != (#[trigger] after[j]).key by {
        let i0 = if i == at { last } else { i };
        let j0 = if j == at { last } else { j };
        assert(after[i] == entries[i0] && after[j] == entries[j0]);
    }
    assert forall|i: int| 0 <= i < after.len() implies (#[trigger] after[i]).key != gone by {
        let i0 = if i == at { last } else { i };
        assert(after[i] == entries[i0]);
    }
    assert forall|key: FragmentKey| #[trigger]
        pending_map(after).contains_key(key) == pending_map(entries).remove(gone).contains_key(
            key,
        ) by {
        if has_key(after, key) {
            let i = choose|i: int| 0 <= i < after.len() && (#[trigger] after[i]).key == key;
            let i0 = if i == at { last } else { i };
            assert(entries[i0].key == key);
        }
        if has_key(entries, key) && key != gone {
            let i = choose|i: int| 0 <= i < entries.len() && (#[trigger] entries[i]).key == key;
            let i1 = if i == last { at } else { i };
            assert(after[i1].key == key);
        }
    }
    assert forall|key: FragmentKey| #[trigger]
        pending_map(after).contains_key(key) implies pending_map(after)[key] == pending_map(
        entries,
    ).remove(gone)[key] by {
        let i = choose|i: int| 0 <= i < after.len() && (#[trigger] after[i]).key == key;
        let i0 = if i == at { last } else { i };
        assert(after[i] == entries[i0]);
        lemma_entry(after, i);
        lemma_entry(entries, i0);
    }
    assert(pending_map(after) =~= pending_map(entries).remove(gone));
}

/// Reassembles fragmented LCM messages.
#[derive(Debug)]
pub struct FragmentReassembler {
    /// In-progress fragment sets, at most one for each sender and sequence number.
    pending: Vec<PendingSet>,
    /// Maximum time, in nanoseconds, to wait for all fragments before discarding.
    timeout: u128,
    /// Maximum total payload size allowed, which guards against memory exhaustion.
    max_message_size: usize,
    clock: Clock,
}

impl View for FragmentReassembler {
    type V = ReassemblerView;

    closed spec fn view(&self) -> ReassemblerView {
        ReassemblerView {
            pending: pending_map(self.pending@),
            timeout: self.timeout as nat,
            max_message_size: self.max_message_size as nat,
        }
    }
}

impl FragmentReassembler {
    /// The invariant of a reassembler: no key occurs twice, and every set is well-formed, within
    /// the size bound and, unless it is for a message of no fragments at all, not complete.
    pub closed spec fn wf(self) -> bool {
        &&& distinct_keys(self.pending@)
        &&& forall|i: int|
            0 <= i < self.pending@.len() ==> self.holds((#[trigger] self.pending@[i]).set)
    }

    spec fn holds(self, set: FragmentSet) -> bool {
        &&& set.wf()
        &&& set.payload_size <= self.max_message_size
        &&& set.n_fragments > 0 ==> !complete(set@)
    }

    /// However many fragments arrive, a pending message takes no more memory than the size bound
    /// allows, its bookkeeping matches its header, and it is not complete.
    pub proof fn law_pending_sets_bounded(self, key: FragmentKey)
        requires
            self.wf(),
            self@.pending.contains_key(key),
        ensures
            self@.pending[key].buffer.len() == self@.pending[key].payload_size,
            self@.pending[key].payload_size <= self@.max_message_size,
            self@.pending[key].received.len() == self@.pending[key].n_fragments,
            self@.pending[key].n_fragments > 0 ==> !complete(self@.pending[key]),
    {
        let i = choose|i: int|
            0 <= i < self.pending@.len() && (#[trigger] self.pending@[i]).key == key;
        lemma_entry(self.pending@, i);
    }

    /// When the clock was started.
    pub closed spec fn clock_origin(self) -> Instant {
        self.clock.origin()
    }

    /// The clock's last reading, zero before the first.
    pub closed spec fn clock_reading(self) -> nat {
        self.clock.last()
    }

    /// The reassembler with its clock.
    pub open spec fn clocked(self) -> ClockedView {
        ClockedView {
            state: self@,
            origin: self.clock_origin(),
            reading: self.clock_reading(),
        }
    }

    /// A reassembler with nothing pending.
    pub fn new(timeout: Duration, max_message_size: usize) -> (reassembler: Self)
        ensures
            reassembler.wf(),
            reassembler@ == (ReassemblerView {
                pending: Map::empty(),
                timeout: duration_nanos(timeout),
                max_message_size: max_message_size as nat,
            }),
            reassembler.clock_reading() == 0,
    {
        let reassembler = FragmentReassembler {
            pending: Vec::new(),
            timeout: timeout.as_nanos(),
            max_message_size,
            clock: Clock::start(),
        };
        assert(reassembler@.pending =~= Map::empty());
        reassembler
    }

    /// Whether any message is incomplete.
    pub fn has_pending(&self) -> (some: bool)
        requires
            self.wf(),
        ensures
            some == (self@.pending != Map::<FragmentKey, SetView>::empty()),
    {
        proof {
            if self.pending@.len() == 0 {
                assert(self@.pending =~= Map::empty());
            } else {
                lemma_entry(self.pending@, 0);
            }
        }
        self.pending.len() != 0
    }

    /// Process a fragment. Returns `Some` when all fragments of its message have arrived.
    ///
    /// `sender` identifies the source of this fragment, used together with the sequence number to
    /// distinguish fragments from different LCM publishers. The clock is read twice: to expire
    /// old sets, and to stamp a set that is made for this fragment.
    pub fn process(&mut self, fragment: &Fragment<'_>, sender: SocketAddr) -> (message: Option<
        LcmMessage,
    >)
        requires
            old(self).wf(),
        ensures
            final(self).wf(),
            fragment_step(old(self)@, fragment@, sender, final(self)@, message_contents(message)),
            clocked_step(
                old(self).clocked(),
                fragment@,
                sender,
                final(self).clocked(),
                message_contents(message),
            ),
    {
        let now: u128 = self.clock.nanos();
        let created_at: u128 = self.clock.nanos();
        let message = self.process_at(fragment, sender, now, created_at);
        assert(process_fragment(
            old(self)@,
            fragment@,
            sender,
            now as nat,
            created_at as nat,
        ) == (self@, message_contents(message)));
        proof {
            let before = old(self).clocked();
            let after = self.clocked();
            assert(process_fragment(
                before.state,
                fragment@,
                sender,
                now as nat,
                created_at as nat,
            ) == (after.state, message_contents(message)));
            assert(clock_reads(before.origin, before.reading, now as nat));
            assert(clock_reads(before.origin, now as nat, created_at as nat));
            assert(after.reading == created_at);
            assert(after.origin == before.origin);
        }
        message
    }

    /// Process a fragment at given clock readings: `now` is what old sets expire by, `created_at`
    /// what a set made for this fragment is stamped with.
    pub fn process_at(
        &mut self,
        fragment: &Fragment<'_>,
        sender: SocketAddr,
        now: u128,
        created_at: u128,
    ) -> (message: Option<LcmMessage>)
        requires
            old(self).wf(),
        ensures
            final(self).wf(),
            (final(self)@, message_contents(message)) == process_fragment(
                old(self)@,
                fragment@,
                sender,
                now as nat,
                created_at as nat,
            ),
            final(self).clock_origin() == old(self).clock_origin(),
            final(self).clock_reading() == old(self).clock_reading(),
    {
        self.expire_stale(now);
        if fragment.payload_size as usize > self.max_message_size {
            return None;
        }
        let ghost live = self@.pending;
        let key = FragmentKey { sender, sequence_number: fragment.sequence_number };
        let mut set = self.take_set(key, fragment, created_at);
        let ghost table = self.pending@;
        if !set.has_received(fragment) {
            set.take_channel(fragment);
            if set.accepts(fragment) {
                set.store(fragment);
                if set.is_complete() {
                    return Some(
                        LcmMessage {
                            channel: set.channel,
                            sequence_number: fragment.sequence_number,
                            data: set.buffer,
                        },
                    );
                }
            }
        }
        let entry = PendingSet { key, set };
        proof {
            lemma_push(table, entry);
            assert(live.remove(key).insert(key, entry.set@) =~= live.insert(key, entry.set@));
        }
        self.pending.push(entry);
        None
    }

    /// Takes the set of `key` out of the table, or makes one for `fragment` where there is none.
    fn take_set(&mut self, key: FragmentKey, fragment: &Fragment<'_>, created_at: u128) -> (set:
        FragmentSet)
        requires
            old(self).wf(),
            fragment.payload_size <= old(self).max_message_size,
        ensures
            final(self).wf(),
            !has_key(final(self).pending@, key),
            final(self)@ == (ReassemblerView {
                pending: old(self)@.pending.remove(key),
                ..old(self)@
            }),
            final(self).holds(set),
            final(self).clock == old(self).clock,
            set@ == if old(self)@.pending.contains_key(key) {
                old(self)@.pending[key]
            } else {
                fresh_set(fragment@, created_at as nat)
            },
    {
        let mut i: usize = 0;
        while i < self.pending.len() && self.pending[i].key != key
            invariant
                i <= self.pending@.len(),
                *self == *old(self),
                forall|j: int| 0 <= j < i ==> (#[trigger] self.pending@[j]).key != key,
            decreases self.pending@.len() - i,
        {
            i = i + 1;
        }
        if i < self.pending.len() {
            proof {
                lemma_entry(self.pending@, i as int);
                lemma_take_out(self.pending@, i as int);
            }
            let ghost before = self.pending@;
            let entry = self.pending.swap_remove(i);
            assert forall|j: int| 0 <= j < self.pending@.len() implies self.holds(
                (#[trigger] self.pending@[j]).set,
            ) by {
                let j0 = if j == i { before.len() - 1 } else { j };
                assert(self.pending@[j] == before[j0]);
            }
            entry.set
        } else {
            assert(self@.pending.remove(key) =~= self@.pending);
            let set = FragmentSet::new(fragment, created_at);
            assert(set.n_fragments > 0 ==> !set@.received[0]);
            set
        }
    }

    /// Remove fragment sets that have exceeded the timeout at the clock reading `now`.
    pub fn expire_stale(&mut self, now: u128)
        requires
            old(self).wf(),
        ensures
            final(self).wf(),
            final(self)@ == (ReassemblerView {
                pending: unexpired(old(self)@.pending, now as nat, old(self)@.timeout),
                ..old(self)@
            }),
            final(self).clock_origin() == old(self).clock_origin(),
            final(self).clock_reading() == old(self).clock_reading(),
    {
        let ghost all = self@.pending;
        let mut i: usize = 0;
        while i < self.pending.len()
            invariant
                self.wf(),
                self.timeout == old(self).timeout,
                self.max_message_size == old(self).max_message_size,
                self.clock == old(self).clock,
                all == old(self)@.pending,
                i <= self.pending@.len(),
                forall|j: int|
                    0 <= j < i ==> age((#[trigger] self.pending@[j]).set@, now as nat)
                        <= self.timeout,
                unexpired(self@.pending, now as nat, self.timeout as nat) == unexpired(
                    all,
                    now as nat,
                    self.timeout as nat,
                ),
            decreases self.pending@.len() - i,
        {
            if self.pending[i].set.expired(now, self.timeout) {
                let ghost before = self.pending@;
                proof {
                    lemma_entry(before, i as int);
                    lemma_take_out(before, i as int);
                }
                self.pending.swap_remove(i);
                proof {
                    assert forall|j: int| 0 <= j < self.pending@.len() implies self.holds(
                        (#[trigger] self.pending@[j]).set,
                    ) by {
                        let j0 = if j == i { before.len() - 1 } else { j };
                        assert(self.pending@[j] == before[j0]);
                    }
                    assert forall|j: int| 0 <= j < i implies age(
                        (#[trigger] self.pending@[j]).set@,
                        now as nat,
                    ) <= self.timeout by {
                        assert(self.pending@[j] == before[j]);
                    }
                    assert(unexpired(pending_map(self.pending@), now as nat, self.timeout as nat)
                        =~= unexpired(pending_map(before), now as nat, self.timeout as nat));
                }
            } else {
                i = i + 1;
            }
        }
        proof {
            assert forall|key: FragmentKey| #[trigger] self@.pending.contains_key(key) implies age(
                self@.pending[key],
                now as nat,
            ) <= self.timeout by {
                let j = choose|j: int|
                    0 <= j < self.pending@.len() && (#[trigger] self.pending@[j]).key == key;
                lemma_entry(self.pending@, j);
            }
            assert(unexpired(self@.pending, now as nat, self.timeout as nat) =~= self@.pending);
        }
    }
}

} // verus!
