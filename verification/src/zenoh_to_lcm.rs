//! The way from Zenoh to LCM: samples under the key prefix become LCM messages.
use crate::config::{channel_allowed, is_allowed, Config};
use crate::mapping::{
    channel_extracted, key_channel, key_expr_to_lcm_channel, KeyExpr, MappingError,
};
use crate::text::{append_all, joined};
use std::collections::HashSet;
use vstd::prelude::*;

verus! {

/// How many sent sequence numbers are kept before old ones are discarded.
pub const MAX_SENT_SEQUENCES: usize = 10_000;

/// How far behind the latest sequence number those reach that are kept.
pub const SENT_SEQUENCE_WINDOW: u32 = 5_000;

/// Where publications may come from or go to.
#[derive(Clone, Copy, Debug, PartialEq, Eq, Structural)]
pub enum Locality {
    /// Within the same session only.
    SessionLocal,
    /// To and from other sessions only.
    Remote,
    /// Everywhere.
    Any,
}

/// The oldest sequence number that is kept beside the latest one.
pub open spec fn cutoff(latest_seq: u32) -> int {
    if latest_seq < SENT_SEQUENCE_WINDOW {
        0
    } else {
        latest_seq - SENT_SEQUENCE_WINDOW
    }
}

/// What is left of the sent sequence numbers: all of them while they are few, else those that are
/// not older than the window.
pub open spec fn pruned(seqs: Set<u32>, latest_seq: u32) -> Set<u32> {
    if seqs.len() > MAX_SENT_SEQUENCES {
        seqs.filter(|s: u32| s >= cutoff(latest_seq))
    } else {
        seqs
    }
}

/// Prune the sent-sequences set when it grows too large.
///
/// Since sequence numbers are monotonically increasing, we keep a window of
/// recent numbers and discard everything older. This runs O(n) once per ~5k
/// inserts (amortised O(1) per insert).
pub fn prune_sent_sequences(seqs: &mut HashSet<u32>, latest_seq: u32)
    ensures
        final(seqs)@ == pruned(old(seqs)@, latest_seq),
{
    broadcast use vstd::std_specs::hash::group_hash_axioms;

    if seqs.len() > MAX_SENT_SEQUENCES {
        let from: u32 = latest_seq.saturating_sub(SENT_SEQUENCE_WINDOW);
        let mut kept: HashSet<u32> = HashSet::new();
        let ghost before = seqs@;
        for s in it: seqs.iter()
            invariant
                from == cutoff(latest_seq),
                it.seq().unref().to_set() == before,
                forall|x: u32|
                    kept@.contains(x) <==> x >= from && it.seq().unref().take(
                        it.index(),
                    ).contains(x),
                it.index() == it.seq().len() ==> kept@ == before.filter(|x: u32| x >= from),
        {
            let ghost all = it.seq().unref();
            let ghost i = it.index();
            if *s >= from {
                kept.insert(*s);
            }
            proof {
                assert(all.take(i + 1) =~= all.take(i).push(*s));
                assert forall|x: u32| all.take(i + 1).contains(x) == (all.take(i).contains(x) || x
                    == *s) by {
                    lemma_push(all.take(i), *s, x);
                }
                assert(i + 1 == all.len() ==> all.take(i + 1) =~= all);
                assert(i + 1 == all.len() ==> kept@ =~= before.filter(|x: u32| x >= from));
            }
        }
        assert(kept@ =~= pruned(before, latest_seq));
        *seqs = kept;
    }
}

/// Records the sequence number of a message that was sent, for loop prevention.
pub fn record_sent(seqs: &mut HashSet<u32>, seq: u32)
    ensures
        final(seqs)@ == pruned(old(seqs)@.insert(seq), seq),
{
    broadcast use vstd::std_specs::hash::group_hash_axioms;

    seqs.insert(seq);
    prune_sent_sequences(seqs, seq);
}

/// What the bridge subscribes to.
#[derive(Debug)]
pub struct Subscription {
    /// The key expression.
    pub key: String,
    /// Where publications may come from. Those of this session are left out: they are the ones
    /// that the bridge made of LCM messages.
    pub origin: Locality,
}

/// Subscribes to everything under the key prefix, as far as it comes from other sessions.
pub fn subscription(config: &Config) -> (subscription: Subscription)
    ensures
        subscription.key@ == config.key_prefix@ + "/**"@,
        subscription.origin == Locality::Remote,
{
    let mut key = String::new();
    append_all(&mut key, &[config.key_prefix.as_str(), "/**"]);
    proof {
        reveal_with_fuel(joined, 3);
        assert(key@ =~= config.key_prefix@ + "/**"@);
    }
    Subscription { key, origin: Locality::Remote }
}

/// What the subscriber brings.
#[derive(Debug)]
pub enum ZenohEvent {
    /// A publication.
    Sample { key: KeyExpr, payload: Vec<u8> },
    /// The subscriber failed.
    SubscriberError,
}

/// What is to be done about it.
#[derive(Debug)]
pub enum ZenohAction {
    /// The task ends.
    Stop,
    /// The publication is dropped: its key stands for no channel.
    SkipNoChannel { error: MappingError },
    /// The publication is dropped: the filter refuses its channel.
    SkipNotAllowed,
    /// The payload is sent to the multicast group.
    Send { channel: String, payload: Vec<u8> },
}

/// Whether `action` is what is to be done about a publication.
pub open spec fn sample_handled(
    key: Seq<char>,
    payload: Seq<u8>,
    config: Config,
    action: ZenohAction,
) -> bool {
    let channel = key_channel(key, config.key_prefix@);
    match action {
        ZenohAction::Stop => false,
        ZenohAction::SkipNoChannel { error } => channel_extracted(
            key,
            config.key_prefix@,
            Err(error),
        ),
        ZenohAction::SkipNotAllowed => channel matches Some(name) && !channel_allowed(name, config),
        ZenohAction::Send { channel: name, payload: data } => {
            &&& channel == Some(name@)
            &&& channel_allowed(name@, config)
            &&& data@ == payload
        },
    }
}

/// Decides what to do about what the subscriber brings: a publication under the prefix, on a
/// channel that the filter lets through, is sent with its payload as it is.
pub fn on_zenoh_event(event: ZenohEvent, config: &Config) -> (action: ZenohAction)
    ensures
        match event {
            ZenohEvent::Sample { key, payload } => sample_handled(
                key@,
                payload@,
                *config,
                action,
            ),
            ZenohEvent::SubscriberError => action is Stop,
        },
{
    match event {
        ZenohEvent::SubscriberError => ZenohAction::Stop,
        ZenohEvent::Sample { key, payload } => {
            match key_expr_to_lcm_channel(&key, config.key_prefix.as_str()) {
                Ok(channel) => {
                    if is_allowed(channel, config) {
                        ZenohAction::Send { channel: channel.to_owned(), payload }
                    } else {
                        ZenohAction::SkipNotAllowed
                    }
                },
                Err(error) => ZenohAction::SkipNoChannel { error },
            }
        },
    }
}

proof fn lemma_push(list: Seq<u32>, s: u32, x: u32)
    ensures
        list.push(s).contains(x) == (list.contains(x) || x == s),
{
    let after = list.push(s);
    if list.contains(x) {
        assert(after[list.index_of(x)] == x);
    }
    if x == s {
        assert(after[list.len() as int] == x);
    }
    if after.contains(x) && x != s {
        let k = after.index_of(x);
        assert(list[k] == x);
    }
}

} // verus!
