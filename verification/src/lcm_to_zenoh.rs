//! The way from LCM to Zenoh: messages of the multicast group become publications.
use crate::config::{channel_allowed, is_allowed, Config};
use crate::fragment::{FragmentKey, FragmentReassembler, ReassemblerView, SetView};
use crate::mapping::{channel_mapped, lcm_channel_to_key_expr, KeyExpr, MappingError};
use crate::types::{LcmMessage, MessageView};
use crate::zenoh_to_lcm::Locality;
use core::time::Duration;
use std::collections::HashSet;
use vstd::prelude::*;

verus! {

/// How long, in seconds, a message may stay incomplete.
pub const REASSEMBLY_TIMEOUT_SECS: u64 = 1;

/// The reassembler for the messages that are received.
pub fn new_reassembler(config: &Config) -> (reassembler: FragmentReassembler)
    ensures
        reassembler.wf(),
        reassembler@ == (ReassemblerView {
            pending: Map::<FragmentKey, SetView>::empty(),
            timeout: 1_000_000_000,
            max_message_size: config.max_message_size as nat,
        }),
{
    FragmentReassembler::new(
        Duration::from_secs(REASSEMBLY_TIMEOUT_SECS),
        config.max_message_size,
    )
}

/// What receiving brings.
#[derive(Debug)]
pub enum LcmEvent {
    /// A complete message.
    Message { message: LcmMessage },
    /// Receiving failed.
    ReceiveError,
}

/// What is to be done about it.
#[derive(Debug)]
pub enum LcmAction {
    /// Nothing was received; receiving goes on.
    Retry,
    /// The message is dropped: the bridge sent it.
    SkipLoopback,
    /// The message is dropped: the filter refuses its channel.
    SkipNotAllowed,
    /// The message is dropped: its channel has no key.
    SkipUnmapped { error: MappingError },
    /// The payload is published.
    Publish {
        key: KeyExpr,
        payload: Vec<u8>,
        /// Where the publication may go. This session is left out, so that the subscriber of the
        /// bridge does not pick it up.
        destination: Locality,
    },
}

/// Whether `action` is what is to be done about a message, where `sent` holds the sequence
/// numbers of the messages that the bridge sent.
pub open spec fn message_handled(
    message: MessageView,
    config: Config,
    sent: Set<u32>,
    action: LcmAction,
) -> bool {
    let looped_back = sent.contains(message.sequence_number);
    let allowed = channel_allowed(message.channel, config);
    match action {
        LcmAction::Retry => false,
        LcmAction::SkipLoopback => looped_back,
        LcmAction::SkipNotAllowed => !looped_back && !allowed,
        LcmAction::SkipUnmapped { error } => {
            &&& !looped_back && allowed
            &&& channel_mapped(message.channel, config.key_prefix@, Err(error))
        },
        LcmAction::Publish { key, payload, destination } => {
            &&& !looped_back && allowed
            &&& channel_mapped(message.channel, config.key_prefix@, Ok(key))
            &&& payload@ == message.data
            &&& destination == Locality::Remote
        },
    }
}

/// Decides what to do about what receiving brings: a message that the bridge did not send, on a
/// channel that the filter lets through, is published with its payload as it is. The sequence
/// number of a message is forgotten once it was received.
pub fn on_lcm_event(event: LcmEvent, config: &Config, sent: &mut HashSet<u32>) -> (action:
    LcmAction)
    ensures
        match event {
            LcmEvent::Message { message } => {
                &&& message_handled(message@, *config, old(sent)@, action)
                &&& final(sent)@ == old(sent)@.remove(message.sequence_number)
            },
            LcmEvent::ReceiveError => action is Retry && final(sent)@ == old(sent)@,
        },
{
    broadcast use vstd::std_specs::hash::group_hash_axioms;

    match event {
        LcmEvent::ReceiveError => LcmAction::Retry,
        LcmEvent::Message { message } => {
            if sent.remove(&message.sequence_number) {
                return LcmAction::SkipLoopback;
            }
            if !is_allowed(message.channel.as_str(), config) {
                return LcmAction::SkipNotAllowed;
            }
            match lcm_channel_to_key_expr(message.channel.as_str(), config.key_prefix.as_str()) {
                Ok(key) => LcmAction::Publish {
                    key,
                    payload: message.data,
                    destination: Locality::Remote,
                },
                Err(error) => LcmAction::SkipUnmapped { error },
            }
        },
    }
}

} // verus!
