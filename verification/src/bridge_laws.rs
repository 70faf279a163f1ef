//! Laws of the bridge as a whole: messages get across as they are, and do not go round in circles.
use crate::config::{channel_allowed, regex_is_match, Config};
use crate::lcm_to_zenoh::{message_handled, LcmAction};
use crate::mapping::{
    channel_key, key_channel, key_expr_valid, law_channel_round_trip, law_key_round_trip,
    MappingError,
};
use crate::transport_laws::{law_sequence_numbers_count_up, sequence_number_after};
use crate::types::MessageView;
use crate::zenoh_to_lcm::{
    cutoff, pruned, sample_handled, Locality, ZenohAction, MAX_SENT_SEQUENCES,
    SENT_SEQUENCE_WINDOW,
};
use vstd::prelude::*;
use vstd::set_lib::{lemma_int_range, lemma_len_subset, lemma_map_size, set_int_range};

verus! {

/// Whether the configured patterns let a channel through: `allow` matches it, where there is one,
/// and `deny` does not, where there is one.
pub open spec fn patterns_pass(channel: Seq<char>, config: Config) -> bool {
    &&& config.allow matches Some(allow) ==> regex_is_match(allow, channel)
    &&& config.deny matches Some(deny) ==> !regex_is_match(deny, channel)
}

/// When a received message is published: its own number is not among those sent, whatever else is,
/// the patterns let its channel through, the name is not empty and holds no `*`, `#` or `$`, and
/// the prefix, a slash and the name make a valid key. It is then published under that key, with its
/// data as it is, to other sessions.
pub proof fn law_when_published(
    message: MessageView,
    config: Config,
    sent: Set<u32>,
    action: LcmAction,
)
    requires
        message_handled(message, config, sent, action),
    ensures
        ({
            let key = config.key_prefix@ + seq!['/'] + message.channel;
            &&& action is Publish <==> {
                &&& !sent.contains(message.sequence_number)
                &&& patterns_pass(message.channel, config)
                &&& message.channel.len() > 0
                &&& !message.channel.contains('*')
                &&& !message.channel.contains('#')
                &&& !message.channel.contains('$')
                &&& key_expr_valid(key)
            }
            &&& action matches LcmAction::Publish { key: published, payload, destination } ==> {
                &&& published@ == key
                &&& payload@ == message.data
                &&& destination == Locality::Remote
            }
        }),
{
}

/// Why a received message is not published. It is taken for one of the bridge's own just where its
/// number is among those sent. Else it is refused by the filter just where the patterns do not let
/// its channel through. Else it has no key, and the error says why.
pub proof fn law_why_not_published(
    message: MessageView,
    config: Config,
    sent: Set<u32>,
    action: LcmAction,
)
    requires
        message_handled(message, config, sent, action),
    ensures
        ({
            let own = sent.contains(message.sequence_number);
            let passes = patterns_pass(message.channel, config);
            &&& action !is Retry
            &&& action is SkipLoopback <==> own
            &&& action is SkipNotAllowed <==> !own && !passes
            &&& action matches LcmAction::SkipUnmapped { error } ==> {
                &&& !own && passes
                &&& error is Reserved <==> message.channel.contains('*')
                    || message.channel.contains('#') || message.channel.contains('$')
                &&& error is EmptyChannel <==> message.channel.len() == 0
                &&& error matches MappingError::Reserved { channel } ==> channel@
                    == message.channel
                &&& error is Reserved || error is EmptyChannel || error is InvalidKey
            }
        }),
{
}

/// What is done about a message depends on the recorded numbers only in so far as its own is among
/// them.
pub proof fn law_other_numbers_do_not_matter(
    message: MessageView,
    config: Config,
    one: Set<u32>,
    two: Set<u32>,
    action: LcmAction,
)
    requires
        one.contains(message.sequence_number) == two.contains(message.sequence_number),
        message_handled(message, config, one, action),
    ensures
        message_handled(message, config, two, action),
{
}

/// When a publication is sent to LCM: its key is the prefix, a slash and a channel that the
/// patterns let through. It is then sent on that channel, with its payload as it is.
pub proof fn law_when_sent(
    prefix: Seq<char>,
    channel: Seq<char>,
    payload: Seq<u8>,
    config: Config,
    action: ZenohAction,
)
    requires
        config.key_prefix@ == prefix,
        sample_handled(prefix + seq!['/'] + channel, payload, config, action),
    ensures
        patterns_pass(channel, config) ==> action is Send,
        !patterns_pass(channel, config) ==> action is SkipNotAllowed,
        action matches ZenohAction::Send { channel: name, payload: data } ==> name@ == channel
            && data@ == payload,
{
    law_channel_round_trip(channel, prefix);
    assert(channel_key(channel, prefix) == prefix + seq!['/'] + channel);
}

/// A publication whose key does not start with the prefix and a slash is dropped, and none other is
/// for its key.
pub proof fn law_when_no_channel(
    key: Seq<char>,
    payload: Seq<u8>,
    config: Config,
    action: ZenohAction,
)
    requires
        sample_handled(key, payload, config, action),
    ensures
        action !is Stop,
        action is SkipNoChannel <==> !(exists|channel: Seq<char>|
            key == #[trigger] (config.key_prefix@ + seq!['/'] + channel)),
        action matches ZenohAction::SkipNoChannel { error } ==> {
            &&& error matches MappingError::WrongPrefix { key: text, expected }
            &&& text@ == key
            &&& expected@ == config.key_prefix@ + seq!['/']
        },
{
    let prefix = config.key_prefix@;
    law_key_round_trip(key, prefix);
    if let Some(channel) = key_channel(key, prefix) {
        assert(key == prefix + seq!['/'] + channel);
    }
    if exists|channel: Seq<char>| key == #[trigger] (prefix + seq!['/'] + channel) {
        let channel = choose|channel: Seq<char>| key == #[trigger] (prefix + seq!['/'] + channel);
        law_channel_round_trip(channel, prefix);
        assert(channel_key(channel, prefix) == key);
    }
}

/// What pruning keeps: everything while there are at most ten thousand numbers, else those that are
/// at most five thousand behind the latest one, or ahead of it.
pub proof fn law_what_pruning_keeps(seqs: Set<u32>, latest_seq: u32, seq: u32)
    ensures
        pruned(seqs, latest_seq).contains(seq) <==> seqs.contains(seq) && (seqs.len() <= 10_000
            || seq + 5_000 >= latest_seq),
{
}

/// A message that the bridge sent is not published when it comes back: its sequence number was
/// recorded, and pruning spares the latest number, however many there are.
pub proof fn law_own_message_not_published(
    recorded: Set<u32>,
    message: MessageView,
    config: Config,
    action: LcmAction,
)
    requires
        message_handled(
            message,
            config,
            pruned(recorded.insert(message.sequence_number), message.sequence_number),
            action,
        ),
    ensures
        action is SkipLoopback,
{
}

/// A sequence number is skipped once: the next message that carries it, from another sender, is
/// not taken for one that the bridge sent.
pub proof fn law_number_skipped_once(
    sent: Set<u32>,
    message: MessageView,
    config: Config,
    action: LcmAction,
)
    requires
        message_handled(message, config, sent.remove(message.sequence_number), action),
    ensures
        action !is SkipLoopback,
{
}

/// Pruning adds nothing, spares everything within the window, and does nothing at all while the
/// set is small.
pub proof fn law_pruning_spares_window(seqs: Set<u32>, latest_seq: u32, seq: u32)
    ensures
        pruned(seqs, latest_seq).contains(seq) ==> seqs.contains(seq),
        seqs.contains(seq) && seq >= cutoff(latest_seq) ==> pruned(seqs, latest_seq).contains(seq),
        seqs.len() <= MAX_SENT_SEQUENCES ==> pruned(seqs, latest_seq) == seqs,
{
}

/// The sent sequence numbers after `count` messages were sent, one after the other, of which the
/// first has the number `from`.
pub open spec fn recorded_run(recorded: Set<u32>, from: u32, count: nat) -> Set<u32>
    decreases count,
{
    if count == 0 {
        recorded
    } else {
        let seq = sequence_number_after(from, (count - 1) as nat);
        pruned(recorded_run(recorded, from, (count - 1) as nat).insert(seq), seq)
    }
}

/// A message that comes back late is still recognized: its sequence number stays recorded while
/// as many further messages are sent as the window is wide, even where the numbers start over.
pub proof fn law_late_loopback_recognized(recorded: Set<u32>, from: u32, later: nat)
    requires
        later <= SENT_SEQUENCE_WINDOW,
    ensures
        recorded_run(recorded, from, later + 1).contains(from),
    decreases later,
{
    law_sequence_numbers_count_up(from, later);
    if later > 0 {
        law_late_loopback_recognized(recorded, from, (later - 1) as nat);
    } else {
        reveal_with_fuel(recorded_run, 2);
    }
}

/// As long as no recorded number lies ahead of the latest one, the set never holds more than its
/// limit after pruning.
pub proof fn law_sent_set_bounded(seqs: Set<u32>, latest_seq: u32)
    requires
        seqs.finite(),
        forall|s: u32| seqs.contains(s) ==> s <= latest_seq,
    ensures
        pruned(seqs, latest_seq).len() <= MAX_SENT_SEQUENCES,
{
    if seqs.len() > MAX_SENT_SEQUENCES {
        let kept = pruned(seqs, latest_seq);
        let from = cutoff(latest_seq);
        lemma_window_size(kept, from, latest_seq as int);
    }
}

/// A set of numbers from a range is no larger than the range.
proof fn lemma_window_size(seqs: Set<u32>, from: int, to: int)
    requires
        seqs.finite(),
        from <= to,
        forall|s: u32| seqs.contains(s) ==> from <= s <= to,
    ensures
        seqs.len() <= to - from + 1,
{
    let f = |s: u32| s as int;
    let numbers = seqs.map(f);
    lemma_map_size(seqs, numbers, f);
    lemma_int_range(from, to + 1);
    lemma_len_subset(numbers, set_int_range(from, to + 1));
}

/// A message that one bridge publishes is sent on by every other bridge with the same prefix
/// whose filter lets the channel through: on the same channel, with the same payload.
pub proof fn law_message_gets_across(
    message: MessageView,
    here: Config,
    sent: Set<u32>,
    published: LcmAction,
    there: Config,
    action: ZenohAction,
)
    requires
        message_handled(message, here, sent, published),
        here.key_prefix@ == there.key_prefix@,
        channel_allowed(message.channel, there),
        published matches LcmAction::Publish { key, payload, .. } && sample_handled(
            key@,
            payload@,
            there,
            action,
        ),
    ensures
        action matches ZenohAction::Send { channel, payload } && channel@ == message.channel
            && payload@ == message.data,
{
    law_channel_round_trip(message.channel, here.key_prefix@);
}

/// A publication that a bridge sends to LCM, and that another bridge with the same prefix takes
/// up from there, is published on the same key, with the same payload.
pub proof fn law_publication_gets_across(
    key: Seq<char>,
    payload: Seq<u8>,
    here: Config,
    action: ZenohAction,
    there: Config,
    sequence_number: u32,
    sent: Set<u32>,
    published: LcmAction,
)
    requires
        sample_handled(key, payload, here, action),
        here.key_prefix@ == there.key_prefix@,
        action matches ZenohAction::Send { channel, payload: data } && message_handled(
            MessageView { channel: channel@, sequence_number, data: data@ },
            there,
            sent,
            published,
        ),
    ensures
        published matches LcmAction::Publish { key: again, payload: data, .. } ==> again@ == key
            && data@ == payload,
{
    law_key_round_trip(key, here.key_prefix@);
}

/// Whatever is published stays out of the session that publishes it.
pub proof fn law_published_to_others_only(
    message: MessageView,
    config: Config,
    sent: Set<u32>,
    action: LcmAction,
)
    requires
        message_handled(message, config, sent, action),
    ensures
        action matches LcmAction::Publish { destination, .. } ==> destination == Locality::Remote,
{
}

} // verus!
