//! Mapping between LCM channel names and Zenoh key expressions.
use crate::text::{after_prefix, append_all, contains_char, joined, strip_prefix};
use vstd::prelude::*;

verus! {

/// Whether a text is a key expression in canonical form, as
/// [`zenoh::key_expr::keyexpr::new`] decides.
pub uninterp spec fn key_expr_valid(text: Seq<char>) -> bool;

/// Whether there is a key that both key expressions match, as
/// [`zenoh::key_expr::keyexpr::intersects`] decides.
pub uninterp spec fn key_expr_intersects(a: Seq<char>, b: Seq<char>) -> bool;

/// Whether the slashes of a text leave no chunk between them empty.
pub open spec fn no_empty_chunk(text: Seq<char>) -> bool {
    &&& text.len() > 0
    &&& text[0] != '/'
    &&& text.last() != '/'
    &&& forall|i: int| 0 <= i < text.len() - 1 && text[i] == '/' ==> #[trigger] text[i + 1] != '/'
}

/// Whether a text holds neither of the two characters that wildcards are made of.
pub open spec fn no_wildcard(text: Seq<char>) -> bool {
    !text.contains('*') && !text.contains('$')
}

/// Whether a text has the form of a key expression as far as its slashes and the two forbidden
/// characters go.
pub open spec fn key_form(text: Seq<char>) -> bool {
    no_empty_chunk(text) && !text.contains('#') && !text.contains('?')
}

/// How everything begins that is said of a text that is no key expression.
pub open spec fn invalid_key_start(text: Seq<char>) -> Seq<char> {
    "Invalid Key Expr `"@ + text + "`: "@
}

/// [`zenoh::key_expr::keyexpr::new`] accepts the key expressions in canonical form. It accepts no
/// text with an empty chunk, a `#` or a `?`; of the texts without wildcard characters it accepts
/// all others. What it prints of a text that it rejects begins by naming the text. What else it
/// asks of wildcards is not stated, nor how what it prints goes on: that ends with a place in
/// Zenoh's source files, which is written differently from one build to another.
#[verifier::external_body]
fn check_key_expr(text: &str) -> (result: Result<(), String>)
    ensures
        result is Ok == key_expr_valid(text@),
        result is Ok ==> key_form(text@),
        no_wildcard(text@) ==> result is Ok == key_form(text@),
        result matches Err(reason) ==> invalid_key_start(text@).is_prefix_of(reason@),
{
    match zenoh::key_expr::keyexpr::new(text) {
        Ok(_) => Ok(()),
        Err(e) => Err(e.to_string()),
    }
}

/// [`zenoh::key_expr::keyexpr::intersects`] says whether there is a key that both key expressions
/// match. Equal ones intersect, and without wildcards no others do. What wildcards match is not
/// stated.
#[verifier::external_body]
fn key_exprs_intersect(a: &str, b: &str) -> (result: bool)
    requires
        key_expr_valid(a@),
        key_expr_valid(b@),
    ensures
        result == key_expr_intersects(a@, b@),
        a@ == b@ ==> result,
        no_wildcard(a@) && no_wildcard(b@) ==> result == (a@ == b@),
{
    let left = zenoh::key_expr::keyexpr::new(a).unwrap();
    let right = zenoh::key_expr::keyexpr::new(b).unwrap();
    left.intersects(right)
}

/// A Zenoh key expression.
#[derive(Debug)]
pub struct KeyExpr {
    text: String,
}

impl View for KeyExpr {
    type V = Seq<char>;

    closed spec fn view(&self) -> Seq<char> {
        self.text@
    }
}

impl KeyExpr {
    #[verifier::type_invariant]
    spec fn wf(self) -> bool {
        key_expr_valid(self.text@) && key_form(self.text@)
    }

    /// Takes a text as a key expression, if it is one in canonical form.
    pub fn new(text: &str) -> (result: Result<Self, String>)
        ensures
            result is Ok == key_expr_valid(text@),
            result matches Ok(key) ==> key@ == text@ && key_form(text@),
            no_wildcard(text@) ==> result is Ok == key_form(text@),
            result matches Err(reason) ==> invalid_key_start(text@).is_prefix_of(reason@),
    {
        match check_key_expr(text) {
            Ok(_) => Ok(KeyExpr { text: text.to_owned() }),
            Err(e) => Err(e),
        }
    }

    /// The key expression as text.
    pub fn as_str(&self) -> (text: &str)
        ensures
            text@ == self@,
            key_expr_valid(self@),
            key_form(self@),
    {
        proof {
            use_type_invariant(self);
        }
        self.text.as_str()
    }

    /// Whether there is a key that both key expressions match.
    pub fn intersects(&self, other: &KeyExpr) -> (result: bool)
        ensures
            result == key_expr_intersects(self@, other@),
            self@ == other@ ==> result,
            no_wildcard(self@) && no_wildcard(other@) ==> result == (self@ == other@),
    {
        key_exprs_intersect(self.as_str(), other.as_str())
    }
}

/// Why a channel has no key expression, or a key expression no channel.
#[derive(Debug)]
pub enum MappingError {
    /// The channel name holds a character that Zenoh reserves.
    Reserved { channel: String },
    /// The channel name is empty.
    EmptyChannel,
    /// The prefix and the channel name do not make a key expression, for the given reason.
    InvalidKey { reason: String },
    /// Nothing follows the prefix.
    NoChannel { key: String, prefix: String },
    /// The key expression does not start with the prefix and a slash.
    WrongPrefix { key: String, expected: String },
}

impl MappingError {
    /// What is said of the error.
    pub open spec fn text(self) -> Seq<char> {
        match self {
            MappingError::Reserved { channel } => "LCM channel '"@ + channel@
                + "' contains Zenoh-reserved characters (* # $)"@,
            MappingError::EmptyChannel => "LCM channel name is empty"@,
            MappingError::InvalidKey { reason } => reason@,
            MappingError::NoChannel { key, prefix } => "Zenoh key '"@ + key@
                + "' has empty channel after prefix '"@ + prefix@ + "'"@,
            MappingError::WrongPrefix { key, expected } => "Zenoh key '"@ + key@
                + "' does not start with expected prefix '"@ + expected@ + "'"@,
        }
    }

    /// What is said of the error.
    pub fn message(&self) -> (message: String)
        ensures
            message@ == self.text(),
    {
        let mut message = String::new();
        proof {
            reveal_with_fuel(joined, 6);
        }
        match self {
            MappingError::Reserved { channel } => {
                append_all(
                    &mut message,
                    &[
                        "LCM channel '",
                        channel.as_str(),
                        "' contains Zenoh-reserved characters (* # $)",
                    ],
                );
            },
            MappingError::EmptyChannel => {
                append_all(&mut message, &["LCM channel name is empty"]);
            },
            MappingError::InvalidKey { reason } => {
                append_all(&mut message, &[reason.as_str()]);
            },
            MappingError::NoChannel { key, prefix } => {
                append_all(
                    &mut message,
                    &[
                        "Zenoh key '",
                        key.as_str(),
                        "' has empty channel after prefix '",
                        prefix.as_str(),
                        "'",
                    ],
                );
            },
            MappingError::WrongPrefix { key, expected } => {
                append_all(
                    &mut message,
                    &[
                        "Zenoh key '",
                        key.as_str(),
                        "' does not start with expected prefix '",
                        expected.as_str(),
                        "'",
                    ],
                );
            },
        }
        assert(message@ =~= self.text());
        message
    }
}

/// The key of a channel.
pub open spec fn channel_key(channel: Seq<char>, prefix: Seq<char>) -> Seq<char> {
    prefix + seq!['/'] + channel
}

/// The channel of a key, if the key starts with the prefix and a slash.
pub open spec fn key_channel(key: Seq<char>, prefix: Seq<char>) -> Option<Seq<char>> {
    after_prefix(key, prefix + seq!['/'])
}

/// Whether a channel name holds a character that Zenoh reserves.
pub open spec fn has_reserved(channel: Seq<char>) -> bool {
    channel.contains('*') || channel.contains('#') || channel.contains('$')
}

/// Whether `result` is what the mapping of a channel under a prefix gives.
///
/// A reserved character in the name comes first, an empty name next; a name that passes is mapped
/// if the key is valid. Where the prefix holds no wildcard the form of the key decides that.
pub open spec fn channel_mapped(
    channel: Seq<char>,
    prefix: Seq<char>,
    result: Result<KeyExpr, MappingError>,
) -> bool {
    let key = channel_key(channel, prefix);
    let named = !has_reserved(channel) && channel.len() > 0;
    &&& match result {
        Ok(key_expr) => named && key_expr_valid(key) && key_expr@ == key,
        Err(MappingError::Reserved { channel: name }) => has_reserved(channel) && name@ == channel,
        Err(MappingError::EmptyChannel) => channel.len() == 0,
        Err(MappingError::InvalidKey { reason }) => named && !key_expr_valid(key)
            && invalid_key_start(key).is_prefix_of(reason@),
        Err(_) => false,
    }
    &&& named && no_wildcard(prefix) ==> result is Ok == key_form(key)
}

/// Map an LCM channel name to a Zenoh key expression.
///
/// Result: `{prefix}/{channel}`
///
/// LCM channels typically use `UPPER_SNAKE_CASE` with no special characters.
/// If a channel name contains `/`, it becomes a hierarchical Zenoh key (desirable).
/// Zenoh-reserved characters (`#`, `$`, `*`) are rejected with an error.
pub fn lcm_channel_to_key_expr(channel: &str, prefix: &str) -> (result: Result<
    KeyExpr,
    MappingError,
>)
    ensures
        channel_mapped(channel@, prefix@, result),
{
    if contains_char(channel, '*') || contains_char(channel, '#') || contains_char(channel, '$') {
        return Err(MappingError::Reserved { channel: channel.to_owned() });
    }
    if channel.is_empty() {
        proof {
            assert forall|c: char| !channel@.contains(c) by {}
        }
        return Err(MappingError::EmptyChannel);
    }
    let mut full = String::new();
    append_all(&mut full, &[prefix, "/", channel]);
    proof {
        reveal_with_fuel(joined, 4);
        reveal_strlit("/");
        assert(full@ =~= channel_key(channel@, prefix@));
        if no_wildcard(prefix@) {
            lemma_key_chars(channel@, prefix@, '*');
            lemma_key_chars(channel@, prefix@, '$');
        }
    }
    match KeyExpr::new(full.as_str()) {
        Ok(key) => Ok(key),
        Err(reason) => Err(MappingError::InvalidKey { reason }),
    }
}

/// Every character of a key but its slash comes from the prefix or the channel name.
pub proof fn lemma_key_chars(channel: Seq<char>, prefix: Seq<char>, c: char)
    requires
        c != '/',
        !prefix.contains(c),
        !channel.contains(c),
    ensures
        !channel_key(channel, prefix).contains(c),
{
    let key = channel_key(channel, prefix);
    if key.contains(c) {
        let i = key.index_of(c);
        if i < prefix.len() {
            assert(prefix[i] == c);
        } else if i > prefix.len() {
            assert(channel[i - prefix.len() - 1] == c);
        }
    }
}

/// Whether `result` is the channel of a key under a prefix.
///
/// Some channel name follows wherever the key starts with the prefix and a slash: a key
/// expression does not end in a slash.
pub open spec fn channel_extracted(
    key: Seq<char>,
    prefix: Seq<char>,
    result: Result<&str, MappingError>,
) -> bool {
    match result {
        Ok(channel) => key_channel(key, prefix) == Some(channel@) && channel@.len() > 0,
        Err(MappingError::WrongPrefix { key: text, expected }) => {
            &&& key_channel(key, prefix) is None
            &&& text@ == key
            &&& expected@ == prefix + seq!['/']
        },
        Err(_) => false,
    }
}

/// Extract the LCM channel name from a Zenoh key expression by stripping the prefix.
///
/// Given key `lcm/SENSOR_DATA` and prefix `lcm`, returns `SENSOR_DATA`.
pub fn key_expr_to_lcm_channel<'a>(key_expr: &'a KeyExpr, prefix: &str) -> (result: Result<
    &'a str,
    MappingError,
>)
    ensures
        channel_extracted(key_expr@, prefix@, result),
{
    let key_str = key_expr.as_str();
    let mut expected_prefix = String::new();
    append_all(&mut expected_prefix, &[prefix, "/"]);
    proof {
        reveal_with_fuel(joined, 3);
        reveal_strlit("/");
        assert(expected_prefix@ =~= prefix@ + seq!['/']);
    }
    match strip_prefix(key_str, expected_prefix.as_str()) {
        Some(channel) => {
            if channel.is_empty() {
                assert(key_str@.last() == expected_prefix@.last());
                return Err(
                    MappingError::NoChannel { key: key_str.to_owned(), prefix: prefix.to_owned() },
                );
            }
            Ok(channel)
        },
        None => Err(
            MappingError::WrongPrefix { key: key_str.to_owned(), expected: expected_prefix },
        ),
    }
}

/// When a channel is mapped, and to what. It is refused for a `*`, `#` or `$` in its name, else for
/// an empty name, else where the prefix, a slash and the name do not make a valid key; that key is
/// what it is mapped to. Without wildcards in the prefix, a key is valid just where it neither
/// starts nor ends with a slash, no two slashes meet, and there is no `#` and no `?` in it.
pub proof fn law_when_mapped(
    channel: Seq<char>,
    prefix: Seq<char>,
    result: Result<KeyExpr, MappingError>,
)
    requires
        channel_mapped(channel, prefix, result),
    ensures
        ({
            let key = prefix + seq!['/'] + channel;
            let reserved = channel.contains('*') || channel.contains('#') || channel.contains('$');
            let shaped = key[0] != '/' && key.last() != '/' && !key.contains('#') && !key.contains(
                '?',
            ) && (forall|i: int|
                0 <= i < key.len() - 1 && key[i] == '/' ==> #[trigger] key[i + 1] != '/');
            &&& result matches Ok(mapped) ==> mapped@ == key
            &&& result is Ok <==> !reserved && channel.len() > 0 && key_expr_valid(key)
            &&& result matches Err(e) ==> {
                &&& e is Reserved <==> reserved
                &&& e is EmptyChannel <==> channel.len() == 0
                &&& e is Reserved || e is EmptyChannel || e is InvalidKey
                &&& e matches MappingError::Reserved { channel: name } ==> name@ == channel
                &&& e matches MappingError::InvalidKey { reason } ==> ("Invalid Key Expr `"@ + key
                    + "`: "@).is_prefix_of(reason@)
            }
            &&& !reserved && channel.len() > 0 && !prefix.contains('*') && !prefix.contains('$')
                ==> (result is Ok <==> shaped)
        }),
{
}

/// The channel of a key is what follows the prefix and a slash. A key has none just where it does
/// not start with them, and the error names both.
pub proof fn law_when_extracted(
    key: Seq<char>,
    prefix: Seq<char>,
    result: Result<&str, MappingError>,
)
    requires
        channel_extracted(key, prefix, result),
    ensures
        match result {
            Ok(channel) => key == prefix + seq!['/'] + channel@ && channel@.len() > 0,
            Err(e) => {
                &&& forall|channel: Seq<char>| key != #[trigger] (prefix + seq!['/'] + channel)
                &&& e matches MappingError::WrongPrefix { key: text, expected }
                &&& text@ == key
                &&& expected@ == prefix + seq!['/']
            },
        },
{
    law_key_round_trip(key, prefix);
    assert forall|channel: Seq<char>| result is Err implies key != #[trigger] (prefix + seq!['/']
        + channel) by {
        law_channel_round_trip(channel, prefix);
        assert(channel_key(channel, prefix) == prefix + seq!['/'] + channel);
    }
}

/// What is said of a channel or a key that is not mapped.
pub proof fn law_mapping_error_texts(error: MappingError)
    ensures
        match error {
            MappingError::Reserved { channel } => error.text() == "LCM channel '"@ + channel@
                + "' contains Zenoh-reserved characters (* # $)"@,
            MappingError::EmptyChannel => error.text() == "LCM channel name is empty"@,
            MappingError::InvalidKey { reason } => error.text() == reason@,
            MappingError::NoChannel { key, prefix } => error.text() == "Zenoh key '"@ + key@
                + "' has empty channel after prefix '"@ + prefix@ + "'"@,
            MappingError::WrongPrefix { key, expected } => error.text() == "Zenoh key '"@ + key@
                + "' does not start with expected prefix '"@ + expected@ + "'"@,
        },
{
}

/// The channel of a channel's key is the channel.
pub proof fn law_channel_round_trip(channel: Seq<char>, prefix: Seq<char>)
    ensures
        key_channel(channel_key(channel, prefix), prefix) == Some(channel),
        key_channel(prefix + seq!['/'] + channel, prefix) == Some(channel),
{
    let head = prefix + seq!['/'];
    assert(head.is_prefix_of(channel_key(channel, prefix)));
    assert(channel_key(channel, prefix).skip(head.len() as int) =~= channel);
}

/// The key of a key's channel is the key.
pub proof fn law_key_round_trip(key: Seq<char>, prefix: Seq<char>)
    ensures
        key_channel(key, prefix) matches Some(channel) ==> channel_key(channel, prefix) == key,
{
    if let Some(channel) = key_channel(key, prefix) {
        assert(channel_key(channel, prefix) =~= key);
    }
}

/// A channel name that has the form of a key, as ordinary names have, makes a key with every
/// prefix that has it: by that form alone the channel is mapped.
pub proof fn law_plain_names_make_keys(channel: Seq<char>, prefix: Seq<char>)
    requires
        key_form(channel),
        key_form(prefix),
    ensures
        key_form(channel_key(channel, prefix)),
{
    let key = channel_key(channel, prefix);
    let n = prefix.len() as int;
    assert(key[0] == prefix[0]);
    assert(key.last() == channel.last());
    assert forall|i: int| 0 <= i < key.len() - 1 && key[i] == '/' implies #[trigger] key[i + 1]
        != '/' by {
        if i < n - 1 {
            assert(prefix[i + 1] != '/');
        } else if i == n - 1 {
            assert(prefix.last() == '/');
        } else if i == n {
            assert(key[i + 1] == channel[0]);
        } else {
            let j = i - n - 1;
            assert(channel[j] == '/');
            assert(channel[j + 1] != '/');
        }
    }
    assert forall|c: char| c != '/' && !prefix.contains(c) && !channel.contains(c) implies !(
    #[trigger] key.contains(c)) by {
        lemma_key_chars(channel, prefix, c);
    }
}

/// Under one prefix no two channels share a key.
pub proof fn law_keys_distinct(one: Seq<char>, two: Seq<char>, prefix: Seq<char>)
    requires
        channel_key(one, prefix) == channel_key(two, prefix),
    ensures
        one == two,
{
    law_channel_round_trip(one, prefix);
    law_channel_round_trip(two, prefix);
}

} // verus!
