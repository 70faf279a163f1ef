//! The plugin's own rules: what it makes of its configuration, and what its admin space answers.
use crate::addr::{ipv4_of, Ipv4Addr};
use crate::clock::duration_nanos;
use crate::config::Config;
use crate::mapping::{
    channel_key, key_expr_intersects, key_expr_valid, key_form, law_plain_names_make_keys,
    lemma_key_chars, no_wildcard, KeyExpr,
};
use crate::multicast::{
    LcmTransportConfig, DEFAULT_FRAGMENT_MTU, DEFAULT_FRAGMENT_TIMEOUT_SECS,
};
use crate::text::{append_all, joined, texts};
use crate::types::{read_url, LcmUrl};
use vstd::prelude::*;
use vstd::string::StringExecFns;
use vstd::utf8::{
    encode_utf8, encode_utf8_decode_utf8, encode_utf8_first_scalar, encode_utf8_valid_utf8,
    is_char_boundary, pop_first_scalar,
};

verus! {

/// The transport configuration that a configuration asks for. An invalid URL is an error; an
/// interface that is not an IPv4 address is left out.
pub fn transport_config(config: &Config) -> (result: Result<LcmTransportConfig, String>)
    ensures
        match result {
            Ok(transport) => {
                &&& read_url(config.lcm_url@) == Ok::<LcmUrl, Seq<char>>(transport.lcm_url)
                &&& transport.network_interface == match config.network_interface {
                    Some(interface) => ipv4_of(interface@),
                    None => None,
                }
                &&& transport.fragment_mtu == DEFAULT_FRAGMENT_MTU
                &&& duration_nanos(transport.fragment_timeout) == DEFAULT_FRAGMENT_TIMEOUT_SECS
                    * 1_000_000_000
                &&& transport.max_message_size == config.max_message_size
            },
            Err(e) => read_url(config.lcm_url@) == Err::<LcmUrl, Seq<char>>(e@),
        },
{
    match LcmUrl::parse(config.lcm_url.as_str()) {
        Ok(lcm_url) => {
            let network_interface = match &config.network_interface {
                Some(interface) => Ipv4Addr::parse(interface.as_str()),
                None => None,
            };
            let mut transport = LcmTransportConfig::default();
            transport.lcm_url = lcm_url;
            transport.network_interface = network_interface;
            transport.max_message_size = config.max_message_size;
            Ok(transport)
        },
        Err(e) => Err(e),
    }
}

/// What is left of a text's bytes when it is cut after `n` of them.
pub open spec fn cut_bytes(text: Seq<char>, n: nat) -> Seq<u8> {
    let bytes = encode_utf8(text);
    if n < bytes.len() {
        bytes.take(n as int)
    } else {
        bytes
    }
}

/// Whether a text can be cut after `n` bytes: not within a character.
pub open spec fn can_cut(text: Seq<char>, n: nat) -> bool {
    n < encode_utf8(text).len() ==> is_char_boundary(encode_utf8(text), n as int)
}

/// [`String::truncate`] keeps the first `new_len` bytes, or everything where there are no more.
/// It panics within a character.
pub assume_specification[ String::truncate ](text: &mut String, new_len: usize)
    requires
        can_cut(old(text)@, new_len as nat),
    ensures
        encode_utf8(final(text)@) == cut_bytes(old(text)@, new_len as nat),
;

/// The bytes of a text begin with those of its beginning.
proof fn lemma_leading_bytes(head: Seq<char>, tail: Seq<char>)
    ensures
        encode_utf8(head + tail) == encode_utf8(head) + encode_utf8(tail),
        is_char_boundary(encode_utf8(head + tail), encode_utf8(head).len() as int),
    decreases head.len(),
{
    let text = head + tail;
    encode_utf8_valid_utf8(text);
    if head.len() == 0 {
        assert(text =~= tail);
        assert(encode_utf8(head) + encode_utf8(tail) =~= encode_utf8(tail));
    } else {
        let rest = head.drop_first();
        lemma_leading_bytes(rest, tail);
        assert(text.drop_first() =~= rest + tail);
        encode_utf8_first_scalar(text);
        assert(pop_first_scalar(encode_utf8(text)) =~= encode_utf8(text.drop_first()));
        assert(encode_utf8(text) =~= encode_utf8(head) + encode_utf8(tail));
    }
}

/// A text that was extended can be cut where it ended before, and is then what it was.
pub proof fn law_extension_cut_off(head: Seq<char>, tail: Seq<char>)
    ensures
        can_cut(head + tail, encode_utf8(head).len()),
        cut_bytes(head + tail, encode_utf8(head).len()) == encode_utf8(head),
{
    lemma_leading_bytes(head, tail);
    assert((encode_utf8(head) + encode_utf8(tail)).take(encode_utf8(head).len() as int)
        =~= encode_utf8(head));
}

/// Texts with the same bytes are the same.
proof fn lemma_same_bytes(one: Seq<char>, two: Seq<char>)
    requires
        encode_utf8(one) == encode_utf8(two),
    ensures
        one == two,
{
    encode_utf8_decode_utf8(one);
    encode_utf8_decode_utf8(two);
}

/// Appends suffixes to a text, hands it to a closure, and cuts what the closure left of it back
/// to the length in bytes that it had before.
pub fn with_extended_string<R, F: FnMut(&mut String) -> R>(
    prefix: &mut String,
    suffixes: &[&str],
    mut closure: F,
) -> (result: R)
    requires
        forall|s: &mut String|
            s@ == old(prefix)@ + joined(texts(suffixes@)) ==> #[trigger] call_requires(
                closure,
                (s,),
            ),
        forall|s: &mut String, r: R|
            s@ == old(prefix)@ + joined(texts(suffixes@)) && #[trigger] call_ensures(
                closure,
                (s,),
                r,
            ) ==> can_cut(final(s)@, encode_utf8(old(prefix)@).len()),
    ensures
        exists|s: &mut String|
            {
                &&& s@ == old(prefix)@ + joined(texts(suffixes@))
                &&& #[trigger] call_ensures(closure, (s,), result)
                &&& encode_utf8(final(prefix)@) == cut_bytes(
                    final(s)@,
                    encode_utf8(old(prefix)@).len(),
                )
            },
{
    let prefix_len: usize = prefix.as_str().as_bytes().len();
    append_all(prefix, suffixes);
    let result = closure(prefix);
    prefix.truncate(prefix_len);
    result
}

/// What the admin space tells.
#[derive(Clone, Copy, Debug, PartialEq, Eq, Structural)]
pub enum AdminContent {
    /// The version of the plugin.
    Version,
    /// Its configuration.
    Config,
}

/// An answer of the admin space.
#[derive(Debug)]
pub struct AdminAnswer {
    pub key: String,
    pub content: AdminContent,
}

/// The key under which a content is found.
pub open spec fn admin_key(status_key: Seq<char>, content: AdminContent) -> Seq<char> {
    match content {
        AdminContent::Version => status_key + "/version"@,
        AdminContent::Config => status_key + "/config"@,
    }
}

/// The answer under one key: there is one if the key matches the query.
pub open spec fn admin_answer(
    status_key: Seq<char>,
    query: Seq<char>,
    content: AdminContent,
) -> Seq<(Seq<char>, AdminContent)> {
    let key = admin_key(status_key, content);
    if key_expr_intersects(key, query) {
        seq![(key, content)]
    } else {
        Seq::empty()
    }
}

/// The answers to a query: the version first, then the configuration if it can be read.
pub open spec fn admin_answers(
    status_key: Seq<char>,
    query: Seq<char>,
    readable: bool,
) -> Seq<(Seq<char>, AdminContent)> {
    admin_answer(status_key, query, AdminContent::Version) + if readable {
        admin_answer(status_key, query, AdminContent::Config)
    } else {
        Seq::empty()
    }
}

/// What the admin space answers: the version if the status key with `/version` matches the query,
/// and the configuration if it can be read and the status key with `/config` matches; the version
/// comes first, each comes once, and nothing else does.
pub proof fn law_admin_answers(status_key: Seq<char>, query: Seq<char>, readable: bool)
    ensures
        ({
            let version = status_key + "/version"@;
            let config = status_key + "/config"@;
            let told = key_expr_intersects(version, query);
            let shown = readable && key_expr_intersects(config, query);
            let answers = admin_answers(status_key, query, readable);
            &&& told && shown ==> answers == seq![
                (version, AdminContent::Version),
                (config, AdminContent::Config),
            ]
            &&& told && !shown ==> answers == seq![(version, AdminContent::Version)]
            &&& !told && shown ==> answers == seq![(config, AdminContent::Config)]
            &&& !told && !shown ==> answers == Seq::<(Seq<char>, AdminContent)>::empty()
        }),
{
}

/// The keys and contents of a list of answers.
pub open spec fn answers_of(list: Seq<AdminAnswer>) -> Seq<(Seq<char>, AdminContent)> {
    list.map_values(|answer: AdminAnswer| (answer.key@, answer.content))
}

/// Whether `found` is the key, if it matches the query, and nothing otherwise.
spec fn key_found(key: Seq<char>, query: Seq<char>, found: Option<String>) -> bool {
    match found {
        Some(text) => key_expr_intersects(key, query) && text@ == key,
        None => !key_expr_intersects(key, query),
    }
}

/// The key, if it matches the query.
fn matching_key(key: &mut String, query: &KeyExpr) -> (found: Option<String>)
    requires
        key_expr_valid(old(key)@),
    ensures
        final(key)@ == old(key)@,
        key_found(old(key)@, query@, found),
{
    match KeyExpr::new(key.as_str()) {
        Ok(own) => {
            if own.intersects(query) {
                Some(key.clone())
            } else {
                None
            }
        },
        Err(_) => None,
    }
}

/// Appends the answer under one key, if the key matches the query.
fn push_answer(
    list: &mut Vec<AdminAnswer>,
    key: &mut String,
    suffix: &str,
    query: &KeyExpr,
    content: AdminContent,
)
    requires
        old(key)@ + suffix@ == admin_key(old(key)@, content),
        key_expr_valid(admin_key(old(key)@, content)),
    ensures
        final(key)@ == old(key)@,
        answers_of(final(list)@) == answers_of(old(list)@) + admin_answer(
            old(key)@,
            query@,
            content,
        ),
{
    let suffixes = [suffix];
    proof {
        reveal_with_fuel(joined, 2);
        law_extension_cut_off(key@, suffix@);
        assert(key@ + joined(texts(suffixes@)) =~= key@ + suffix@);
    }
    let look_up = |key: &mut String| -> (found: Option<String>)
        requires
            key_expr_valid(old(key)@),
        ensures
            final(key)@ == old(key)@,
            key_found(old(key)@, query@, found),
        { matching_key(key, query) };
    let found = with_extended_string(key, &suffixes, look_up);
    proof {
        lemma_same_bytes(key@, old(key)@);
    }
    match found {
        Some(text) => {
            list.push(AdminAnswer { key: text, content });
        },
        None => {},
    }
    assert(answers_of(list@) =~= answers_of(old(list)@) + admin_answer(
        old(key)@,
        query@,
        content,
    ));
}

/// Answers a query of the admin space.
pub fn adminspace_getter(query: &KeyExpr, plugin_status_key: &str, config_readable: bool) -> (list:
    Vec<AdminAnswer>)
    requires
        key_expr_valid(admin_key(plugin_status_key@, AdminContent::Version)),
        key_expr_valid(admin_key(plugin_status_key@, AdminContent::Config)),
    ensures
        answers_of(list@) == admin_answers(plugin_status_key@, query@, config_readable),
{
    let mut list: Vec<AdminAnswer> = Vec::new();
    let mut key = plugin_status_key.to_owned();
    push_answer(&mut list, &mut key, "/version", query, AdminContent::Version);
    if config_readable {
        push_answer(&mut list, &mut key, "/config", query, AdminContent::Config);
    }
    assert(answers_of(list@) =~= admin_answers(plugin_status_key@, query@, config_readable));
    list
}

/// The keys of the answers have the form of a key, and no wildcard, if the status key is so.
proof fn lemma_plain_admin_keys(status_key: Seq<char>)
    requires
        key_form(status_key),
        no_wildcard(status_key),
    ensures
        forall|content: AdminContent|
            {
                let key = #[trigger] admin_key(status_key, content);
                key_form(key) && no_wildcard(key)
            },
{
    assert forall|content: AdminContent|
        {
            let key = #[trigger] admin_key(status_key, content);
            key_form(key) && no_wildcard(key)
        } by {
        let name = match content {
            AdminContent::Version => "version"@,
            AdminContent::Config => "config"@,
        };
        reveal_strlit("/version");
        reveal_strlit("/config");
        reveal_strlit("version");
        reveal_strlit("config");
        assert(admin_key(status_key, content) =~= channel_key(name, status_key));
        law_plain_names_make_keys(name, status_key);
        lemma_key_chars(name, status_key, '*');
        lemma_key_chars(name, status_key, '$');
    }
}

/// Answers a query of the admin space, unless the keys of the answers are no key expressions.
pub fn try_adminspace_getter(
    query: &KeyExpr,
    plugin_status_key: &str,
    config_readable: bool,
) -> (result: Option<Vec<AdminAnswer>>)
    ensures
        result is Some == (key_expr_valid(admin_key(plugin_status_key@, AdminContent::Version))
            && key_expr_valid(admin_key(plugin_status_key@, AdminContent::Config))),
        result matches Some(list) ==> answers_of(list@) == admin_answers(
            plugin_status_key@,
            query@,
            config_readable,
        ),
        key_form(plugin_status_key@) && no_wildcard(plugin_status_key@) ==> result is Some,
{
    proof {
        if key_form(plugin_status_key@) && no_wildcard(plugin_status_key@) {
            lemma_plain_admin_keys(plugin_status_key@);
        }
    }
    let mut version_key = plugin_status_key.to_owned();
    version_key.append("/version");
    let mut config_key = plugin_status_key.to_owned();
    config_key.append("/config");
    assert(version_key@ == admin_key(plugin_status_key@, AdminContent::Version));
    assert(config_key@ == admin_key(plugin_status_key@, AdminContent::Config));
    match (KeyExpr::new(version_key.as_str()), KeyExpr::new(config_key.as_str())) {
        (Ok(_), Ok(_)) => Some(adminspace_getter(query, plugin_status_key, config_readable)),
        _ => None,
    }
}

} // verus!
