//! Configuration of the bridge, with the filter that decides which channels are bridged.
use crate::text::{append_all, joined};
use vstd::prelude::*;

verus! {

/// The LCM multicast URL that is used where none is configured.
pub const DEFAULT_LCM_URL: &'static str = "udpm://239.255.76.67:7667?ttl=0";

/// The key prefix that is used where none is configured.
pub const DEFAULT_KEY_PREFIX: &'static str = "lcm";

/// The largest message that is accepted where nothing is configured (4 MB).
pub const DEFAULT_MAX_MESSAGE_SIZE: usize = 4 * 1024 * 1024;

/// The number of worker threads where none is configured.
pub const DEFAULT_WORK_THREAD_NUM: usize = 2;

/// The number of blocking threads where none is configured.
pub const DEFAULT_MAX_BLOCK_THREAD_NUM: usize = 50;

/// A compiled regular expression.
#[verifier::external_type_specification]
#[verifier::external_body]
pub struct ExRegex(regex::Regex);

/// Why a regular expression was not compiled.
#[verifier::external_type_specification]
#[verifier::external_body]
pub struct ExRegexError(regex::Error);

/// What [`regex::Regex::new`] makes of a pattern.
pub uninterp spec fn regex_new(pattern: Seq<char>) -> Result<regex::Regex, regex::Error>;

/// The pattern that a regular expression was made from, as [`regex::Regex::as_str`] returns it.
pub uninterp spec fn regex_source(re: regex::Regex) -> Seq<char>;

/// Whether a regular expression matches somewhere in a text, as [`regex::Regex::is_match`] finds.
pub uninterp spec fn regex_is_match(re: regex::Regex, text: Seq<char>) -> bool;

/// What is printed of a compilation error.
pub uninterp spec fn regex_error_text(error: regex::Error) -> Seq<char>;

/// [`regex::Regex::new`] compiles a pattern. What comes of it depends on the pattern alone, and a
/// regular expression that comes of it remembers the pattern. Which patterns are accepted is not
/// stated.
pub assume_specification[ regex::Regex::new ](pattern: &str) -> (result: Result<
    regex::Regex,
    regex::Error,
>)
    ensures
        result == regex_new(pattern@),
        result matches Ok(re) ==> regex_source(re) == pattern@,
;

/// [`regex::Regex::as_str`] returns the pattern that the regular expression was made from.
pub assume_specification[ regex::Regex::as_str ](re: &regex::Regex) -> (source: &str)
    ensures
        source@ == regex_source(*re),
;

/// [`regex::Regex::is_match`] says whether there is a match anywhere in the text. That depends on
/// the regular expression and the text alone. What a pattern matches is not stated.
pub assume_specification[ regex::Regex::is_match ](re: &regex::Regex, text: &str) -> (found: bool)
    ensures
        found == regex_is_match(*re, text@),
;

/// What `Display` of [`regex::Error`] prints. It depends on the error alone.
#[verifier::external_body]
fn error_text(error: &regex::Error) -> (text: String)
    ensures
        text@ == regex_error_text(*error),
{
    error.to_string()
}

/// Configuration of the bridge.
#[derive(Clone, Debug)]
pub struct Config {
    /// The LCM multicast URL.
    pub lcm_url: String,
    /// Prefix for all Zenoh key expressions.
    pub key_prefix: String,
    /// The channels to route; all of them where there is none.
    pub allow: Option<regex::Regex>,
    /// The channels not to route.
    pub deny: Option<regex::Regex>,
    /// The IP address of the interface to use for multicast.
    pub network_interface: Option<String>,
    /// The largest reassembled message in bytes.
    pub max_message_size: usize,
    /// The number of worker threads of the plugin's runtime.
    pub work_thread_num: usize,
    /// The number of blocking threads of the plugin's runtime.
    pub max_block_thread_num: usize,
    /// Whether the router must not start without the plugin.
    pub __required__: Option<bool>,
    /// Where the router looks for the plugin's library.
    pub __path__: Option<Vec<String>>,
}

/// The default multicast URL.
pub fn default_lcm_url() -> (url: String)
    ensures
        url@ == DEFAULT_LCM_URL@,
{
    DEFAULT_LCM_URL.to_owned()
}

/// The default key prefix.
pub fn default_key_prefix() -> (prefix: String)
    ensures
        prefix@ == DEFAULT_KEY_PREFIX@,
{
    DEFAULT_KEY_PREFIX.to_owned()
}

/// The default limit on the size of a message.
pub fn default_max_message_size() -> (size: usize)
    ensures
        size == DEFAULT_MAX_MESSAGE_SIZE,
{
    DEFAULT_MAX_MESSAGE_SIZE
}

/// The default number of worker threads.
pub fn default_work_thread_num() -> (number: usize)
    ensures
        number == DEFAULT_WORK_THREAD_NUM,
{
    DEFAULT_WORK_THREAD_NUM
}

/// The default number of blocking threads.
pub fn default_max_block_thread_num() -> (number: usize)
    ensures
        number == DEFAULT_MAX_BLOCK_THREAD_NUM,
{
    DEFAULT_MAX_BLOCK_THREAD_NUM
}

impl Default for Config {
    /// What an empty configuration stands for.
    fn default() -> (config: Self)
        ensures
            config.lcm_url@ == DEFAULT_LCM_URL@,
            config.key_prefix@ == DEFAULT_KEY_PREFIX@,
            config.allow is None,
            config.deny is None,
            config.network_interface is None,
            config.max_message_size == DEFAULT_MAX_MESSAGE_SIZE,
            config.work_thread_num == DEFAULT_WORK_THREAD_NUM,
            config.max_block_thread_num == DEFAULT_MAX_BLOCK_THREAD_NUM,
            config.__required__ is None,
            config.__path__ is None,
    {
        Config {
            lcm_url: default_lcm_url(),
            key_prefix: default_key_prefix(),
            allow: None,
            deny: None,
            network_interface: None,
            max_message_size: default_max_message_size(),
            work_thread_num: default_work_thread_num(),
            max_block_thread_num: default_max_block_thread_num(),
            __required__: None,
            __path__: None,
        }
    }
}

/// What is said of a pattern that does not compile.
pub open spec fn invalid_regex(source: Seq<char>, error: regex::Error) -> Seq<char> {
    "Invalid regex for 'allow' or 'deny': \""@ + source + "\" - "@ + regex_error_text(error)
}

/// Whether `result` is what is made of the configured pattern `source`, once compilation gave
/// `compiled`.
pub open spec fn regex_setting_agrees(
    result: Result<Option<regex::Regex>, String>,
    source: Seq<char>,
    compiled: Result<regex::Regex, regex::Error>,
) -> bool {
    match compiled {
        Ok(re) => result == Ok::<Option<regex::Regex>, String>(Some(re)),
        Err(e) => result matches Err(text) && text@ == invalid_regex(source, e),
    }
}

/// The setting for a configured pattern, from what its compilation gave.
pub fn regex_setting(source: &str, compiled: Result<regex::Regex, regex::Error>) -> (result: Result<
    Option<regex::Regex>,
    String,
>)
    ensures
        regex_setting_agrees(result, source@, compiled),
{
    match compiled {
        Ok(re) => Ok(Some(re)),
        Err(e) => {
            let reason = error_text(&e);
            let parts = [
                "Invalid regex for 'allow' or 'deny': \"",
                source,
                "\" - ",
                reason.as_str(),
            ];
            let mut text = String::new();
            append_all(&mut text, &parts);
            proof {
                reveal_with_fuel(joined, 5);
                assert(text@ =~= invalid_regex(source@, e));
            }
            Err(text)
        },
    }
}

/// Reads the setting `allow` or `deny`: no pattern, or a pattern that is compiled.
pub fn deserialize_regex(source: Option<&str>) -> (result: Result<Option<regex::Regex>, String>)
    ensures
        match source {
            Some(s) => {
                &&& regex_setting_agrees(result, s@, regex_new(s@))
                &&& result matches Ok(setting) ==> {
                    &&& allow_text(setting) == s@
                    &&& deny_text(setting) == s@
                }
            },
            None => result == Ok::<Option<regex::Regex>, String>(None),
        },
{
    match source {
        Some(s) => {
            let compiled = regex::Regex::new(s);
            regex_setting(s, compiled)
        },
        None => Ok(None),
    }
}

/// How the setting `allow` is written: no pattern is one that matches everything.
pub open spec fn allow_text(setting: Option<regex::Regex>) -> Seq<char> {
    match setting {
        Some(re) => regex_source(re),
        None => ".*"@,
    }
}

/// How the setting `deny` is written: no pattern is the empty one.
pub open spec fn deny_text(setting: Option<regex::Regex>) -> Seq<char> {
    match setting {
        Some(re) => regex_source(re),
        None => ""@,
    }
}

/// Writes the setting `allow`.
pub fn serialize_allow(setting: &Option<regex::Regex>) -> (text: String)
    ensures
        text@ == allow_text(*setting),
{
    match setting {
        Some(re) => re.as_str().to_owned(),
        None => ".*".to_owned(),
    }
}

/// Writes the setting `deny`.
pub fn serialize_deny(setting: &Option<regex::Regex>) -> (text: String)
    ensures
        text@ == deny_text(*setting),
{
    match setting {
        Some(re) => re.as_str().to_owned(),
        None => "".to_owned(),
    }
}

/// A value of the setting `__path__`, which may be absent, a string or an array of strings.
#[derive(Debug)]
pub enum PathValue {
    Absent,
    One(String),
    Many(Vec<String>),
}

/// Reads the setting `__path__`: a single string is a list of one.
pub fn deserialize_path(value: PathValue) -> (path: Option<Vec<String>>)
    ensures
        match value {
            PathValue::Absent => path is None,
            PathValue::One(s) => path matches Some(list) && list@ == seq![s],
            PathValue::Many(list) => path == Some(list),
        },
{
    match value {
        PathValue::Absent => None,
        PathValue::One(s) => {
            let mut list: Vec<String> = Vec::new();
            list.push(s);
            Some(list)
        },
        PathValue::Many(list) => Some(list),
    }
}

/// Whether a channel passes the filter, where `allow` and `deny` say whether those patterns match
/// it, if they are configured: it is refused by an `allow` that does not match, and by a `deny`
/// that does.
pub open spec fn passes(allow: Option<bool>, deny: Option<bool>) -> bool {
    allow != Some(false) && deny != Some(true)
}

/// Whether a pattern, if it is configured, matches a channel.
pub open spec fn setting_matches(
    setting: Option<regex::Regex>,
    channel: Seq<char>,
) -> Option<bool> {
    match setting {
        Some(re) => Some(regex_is_match(re, channel)),
        None => None,
    }
}

/// Whether the configuration lets a channel through.
pub open spec fn channel_allowed(channel: Seq<char>, config: Config) -> bool {
    passes(setting_matches(config.allow, channel), setting_matches(config.deny, channel))
}

/// Whether a channel passes the filter, from whether the configured patterns match it.
pub fn filter_verdict(allow: Option<bool>, deny: Option<bool>) -> (verdict: bool)
    ensures
        verdict == passes(allow, deny),
{
    match (allow, deny) {
        (Some(allowed), None) => allowed,
        (None, Some(denied)) => !denied,
        (Some(allowed), Some(denied)) => allowed && !denied,
        (None, None) => true,
    }
}

/// Check if an LCM channel name is allowed by the allow/deny configuration.
pub fn is_allowed(channel: &str, config: &Config) -> (allowed: bool)
    ensures
        allowed == channel_allowed(channel@, *config),
{
    let allow = match &config.allow {
        Some(re) => Some(re.is_match(channel)),
        None => None,
    };
    let deny = match &config.deny {
        Some(re) => Some(re.is_match(channel)),
        None => None,
    };
    filter_verdict(allow, deny)
}

/// What is made of a configured pattern: the regular expression that it compiles to, or an error
/// that names the pattern and says why it does not compile.
pub proof fn law_configured_pattern(
    result: Result<Option<regex::Regex>, String>,
    source: Seq<char>,
    compiled: Result<regex::Regex, regex::Error>,
)
    requires
        regex_setting_agrees(result, source, compiled),
    ensures
        result is Ok <==> compiled is Ok,
        result matches Ok(setting) ==> setting == Some(compiled->Ok_0),
        result matches Err(text) ==> text@ == "Invalid regex for 'allow' or 'deny': \""@ + source
            + "\" - "@ + regex_error_text(compiled->Err_0),
{
}

/// How the patterns are written: as they were configured, and where there is none, as one that
/// matches everything for `allow` and as an empty one for `deny`.
pub proof fn law_patterns_written(re: regex::Regex)
    ensures
        allow_text(Some(re)) == regex_source(re),
        deny_text(Some(re)) == regex_source(re),
        allow_text(None) == seq!['.', '*'],
        deny_text(None) == Seq::<char>::empty(),
{
    reveal_strlit(".*");
    reveal_strlit("");
    assert(".*"@ =~= seq!['.', '*']);
    assert(""@ =~= Seq::<char>::empty());
}

/// What holds where nothing is configured: the prefix `lcm`, a limit of four megabytes, two worker
/// threads and fifty blocking ones.
pub proof fn law_config_defaults()
    ensures
        DEFAULT_LCM_URL@ == "udpm://239.255.76.67:7667?ttl=0"@,
        DEFAULT_KEY_PREFIX@ == seq!['l', 'c', 'm'],
        DEFAULT_MAX_MESSAGE_SIZE == 4_194_304,
        DEFAULT_WORK_THREAD_NUM == 2,
        DEFAULT_MAX_BLOCK_THREAD_NUM == 50,
{
    reveal_strlit("lcm");
    assert("lcm"@ =~= seq!['l', 'c', 'm']);
}

/// What the filter says depends on nothing but whether the configured patterns match: of both, a
/// match of `allow` and none of `deny`; of one alone, that one; of none, nothing is refused.
pub proof fn law_verdict_table(allow: bool, deny: bool)
    ensures
        passes(Some(allow), Some(deny)) == (allow && !deny),
        passes(Some(allow), None) == allow,
        passes(None, Some(deny)) == !deny,
        passes(None, None),
{
}

/// A channel that `deny` matches is refused, whatever `allow` says.
pub proof fn law_deny_wins(channel: Seq<char>, config: Config)
    requires
        config.deny matches Some(deny) && regex_is_match(deny, channel),
    ensures
        !channel_allowed(channel, config),
{
}

/// Where both patterns are set, a channel passes just where `allow` matches it and `deny` does
/// not; where one is set, it alone decides; where none is set, every channel passes.
pub proof fn law_filter_table(channel: Seq<char>, config: Config)
    ensures
        channel_allowed(channel, config) == match (config.allow, config.deny) {
            (Some(allow), Some(deny)) => regex_is_match(allow, channel) && !regex_is_match(
                deny,
                channel,
            ),
            (Some(allow), None) => regex_is_match(allow, channel),
            (None, Some(deny)) => !regex_is_match(deny, channel),
            (None, None) => true,
        },
{
}

} // verus!
