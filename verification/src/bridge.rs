//! The standalone bridge: which settings its command line asks for.
use crate::text::{append_all, joined};
use vstd::prelude::*;

verus! {

/// The command line of the bridge, with the values as they were written.
#[derive(Debug)]
pub struct BridgeArgs {
    /// The identifier that the session must use.
    pub id: Option<String>,
    /// The session mode.
    pub mode: Option<String>,
    /// The locators to connect to.
    pub connect: Option<Vec<String>>,
    /// The locators to listen on.
    pub listen: Option<Vec<String>>,
    /// Disables scouting.
    pub no_multicast_scouting: bool,
    /// The HTTP interface of the REST API.
    pub rest_http_port: Option<String>,
    /// The LCM multicast URL.
    pub lcm_url: Option<String>,
    /// The prefix of all key expressions.
    pub key_prefix: Option<String>,
    /// The channels to route.
    pub allow: Option<String>,
    /// The channels not to route.
    pub deny: Option<String>,
    /// The interface for multicast.
    pub network_interface: Option<String>,
    /// The largest message in bytes.
    pub max_message_size: Option<String>,
}

/// A setting of the session, made over what the configuration file says.
#[derive(Debug)]
pub enum Setting {
    /// A value in JSON5 under a path.
    Json { key: &'static str, value: String },
    /// The identifier.
    Id { hex: String },
    /// The session mode.
    Mode { mode: String },
    /// The locators to connect to.
    Connect { endpoints: Vec<String> },
    /// The locators to listen on.
    Listen { endpoints: Vec<String> },
    /// Whether scouting is enabled.
    MulticastScouting { enabled: bool },
    /// Whether timestamping is enabled.
    Timestamping { enabled: bool },
    /// Whether the admin space is enabled.
    AdminSpace { enabled: bool },
    /// Whether plugins are loaded.
    PluginsLoading { enabled: bool },
}

/// A setting, with its texts as sequences of characters.
pub enum SettingView {
    Json { key: Seq<char>, value: Seq<char> },
    Id { hex: Seq<char> },
    Mode { mode: Seq<char> },
    Connect { endpoints: Seq<String> },
    Listen { endpoints: Seq<String> },
    MulticastScouting { enabled: bool },
    Timestamping { enabled: bool },
    AdminSpace { enabled: bool },
    PluginsLoading { enabled: bool },
}

impl View for Setting {
    type V = SettingView;

    open spec fn view(&self) -> SettingView {
        match *self {
            Setting::Json { key, value } => SettingView::Json { key: key@, value: value@ },
            Setting::Id { hex } => SettingView::Id { hex: hex@ },
            Setting::Mode { mode } => SettingView::Mode { mode: mode@ },
            Setting::Connect { endpoints } => SettingView::Connect { endpoints: endpoints@ },
            Setting::Listen { endpoints } => SettingView::Listen { endpoints: endpoints@ },
            Setting::MulticastScouting { enabled } => SettingView::MulticastScouting { enabled },
            Setting::Timestamping { enabled } => SettingView::Timestamping { enabled },
            Setting::AdminSpace { enabled } => SettingView::AdminSpace { enabled },
            Setting::PluginsLoading { enabled } => SettingView::PluginsLoading { enabled },
        }
    }
}

/// A hexadecimal digit.
pub open spec fn hex_digit(n: int) -> char {
    if n < 10 {
        (48 + n) as char
    } else {
        (87 + n) as char
    }
}

/// How a character is written within a JSON string.
pub open spec fn json_char(c: char) -> Seq<char> {
    let code = c as int;
    if c == '"' || c == '\\' {
        seq!['\\', c]
    } else if code == 8 {
        seq!['\\', 'b']
    } else if code == 9 {
        seq!['\\', 't']
    } else if code == 10 {
        seq!['\\', 'n']
    } else if code == 12 {
        seq!['\\', 'f']
    } else if code == 13 {
        seq!['\\', 'r']
    } else if code < 32 {
        seq!['\\', 'u', '0', '0', hex_digit(code / 16), hex_digit(code % 16)]
    } else {
        seq![c]
    }
}

/// How the characters of a text are written within a JSON string.
pub open spec fn json_chars(text: Seq<char>) -> Seq<char>
    decreases text.len(),
{
    if text.len() == 0 {
        Seq::empty()
    } else {
        json_chars(text.drop_last()) + json_char(text.last())
    }
}

/// A text as a JSON string.
pub open spec fn json_string(text: Seq<char>) -> Seq<char> {
    seq!['"'] + json_chars(text) + seq!['"']
}

/// [`serde_json::to_string`] writes a text as a JSON string: in double quotes, with quotes,
/// backslashes and control characters escaped. On a text it does not fail.
#[verifier::external_body]
fn to_json_string(text: &str) -> (json: String)
    ensures
        json@ == json_string(text@),
{
    serde_json::to_string(text).unwrap()
}

/// A text between double quotes, as it is.
pub open spec fn between_quotes(text: Seq<char>) -> Seq<char> {
    seq!['"'] + text + seq!['"']
}

/// The setting for a text, if there is one.
pub open spec fn if_given(
    value: Option<String>,
    setting: spec_fn(Seq<char>) -> SettingView,
) -> Seq<SettingView> {
    match value {
        Some(text) => seq![setting(text@)],
        None => Seq::empty(),
    }
}

/// The setting under an LCM path for a text, written as a JSON string, if there is one.
pub open spec fn json_if_given(value: Option<String>, key: Seq<char>) -> Seq<SettingView> {
    if_given(value, |text: Seq<char>| SettingView::Json { key, value: json_string(text) })
}

/// What the command line sets of the session.
pub open spec fn session_settings(args: BridgeArgs) -> Seq<SettingView> {
    if_given(args.id, |text: Seq<char>| SettingView::Id { hex: text }) + if_given(
        args.mode,
        |text: Seq<char>| SettingView::Mode { mode: text },
    ) + match args.connect {
        Some(list) => seq![SettingView::Connect { endpoints: list@ }],
        None => Seq::empty(),
    } + match args.listen {
        Some(list) => seq![SettingView::Listen { endpoints: list@ }],
        None => Seq::empty(),
    } + if args.no_multicast_scouting {
        seq![SettingView::MulticastScouting { enabled: false }]
    } else {
        Seq::empty()
    } + if_given(
        args.rest_http_port,
        |text: Seq<char>|
            SettingView::Json { key: "plugins/rest/http_port"@, value: between_quotes(text) },
    )
}

/// What is set in any case.
pub open spec fn fixed_settings() -> Seq<SettingView> {
    seq![
        SettingView::Timestamping { enabled: true },
        SettingView::AdminSpace { enabled: true },
        SettingView::PluginsLoading { enabled: true },
    ]
}

/// What the command line sets of the plugin.
pub open spec fn lcm_settings(args: BridgeArgs) -> Seq<SettingView> {
    json_if_given(args.lcm_url, "plugins/lcm/lcm_url"@) + json_if_given(
        args.key_prefix,
        "plugins/lcm/key_prefix"@,
    ) + json_if_given(args.allow, "plugins/lcm/allow"@) + json_if_given(
        args.deny,
        "plugins/lcm/deny"@,
    ) + json_if_given(args.network_interface, "plugins/lcm/network_interface"@) + if_given(
        args.max_message_size,
        |text: Seq<char>|
            SettingView::Json { key: "plugins/lcm/max_message_size"@, value: text },
    )
}

/// The settings of the bridge, in the order in which they are made. The plugin gets an empty
/// configuration where the file has none.
pub open spec fn bridge_settings(args: BridgeArgs, has_lcm_plugin: bool) -> Seq<SettingView> {
    (if has_lcm_plugin {
        Seq::empty()
    } else {
        seq![SettingView::Json { key: "plugins/lcm"@, value: "{}"@ }]
    }) + session_settings(args) + fixed_settings() + lcm_settings(args)
}

/// The views of a list of settings.
pub open spec fn views(list: Seq<Setting>) -> Seq<SettingView> {
    list.map_values(|setting: Setting| setting@)
}

/// The view of a setting, if there is one.
pub open spec fn if_some(setting: Option<Setting>) -> Seq<SettingView> {
    match setting {
        Some(s) => seq![s@],
        None => Seq::empty(),
    }
}

/// Appends a setting, if there is one.
fn push_setting(list: &mut Vec<Setting>, setting: Option<Setting>)
    ensures
        views(final(list)@) == views(old(list)@) + if_some(setting),
{
    match setting {
        Some(s) => {
            list.push(s);
        },
        None => {},
    }
    assert(views(list@) =~= views(old(list)@) + if_some(setting));
}

/// Appends the setting under an LCM path, if its argument is given.
fn push_json(list: &mut Vec<Setting>, value: Option<String>, key: &'static str)
    ensures
        views(final(list)@) == views(old(list)@) + json_if_given(value, key@),
{
    let setting = match value {
        Some(text) => Some(Setting::Json { key, value: to_json_string(text.as_str()) }),
        None => None,
    };
    push_setting(list, setting);
    assert(if_some(setting) =~= json_if_given(value, key@));
}

/// The setting of the REST API's HTTP interface, if it is given.
fn rest_setting(port: Option<String>) -> (setting: Option<Setting>)
    ensures
        if_some(setting) == if_given(
            port,
            |text: Seq<char>|
                SettingView::Json { key: "plugins/rest/http_port"@, value: between_quotes(text) },
        ),
{
    match port {
        Some(text) => {
            let mut value = String::new();
            append_all(&mut value, &["\"", text.as_str(), "\""]);
            proof {
                reveal_with_fuel(joined, 4);
                reveal_strlit("\"");
                assert(value@ =~= between_quotes(text@));
            }
            Some(Setting::Json { key: "plugins/rest/http_port", value })
        },
        None => None,
    }
}

/// The settings that the command line asks for, over those of the configuration file.
/// `has_lcm_plugin` says whether the file configures the plugin.
pub fn parse_args(args: BridgeArgs, has_lcm_plugin: bool) -> (settings: Vec<Setting>)
    ensures
        views(settings@) == bridge_settings(args, has_lcm_plugin),
{
    let ghost given = args;
    let mut list: Vec<Setting> = Vec::new();
    let plugin = if has_lcm_plugin {
        None
    } else {
        Some(Setting::Json { key: "plugins/lcm", value: "{}".to_owned() })
    };
    push_setting(&mut list, plugin);
    let ghost start = views(list@);
    assert(start =~= if_some(plugin));
    let id = match args.id {
        Some(hex) => Some(Setting::Id { hex }),
        None => None,
    };
    push_setting(&mut list, id);
    let mode = match args.mode {
        Some(mode) => Some(Setting::Mode { mode }),
        None => None,
    };
    push_setting(&mut list, mode);
    let connect = match args.connect {
        Some(endpoints) => Some(Setting::Connect { endpoints }),
        None => None,
    };
    push_setting(&mut list, connect);
    let listen = match args.listen {
        Some(endpoints) => Some(Setting::Listen { endpoints }),
        None => None,
    };
    push_setting(&mut list, listen);
    let scouting = if args.no_multicast_scouting {
        Some(Setting::MulticastScouting { enabled: false })
    } else {
        None
    };
    push_setting(&mut list, scouting);
    let rest = rest_setting(args.rest_http_port);
    push_setting(&mut list, rest);
    proof {
        assert(if_some(id) == if_given(given.id, |text: Seq<char>| SettingView::Id { hex: text }));
        assert(if_some(mode) == if_given(
            given.mode,
            |text: Seq<char>| SettingView::Mode { mode: text },
        ));
        lemma_regroup(
            start,
            if_some(id),
            if_some(mode),
            if_some(connect),
            if_some(listen),
            if_some(scouting),
            if_some(rest),
        );
        assert(views(list@) == start + session_settings(given));
    }
    push_setting(&mut list, Some(Setting::Timestamping { enabled: true }));
    push_setting(&mut list, Some(Setting::AdminSpace { enabled: true }));
    push_setting(&mut list, Some(Setting::PluginsLoading { enabled: true }));
    let ghost before = start + session_settings(given) + fixed_settings();
    proof {
        lemma_three(
            start + session_settings(given),
            SettingView::Timestamping { enabled: true },
            SettingView::AdminSpace { enabled: true },
            SettingView::PluginsLoading { enabled: true },
        );
    }
    push_json(&mut list, args.lcm_url, "plugins/lcm/lcm_url");
    push_json(&mut list, args.key_prefix, "plugins/lcm/key_prefix");
    push_json(&mut list, args.allow, "plugins/lcm/allow");
    push_json(&mut list, args.deny, "plugins/lcm/deny");
    push_json(&mut list, args.network_interface, "plugins/lcm/network_interface");
    let limit = match args.max_message_size {
        Some(value) => Some(Setting::Json { key: "plugins/lcm/max_message_size", value }),
        None => None,
    };
    push_setting(&mut list, limit);
    proof {
        assert(if_some(limit) == if_given(
            given.max_message_size,
            |text: Seq<char>|
                SettingView::Json { key: "plugins/lcm/max_message_size"@, value: text },
        ));
        lemma_regroup(
            before,
            json_if_given(given.lcm_url, "plugins/lcm/lcm_url"@),
            json_if_given(given.key_prefix, "plugins/lcm/key_prefix"@),
            json_if_given(given.allow, "plugins/lcm/allow"@),
            json_if_given(given.deny, "plugins/lcm/deny"@),
            json_if_given(given.network_interface, "plugins/lcm/network_interface"@),
            if_some(limit),
        );
        assert(views(list@) == before + lcm_settings(given));
    }
    list
}

/// Lists that are appended one after the other are appended as one.
proof fn lemma_regroup(
    start: Seq<SettingView>,
    a: Seq<SettingView>,
    b: Seq<SettingView>,
    c: Seq<SettingView>,
    d: Seq<SettingView>,
    e: Seq<SettingView>,
    f: Seq<SettingView>,
)
    ensures
        start + a + b + c + d + e + f == start + (a + b + c + d + e + f),
{
    assert(start + a + b + c + d + e + f =~= start + (a + b + c + d + e + f));
}

/// Three settings that are appended one after the other are appended as a list.
proof fn lemma_three(start: Seq<SettingView>, a: SettingView, b: SettingView, c: SettingView)
    ensures
        start + seq![a] + seq![b] + seq![c] == start + seq![a, b, c],
{
    assert(start + seq![a] + seq![b] + seq![c] =~= start + seq![a, b, c]);
}

} // verus!
