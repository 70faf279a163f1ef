//! Laws of the command line: what is given overrides the configuration file, and nothing else does.
use crate::bridge::{
    between_quotes, bridge_settings, fixed_settings, if_given, json_char, json_chars,
    json_if_given, json_string, lcm_settings, session_settings, BridgeArgs, SettingView,
};
use vstd::prelude::*;

verus! {

/// The value that a list of settings leaves under a JSON path, if it sets one: the last counts.
pub open spec fn value_set(settings: Seq<SettingView>, key: Seq<char>) -> Option<Seq<char>>
    decreases settings.len(),
{
    if settings.len() == 0 {
        None
    } else {
        match settings.last() {
            SettingView::Json { key: path, value } if path == key => Some(value),
            _ => value_set(settings.drop_last(), key),
        }
    }
}

/// The JSON string of an argument, if it is given.
pub open spec fn argument_json(value: Option<String>) -> Option<Seq<char>> {
    match value {
        Some(text) => Some(json_string(text@)),
        None => None,
    }
}

/// Of two lists, one after the other, the second counts, and the first where the second sets
/// nothing.
proof fn lemma_value_set_concat(a: Seq<SettingView>, b: Seq<SettingView>, key: Seq<char>)
    ensures
        value_set(a + b, key) == match value_set(b, key) {
            Some(value) => Some(value),
            None => value_set(a, key),
        },
    decreases b.len(),
{
    if b.len() == 0 {
        assert(a + b =~= a);
    } else {
        lemma_value_set_concat(a, b.drop_last(), key);
        assert((a + b).drop_last() =~= a + b.drop_last());
        assert((a + b).last() == b.last());
    }
}

/// An argument that is given sets its own path, and no other.
proof fn lemma_value_set_one(
    value: Option<String>,
    setting: spec_fn(Seq<char>) -> SettingView,
    key: Seq<char>,
)
    ensures
        value_set(if_given(value, setting), key) == match value {
            Some(text) => match setting(text@) {
                SettingView::Json { key: path, value: json } if path == key => Some(json),
                _ => None,
            },
            None => None,
        },
{
    if let Some(text) = value {
        let list = if_given(value, setting);
        assert(value_set(list.drop_last(), key) is None);
    }
}

/// What the session's arguments leave under a path.
proof fn lemma_session_value(args: BridgeArgs, key: Seq<char>)
    ensures
        value_set(session_settings(args), key) == match args.rest_http_port {
            Some(port) if "plugins/rest/http_port"@ == key => Some(between_quotes(port@)),
            _ => None,
        },
{
    let id = if_given(args.id, |text: Seq<char>| SettingView::Id { hex: text });
    let mode = if_given(args.mode, |text: Seq<char>| SettingView::Mode { mode: text });
    let connect = match args.connect {
        Some(list) => seq![SettingView::Connect { endpoints: list@ }],
        None => Seq::empty(),
    };
    let listen = match args.listen {
        Some(list) => seq![SettingView::Listen { endpoints: list@ }],
        None => Seq::empty(),
    };
    let scouting = if args.no_multicast_scouting {
        seq![SettingView::MulticastScouting { enabled: false }]
    } else {
        Seq::empty()
    };
    let rest_setting = |text: Seq<char>|
        SettingView::Json { key: "plugins/rest/http_port"@, value: between_quotes(text) };
    let rest = if_given(args.rest_http_port, rest_setting);
    lemma_value_set_one(args.id, |text: Seq<char>| SettingView::Id { hex: text }, key);
    lemma_value_set_one(args.mode, |text: Seq<char>| SettingView::Mode { mode: text }, key);
    lemma_value_set_one(args.rest_http_port, rest_setting, key);
    assert(value_set(Seq::<SettingView>::empty(), key) is None);
    assert(connect.len() > 0 ==> connect.drop_last() =~= Seq::empty());
    assert(listen.len() > 0 ==> listen.drop_last() =~= Seq::empty());
    assert(scouting.len() > 0 ==> scouting.drop_last() =~= Seq::empty());
    assert(value_set(connect, key) is None);
    assert(value_set(listen, key) is None);
    assert(value_set(scouting, key) is None);
    lemma_value_set_concat(id, mode, key);
    lemma_value_set_concat(id + mode, connect, key);
    lemma_value_set_concat(id + mode + connect, listen, key);
    lemma_value_set_concat(id + mode + connect + listen, scouting, key);
    lemma_value_set_concat(id + mode + connect + listen + scouting, rest, key);
}

/// What the plugin's arguments leave under a path.
proof fn lemma_lcm_value(args: BridgeArgs, key: Seq<char>)
    ensures
        value_set(lcm_settings(args), key) == if args.max_message_size is Some
            && "plugins/lcm/max_message_size"@ == key {
            Some(args.max_message_size->0@)
        } else if args.network_interface is Some && "plugins/lcm/network_interface"@ == key {
            argument_json(args.network_interface)
        } else if args.deny is Some && "plugins/lcm/deny"@ == key {
            argument_json(args.deny)
        } else if args.allow is Some && "plugins/lcm/allow"@ == key {
            argument_json(args.allow)
        } else if args.key_prefix is Some && "plugins/lcm/key_prefix"@ == key {
            argument_json(args.key_prefix)
        } else if args.lcm_url is Some && "plugins/lcm/lcm_url"@ == key {
            argument_json(args.lcm_url)
        } else {
            None
        },
{
    let url = json_if_given(args.lcm_url, "plugins/lcm/lcm_url"@);
    let prefix = json_if_given(args.key_prefix, "plugins/lcm/key_prefix"@);
    let allow = json_if_given(args.allow, "plugins/lcm/allow"@);
    let deny = json_if_given(args.deny, "plugins/lcm/deny"@);
    let interface = json_if_given(args.network_interface, "plugins/lcm/network_interface"@);
    let limit_setting = |text: Seq<char>|
        SettingView::Json { key: "plugins/lcm/max_message_size"@, value: text };
    let limit = if_given(args.max_message_size, limit_setting);
    lemma_json_value(args.lcm_url, "plugins/lcm/lcm_url"@, key);
    lemma_json_value(args.key_prefix, "plugins/lcm/key_prefix"@, key);
    lemma_json_value(args.allow, "plugins/lcm/allow"@, key);
    lemma_json_value(args.deny, "plugins/lcm/deny"@, key);
    lemma_json_value(args.network_interface, "plugins/lcm/network_interface"@, key);
    lemma_value_set_one(args.max_message_size, limit_setting, key);
    lemma_value_set_concat(url, prefix, key);
    lemma_value_set_concat(url + prefix, allow, key);
    lemma_value_set_concat(url + prefix + allow, deny, key);
    lemma_value_set_concat(url + prefix + allow + deny, interface, key);
    lemma_value_set_concat(url + prefix + allow + deny + interface, limit, key);
}

proof fn lemma_json_value(value: Option<String>, path: Seq<char>, key: Seq<char>)
    ensures
        value_set(json_if_given(value, path), key) == if path == key {
            argument_json(value)
        } else {
            None
        },
{
    lemma_value_set_one(
        value,
        |text: Seq<char>| SettingView::Json { key: path, value: json_string(text) },
        key,
    );
}

/// What all settings together leave under a path.
proof fn lemma_bridge_value(args: BridgeArgs, has_lcm_plugin: bool, key: Seq<char>)
    ensures
        value_set(bridge_settings(args, has_lcm_plugin), key) == match value_set(
            lcm_settings(args),
            key,
        ) {
            Some(value) => Some(value),
            None => match value_set(session_settings(args), key) {
                Some(value) => Some(value),
                None => if !has_lcm_plugin && "plugins/lcm"@ == key {
                    Some("{}"@)
                } else {
                    None
                },
            },
        },
{
    let start = if has_lcm_plugin {
        Seq::empty()
    } else {
        seq![SettingView::Json { key: "plugins/lcm"@, value: "{}"@ }]
    };
    assert(start.len() > 0 ==> start.drop_last() =~= Seq::empty());
    assert(value_set(Seq::<SettingView>::empty(), key) is None);
    let session = session_settings(args);
    let fixed = fixed_settings();
    assert(value_set(fixed, key) is None) by {
        let two = fixed.drop_last();
        let one = two.drop_last();
        assert(one.drop_last() =~= Seq::empty());
        assert(value_set(one, key) is None);
        assert(value_set(two, key) is None);
    }
    lemma_value_set_concat(start, session, key);
    lemma_value_set_concat(start + session, fixed, key);
    lemma_value_set_concat(start + session + fixed, lcm_settings(args), key);
}

proof fn lemma_paths_distinct()
    ensures
        "plugins/lcm"@.len() == 11,
        "plugins/lcm/lcm_url"@.len() == 19,
        "plugins/lcm/key_prefix"@.len() == 22,
        "plugins/lcm/allow"@.len() == 17,
        "plugins/lcm/deny"@.len() == 16,
        "plugins/lcm/network_interface"@.len() == 29,
        "plugins/lcm/max_message_size"@.len() == 28,
        "plugins/rest/http_port"@.len() == 22,
        "plugins/lcm/key_prefix"@ != "plugins/rest/http_port"@,
{
    reveal_strlit("plugins/lcm");
    reveal_strlit("plugins/lcm/lcm_url");
    reveal_strlit("plugins/lcm/key_prefix");
    reveal_strlit("plugins/lcm/allow");
    reveal_strlit("plugins/lcm/deny");
    reveal_strlit("plugins/lcm/network_interface");
    reveal_strlit("plugins/lcm/max_message_size");
    reveal_strlit("plugins/rest/http_port");
    assert("plugins/lcm/key_prefix"@[8] == 'l');
    assert("plugins/rest/http_port"@[8] == 'r');
}

/// What is in one of two lists is in the two together, and nothing else is.
proof fn lemma_in_either(a: Seq<SettingView>, b: Seq<SettingView>, x: SettingView)
    ensures
        (a + b).contains(x) <==> a.contains(x) || b.contains(x),
{
    if a.contains(x) {
        assert((a + b)[a.index_of(x)] == x);
    }
    if b.contains(x) {
        assert((a + b)[a.len() + b.index_of(x)] == x);
    }
    if (a + b).contains(x) {
        let i = (a + b).index_of(x);
        if i < a.len() {
            assert(a[i] == x);
        } else {
            assert(b[i - a.len()] == x);
        }
    }
}

proof fn lemma_in_one(y: SettingView, x: SettingView)
    ensures
        seq![y].contains(x) <==> x == y,
{
    if x == y {
        assert(seq![y][0] == x);
    }
}

/// What an argument sets is in its list, and nothing else is.
proof fn lemma_in_given(
    value: Option<String>,
    setting: spec_fn(Seq<char>) -> SettingView,
    x: SettingView,
)
    ensures
        if_given(value, setting).contains(x) <==> value is Some && x == setting(value->0@),
        if_given(value, setting).len() == if value is Some {
            1int
        } else {
            0
        },
{
    if let Some(text) = value {
        lemma_in_one(setting(text@), x);
    }
}

proof fn lemma_in_json_given(value: Option<String>, key: Seq<char>, x: SettingView)
    ensures
        json_if_given(value, key).contains(x) <==> value is Some && x == (SettingView::Json {
            key,
            value: json_string(value->0@),
        }),
        json_if_given(value, key).len() == if value is Some {
            1int
        } else {
            0
        },
{
    lemma_in_given(
        value,
        |text: Seq<char>| SettingView::Json { key, value: json_string(text) },
        x,
    );
}

/// Whether the session's arguments ask for a setting.
spec fn session_asks_for(args: BridgeArgs, x: SettingView) -> bool {
    ||| args.id is Some && x == (SettingView::Id { hex: args.id->0@ })
    ||| args.mode is Some && x == (SettingView::Mode { mode: args.mode->0@ })
    ||| args.connect is Some && x == (SettingView::Connect { endpoints: args.connect->0@ })
    ||| args.listen is Some && x == (SettingView::Listen { endpoints: args.listen->0@ })
    ||| args.no_multicast_scouting && x == (SettingView::MulticastScouting { enabled: false })
    ||| args.rest_http_port is Some && x == (SettingView::Json {
        key: "plugins/rest/http_port"@,
        value: seq!['"'] + args.rest_http_port->0@ + seq!['"'],
    })
}

/// Whether the plugin's arguments ask for a setting.
spec fn lcm_asks_for(args: BridgeArgs, x: SettingView) -> bool {
    ||| args.lcm_url is Some && x == (SettingView::Json {
        key: "plugins/lcm/lcm_url"@,
        value: json_string(args.lcm_url->0@),
    })
    ||| args.key_prefix is Some && x == (SettingView::Json {
        key: "plugins/lcm/key_prefix"@,
        value: json_string(args.key_prefix->0@),
    })
    ||| args.allow is Some && x == (SettingView::Json {
        key: "plugins/lcm/allow"@,
        value: json_string(args.allow->0@),
    })
    ||| args.deny is Some && x == (SettingView::Json {
        key: "plugins/lcm/deny"@,
        value: json_string(args.deny->0@),
    })
    ||| args.network_interface is Some && x == (SettingView::Json {
        key: "plugins/lcm/network_interface"@,
        value: json_string(args.network_interface->0@),
    })
    ||| args.max_message_size is Some && x == (SettingView::Json {
        key: "plugins/lcm/max_message_size"@,
        value: args.max_message_size->0@,
    })
}

/// One for something that is given.
pub open spec fn one_if(given: bool) -> int {
    if given {
        1
    } else {
        0
    }
}

proof fn lemma_in_session(args: BridgeArgs, x: SettingView)
    ensures
        session_settings(args).contains(x) <==> session_asks_for(args, x),
        session_settings(args).len() == one_if(args.id is Some) + one_if(args.mode is Some)
            + one_if(args.connect is Some) + one_if(args.listen is Some) + one_if(
            args.no_multicast_scouting,
        ) + one_if(args.rest_http_port is Some),
{
    let id_setting = |text: Seq<char>| SettingView::Id { hex: text };
    let mode_setting = |text: Seq<char>| SettingView::Mode { mode: text };
    let rest_setting = |text: Seq<char>|
        SettingView::Json { key: "plugins/rest/http_port"@, value: between_quotes(text) };
    let id = if_given(args.id, id_setting);
    let mode = if_given(args.mode, mode_setting);
    let connect = match args.connect {
        Some(list) => seq![SettingView::Connect { endpoints: list@ }],
        None => Seq::empty(),
    };
    let listen = match args.listen {
        Some(list) => seq![SettingView::Listen { endpoints: list@ }],
        None => Seq::empty(),
    };
    let scouting = if args.no_multicast_scouting {
        seq![SettingView::MulticastScouting { enabled: false }]
    } else {
        Seq::empty()
    };
    let rest = if_given(args.rest_http_port, rest_setting);
    lemma_in_given(args.id, id_setting, x);
    lemma_in_given(args.mode, mode_setting, x);
    lemma_in_given(args.rest_http_port, rest_setting, x);
    if args.connect is Some {
        lemma_in_one(SettingView::Connect { endpoints: args.connect->0@ }, x);
    }
    if args.listen is Some {
        lemma_in_one(SettingView::Listen { endpoints: args.listen->0@ }, x);
    }
    lemma_in_one(SettingView::MulticastScouting { enabled: false }, x);
    lemma_in_either(id, mode, x);
    lemma_in_either(id + mode, connect, x);
    lemma_in_either(id + mode + connect, listen, x);
    lemma_in_either(id + mode + connect + listen, scouting, x);
    lemma_in_either(id + mode + connect + listen + scouting, rest, x);
}

proof fn lemma_in_lcm(args: BridgeArgs, x: SettingView)
    ensures
        lcm_settings(args).contains(x) <==> lcm_asks_for(args, x),
        lcm_settings(args).len() == one_if(args.lcm_url is Some) + one_if(args.key_prefix is Some)
            + one_if(args.allow is Some) + one_if(args.deny is Some) + one_if(
            args.network_interface is Some,
        ) + one_if(args.max_message_size is Some),
{
    let limit_setting = |text: Seq<char>|
        SettingView::Json { key: "plugins/lcm/max_message_size"@, value: text };
    let url = json_if_given(args.lcm_url, "plugins/lcm/lcm_url"@);
    let prefix = json_if_given(args.key_prefix, "plugins/lcm/key_prefix"@);
    let allow = json_if_given(args.allow, "plugins/lcm/allow"@);
    let deny = json_if_given(args.deny, "plugins/lcm/deny"@);
    let interface = json_if_given(args.network_interface, "plugins/lcm/network_interface"@);
    let limit = if_given(args.max_message_size, limit_setting);
    lemma_in_json_given(args.lcm_url, "plugins/lcm/lcm_url"@, x);
    lemma_in_json_given(args.key_prefix, "plugins/lcm/key_prefix"@, x);
    lemma_in_json_given(args.allow, "plugins/lcm/allow"@, x);
    lemma_in_json_given(args.deny, "plugins/lcm/deny"@, x);
    lemma_in_json_given(args.network_interface, "plugins/lcm/network_interface"@, x);
    lemma_in_given(args.max_message_size, limit_setting, x);
    lemma_in_either(url, prefix, x);
    lemma_in_either(url + prefix, allow, x);
    lemma_in_either(url + prefix + allow, deny, x);
    lemma_in_either(url + prefix + allow + deny, interface, x);
    lemma_in_either(url + prefix + allow + deny + interface, limit, x);
}

/// A text without quotes, backslashes and control characters is written as it is, between quotes;
/// a quote and a backslash are written with a backslash in front.
pub proof fn law_json_strings(text: Seq<char>, c: char)
    ensures
        json_string(Seq::empty()) == seq!['"', '"'],
        c as int >= 32 && c != '"' && c != '\\' ==> json_string(text.push(c)) == json_string(
            text,
        ).drop_last() + seq![c, '"'],
        c == '"' || c == '\\' ==> json_string(text.push(c)) == json_string(text).drop_last() + seq![
            '\\',
            c,
            '"',
        ],
{
    assert(text.push(c).drop_last() =~= text);
    assert(json_string(Seq::empty()) =~= seq!['"', '"']);
    assert(json_string(text).drop_last() =~= seq!['"'] + json_chars(text));
    assert(json_chars(text.push(c)) == json_chars(text) + json_char(c));
    assert(json_string(text.push(c)) =~= json_string(text).drop_last() + json_char(c) + seq!['"']);
}

/// What is in the settings is what the arguments ask for, what is always set, and the plugin's
/// empty configuration where the file has none.
proof fn lemma_in_settings(args: BridgeArgs, has_lcm_plugin: bool, x: SettingView)
    ensures
        bridge_settings(args, has_lcm_plugin).contains(x) <==> {
            ||| session_asks_for(args, x)
            ||| lcm_asks_for(args, x)
            ||| x == (SettingView::Timestamping { enabled: true })
            ||| x == (SettingView::AdminSpace { enabled: true })
            ||| x == (SettingView::PluginsLoading { enabled: true })
            ||| !has_lcm_plugin && x == (SettingView::Json { key: "plugins/lcm"@, value: "{}"@ })
        },
        bridge_settings(args, has_lcm_plugin).len() == 3 + one_if(!has_lcm_plugin)
            + session_settings(args).len() + lcm_settings(args).len(),
{
    let start = if has_lcm_plugin {
        Seq::empty()
    } else {
        seq![SettingView::Json { key: "plugins/lcm"@, value: "{}"@ }]
    };
    let session = session_settings(args);
    let fixed = fixed_settings();
    lemma_in_one(SettingView::Json { key: "plugins/lcm"@, value: "{}"@ }, x);
    lemma_in_session(args, x);
    lemma_in_lcm(args, x);
    assert(fixed.contains(x) <==> {
        ||| x == (SettingView::Timestamping { enabled: true })
        ||| x == (SettingView::AdminSpace { enabled: true })
        ||| x == (SettingView::PluginsLoading { enabled: true })
    }) by {
        assert(fixed[0] == (SettingView::Timestamping { enabled: true }));
        assert(fixed[1] == (SettingView::AdminSpace { enabled: true }));
        assert(fixed[2] == (SettingView::PluginsLoading { enabled: true }));
    }
    lemma_in_either(start, session, x);
    lemma_in_either(start + session, fixed, x);
    lemma_in_either(start + session + fixed, lcm_settings(args), x);
}

/// Exactly what is asked for is set. Each argument that is given sets its own entry, with its value
/// as given, whatever the other arguments are; one that is not given sets nothing. Timestamping,
/// the admin space and the loading of plugins are always on, and the plugin gets an empty
/// configuration just where the file has none. Nothing else is set, and nothing twice.
pub proof fn law_exactly_what_is_asked(args: BridgeArgs, has_lcm_plugin: bool, x: SettingView)
    ensures
        bridge_settings(args, has_lcm_plugin).contains(x) <==> {
            ||| args.id is Some && x == (SettingView::Id { hex: args.id->0@ })
            ||| args.mode is Some && x == (SettingView::Mode { mode: args.mode->0@ })
            ||| args.connect is Some && x == (SettingView::Connect { endpoints: args.connect->0@ })
            ||| args.listen is Some && x == (SettingView::Listen { endpoints: args.listen->0@ })
            ||| args.no_multicast_scouting && x == (SettingView::MulticastScouting {
                enabled: false,
            })
            ||| args.rest_http_port is Some && x == (SettingView::Json {
                key: "plugins/rest/http_port"@,
                value: seq!['"'] + args.rest_http_port->0@ + seq!['"'],
            })
            ||| args.lcm_url is Some && x == (SettingView::Json {
                key: "plugins/lcm/lcm_url"@,
                value: json_string(args.lcm_url->0@),
            })
            ||| args.key_prefix is Some && x == (SettingView::Json {
                key: "plugins/lcm/key_prefix"@,
                value: json_string(args.key_prefix->0@),
            })
            ||| args.allow is Some && x == (SettingView::Json {
                key: "plugins/lcm/allow"@,
                value: json_string(args.allow->0@),
            })
            ||| args.deny is Some && x == (SettingView::Json {
                key: "plugins/lcm/deny"@,
                value: json_string(args.deny->0@),
            })
            ||| args.network_interface is Some && x == (SettingView::Json {
                key: "plugins/lcm/network_interface"@,
                value: json_string(args.network_interface->0@),
            })
            ||| args.max_message_size is Some && x == (SettingView::Json {
                key: "plugins/lcm/max_message_size"@,
                value: args.max_message_size->0@,
            })
            ||| x == (SettingView::Timestamping { enabled: true })
            ||| x == (SettingView::AdminSpace { enabled: true })
            ||| x == (SettingView::PluginsLoading { enabled: true })
            ||| !has_lcm_plugin && x == (SettingView::Json { key: "plugins/lcm"@, value: "{}"@ })
        },
        bridge_settings(args, has_lcm_plugin).len() == 3 + one_if(!has_lcm_plugin) + one_if(
            args.id is Some,
        ) + one_if(args.mode is Some) + one_if(args.connect is Some) + one_if(args.listen is Some)
            + one_if(args.no_multicast_scouting) + one_if(args.rest_http_port is Some) + one_if(
            args.lcm_url is Some,
        ) + one_if(args.key_prefix is Some) + one_if(args.allow is Some) + one_if(
            args.deny is Some,
        ) + one_if(args.network_interface is Some) + one_if(args.max_message_size is Some),
{
    lemma_in_settings(args, has_lcm_plugin, x);
    lemma_in_session(args, x);
    lemma_in_lcm(args, x);
}

/// For each of the session's arguments: its entry is set, with the value as given, just where it is
/// given.
pub proof fn law_session_arguments(
    args: BridgeArgs,
    has_lcm_plugin: bool,
    text: Seq<char>,
    list: Seq<String>,
)
    ensures
        ({
            let settings = bridge_settings(args, has_lcm_plugin);
            &&& settings.contains(SettingView::Id { hex: text }) <==> (args.id matches Some(id)
                && id@ == text)
            &&& settings.contains(SettingView::Mode { mode: text }) <==> (
            args.mode matches Some(mode) && mode@ == text)
            &&& settings.contains(SettingView::Connect { endpoints: list }) <==> (
            args.connect matches Some(given) && given@ == list)
            &&& settings.contains(SettingView::Listen { endpoints: list }) <==> (
            args.listen matches Some(given) && given@ == list)
            &&& settings.contains(SettingView::MulticastScouting { enabled: false })
                <==> args.no_multicast_scouting
            &&& !settings.contains(SettingView::MulticastScouting { enabled: true })
            &&& settings.contains(SettingView::Timestamping { enabled: true })
            &&& settings.contains(SettingView::AdminSpace { enabled: true })
            &&& settings.contains(SettingView::PluginsLoading { enabled: true })
        }),
{
    law_exactly_what_is_asked(args, has_lcm_plugin, SettingView::Id { hex: text });
    law_exactly_what_is_asked(args, has_lcm_plugin, SettingView::Mode { mode: text });
    law_exactly_what_is_asked(args, has_lcm_plugin, SettingView::Connect { endpoints: list });
    law_exactly_what_is_asked(args, has_lcm_plugin, SettingView::Listen { endpoints: list });
    law_exactly_what_is_asked(
        args,
        has_lcm_plugin,
        SettingView::MulticastScouting { enabled: false },
    );
    law_exactly_what_is_asked(
        args,
        has_lcm_plugin,
        SettingView::MulticastScouting { enabled: true },
    );
    law_exactly_what_is_asked(args, has_lcm_plugin, SettingView::Timestamping { enabled: true });
    law_exactly_what_is_asked(args, has_lcm_plugin, SettingView::AdminSpace { enabled: true });
    law_exactly_what_is_asked(args, has_lcm_plugin, SettingView::PluginsLoading { enabled: true });
}

/// The plugin's empty configuration, where it is set, comes before everything else, so that it
/// overrides no argument.
pub proof fn law_empty_plugin_first(args: BridgeArgs, has_lcm_plugin: bool, i: int)
    requires
        0 < i < bridge_settings(args, has_lcm_plugin).len(),
    ensures
        bridge_settings(args, has_lcm_plugin)[i] != (SettingView::Json {
            key: "plugins/lcm"@,
            value: "{}"@,
        }),
        !has_lcm_plugin ==> bridge_settings(args, has_lcm_plugin)[0] == (SettingView::Json {
            key: "plugins/lcm"@,
            value: "{}"@,
        }),
{
    let empty = SettingView::Json { key: "plugins/lcm"@, value: "{}"@ };
    let settings = bridge_settings(args, has_lcm_plugin);
    let rest = session_settings(args) + fixed_settings() + lcm_settings(args);
    let start = if has_lcm_plugin {
        Seq::empty()
    } else {
        seq![empty]
    };
    assert(settings =~= start + rest);
    lemma_paths_distinct();
    lemma_in_session(args, empty);
    lemma_in_lcm(args, empty);
    lemma_in_either(session_settings(args), fixed_settings(), empty);
    lemma_in_either(session_settings(args) + fixed_settings(), lcm_settings(args), empty);
    assert(!rest.contains(empty));
    if settings[i] == empty {
        assert(rest[i - start.len()] == empty);
    }
}

/// Each argument that is given overrides its own setting of the configuration file, with its
/// value as it was written; an argument that is not given leaves its setting alone.
pub proof fn law_arguments_override_file(args: BridgeArgs, has_lcm_plugin: bool)
    ensures
        ({
            let settings = bridge_settings(args, has_lcm_plugin);
            &&& value_set(settings, "plugins/lcm/lcm_url"@) == argument_json(args.lcm_url)
            &&& value_set(settings, "plugins/lcm/key_prefix"@) == argument_json(args.key_prefix)
            &&& value_set(settings, "plugins/lcm/allow"@) == argument_json(args.allow)
            &&& value_set(settings, "plugins/lcm/deny"@) == argument_json(args.deny)
            &&& value_set(settings, "plugins/lcm/network_interface"@) == argument_json(
                args.network_interface,
            )
            &&& value_set(settings, "plugins/lcm/max_message_size"@)
                == match args.max_message_size {
                Some(text) => Some(text@),
                None => None,
            }
            &&& value_set(settings, "plugins/rest/http_port"@) == match args.rest_http_port {
                Some(port) => Some(seq!['"'] + port@ + seq!['"']),
                None => None,
            }
        }),
{
    lemma_paths_distinct();
    let keys = seq![
        "plugins/lcm/lcm_url"@,
        "plugins/lcm/key_prefix"@,
        "plugins/lcm/allow"@,
        "plugins/lcm/deny"@,
        "plugins/lcm/network_interface"@,
        "plugins/lcm/max_message_size"@,
        "plugins/rest/http_port"@,
    ];
    assert forall|i: int| 0 <= i < keys.len() implies value_set(
        bridge_settings(args, has_lcm_plugin),
        #[trigger] keys[i],
    ) == match value_set(lcm_settings(args), keys[i]) {
        Some(value) => Some(value),
        None => value_set(session_settings(args), keys[i]),
    } by {
        lemma_bridge_value(args, has_lcm_plugin, keys[i]);
    }
    lemma_lcm_value(args, keys[0]);
    lemma_session_value(args, keys[0]);
    lemma_lcm_value(args, keys[1]);
    lemma_session_value(args, keys[1]);
    lemma_lcm_value(args, keys[2]);
    lemma_session_value(args, keys[2]);
    lemma_lcm_value(args, keys[3]);
    lemma_session_value(args, keys[3]);
    lemma_lcm_value(args, keys[4]);
    lemma_session_value(args, keys[4]);
    lemma_lcm_value(args, keys[5]);
    lemma_session_value(args, keys[5]);
    lemma_lcm_value(args, keys[6]);
    lemma_session_value(args, keys[6]);
}

/// The plugin is always configured: with what the file says, or with nothing, so that the
/// defaults hold.
pub proof fn law_plugin_always_configured(args: BridgeArgs, has_lcm_plugin: bool)
    ensures
        value_set(bridge_settings(args, has_lcm_plugin), "plugins/lcm"@) == if has_lcm_plugin {
            None
        } else {
            Some("{}"@)
        },
{
    lemma_paths_distinct();
    lemma_bridge_value(args, has_lcm_plugin, "plugins/lcm"@);
    lemma_lcm_value(args, "plugins/lcm"@);
    lemma_session_value(args, "plugins/lcm"@);
}

} // verus!
