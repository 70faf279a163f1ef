//! Laws of multicast URLs.
use crate::addr::{ipv4_of, ipv4_text, law_ipv4_round_trip, Ipv4Addr};
use crate::number::{
    decimal, is_digit, law_number_round_trip, lemma_decimal, read_number, NumberError,
};
use crate::text::{
    after_prefix, halves, is_whitespace, lemma_first_piece, lemma_halves, lemma_last_halves,
    lemma_last_piece, lemma_only_piece, lemma_trim_nothing, lemma_trimmed, pieces, trimmed,
};
use crate::types::{read_endpoint, read_url, with_param, with_params, LcmUrl};
use vstd::prelude::*;

verus! {

/// `GROUP:PORT`.
pub open spec fn endpoint_text(group: Ipv4Addr, port: u16) -> Seq<char> {
    ipv4_text(group) + seq![':'] + decimal(port as nat)
}

/// `udpm://GROUP:PORT`.
pub open spec fn plain_url_text(group: Ipv4Addr, port: u16) -> Seq<char> {
    "udpm://"@ + endpoint_text(group, port)
}

/// `udpm://GROUP:PORT?ttl=N`.
pub open spec fn url_text_with_ttl(group: Ipv4Addr, port: u16, ttl: u32) -> Seq<char> {
    plain_url_text(group, port) + "?ttl="@ + decimal(ttl as nat)
}

/// `udpm://GROUP:PORT?ttl=N&recv_buf_size=M`.
pub open spec fn full_url_text(group: Ipv4Addr, port: u16, ttl: u32, size: usize) -> Seq<char> {
    url_text_with_ttl(group, port, ttl) + "&recv_buf_size="@ + decimal(size as nat)
}

/// Decimal digits hold nothing but digits.
proof fn lemma_decimal_lacks(n: nat, c: char)
    requires
        !is_digit(c),
    ensures
        !decimal(n).contains(c),
{
    lemma_decimal(n);
    if decimal(n).contains(c) {
        let i = decimal(n).index_of(c);
        assert(is_digit(decimal(n)[i]));
    }
}

proof fn lemma_concat_lacks(a: Seq<char>, b: Seq<char>, c: char)
    requires
        !a.contains(c),
        !b.contains(c),
    ensures
        !(a + b).contains(c),
{
    if (a + b).contains(c) {
        let i = (a + b).index_of(c);
        if i < a.len() {
            assert(a[i] == c);
        } else {
            assert(b[i - a.len()] == c);
        }
    }
}

proof fn lemma_char_lacks(d: char, c: char)
    requires
        c != d,
    ensures
        !seq![d].contains(c),
{
}

proof fn lemma_endpoint_lacks(group: Ipv4Addr, port: u16, c: char)
    requires
        !is_digit(c),
        c != '.',
        c != ':',
    ensures
        !endpoint_text(group, port).contains(c),
{
    let (p, q, r, s) = (
        decimal(group.a as nat),
        decimal(group.b as nat),
        decimal(group.c as nat),
        decimal(group.d as nat),
    );
    let dot = seq!['.'];
    lemma_decimal_lacks(group.a as nat, c);
    lemma_decimal_lacks(group.b as nat, c);
    lemma_decimal_lacks(group.c as nat, c);
    lemma_decimal_lacks(group.d as nat, c);
    lemma_decimal_lacks(port as nat, c);
    lemma_char_lacks('.', c);
    lemma_char_lacks(':', c);
    lemma_concat_lacks(r, dot, c);
    lemma_concat_lacks(r + dot, s, c);
    lemma_concat_lacks(q, dot, c);
    lemma_concat_lacks(q + dot, r + dot + s, c);
    lemma_concat_lacks(p, dot, c);
    lemma_concat_lacks(p + dot, q + dot + (r + dot + s), c);
    lemma_concat_lacks(ipv4_text(group), seq![':'], c);
    lemma_concat_lacks(ipv4_text(group) + seq![':'], decimal(port as nat), c);
}

proof fn lemma_read_endpoint(group: Ipv4Addr, port: u16, url: Seq<char>)
    ensures
        read_endpoint(endpoint_text(group, port), url) == Ok::<LcmUrl, Seq<char>>(
            LcmUrl { multicast_group: group, port, ttl: 0, recv_buf_size: None },
        ),
{
    lemma_decimal_lacks(port as nat, ':');
    lemma_last_halves(ipv4_text(group), ':', decimal(port as nat));
    law_ipv4_round_trip(group);
    law_number_round_trip(port as nat, u16::MAX as nat);
}

/// A URL text that starts with the scheme and ends with a digit is read without trimming.
proof fn lemma_scheme(rest: Seq<char>)
    requires
        rest.len() > 0,
        is_digit(rest.last()),
    ensures
        crate::text::trimmed("udpm://"@ + rest) == "udpm://"@ + rest,
        crate::text::after_prefix("udpm://"@ + rest, "udpm://"@) == Some(rest),
{
    reveal_strlit("udpm://");
    let url = "udpm://"@ + rest;
    assert(url.last() == rest.last());
    lemma_trim_nothing(url);
    assert(url.subrange(0, "udpm://"@.len() as int) =~= "udpm://"@);
    assert(url.skip("udpm://"@.len() as int) =~= rest);
}

/// `udpm://GROUP:PORT` is read as that group and port, with a time-to-live of zero and no
/// receive buffer size.
pub proof fn law_plain_url(group: Ipv4Addr, port: u16)
    ensures
        read_url(plain_url_text(group, port)) == Ok::<LcmUrl, Seq<char>>(
            LcmUrl { multicast_group: group, port, ttl: 0, recv_buf_size: None },
        ),
{
    let rest = endpoint_text(group, port);
    lemma_decimal(port as nat);
    assert(rest.last() == decimal(port as nat).last());
    lemma_scheme(rest);
    lemma_endpoint_lacks(group, port, '?');
    lemma_only_piece(rest, '?');
    lemma_read_endpoint(group, port, plain_url_text(group, port));
}

/// The parameter `ttl=N` sets the time-to-live.
proof fn lemma_ttl_param(url: LcmUrl, ttl: u32)
    ensures
        with_param(url, "ttl="@ + decimal(ttl as nat)) == Ok::<LcmUrl, Seq<char>>(
            LcmUrl { ttl, ..url },
        ),
{
    reveal_strlit("ttl=");
    reveal_strlit("ttl");
    assert("ttl="@ =~= "ttl"@ + seq!['=']);
    lemma_halves("ttl"@, '=', decimal(ttl as nat));
    law_number_round_trip(ttl as nat, u32::MAX as nat);
}

/// The parameter `recv_buf_size=M` sets the receive buffer size.
proof fn lemma_size_param(url: LcmUrl, size: usize)
    ensures
        with_param(url, "recv_buf_size="@ + decimal(size as nat)) == Ok::<LcmUrl, Seq<char>>(
            LcmUrl { recv_buf_size: Some(size), ..url },
        ),
{
    reveal_strlit("recv_buf_size=");
    reveal_strlit("recv_buf_size");
    reveal_strlit("ttl");
    assert("recv_buf_size="@ =~= "recv_buf_size"@ + seq!['=']);
    lemma_halves("recv_buf_size"@, '=', decimal(size as nat));
    law_number_round_trip(size as nat, usize::MAX as nat);
}

/// `udpm://GROUP:PORT?ttl=N` is read as that group, port and time-to-live.
pub proof fn law_url_with_ttl(group: Ipv4Addr, port: u16, ttl: u32)
    ensures
        read_url(url_text_with_ttl(group, port, ttl)) == Ok::<LcmUrl, Seq<char>>(
            LcmUrl { multicast_group: group, port, ttl, recv_buf_size: None },
        ),
{
    let endpoint = endpoint_text(group, port);
    let param = "ttl="@ + decimal(ttl as nat);
    let rest = endpoint + seq!['?'] + param;
    let url = url_text_with_ttl(group, port, ttl);
    reveal_strlit("?ttl=");
    reveal_strlit("ttl=");
    lemma_decimal(ttl as nat);
    assert(url =~= "udpm://"@ + rest);
    assert(rest.last() == decimal(ttl as nat).last());
    lemma_scheme(rest);
    lemma_endpoint_lacks(group, port, '?');
    lemma_halves(endpoint, '?', param);
    lemma_read_endpoint(group, port, url);
    let bare = LcmUrl { multicast_group: group, port, ttl: 0, recv_buf_size: None };
    lemma_decimal_lacks(ttl as nat, '&');
    lemma_concat_lacks("ttl="@, decimal(ttl as nat), '&');
    lemma_only_piece(param, '&');
    lemma_ttl_param(bare, ttl);
    reveal_with_fuel(with_params, 2);
    assert(seq![param].drop_first() =~= Seq::<Seq<char>>::empty());
}

/// `udpm://GROUP:PORT?ttl=N&recv_buf_size=M` is read as that group, port, time-to-live and
/// receive buffer size, whatever they are.
pub proof fn law_full_url(group: Ipv4Addr, port: u16, ttl: u32, size: usize)
    ensures
        read_url(full_url_text(group, port, ttl, size)) == Ok::<LcmUrl, Seq<char>>(
            LcmUrl { multicast_group: group, port, ttl, recv_buf_size: Some(size) },
        ),
{
    let endpoint = endpoint_text(group, port);
    let first = "ttl="@ + decimal(ttl as nat);
    let second = "recv_buf_size="@ + decimal(size as nat);
    let query = first + seq!['&'] + second;
    let rest = endpoint + seq!['?'] + query;
    let url = full_url_text(group, port, ttl, size);
    reveal_strlit("?ttl=");
    reveal_strlit("ttl=");
    reveal_strlit("&recv_buf_size=");
    reveal_strlit("recv_buf_size=");
    lemma_decimal(size as nat);
    assert(url =~= "udpm://"@ + rest);
    assert(rest.last() == decimal(size as nat).last());
    lemma_scheme(rest);
    lemma_endpoint_lacks(group, port, '?');
    lemma_halves(endpoint, '?', query);
    lemma_read_endpoint(group, port, url);
    let bare = LcmUrl { multicast_group: group, port, ttl: 0, recv_buf_size: None };
    lemma_decimal_lacks(ttl as nat, '&');
    lemma_decimal_lacks(size as nat, '&');
    lemma_concat_lacks("ttl="@, decimal(ttl as nat), '&');
    lemma_concat_lacks("recv_buf_size="@, decimal(size as nat), '&');
    lemma_first_piece(first, '&', second);
    lemma_only_piece(second, '&');
    lemma_ttl_param(bare, ttl);
    lemma_size_param(LcmUrl { ttl, ..bare }, size);
    let params = seq![first] + seq![second];
    reveal_with_fuel(with_params, 3);
    assert(params.drop_first() =~= seq![second]);
    assert(seq![second].drop_first() =~= Seq::<Seq<char>>::empty());
}

/// Whitespace around a URL changes nothing.
pub proof fn law_whitespace_trimmed(left: Seq<char>, url: Seq<char>, right: Seq<char>)
    requires
        forall|i: int| 0 <= i < left.len() ==> is_whitespace(#[trigger] left[i]),
        forall|i: int| 0 <= i < right.len() ==> is_whitespace(#[trigger] right[i]),
    ensures
        read_url(left + url + right) == read_url(url),
{
    lemma_trimmed(left, url, right);
}

/// A parameter that has no value, or a key other than `ttl` and `recv_buf_size`, changes nothing,
/// wherever it stands in the query.
pub proof fn law_unknown_param_ignored(
    url: LcmUrl,
    before: Seq<Seq<char>>,
    param: Seq<char>,
    after: Seq<Seq<char>>,
)
    requires
        halves(param, '=') matches Some((key, _)) ==> key != "ttl"@ && key != "recv_buf_size"@,
    ensures
        with_params(url, before + seq![param] + after) == with_params(url, before + after),
    decreases before.len(),
{
    let all = before + seq![param] + after;
    if before.len() == 0 {
        assert(all[0] == param);
        assert(all.drop_first() =~= after);
        assert(before + after =~= after);
    } else {
        let less = before.drop_first();
        assert(all[0] == before[0]);
        assert((before + after)[0] == before[0]);
        assert(all.drop_first() =~= less + seq![param] + after);
        assert((before + after).drop_first() =~= less + after);
        if let Ok(next) = with_param(url, before[0]) {
            law_unknown_param_ignored(next, less, param, after);
        }
    }
}

/// Parameters count one after the other: one more is applied to what those before it gave, and an
/// error among those before it stays.
pub proof fn law_params_in_order(url: LcmUrl, params: Seq<Seq<char>>, param: Seq<char>)
    ensures
        with_params(url, params.push(param)) == match with_params(url, params) {
            Ok(before) => with_param(before, param),
            Err(why) => Err(why),
        },
    decreases params.len(),
{
    let all = params.push(param);
    if params.len() == 0 {
        reveal_with_fuel(with_params, 2);
        assert(all.drop_first() =~= Seq::<Seq<char>>::empty());
        assert(all[0] == param);
    } else {
        assert(all[0] == params[0]);
        assert(all.drop_first() =~= params.drop_first().push(param));
        if let Ok(next) = with_param(url, params[0]) {
            law_params_in_order(next, params.drop_first(), param);
        }
    }
}

/// Whether a character is white space, by its number.
pub open spec fn white_space(c: char) -> bool {
    let n = c as int;
    ||| 9 <= n <= 13
    ||| n == 32
    ||| n == 133
    ||| n == 160
    ||| n == 5760
    ||| 8192 <= n <= 8202
    ||| n == 8232
    ||| n == 8233
    ||| n == 8239
    ||| n == 8287
    ||| n == 12288
}

/// Whether a text is not empty and neither starts nor ends with white space.
pub open spec fn tight(text: Seq<char>) -> bool {
    &&& text.len() > 0
    &&& !white_space(text[0])
    &&& !white_space(text.last())
}

/// Whether a text does not end with white space.
pub open spec fn ends_tight(text: Seq<char>) -> bool {
    text.len() > 0 ==> !white_space(text.last())
}

/// A white space character in front of a URL or behind it changes nothing.
pub proof fn law_white_space_around(url: Seq<char>, c: char)
    requires
        white_space(c),
    ensures
        read_url(seq![c] + url) == read_url(url),
        read_url(url + seq![c]) == read_url(url),
{
    assert(is_whitespace(c));
    let none = Seq::<char>::empty();
    lemma_trimmed(seq![c], url, none);
    lemma_trimmed(none, url, seq![c]);
    assert(seq![c] + url + none =~= seq![c] + url);
    assert(none + url + seq![c] =~= url + seq![c]);
}

/// A text that starts with the scheme and does not end with white space is read as it stands.
proof fn lemma_tight_scheme(rest: Seq<char>)
    requires
        ends_tight(rest),
    ensures
        trimmed("udpm://"@ + rest) == "udpm://"@ + rest,
        after_prefix("udpm://"@ + rest, "udpm://"@) == Some(rest),
{
    reveal_strlit("udpm://");
    let url = "udpm://"@ + rest;
    assert(url.last() == if rest.len() > 0 {
        rest.last()
    } else {
        '/'
    });
    lemma_trim_nothing(url);
    assert(url.subrange(0, "udpm://"@.len() as int) =~= "udpm://"@);
    assert(url.skip("udpm://"@.len() as int) =~= rest);
}

/// A text without the scheme is no URL.
pub proof fn law_scheme_required(text: Seq<char>)
    requires
        tight(text),
        !"udpm://"@.is_prefix_of(text),
    ensures
        read_url(text) == Err::<LcmUrl, Seq<char>>(
            "LCM URL must start with 'udpm://': "@ + text,
        ),
{
    lemma_trim_nothing(text);
}

/// A URL whose part before the query has no colon names no port.
pub proof fn law_port_required(rest: Seq<char>, query: Seq<char>)
    requires
        !rest.contains(':'),
        !rest.contains('?'),
        ends_tight(rest),
        ends_tight(query),
    ensures
        read_url("udpm://"@ + rest) == Err::<LcmUrl, Seq<char>>(
            "LCM URL must contain GROUP:PORT: "@ + ("udpm://"@ + rest),
        ),
        read_url("udpm://"@ + (rest + seq!['?'] + query)) == Err::<LcmUrl, Seq<char>>(
            "LCM URL must contain GROUP:PORT: "@ + ("udpm://"@ + (rest + seq!['?'] + query)),
        ),
{
    lemma_tight_scheme(rest);
    lemma_tight_scheme(rest + seq!['?'] + query);
    lemma_only_piece(rest, '?');
    lemma_only_piece(rest, ':');
    lemma_halves(rest, '?', query);
}

/// What is said of a text that is not a number.
pub open spec fn number_trouble(why: NumberError) -> Seq<char> {
    match why {
        NumberError::Empty => "cannot parse integer from empty string"@,
        NumberError::InvalidDigit => "invalid digit found in string"@,
        NumberError::TooLarge => "number too large to fit in target type"@,
    }
}

proof fn lemma_invalid_texts()
    ensures
        "Invalid "@ + "ttl"@ + " '"@ == "Invalid ttl '"@,
        "Invalid "@ + "recv_buf_size"@ + " '"@ == "Invalid recv_buf_size '"@,
        "Invalid "@ + "port"@ + " '"@ == "Invalid port '"@,
        "Invalid "@ + "multicast group"@ + " '"@ == "Invalid multicast group '"@,
{
    reveal_strlit("Invalid ");
    reveal_strlit(" '");
    reveal_strlit("ttl");
    reveal_strlit("recv_buf_size");
    reveal_strlit("port");
    reveal_strlit("multicast group");
    reveal_strlit("Invalid ttl '");
    reveal_strlit("Invalid recv_buf_size '");
    reveal_strlit("Invalid port '");
    reveal_strlit("Invalid multicast group '");
    assert("Invalid "@ + "ttl"@ + " '"@ =~= "Invalid ttl '"@);
    assert("Invalid "@ + "recv_buf_size"@ + " '"@ =~= "Invalid recv_buf_size '"@);
    assert("Invalid "@ + "port"@ + " '"@ =~= "Invalid port '"@);
    assert("Invalid "@ + "multicast group"@ + " '"@ =~= "Invalid multicast group '"@);
}

/// `udpm://GROUP:PORT` is a URL just where the group, up to the last colon, is an IPv4 address and
/// the port is a number of at most 65535. Otherwise what is wrong is said, of the group first, and
/// a query changes nothing of that.
pub proof fn law_endpoint(group: Seq<char>, port: Seq<char>, query: Seq<char>)
    requires
        !group.contains('?'),
        !port.contains('?'),
        !port.contains(':'),
        ends_tight(port),
        ends_tight(query),
    ensures
        read_url("udpm://"@ + (group + seq![':'] + port)) == match ipv4_of(group) {
            None => Err::<LcmUrl, Seq<char>>(
                "Invalid multicast group '"@ + group + "': "@ + "invalid IPv4 address syntax"@,
            ),
            Some(addr) => match read_number(port, 65535) {
                Ok(n) => Ok(
                    LcmUrl { multicast_group: addr, port: n as u16, ttl: 0, recv_buf_size: None },
                ),
                Err(why) => Err("Invalid port '"@ + port + "': "@ + number_trouble(why)),
            },
        },
        read_url("udpm://"@ + (group + seq![':'] + port)) is Err ==> read_url(
            "udpm://"@ + (group + seq![':'] + port + seq!['?'] + query),
        ) == read_url("udpm://"@ + (group + seq![':'] + port)),
{
    let rest = group + seq![':'] + port;
    lemma_invalid_texts();
    lemma_tight_scheme(rest);
    lemma_tight_scheme(rest + seq!['?'] + query);
    lemma_concat_lacks(group, seq![':'], '?');
    lemma_concat_lacks(group + seq![':'], port, '?');
    lemma_only_piece(rest, '?');
    lemma_halves(rest, '?', query);
    lemma_last_halves(group, ':', port);
}

/// A URL text with one more parameter at its end.
pub open spec fn with_one_more(text: Seq<char>, param: Seq<char>) -> Seq<char> {
    text + seq![
        if text.contains('?') {
            '&'
        } else {
            '?'
        },
    ] + param
}

/// The text that follows the scheme holds a question mark just where the whole does.
proof fn lemma_scheme_lacks(rest: Seq<char>)
    ensures
        ("udpm://"@ + rest).contains('?') <==> rest.contains('?'),
{
    reveal_strlit("udpm://");
    if rest.contains('?') {
        assert(("udpm://"@ + rest)["udpm://"@.len() + rest.index_of('?')] == '?');
    } else {
        lemma_concat_lacks("udpm://"@, rest, '?');
    }
}

/// One more parameter at the end of a URL is applied to what the URL is without it.
proof fn lemma_one_more_param(text: Seq<char>, param: Seq<char>)
    requires
        tight(text),
        ends_tight(param),
        !param.contains('&'),
    ensures
        match read_url(text) {
            Ok(url) => read_url(with_one_more(text, param)) == with_param(url, param),
            Err(why) => {
                let longer = with_one_more(text, param);
                ||| read_url(longer) == Err::<LcmUrl, Seq<char>>(why)
                ||| why == "LCM URL must start with 'udpm://': "@ + text && read_url(longer)
                    == Err::<LcmUrl, Seq<char>>("LCM URL must start with 'udpm://': "@ + longer)
                ||| why == "LCM URL must contain GROUP:PORT: "@ + text && read_url(longer)
                    == Err::<LcmUrl, Seq<char>>("LCM URL must contain GROUP:PORT: "@ + longer)
            },
        },
{
    let longer = with_one_more(text, param);
    let scheme = "udpm://"@;
    reveal_strlit("udpm://");
    lemma_trim_nothing(text);
    assert(longer[0] == text[0]);
    assert(longer.last() == if param.len() > 0 {
        param.last()
    } else {
        longer[text.len() as int]
    });
    lemma_trim_nothing(longer);
    if scheme.is_prefix_of(text) {
        let rest = text.skip(scheme.len() as int);
        assert(text =~= scheme + rest);
        lemma_scheme_lacks(rest);
        assert(longer.subrange(0, scheme.len() as int) =~= scheme);
        if text.contains('?') {
            let rest_longer = rest + seq!['&'] + param;
            assert(longer.skip(scheme.len() as int) =~= rest_longer);
            rest.index_of_first_ensures('?');
            let i = rest.index_of_first('?')->0;
            let endpoint = rest.take(i);
            let query = rest.skip(i + 1);
            if endpoint.contains('?') {
                assert(rest[endpoint.index_of('?')] == '?');
            }
            assert(rest_longer =~= endpoint + seq!['?'] + (query + seq!['&'] + param));
            lemma_halves(endpoint, '?', query + seq!['&'] + param);
            lemma_last_piece(query, '&', param);
            if let Ok(url) = read_endpoint(endpoint, text) {
                law_params_in_order(url, pieces(query, '&'), param);
            }
        } else {
            assert(longer.skip(scheme.len() as int) =~= rest + seq!['?'] + param);
            lemma_only_piece(rest, '?');
            lemma_halves(rest, '?', param);
            lemma_only_piece(param, '&');
            if let Ok(url) = read_endpoint(rest, text) {
                let none = Seq::<Seq<char>>::empty();
                law_params_in_order(url, none, param);
                assert(none.push(param) =~= seq![param]);
            }
        }
    } else {
        if scheme.is_prefix_of(longer) {
            if text.len() < scheme.len() {
                assert(longer[text.len() as int] == scheme[text.len() as int]);
            } else {
                assert(longer.subrange(0, scheme.len() as int) =~= text.subrange(
                    0,
                    scheme.len() as int,
                ));
            }
        }
    }
}

/// What is wrong with a URL stays wrong, whatever parameter is added. Where what is said quotes the
/// URL, it quotes the longer one.
pub proof fn law_error_stays(text: Seq<char>, param: Seq<char>, why: Seq<char>)
    requires
        tight(text),
        ends_tight(param),
        !param.contains('&'),
        read_url(text) == Err::<LcmUrl, Seq<char>>(why),
    ensures
        ({
            let longer = with_one_more(text, param);
            ||| read_url(longer) == Err::<LcmUrl, Seq<char>>(why)
            ||| why == "LCM URL must start with 'udpm://': "@ + text && read_url(longer) == Err::<
                LcmUrl,
                Seq<char>,
            >("LCM URL must start with 'udpm://': "@ + longer)
            ||| why == "LCM URL must contain GROUP:PORT: "@ + text && read_url(longer) == Err::<
                LcmUrl,
                Seq<char>,
            >("LCM URL must contain GROUP:PORT: "@ + longer)
        }),
{
    lemma_one_more_param(text, param);
}

/// The parameter `ttl=VALUE` behind any URL, whatever parameters that has already, sets the
/// time-to-live and nothing else. A value that is no number of at most 4294967295 is an error.
pub proof fn law_ttl_anywhere(text: Seq<char>, value: Seq<char>, url: LcmUrl)
    requires
        tight(text),
        ends_tight(value),
        !value.contains('&'),
        read_url(text) == Ok::<LcmUrl, Seq<char>>(url),
    ensures
        read_url(with_one_more(text, "ttl="@ + value)) == match read_number(value, 4294967295) {
            Ok(n) => Ok::<LcmUrl, Seq<char>>(
                LcmUrl {
                    multicast_group: url.multicast_group,
                    port: url.port,
                    ttl: n as u32,
                    recv_buf_size: url.recv_buf_size,
                },
            ),
            Err(why) => Err("Invalid ttl '"@ + value + "': "@ + number_trouble(why)),
        },
{
    reveal_strlit("ttl=");
    reveal_strlit("ttl");
    let param = "ttl="@ + value;
    assert("ttl="@ =~= "ttl"@ + seq!['=']);
    assert(param.last() == if value.len() > 0 {
        value.last()
    } else {
        '='
    });
    lemma_concat_lacks("ttl="@, value, '&');
    lemma_halves("ttl"@, '=', value);
    lemma_invalid_texts();
    lemma_one_more_param(text, param);
}

/// The parameter `recv_buf_size=VALUE` behind any URL, whatever parameters that has already, sets
/// the receive buffer size and nothing else. A value that is no number, or too large, is an error.
pub proof fn law_size_anywhere(text: Seq<char>, value: Seq<char>, url: LcmUrl)
    requires
        tight(text),
        ends_tight(value),
        !value.contains('&'),
        read_url(text) == Ok::<LcmUrl, Seq<char>>(url),
    ensures
        read_url(with_one_more(text, "recv_buf_size="@ + value)) == match read_number(
            value,
            usize::MAX as nat,
        ) {
            Ok(n) => Ok::<LcmUrl, Seq<char>>(
                LcmUrl {
                    multicast_group: url.multicast_group,
                    port: url.port,
                    ttl: url.ttl,
                    recv_buf_size: Some(n as usize),
                },
            ),
            Err(why) => Err("Invalid recv_buf_size '"@ + value + "': "@ + number_trouble(why)),
        },
{
    reveal_strlit("recv_buf_size=");
    reveal_strlit("recv_buf_size");
    reveal_strlit("ttl");
    let param = "recv_buf_size="@ + value;
    assert("recv_buf_size="@ =~= "recv_buf_size"@ + seq!['=']);
    assert(param.last() == if value.len() > 0 {
        value.last()
    } else {
        '='
    });
    lemma_concat_lacks("recv_buf_size="@, value, '&');
    lemma_halves("recv_buf_size"@, '=', value);
    lemma_invalid_texts();
    lemma_one_more_param(text, param);
}

/// A parameter that starts neither with `ttl=` nor with `recv_buf_size=` changes nothing, behind
/// any URL.
pub proof fn law_other_param_anywhere(text: Seq<char>, param: Seq<char>, url: LcmUrl)
    requires
        tight(text),
        ends_tight(param),
        !param.contains('&'),
        !"ttl="@.is_prefix_of(param),
        !"recv_buf_size="@.is_prefix_of(param),
        read_url(text) == Ok::<LcmUrl, Seq<char>>(url),
    ensures
        read_url(with_one_more(text, param)) == Ok::<LcmUrl, Seq<char>>(url),
{
    reveal_strlit("ttl=");
    reveal_strlit("ttl");
    reveal_strlit("recv_buf_size=");
    reveal_strlit("recv_buf_size");
    lemma_one_more_param(text, param);
    param.index_of_first_ensures('=');
    if param.contains('=') {
        let i = param.index_of_first('=')->0;
        let key = param.take(i);
        if key == "ttl"@ {
            assert("ttl="@ =~= key.push('='));
            assert(param.subrange(0, "ttl="@.len() as int) =~= "ttl="@);
        }
        if key == "recv_buf_size"@ {
            assert("recv_buf_size="@ =~= key.push('='));
            assert(param.subrange(0, "recv_buf_size="@.len() as int) =~= "recv_buf_size="@);
        }
    }
}

/// `udpm://GROUP:PORT?recv_buf_size=M&ttl=N`.
pub open spec fn exchanged_url_text(group: Ipv4Addr, port: u16, ttl: u32, size: usize) -> Seq<
    char,
> {
    plain_url_text(group, port) + "?recv_buf_size="@ + decimal(size as nat) + "&ttl="@ + decimal(
        ttl as nat,
    )
}

/// The two parameters of a URL may be exchanged.
pub proof fn law_params_exchanged(group: Ipv4Addr, port: u16, ttl: u32, size: usize)
    ensures
        read_url(exchanged_url_text(group, port, ttl, size)) == read_url(
            full_url_text(group, port, ttl, size),
        ),
        read_url(exchanged_url_text(group, port, ttl, size)) == Ok::<LcmUrl, Seq<char>>(
            LcmUrl { multicast_group: group, port, ttl, recv_buf_size: Some(size) },
        ),
{
    reveal_strlit("udpm://");
    reveal_strlit("?recv_buf_size=");
    reveal_strlit("recv_buf_size=");
    reveal_strlit("&ttl=");
    reveal_strlit("ttl=");
    law_full_url(group, port, ttl, size);
    law_plain_url(group, port);
    let plain = plain_url_text(group, port);
    let m = decimal(size as nat);
    let n = decimal(ttl as nat);
    lemma_decimal(size as nat);
    lemma_decimal(ttl as nat);
    lemma_decimal(port as nat);
    lemma_decimal_lacks(size as nat, '&');
    lemma_decimal_lacks(ttl as nat, '&');
    lemma_endpoint_lacks(group, port, '?');
    lemma_scheme_lacks(endpoint_text(group, port));
    assert(is_digit(decimal(port as nat).last()));
    assert(is_digit(m.last()));
    assert(is_digit(n.last()));
    assert(plain.last() == decimal(port as nat).last());
    let bare = LcmUrl { multicast_group: group, port, ttl: 0, recv_buf_size: None };
    law_number_round_trip(size as nat, usize::MAX as nat);
    law_number_round_trip(ttl as nat, 4294967295);
    law_size_anywhere(plain, m, bare);
    let sized = with_one_more(plain, "recv_buf_size="@ + m);
    assert(sized =~= plain + "?recv_buf_size="@ + m);
    assert(sized.last() == m.last());
    assert(sized[plain.len() as int] == '?');
    law_ttl_anywhere(sized, n, LcmUrl { recv_buf_size: Some(size), ..bare });
    assert(with_one_more(sized, "ttl="@ + n) =~= exchanged_url_text(group, port, ttl, size));
}

} // verus!
