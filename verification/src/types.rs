//! Messages and multicast URLs.
use crate::addr::{ipv4_of, Ipv4Addr};
use crate::number::{number_error_text, parse_number, read_number, NumberError};
use crate::text::{
    after_prefix, halves, last_halves, pieces, rsplit_once, same_text, split, split_once,
    strip_prefix, texts, trim, trimmed,
};
use vstd::prelude::*;
use vstd::string::StringExecFns;

verus! {

/// A fully reassembled LCM message.
#[derive(Debug)]
pub struct LcmMessage {
    /// The LCM channel name.
    pub channel: String,
    /// The LCM sequence number from the wire.
    pub sequence_number: u32,
    /// Raw payload: fingerprint (8 bytes) and serialized message data.
    pub data: Vec<u8>,
}

/// The contents of a message.
pub struct MessageView {
    pub channel: Seq<char>,
    pub sequence_number: u32,
    pub data: Seq<u8>,
}

impl View for LcmMessage {
    type V = MessageView;

    open spec fn view(&self) -> MessageView {
        MessageView {
            channel: self.channel@,
            sequence_number: self.sequence_number,
            data: self.data@,
        }
    }
}

impl Clone for LcmMessage {
    fn clone(&self) -> (copy: Self)
        ensures
            copy@ == self@,
    {
        let copy = LcmMessage {
            channel: self.channel.clone(),
            sequence_number: self.sequence_number,
            data: self.data.clone(),
        };
        assert(copy.data@ =~= self.data@);
        copy
    }
}

/// The contents of an optional message.
pub open spec fn message_contents(message: Option<LcmMessage>) -> Option<MessageView> {
    match message {
        Some(msg) => Some(msg@),
        None => None,
    }
}

/// Parsed LCM multicast URL components.
#[derive(Clone, Copy, Debug, PartialEq, Eq, Structural)]
pub struct LcmUrl {
    pub multicast_group: Ipv4Addr,
    pub port: u16,
    pub ttl: u32,
    pub recv_buf_size: Option<usize>,
}

/// The group and port that LCM uses where none is given, for packets that stay on this host.
pub open spec fn default_url() -> LcmUrl {
    LcmUrl {
        multicast_group: Ipv4Addr { a: 239, b: 255, c: 76, d: 67 },
        port: 7667,
        ttl: 0,
        recv_buf_size: None,
    }
}

/// What is said of a component that cannot be read.
pub open spec fn invalid_text(what: Seq<char>, value: Seq<char>, why: Seq<char>) -> Seq<char> {
    "Invalid "@ + what + " '"@ + value + "': "@ + why
}

/// What is said of a component that is not a number.
pub open spec fn invalid_number(what: Seq<char>, value: Seq<char>, why: NumberError) -> Seq<char> {
    invalid_text(what, value, number_error_text(why))
}

/// A URL after one parameter of its query. A parameter without a value, and one that is not
/// known, changes nothing.
pub open spec fn with_param(url: LcmUrl, param: Seq<char>) -> Result<LcmUrl, Seq<char>> {
    match halves(param, '=') {
        Some((key, value)) => if key == "ttl"@ {
            match read_number(value, u32::MAX as nat) {
                Ok(n) => Ok(LcmUrl { ttl: n as u32, ..url }),
                Err(why) => Err(invalid_number("ttl"@, value, why)),
            }
        } else if key == "recv_buf_size"@ {
            match read_number(value, usize::MAX as nat) {
                Ok(n) => Ok(LcmUrl { recv_buf_size: Some(n as usize), ..url }),
                Err(why) => Err(invalid_number("recv_buf_size"@, value, why)),
            }
        } else {
            Ok(url)
        },
        None => Ok(url),
    }
}

/// A URL after the parameters of its query, taken in order up to the first that is invalid.
pub open spec fn with_params(url: LcmUrl, params: Seq<Seq<char>>) -> Result<LcmUrl, Seq<char>>
    decreases params.len(),
{
    if params.len() == 0 {
        Ok(url)
    } else {
        match with_param(url, params[0]) {
            Ok(next) => with_params(next, params.drop_first()),
            Err(why) => Err(why),
        }
    }
}

/// The URL `GROUP:PORT` with no query.
pub open spec fn read_endpoint(host_port: Seq<char>, url: Seq<char>) -> Result<LcmUrl, Seq<char>> {
    match last_halves(host_port, ':') {
        None => Err("LCM URL must contain GROUP:PORT: "@ + url),
        Some((group, port)) => match ipv4_of(group) {
            None => Err(invalid_text("multicast group"@, group, "invalid IPv4 address syntax"@)),
            Some(multicast_group) => match read_number(port, u16::MAX as nat) {
                Err(why) => Err(invalid_number("port"@, port, why)),
                Ok(n) => Ok(
                    LcmUrl { multicast_group, port: n as u16, ttl: 0, recv_buf_size: None },
                ),
            },
        },
    }
}

/// What a URL text denotes, or what is said of it where it denotes none.
pub open spec fn read_url(text: Seq<char>) -> Result<LcmUrl, Seq<char>> {
    let url = trimmed(text);
    match after_prefix(url, "udpm://"@) {
        None => Err("LCM URL must start with 'udpm://': "@ + url),
        Some(rest) => match halves(rest, '?') {
            None => read_endpoint(rest, url),
            Some((host_port, query)) => match read_endpoint(host_port, url) {
                Ok(endpoint) => with_params(endpoint, pieces(query, '&')),
                Err(why) => Err(why),
            },
        },
    }
}

/// Whether a reading and its description agree.
pub open spec fn url_agrees(
    result: Result<LcmUrl, String>,
    reading: Result<LcmUrl, Seq<char>>,
) -> bool {
    match result {
        Ok(url) => reading == Ok::<LcmUrl, Seq<char>>(url),
        Err(e) => reading == Err::<LcmUrl, Seq<char>>(e@),
    }
}

fn invalid(what: &str, value: &str, why: &str) -> (text: String)
    ensures
        text@ == invalid_text(what@, value@, why@),
{
    let mut text = "Invalid ".to_owned();
    text.append(what);
    text.append(" '");
    text.append(value);
    text.append("': ");
    text.append(why);
    text
}

impl Default for LcmUrl {
    fn default() -> (url: Self)
        ensures
            url == default_url(),
    {
        LcmUrl {
            multicast_group: Ipv4Addr::new(239, 255, 76, 67),
            port: 7667,
            ttl: 0,
            recv_buf_size: None,
        }
    }
}

impl LcmUrl {
    /// Parse an LCM URL string of the form `udpm://GROUP:PORT?ttl=N&recv_buf_size=M`.
    pub fn parse(url: &str) -> (result: Result<Self, String>)
        ensures
            url_agrees(result, read_url(url@)),
    {
        let url = trim(url);
        let rest = match strip_prefix(url, "udpm://") {
            Some(rest) => rest,
            None => {
                let mut why = "LCM URL must start with 'udpm://': ".to_owned();
                why.append(url);
                return Err(why);
            },
        };
        match split_once(rest, '?') {
            None => Self::parse_endpoint(rest, url),
            Some((host_port, query)) => match Self::parse_endpoint(host_port, url) {
                Ok(endpoint) => endpoint.parse_query(query),
                Err(why) => Err(why),
            },
        }
    }

    /// Parse `GROUP:PORT`. The whole URL is only named in what is said of a missing port.
    fn parse_endpoint(host_port: &str, url: &str) -> (result: Result<Self, String>)
        ensures
            url_agrees(result, read_endpoint(host_port@, url@)),
    {
        let (group_str, port_str) = match rsplit_once(host_port, ':') {
            Some(pair) => pair,
            None => {
                let mut why = "LCM URL must contain GROUP:PORT: ".to_owned();
                why.append(url);
                return Err(why);
            },
        };
        let multicast_group = match Ipv4Addr::parse(group_str) {
            Some(group) => group,
            None => {
                return Err(invalid("multicast group", group_str, "invalid IPv4 address syntax"));
            },
        };
        match parse_number(port_str, u16::MAX as u64) {
            Ok(port) => Ok(
                LcmUrl { multicast_group, port: port as u16, ttl: 0, recv_buf_size: None },
            ),
            Err(why) => Err(invalid("port", port_str, why.message())),
        }
    }

    /// Apply the parameters of a query, in order.
    fn parse_query(self, query: &str) -> (result: Result<Self, String>)
        ensures
            url_agrees(result, with_params(self, pieces(query@, '&'))),
    {
        let params = split(query, '&');
        let ghost all = pieces(query@, '&');
        let mut url = self;
        let mut i: usize = 0;
        assert(all.skip(0) =~= all);
        while i < params.len()
            invariant
                i <= params@.len(),
                texts(params@) == all,
                all == pieces(query@, '&'),
                with_params(url, all.skip(i as int)) == with_params(self, all),
            decreases params@.len() - i,
        {
            proof {
                assert(texts(params@)[i as int] == params@[i as int]@);
                assert(all.skip(i as int)[0] == all[i as int]);
                assert(all.skip(i as int).drop_first() =~= all.skip(i + 1));
            }
            match url.parse_param(params[i]) {
                Ok(next) => {
                    url = next;
                },
                Err(why) => {
                    return Err(why);
                },
            }
            i = i + 1;
        }
        Ok(url)
    }

    /// Apply one parameter of a query.
    fn parse_param(self, param: &str) -> (result: Result<Self, String>)
        ensures
            url_agrees(result, with_param(self, param@)),
    {
        match split_once(param, '=') {
            Some((key, value)) => if same_text(key, "ttl") {
                match parse_number(value, u32::MAX as u64) {
                    Ok(n) => Ok(LcmUrl { ttl: n as u32, ..self }),
                    Err(why) => Err(invalid("ttl", value, why.message())),
                }
            } else if same_text(key, "recv_buf_size") {
                match parse_number(value, usize::MAX as u64) {
                    Ok(n) => Ok(LcmUrl { recv_buf_size: Some(n as usize), ..self }),
                    Err(why) => Err(invalid("recv_buf_size", value, why.message())),
                }
            } else {
                Ok(self)
            },
            None => Ok(self),
        }
    }
}

} // verus!
