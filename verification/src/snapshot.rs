//! The request snapshot builder: one canonical record for an incoming
//! request, built purely from plain values.
//!
//! Header entries are merged in arrival order; a body that is valid UTF-8 is
//! kept verbatim, any other body is replaced by a placeholder carrying the
//! payload's full byte count; the user-agent string goes to an outside
//! classifier whose structured result is passed through unmodified.

use vstd::prelude::*;
use vstd::string::StringExecFns;
use vstd::utf8::{decode_utf8, encode_utf8, valid_utf8};
use crate::extractors::{get_real_ip, get_real_proto, spec_real_ip, spec_real_proto};
use crate::headers::{
    entries_view, header_first, pretty_multimap, spec_header_first, spec_merge, HeaderValues,
};
use crate::ip::{ip_text, spec_ip_text, IpAddress};
use crate::strutil::{append_decimal, push_char, spec_decimal, utf8_string};

verus! {

/// A structured user-agent classification, as the outside classifier hands
/// it back: any field it cannot tell is its "UNKNOWN" sentinel.
pub struct UserAgent {
    pub name: String,
    pub category: String,
    pub os: String,
    pub os_version: String,
    pub browser_type: String,
    pub version: String,
    pub vendor: String,
}

impl View for UserAgent {
    type V = (Seq<char>, Seq<char>, Seq<char>, Seq<char>, Seq<char>, Seq<char>, Seq<char>);

    open spec fn view(&self) -> (
        Seq<char>,
        Seq<char>,
        Seq<char>,
        Seq<char>,
        Seq<char>,
        Seq<char>,
        Seq<char>,
    ) {
        (
            self.name@,
            self.category@,
            self.os@,
            self.os_version@,
            self.browser_type@,
            self.version@,
            self.vendor@,
        )
    }
}

/// What the user-agent classifier returns for a given string: a function of
/// the string alone.
pub uninterp spec fn ua_parse_of(s: Seq<char>) -> (
    Seq<char>,
    Seq<char>,
    Seq<char>,
    Seq<char>,
    Seq<char>,
    Seq<char>,
    Seq<char>,
);

/// Relies on woothee's `Parser::parse`: the classification depends on the
/// user-agent string alone, and an empty string is classified as the
/// crate's "UNKNOWN" defaults.
#[verifier::external_body]
pub fn get_user_agent(header: &str) -> (r: UserAgent)
    ensures
        r@ == ua_parse_of(header@),
        header@.len() == 0 ==> r.name@ == "UNKNOWN"@,
{
    let parser = woothee::parser::Parser::new();
    let w = parser.parse(header).unwrap_or_default();
    UserAgent {
        name: w.name.to_string(),
        category: w.category.to_string(),
        os: w.os.to_string(),
        os_version: w.os_version.into_owned(),
        browser_type: w.browser_type.to_string(),
        version: w.version.to_string(),
        vendor: w.vendor.to_string(),
    }
}

/// The placeholder kept in place of a body that is not valid UTF-8, naming
/// the full byte count of the original payload.
pub open spec fn spec_binary_placeholder(n: nat) -> Seq<char> {
    "<binary "@ + spec_decimal(n) + " bytes>"@
}

/// The text kept for a request body: the decoded text itself when the bytes
/// are valid UTF-8, else the placeholder with the payload's byte count.
pub open spec fn spec_body_text(bytes: Seq<u8>) -> Seq<char> {
    if valid_utf8(bytes) {
        decode_utf8(bytes)
    } else {
        spec_binary_placeholder(bytes.len())
    }
}

/// Decodes a request body, or replaces it by the binary placeholder.
pub fn body_text(bytes: Vec<u8>) -> (r: String)
    ensures
        r@ == spec_body_text(bytes@),
        valid_utf8(bytes@) ==> encode_utf8(r@) == bytes@,
{
    let n = bytes.len();
    let ghost bv = bytes@;
    match utf8_string(bytes) {
        Some(s) => {
            proof {
                broadcast use vstd::utf8::encode_utf8_decode_utf8;

                assert(decode_utf8(bv) == s@);
            }
            s
        },
        None => {
            let mut s = String::from_str("<binary ");
            append_decimal(&mut s, n as u64);
            s.append(" bytes>");
            proof {
                assert(s@ =~= spec_binary_placeholder(bv.len()));
            }
            s
        },
    }
}

/// The body text round-trips: text decoded from valid UTF-8 bytes
/// re-encodes to exactly those bytes, and any other payload of `n` bytes is
/// replaced by the placeholder naming `n` itself, never some other count.
pub proof fn lemma_body_round_trip(bytes: Seq<u8>)
    ensures
        valid_utf8(bytes) ==> encode_utf8(spec_body_text(bytes)) == bytes,
        !valid_utf8(bytes) ==> spec_body_text(bytes) == spec_binary_placeholder(bytes.len()),
{
    broadcast use vstd::utf8::decode_utf8_encode_utf8;

}

/// The text of a peer address with its port: the IPv6 form is bracketed.
pub open spec fn spec_peer_text(ip: IpAddress, port: u16) -> Seq<char> {
    match ip {
        IpAddress::V4(_) => spec_ip_text(ip) + seq![':'] + spec_decimal(port as nat),
        IpAddress::V6(_) => seq!['['] + spec_ip_text(ip) + seq![']'] + seq![':'] + spec_decimal(
            port as nat,
        ),
    }
}

/// Renders a peer address with its port.
pub fn peer_text(ip: &IpAddress, port: u16) -> (r: String)
    ensures
        r@ == spec_peer_text(*ip, port),
{
    match ip {
        IpAddress::V4(_) => {
            let mut s = ip_text(ip);
            push_char(&mut s, ':');
            append_decimal(&mut s, port as u64);
            proof {
                assert(s@ =~= spec_peer_text(*ip, port));
            }
            s
        },
        IpAddress::V6(_) => {
            let mut s = String::new();
            push_char(&mut s, '[');
            s.append(ip_text(ip).as_str());
            push_char(&mut s, ']');
            push_char(&mut s, ':');
            append_decimal(&mut s, port as u64);
            proof {
                assert(s@ =~= spec_peer_text(*ip, port));
            }
            s
        },
    }
}

/// The components of the request URI, as the transport reports them.
pub struct UriParts {
    pub authority: Option<String>,
    pub host: Option<String>,
    pub path: String,
    pub port: Option<u16>,
    pub query: Option<String>,
    pub scheme: Option<String>,
}

/// The connection facts of one request: who connected, who the request was
/// really for, and over which scheme.
pub struct ConnectionInfo {
    /// The resolved client address, kept only when it differs from the peer.
    pub realip_remote_addr: Option<String>,
    /// The peer address with its port.
    pub peer_addr: String,
    /// The `host` header value, when one arrived.
    pub host: Option<String>,
    /// The resolved scheme.
    pub scheme: String,
}

/// The canonical normalized record of one incoming request.
pub struct DiagnosticSnapshot {
    pub connection_info: ConnectionInfo,
    pub version: String,
    pub method: String,
    pub uri: String,
    pub uri_parts: UriParts,
    pub peer_addr: String,
    pub path: String,
    pub query_string: String,
    pub ip: String,
    pub headers: Vec<(String, HeaderValues)>,
    pub body: String,
    pub user_agent: UserAgent,
}

/// What `build_snapshot` promises of its result: every field pinned against
/// the resolver, the merge, the body decoding and the classifier.
pub open spec fn snapshot_ok(
    r: DiagnosticSnapshot,
    hs: Seq<(Seq<char>, Seq<char>)>,
    body_bytes: Seq<u8>,
    peer_ip: IpAddress,
    peer_port: u16,
    method: Seq<char>,
    version: Seq<char>,
    uri: Seq<char>,
    path: Seq<char>,
    query_string: Option<Seq<char>>,
) -> bool {
    let resolved = spec_real_ip(hs, peer_ip);
    let merged = spec_merge(hs);
    &&& match r.connection_info.realip_remote_addr {
        None => resolved == peer_ip,
        Some(s) => resolved != peer_ip && s@ == spec_ip_text(resolved),
    }
    &&& r.connection_info.peer_addr@ == spec_peer_text(peer_ip, peer_port)
    &&& match r.connection_info.host {
        None => spec_header_first(hs, "host"@) is None,
        Some(h) => spec_header_first(hs, "host"@) == Some(h@),
    }
    &&& r.connection_info.scheme@ == spec_real_proto(hs, peer_ip)
    &&& r.version@ == version
    &&& r.method@ == method
    &&& r.uri@ == uri
    &&& r.peer_addr@ == spec_peer_text(peer_ip, peer_port)
    &&& r.path@ == path
    &&& r.query_string@ == match query_string {
        Some(q) => q,
        None => Seq::<char>::empty(),
    }
    &&& r.ip@ == spec_ip_text(peer_ip)
    &&& r.headers@.len() == merged.len()
    &&& forall|i: int|
        0 <= i < r.headers@.len() ==> (#[trigger] r.headers@[i]).0@ == merged[i].0
            && r.headers@[i].1@ == merged[i].1
    &&& forall|i: int|
        0 <= i < r.headers@.len() ==> ((#[trigger] r.headers@[i]).1 is One <==> merged[i].1.len()
            == 1)
    &&& r.body@ == spec_body_text(body_bytes)
    &&& r.user_agent@ == ua_parse_of(
        match spec_header_first(hs, "user-agent"@) {
            Some(v) => v,
            None => Seq::<char>::empty(),
        },
    )
}

/// Builds the snapshot of one request from plain values: resolves the real
/// client address and scheme, merges the headers, decodes the body, and
/// classifies the user agent.
#[verifier::rlimit(30)]
pub fn build_snapshot(
    headers: &Vec<(String, String)>,
    body_bytes: Vec<u8>,
    peer_ip: &IpAddress,
    peer_port: u16,
    method: String,
    version: String,
    uri: String,
    uri_parts: UriParts,
    path: String,
    query_string: Option<String>,
) -> (r: DiagnosticSnapshot)
    ensures
        snapshot_ok(
            r,
            entries_view(headers@),
            body_bytes@,
            *peer_ip,
            peer_port,
            method@,
            version@,
            uri@,
            path@,
            match query_string {
                Some(q) => Some(q@),
                None => None,
            },
        ),
{
    let real_ip = get_real_ip(headers, peer_ip);
    let realip_remote_addr = if real_ip == *peer_ip {
        None
    } else {
        Some(ip_text(&real_ip))
    };
    let scheme = get_real_proto(headers, peer_ip);
    let host = match header_first(headers, "host") {
        Some(h) => Some(h.clone()),
        None => None,
    };
    let user_agent = match header_first(headers, "user-agent") {
        Some(ua) => get_user_agent(ua.as_str()),
        None => {
            proof {
                reveal_strlit("");
                assert(""@ =~= Seq::<char>::empty());
            }
            get_user_agent("")
        },
    };
    let merged = pretty_multimap(headers);
    let body = body_text(body_bytes);
    let peer_addr = peer_text(peer_ip, peer_port);
    let ip = ip_text(peer_ip);
    let query_string = match query_string {
        Some(q) => q,
        None => String::new(),
    };
    DiagnosticSnapshot {
        connection_info: ConnectionInfo {
            realip_remote_addr,
            peer_addr: peer_addr.clone(),
            host,
            scheme,
        },
        version,
        method,
        uri,
        uri_parts,
        peer_addr,
        path,
        query_string,
        ip,
        headers: merged,
        body,
        user_agent,
    }
}

} // verus!
