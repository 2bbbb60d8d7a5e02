//! The trusted-proxy resolver: which client address and scheme to believe.
//!
//! A peer is trusted exactly when it is a loopback address; only the
//! co-located reverse proxy connects from there. For a trusted peer the
//! `x-forwarded-for` and `x-forwarded-proto` headers decide; for any other
//! peer both are ignored unconditionally, so a client cannot spoof its
//! address or protocol except through the local proxy. Malformed values
//! never raise an error: everything falls back to the peer's own address
//! and to `"http"`.

use vstd::prelude::*;
use vstd::string::StringExecFns;
use crate::headers::{entries_view, header_first, spec_header_first};
use crate::ip::{parse_ip, spec_is_loopback, spec_parse_ip, IpAddress};
use crate::strutil::{
    chars_vec, lemma_split_nonempty, spec_split, spec_trim, split_chars, trim_chars,
};

verus! {

/// Whether the peer is the trusted local proxy: true exactly for loopback
/// addresses, IPv4 `127.0.0.0/8` and IPv6 `::1` alike.
pub fn is_trusted_proxy(peer: &IpAddress) -> (r: bool)
    ensures
        r == spec_is_loopback(*peer),
{
    peer.is_loopback()
}

/// The address the resolver reports: for an untrusted peer, always the peer
/// itself; for a trusted peer, the first comma-separated token of the first
/// `x-forwarded-for` value, trimmed and read as an IP address, with the peer
/// itself as the fallback when the header is absent or its token does not
/// parse.
pub open spec fn spec_real_ip(hs: Seq<(Seq<char>, Seq<char>)>, peer: IpAddress) -> IpAddress {
    if !spec_is_loopback(peer) {
        peer
    } else {
        match spec_header_first(hs, "x-forwarded-for"@) {
            None => peer,
            Some(v) => match spec_parse_ip(spec_trim(spec_split(v, ',')[0])) {
                Some(ip) => ip,
                None => peer,
            },
        }
    }
}

/// Resolves the real client address from the peer address and the request
/// headers.
pub fn get_real_ip(headers: &Vec<(String, String)>, peer: &IpAddress) -> (r: IpAddress)
    ensures
        r == spec_real_ip(entries_view(headers@), *peer),
        !spec_is_loopback(*peer) ==> r == *peer,
{
    if !is_trusted_proxy(peer) {
        return *peer;
    }
    let v = match header_first(headers, "x-forwarded-for") {
        Some(v) => v,
        None => { return *peer; },
    };
    let vc = chars_vec(v.as_str());
    let parts = split_chars(&vc, ',');
    proof {
        lemma_split_nonempty(v@, ',');
    }
    let tok = trim_chars(&parts[0]);
    match parse_ip(&tok) {
        Some(ip) => ip,
        None => *peer,
    }
}

/// The scheme the resolver reports: `"http"` for an untrusted peer; for a
/// trusted peer, the first `x-forwarded-proto` value, or `"http"` when the
/// header is absent.
pub open spec fn spec_real_proto(hs: Seq<(Seq<char>, Seq<char>)>, peer: IpAddress) -> Seq<char> {
    if !spec_is_loopback(peer) {
        "http"@
    } else {
        match spec_header_first(hs, "x-forwarded-proto"@) {
            None => "http"@,
            Some(v) => v,
        }
    }
}

/// Resolves the scheme the client used from the peer address and the
/// request headers.
pub fn get_real_proto(headers: &Vec<(String, String)>, peer: &IpAddress) -> (r: String)
    ensures
        r@ == spec_real_proto(entries_view(headers@), *peer),
        !spec_is_loopback(*peer) ==> r@ == "http"@,
{
    if !is_trusted_proxy(peer) {
        return String::from_str("http");
    }
    match header_first(headers, "x-forwarded-proto") {
        Some(v) => v.clone(),
        None => String::from_str("http"),
    }
}

/// Two trusted peers are treated identically, IPv4 loopback or IPv6
/// loopback alike: they always resolve to the same scheme, and whenever the
/// forwarded header decides the address (it is present and its first token
/// parses), they resolve to the same address; only the fallback echoes the
/// peer itself.
pub proof fn lemma_loopback_peers_resolve_alike(
    hs: Seq<(Seq<char>, Seq<char>)>,
    p1: IpAddress,
    p2: IpAddress,
)
    requires
        spec_is_loopback(p1),
        spec_is_loopback(p2),
    ensures
        spec_real_proto(hs, p1) == spec_real_proto(hs, p2),
        (match spec_header_first(hs, "x-forwarded-for"@) {
            None => false,
            Some(v) => spec_parse_ip(spec_trim(spec_split(v, ',')[0])) is Some,
        }) ==> spec_real_ip(hs, p1) == spec_real_ip(hs, p2),
{
}

} // verus!
