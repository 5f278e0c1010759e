//! Upstream and listener addresses in text form.

use crate::net;
use crate::net::{IpAddr, SocketAddr};
use crate::text;
use vstd::prelude::*;
use vstd::slice::slice_subrange;

verus! {

/// A parsed upstream value with independently optional host and port. A missing
/// host is the matched source SNI/Host, a missing port the listener's.
#[derive(Debug, Clone, PartialEq, Eq)]
pub struct UpstreamSpec {
    pub host: Option<String>,
    pub port: Option<u16>,
}

/// The host and port of a trimmed text: `[v6]:port`, or a host without colons
/// and a port behind the colon.
pub open spec fn host_port(s: Seq<char>) -> Option<(Seq<char>, nat)> {
    if s.len() > 0 && s[0] == '[' {
        let rest = s.subrange(1, s.len() as int);
        let close = text::first_char(rest, ']');
        if close + 1 >= rest.len() || rest[close + 1] != ':' || net::ipv6(rest.subrange(0, close)) is None {
            None
        } else {
            match text::number_up_to(rest.subrange(close + 2, rest.len() as int), 65535) {
                Some(port) => Some((rest.subrange(0, close), port)),
                None => None,
            }
        }
    } else {
        let colon = text::last_char(s, ':', s.len() as int);
        if colon <= 0 || s.subrange(0, colon).contains(':') {
            None
        } else {
            match text::number_up_to(s.subrange(colon + 1, s.len() as int), 65535) {
                Some(port) => Some((s.subrange(0, colon), port)),
                None => None,
            }
        }
    }
}

fn parse_host_port(s: &[char]) -> (r: Option<(String, u16)>)
    ensures
        match r {
            Some(v) => host_port(s@) == Some((v.0@, v.1 as nat)),
            None => host_port(s@) is None,
        },
{
    if s.len() > 0 && s[0] == '[' {
        let rest = slice_subrange(s, 1, s.len());
        let close = text::find_char(rest, ']', 0);
        if close >= rest.len() || rest.len() - close < 2 || rest[close + 1] != ':' {
            return None;
        }
        let host = slice_subrange(rest, 0, close);
        if net::parse_ipv6(host).is_none() {
            return None;
        }
        match text::parse_number(slice_subrange(rest, close + 2, rest.len()), 65535) {
            Some(port) => Some((text::string_of(host), port as u16)),
            None => None,
        }
    } else {
        let colon = match text::rfind_char(s, ':') {
            Some(i) => i,
            None => return None,
        };
        let host = slice_subrange(s, 0, colon);
        if colon == 0 || text::has_char(host, ':') {
            return None;
        }
        match text::parse_number(slice_subrange(s, colon + 1, s.len()), 65535) {
            Some(port) => Some((text::string_of(host), port as u16)),
            None => None,
        }
    }
}

/// Parse an upstream address into host and port. A bare IPv6 literal is
/// ambiguous and refused: it must be written in brackets.
pub fn split_host_port(s: &str) -> (r: Option<(String, u16)>)
    ensures
        match r {
            Some(v) => host_port(text::trim(s@)) == Some((v.0@, v.1 as nat)),
            None => host_port(text::trim(s@)) is None,
        },
{
    let t = text::trimmed_chars(s);
    parse_host_port(t.as_slice())
}

/// What a trimmed upstream value says: only digits are a port, a colon means
/// host and port, anything else is a host.
pub open spec fn upstream_of(s: Seq<char>) -> Option<(Option<Seq<char>>, Option<nat>)> {
    if s.len() == 0 {
        None
    } else if text::all_digits(s) {
        match text::number_up_to(s, 65535) {
            Some(port) => Some((None, Some(port))),
            None => None,
        }
    } else if s.contains(':') {
        match host_port(s) {
            Some((host, port)) => Some((Some(host), Some(port))),
            None => None,
        }
    } else {
        Some((Some(s), None))
    }
}

/// A parsed port as a number.
pub open spec fn port_of(port: Option<u16>) -> Option<nat> {
    match port {
        Some(p) => Some(p as nat),
        None => None,
    }
}

/// Parse an upstream value: a bare port, `host:port`, `[v6]:port`, or a bare
/// host.
pub fn parse_upstream(s: &str) -> (r: Option<UpstreamSpec>)
    ensures
        match r {
            Some(v) => upstream_of(text::trim(s@)) == Some((text::opt_text(v.host), port_of(v.port))),
            None => upstream_of(text::trim(s@)) is None,
        },
{
    let t = text::trimmed_chars(s);
    if t.len() == 0 {
        return None;
    }
    if text::only_digits(t.as_slice()) {
        return match text::parse_number(t.as_slice(), 65535) {
            Some(port) => Some(UpstreamSpec { host: None, port: Some(port as u16) }),
            None => None,
        };
    }
    if text::has_char(t.as_slice(), ':') {
        return match parse_host_port(t.as_slice()) {
            Some(v) => Some(UpstreamSpec { host: Some(v.0), port: Some(v.1) }),
            None => None,
        };
    }
    Some(UpstreamSpec { host: Some(text::string_of(t.as_slice())), port: None })
}

/// The dial target of an upstream value, with the missing pieces filled in. A
/// missing host is left open: it is the matched source SNI/Host.
pub open spec fn resolved_upstream(spec: Option<Seq<char>>, listener_port: u16) -> Option<(Option<Seq<char>>, nat)> {
    match spec {
        None => Some((None, listener_port as nat)),
        Some(s) => match upstream_of(text::trim(s)) {
            None => None,
            Some((host, port)) => Some(
                (
                    host,
                    match port {
                        Some(p) => p,
                        None => listener_port as nat,
                    },
                ),
            ),
        },
    }
}

/// Resolve an upstream value against a listener's port. `None` only when a value
/// that is present does not parse.
pub fn resolved_upstream_from(spec: Option<&str>, listener_port: u16) -> (r: Option<(Option<String>, u16)>)
    ensures
        match r {
            Some(v) => resolved_upstream(text::opt_str(spec), listener_port) == Some(
                (text::opt_text(v.0), v.1 as nat),
            ),
            None => resolved_upstream(text::opt_str(spec), listener_port) is None,
        },
{
    match spec {
        None => Some((None, listener_port)),
        Some(s) => match parse_upstream(s) {
            None => None,
            Some(parsed) => {
                let port = match parsed.port {
                    Some(p) => p,
                    None => listener_port,
                };
                Some((parsed.host, port))
            },
        },
    }
}

/// A host that an upstream value names is not empty.
pub proof fn lemma_host_is_not_empty(spec: Option<Seq<char>>, listener_port: u16)
    ensures
        resolved_upstream(spec, listener_port) matches Some((Some(host), _)) ==> host.len() > 0,
{
    if let Some(s) = spec {
        let s = text::trim(s);
        assert(net::ipv6(Seq::<char>::empty()) is None);
        if s.len() > 0 && s[0] == '[' {
            let rest = s.subrange(1, s.len() as int);
            text::lemma_next_char(rest, ']', 0);
            assert(rest.subrange(0, 0) =~= Seq::<char>::empty());
        } else {
            text::lemma_last_char(s, ':', s.len() as int);
        }
    }
}

/// An upstream value given as a number: the decimal text of a port, which then
/// reads like the same text written out.
pub fn upstream_from_number(v: i64) -> (r: Result<String, String>)
    ensures
        match r {
            Ok(s) => 0 <= v <= 65535 && s@ == text::dec(v as nat),
            Err(_) => v < 0 || v > 65535,
        },
        r matches Err(m) ==> m@ == out_of_range(signed(v as int)),
{
    if v < 0 || v > 65535 {
        return Err(port_out_of_range(v));
    }
    let mut out = String::new();
    text::push_dec(&mut out, v as u64);
    assert(out@ =~= text::dec(v as nat));
    Ok(out)
}

/// An integer in decimal, with its sign.
pub open spec fn signed(v: int) -> Seq<char> {
    if v < 0 {
        "-"@ + text::dec((-v) as nat)
    } else {
        text::dec(v as nat)
    }
}

/// That a port is out of range.
pub open spec fn out_of_range(port: Seq<char>) -> Seq<char> {
    "port "@ + port + " out of range (0..=65535)"@
}

fn port_out_of_range(v: i64) -> (r: String)
    ensures
        r@ == out_of_range(signed(v as int)),
{
    let mut out = "port ".to_owned();
    if v < 0 {
        text::push_text(&mut out, "-");
        let magnitude: u64 = if v == i64::MIN {
            9223372036854775808
        } else {
            (-v) as u64
        };
        text::push_dec(&mut out, magnitude);
    } else {
        text::push_dec(&mut out, v as u64);
    }
    text::push_text(&mut out, " out of range (0..=65535)");
    assert(out@ =~= out_of_range(signed(v as int)));
    out
}

/// The IPv4 wildcard address.
pub open spec fn any_v4() -> IpAddr {
    IpAddr::V4(0)
}

/// The listener address that a trimmed text gives, or why it gives none. Only
/// digits are a port on the IPv4 wildcard.
pub open spec fn listen_addr(s: Seq<char>) -> Result<SocketAddr, Seq<char>> {
    if s.len() == 0 {
        Err("listener addr must not be empty"@)
    } else if text::all_digits(s) {
        match text::number_up_to(s, 65535) {
            Some(port) => Ok(net::socket(any_v4(), port as u16)),
            None => Err(out_of_range(text::quoted(s))),
        }
    } else {
        match net::socket_addr(s) {
            Some(a) => Ok(a),
            None => Err("invalid socket address (expected \"ip:port\", \"[v6]:port\", or a bare port)"@),
        }
    }
}

/// Parse a listener address: a bare port, or a full socket address. A host name
/// is not resolved.
pub fn parse_listen_addr(s: &str) -> (r: Result<SocketAddr, String>)
    ensures
        match r {
            Ok(a) => listen_addr(text::trim(s@)) == Ok::<SocketAddr, Seq<char>>(a),
            Err(m) => listen_addr(text::trim(s@)) == Err::<SocketAddr, Seq<char>>(m@),
        },
{
    let t = text::trimmed_chars(s);
    if t.len() == 0 {
        return Err("listener addr must not be empty".to_owned());
    }
    if text::only_digits(t.as_slice()) {
        return match text::parse_number(t.as_slice(), 65535) {
            Some(port) => Ok(SocketAddr::new(IpAddr::V4(0), port as u16)),
            None => {
                let shown = text::string_of(t.as_slice());
                let mut m = "port ".to_owned();
                text::push_text(&mut m, text::quote(shown.as_str()).as_str());
                text::push_text(&mut m, " out of range (0..=65535)");
                assert(m@ =~= out_of_range(text::quoted(t@)));
                Err(m)
            },
        };
    }
    match net::parse_socket_addr(t.as_slice()) {
        Some(a) => Ok(a),
        None => Err("invalid socket address (expected \"ip:port\", \"[v6]:port\", or a bare port)".to_owned()),
    }
}

/// A listener address given as a number: a port on the IPv4 wildcard.
pub fn listen_addr_from_number(v: i64) -> (r: Result<SocketAddr, String>)
    ensures
        match r {
            Ok(a) => 0 <= v <= 65535 && a == net::socket(any_v4(), v as u16),
            Err(m) => (v < 0 || v > 65535) && m@ == out_of_range(signed(v as int)),
        },
{
    if v < 0 || v > 65535 {
        return Err(port_out_of_range(v));
    }
    Ok(SocketAddr::new(IpAddr::V4(0), v as u16))
}

// ---------------------------------------------------------------------------
// Laws
// ---------------------------------------------------------------------------

/// A port written as a number means the same upstream as the same port written
/// as text.
pub proof fn law_upstream_number_is_its_text(port: u16)
    ensures
        text::number(text::dec(port as nat)) == Some(port as nat),
        upstream_of(text::dec(port as nat)) == Some((None::<Seq<char>>, Some(port as nat))),
{
    text::lemma_dec_digits(port as nat);
    let s = text::dec(port as nat);
    assert(text::is_digit(s[0]));
}

/// A listener port written as a number means the same address as the same port
/// written as text, so the two can be told to be duplicates.
pub proof fn law_listen_number_is_its_text(port: u16)
    ensures
        listen_addr(text::dec(port as nat)) == Ok::<SocketAddr, Seq<char>>(net::socket(any_v4(), port)),
{
    law_upstream_number_is_its_text(port);
    text::lemma_dec_digits(port as nat);
}

/// Only the pieces that a value leaves out are filled in: a host that is given
/// is dialed, a port that is given is used, whatever the listener's port is.
pub proof fn law_given_pieces_are_kept(spec: Seq<char>, a: u16, b: u16)
    ensures
        (resolved_upstream(Some(spec), a) is Some) == (resolved_upstream(Some(spec), b) is Some),
        resolved_upstream(Some(spec), a) matches Some((host, _)) ==> (resolved_upstream(Some(spec), b) matches Some(
            (other, _),
        ) && host == other),
        upstream_of(text::trim(spec)) matches Some((host, Some(port))) ==> resolved_upstream(Some(spec), a) == Some(
            (host, port),
        ),
{
}

proof fn lemma_port_is_read(port: u16)
    ensures
        text::number_up_to(text::dec(port as nat), 65535) == Some(port as nat),
        text::dec(port as nat).len() > 0,
        !text::dec(port as nat).contains(':'),
        !text::is_space(text::dec(port as nat).last()),
{
    law_upstream_number_is_its_text(port);
    text::lemma_dec_digits(port as nat);
    let d = text::dec(port as nat);
    assert(text::is_digit(d[d.len() - 1]));
}

/// A host and a port written with a colon between them are read back as they are.
pub proof fn law_host_and_port_are_read_back(host: Seq<char>, port: u16)
    requires
        host.len() > 0,
        !host.contains(':'),
        host[0] != '[',
        !text::is_space(host[0]),
    ensures
        host_port(text::trim(host + seq![':'] + text::dec(port as nat))) == Some((host, port as nat)),
{
    lemma_port_is_read(port);
    let d = text::dec(port as nat);
    let s = host + seq![':'] + d;
    assert(s[0] == host[0]);
    assert(s.last() == d.last());
    text::lemma_trimmed_already(s);
    lemma_colon_before_port(host, d);
    let colon = text::last_char(s, ':', s.len() as int);
    assert(s.subrange(0, colon) =~= host);
    assert(s.subrange(colon + 1, s.len() as int) =~= d);
}

/// The last colon stands in front of the port.
proof fn lemma_colon_before_port(host: Seq<char>, d: Seq<char>)
    requires
        !d.contains(':'),
    ensures
        ({
            let s = host + seq![':'] + d;
            text::last_char(s, ':', s.len() as int) == host.len()
        }),
{
    let s = host + seq![':'] + d;
    text::lemma_last_char(s, ':', s.len() as int);
    let colon = text::last_char(s, ':', s.len() as int);
    let at = host.len() as int;
    assert(s[at] == ':');
    if colon > at {
        assert(s[colon] == d[colon - at - 1]);
        assert(d.contains(d[colon - at - 1]));
    }
}

proof fn lemma_brackets_are_read(addr: Seq<char>, port: u16)
    requires
        net::ipv6(addr) is Some,
        !addr.contains(']'),
    ensures
        host_port(text::trim(seq!['['] + addr + seq![']', ':'] + text::dec(port as nat))) == Some((addr, port as nat)),
{
    lemma_port_is_read(port);
    let d = text::dec(port as nat);
    let s = seq!['['] + addr + seq![']', ':'] + d;
    assert(s[0] == '[');
    assert(s.last() == d.last());
    text::lemma_trimmed_already(s);
    let rest = s.subrange(1, s.len() as int);
    let n = addr.len() as int;
    assert(rest =~= addr + seq![']', ':'] + d);
    assert forall|k: int| 0 <= k < n implies rest[k] != ']' by {
        assert(rest[k] == addr[k]);
        assert(addr.contains(addr[k]));
    }
    assert(rest[n] == ']');
    text::lemma_first_char_at(rest, ']', n);
    assert(rest[n + 1] == ':');
    assert(rest.subrange(0, n) =~= addr);
    assert(rest.subrange(n + 2, rest.len() as int) =~= d);
}

proof fn lemma_bare_address_is_refused(addr: Seq<char>, port: u16)
    requires
        addr.len() > 0,
        addr.contains(':'),
        addr[0] != '[',
        !text::is_space(addr[0]),
    ensures
        host_port(text::trim(addr + seq![':'] + text::dec(port as nat))) is None,
{
    lemma_port_is_read(port);
    let d = text::dec(port as nat);
    let s = addr + seq![':'] + d;
    assert(s[0] == addr[0]);
    assert(s.last() == d.last());
    text::lemma_trimmed_already(s);
    lemma_colon_before_port(addr, d);
    assert(s.subrange(0, addr.len() as int) =~= addr);
}

/// An IPv6 address and a port are read back where brackets stand round the address,
/// and refused where none do: the colons could not be told apart.
pub proof fn law_an_ipv6_address_takes_brackets(addr: Seq<char>, port: u16)
    requires
        net::ipv6(addr) is Some,
    ensures
        host_port(text::trim(seq!['['] + addr + seq![']', ':'] + text::dec(port as nat))) == Some((addr, port as nat)),
        host_port(text::trim(addr + seq![':'] + text::dec(port as nat))) is None,
{
    net::lemma_ipv6_characters(addr);
    assert(net::in_ipv6(addr[0]));
    lemma_brackets_are_read(addr, port);
    lemma_bare_address_is_refused(addr, port);
}

/// A bare port listens on every IPv4 address, whether it is text or a number.
pub proof fn law_bare_port_listens_everywhere(port: u16)
    ensures
        listen_addr(text::dec(port as nat)) == Ok::<SocketAddr, Seq<char>>(
            SocketAddr { ip: IpAddr::V4(0), port, flowinfo: 0, scope_id: 0 },
        ),
        net::socket(any_v4(), port) == (SocketAddr { ip: IpAddr::V4(0), port, flowinfo: 0, scope_id: 0 }),
{
    law_listen_number_is_its_text(port);
}

/// What an upstream value leaves out is the client's name and the listener's port.
pub proof fn law_missing_pieces_are_the_connections(host: Seq<char>, port: u16, listener_port: u16)
    requires
        host.len() > 0,
        !host.contains(':'),
        !text::all_digits(host),
        !text::is_space(host[0]),
        !text::is_space(host.last()),
    ensures
        resolved_upstream(None, listener_port) == Some((None::<Seq<char>>, listener_port as nat)),
        resolved_upstream(Some(host), listener_port) == Some((Some(host), listener_port as nat)),
        resolved_upstream(Some(text::dec(port as nat)), listener_port) == Some((None::<Seq<char>>, port as nat)),
{
    text::lemma_trimmed_already(host);
    lemma_port_is_read(port);
    let d = text::dec(port as nat);
    text::lemma_dec_digits(port as nat);
    assert(text::is_digit(d[0]) && text::is_digit(d.last()));
    text::lemma_trimmed_already(d);
}

} // verus!
