//! Network addresses and their textual forms.

use crate::text;
use crate::text::{push_dec, split_chars};
use vstd::prelude::*;
use vstd::slice::slice_subrange;

verus! {

/// An IP address: the 32-bit or 128-bit number that its octets spell.
#[derive(Debug, Clone, Copy, PartialEq, Eq, PartialOrd, Ord, Hash, Structural)]
pub enum IpAddr {
    V4(u32),
    V6(u128),
}

/// An IP address and a port, with the two IPv6 extras (zero for IPv4).
#[derive(Debug, Clone, Copy, PartialEq, Eq, PartialOrd, Ord, Hash, Structural)]
pub struct SocketAddr {
    pub ip: IpAddr,
    pub port: u16,
    pub flowinfo: u32,
    pub scope_id: u32,
}

impl View for SocketAddr {
    type V = SocketAddr;

    open spec fn view(&self) -> SocketAddr {
        *self
    }
}

impl SocketAddr {
    /// An address and a port.
    pub fn new(ip: IpAddr, port: u16) -> (r: Self)
        ensures
            r == socket(ip, port),
    {
        SocketAddr { ip, port, flowinfo: 0, scope_id: 0 }
    }
}

/// An address and a port.
pub open spec fn socket(ip: IpAddr, port: u16) -> SocketAddr {
    SocketAddr { ip, port, flowinfo: 0, scope_id: 0 }
}

// ---------------------------------------------------------------------------
// IPv4
// ---------------------------------------------------------------------------

/// The octet that one to three digits spell, without a superfluous zero.
pub open spec fn octet(s: Seq<char>) -> Option<nat> {
    if 1 <= s.len() <= 3 && text::all_digits(s) && (s.len() == 1 || s[0] != '0') && text::dec_value(s) <= 255 {
        Some(text::dec_value(s))
    } else {
        None
    }
}

/// The IPv4 address in dotted decimal.
pub open spec fn ipv4(s: Seq<char>) -> Option<nat> {
    let p = text::split(s, '.');
    if p.len() == 4 && octet(p[0]) is Some && octet(p[1]) is Some && octet(p[2]) is Some && octet(p[3]) is Some {
        Some(octet(p[0])->0 * 0x1000000 + octet(p[1])->0 * 0x10000 + octet(p[2])->0 * 0x100 + octet(p[3])->0)
    } else {
        None
    }
}

fn parse_octet(s: &[char]) -> (r: Option<u32>)
    ensures
        match r {
            Some(v) => octet(s@) == Some(v as nat) && v <= 255,
            None => octet(s@) is None,
        },
{
    if s.len() == 0 || s.len() > 3 || !text::only_digits(s) || (s.len() > 1 && s[0] == '0') {
        return None;
    }
    proof {
        assert(text::is_digit(s@[0]));
    }
    match text::parse_number(s, 255) {
        Some(v) => Some(v as u32),
        None => None,
    }
}

/// Read an IPv4 address.
pub fn parse_ipv4(s: &[char]) -> (r: Option<u32>)
    ensures
        match r {
            Some(v) => ipv4(s@) == Some(v as nat),
            None => ipv4(s@) is None,
        },
{
    let parts = split_chars(s, '.');
    let ghost p = text::split(s@, '.');
    assert(text::char_lists(parts@) == p);
    if parts.len() != 4 {
        return None;
    }
    assert(parts@[0]@ == p[0] && parts@[1]@ == p[1] && parts@[2]@ == p[2] && parts@[3]@ == p[3]);
    let a = match parse_octet(parts[0].as_slice()) {
        Some(v) => v,
        None => return None,
    };
    let b = match parse_octet(parts[1].as_slice()) {
        Some(v) => v,
        None => return None,
    };
    let c = match parse_octet(parts[2].as_slice()) {
        Some(v) => v,
        None => return None,
    };
    let d = match parse_octet(parts[3].as_slice()) {
        Some(v) => v,
        None => return None,
    };
    Some(a * 0x1000000 + b * 0x10000 + c * 0x100 + d)
}

// ---------------------------------------------------------------------------
// IPv6
// ---------------------------------------------------------------------------

/// The value of a hexadecimal digit.
pub open spec fn hex_value(c: char) -> Option<nat> {
    if '0' <= c <= '9' {
        Some((c as nat - '0' as nat) as nat)
    } else if 'a' <= c <= 'f' {
        Some((c as nat - 'a' as nat + 10) as nat)
    } else if 'A' <= c <= 'F' {
        Some((c as nat - 'A' as nat + 10) as nat)
    } else {
        None
    }
}

/// The number that hexadecimal digits spell.
pub open spec fn hex_number(s: Seq<char>) -> Option<nat>
    decreases s.len(),
{
    if s.len() == 0 {
        Some(0)
    } else {
        match (hex_number(s.drop_last()), hex_value(s.last())) {
            (Some(n), Some(d)) => Some(n * 16 + d),
            _ => None,
        }
    }
}

/// A 16-bit group: one to four hexadecimal digits.
pub open spec fn group(s: Seq<char>) -> Option<nat> {
    if 1 <= s.len() <= 4 {
        hex_number(s)
    } else {
        None
    }
}

/// The groups of the first `n` pieces.
pub open spec fn group_list(p: Seq<Seq<char>>, n: int) -> Option<Seq<nat>>
    decreases n,
{
    if n <= 0 {
        Some(Seq::empty())
    } else {
        match (group_list(p, n - 1), group(p[n - 1])) {
            (Some(front), Some(g)) => Some(front.push(g)),
            _ => None,
        }
    }
}

/// The groups of a colon-separated list. The last piece may be an IPv4 address,
/// where that is allowed, and makes two groups then. No text, no groups.
pub open spec fn groups(s: Seq<char>, allow_ipv4: bool) -> Option<Seq<nat>> {
    let p = text::split(s, ':');
    if s.len() == 0 {
        Some(Seq::empty())
    } else if allow_ipv4 && ipv4(p.last()) is Some {
        match group_list(p, p.len() - 1) {
            Some(front) => Some(front.push(ipv4(p.last())->0 / 0x10000).push(ipv4(p.last())->0 % 0x10000)),
            None => None,
        }
    } else {
        group_list(p, p.len() as int)
    }
}

/// The index of the first double colon at or behind `from`, or the length.
pub open spec fn double_colon(s: Seq<char>, from: int) -> int
    decreases s.len() - from,
{
    if from < 0 || from + 1 >= s.len() {
        s.len() as int
    } else if s[from] == ':' && s[from + 1] == ':' {
        from
    } else {
        double_colon(s, from + 1)
    }
}

/// The number that 16-bit groups spell.
pub open spec fn group_value(g: Seq<nat>) -> nat
    decreases g.len(),
{
    if g.len() == 0 {
        0
    } else {
        group_value(g.drop_last()) * 0x10000 + g.last()
    }
}

/// The eight groups of an IPv6 address. A double colon stands for the zero
/// groups that are missing, at least one.
pub open spec fn ipv6_groups(s: Seq<char>) -> Option<Seq<nat>> {
    let at = double_colon(s, 0);
    if at < s.len() {
        match (groups(s.subrange(0, at), false), groups(s.subrange(at + 2, s.len() as int), true)) {
            (Some(head), Some(tail)) => if head.len() + tail.len() <= 7 {
                Some(head + Seq::new((8 - head.len() - tail.len()) as nat, |i: int| 0nat) + tail)
            } else {
                None
            },
            _ => None,
        }
    } else {
        match groups(s, true) {
            Some(g) => if g.len() == 8 {
                Some(g)
            } else {
                None
            },
            None => None,
        }
    }
}

/// The IPv6 address in text form.
pub open spec fn ipv6(s: Seq<char>) -> Option<nat> {
    match ipv6_groups(s) {
        Some(g) => Some(group_value(g)),
        None => None,
    }
}

/// An IP address in text form.
pub open spec fn ip(s: Seq<char>) -> Option<IpAddr> {
    match ipv4(s) {
        Some(v) => Some(IpAddr::V4(v as u32)),
        None => match ipv6(s) {
            Some(v) => Some(IpAddr::V6(v as u128)),
            None => None,
        },
    }
}

fn hex_of(c: char) -> (r: Option<u32>)
    ensures
        match r {
            Some(v) => hex_value(c) == Some(v as nat) && v < 16,
            None => hex_value(c) is None,
        },
{
    if '0' <= c && c <= '9' {
        Some(c as u32 - '0' as u32)
    } else if 'a' <= c && c <= 'f' {
        Some(c as u32 - 'a' as u32 + 10)
    } else if 'A' <= c && c <= 'F' {
        Some(c as u32 - 'A' as u32 + 10)
    } else {
        None
    }
}

proof fn lemma_hex_none(s: Seq<char>, n: int)
    requires
        0 <= n <= s.len(),
        hex_number(s.take(n)) is None,
    ensures
        hex_number(s) is None,
    decreases s.len() - n,
{
    if n < s.len() {
        assert(s.take(n + 1).drop_last() =~= s.take(n));
        lemma_hex_none(s, n + 1);
    } else {
        assert(s.take(n) =~= s);
    }
}

fn parse_group(s: &[char]) -> (r: Option<u16>)
    ensures
        match r {
            Some(v) => group(s@) == Some(v as nat),
            None => group(s@) is None,
        },
{
    if s.len() == 0 || s.len() > 4 {
        return None;
    }
    let mut v: u32 = 0;
    let mut i: usize = 0;
    assert(s@.take(0) =~= Seq::<char>::empty());
    while i < s.len()
        invariant
            1 <= s@.len() <= 4,
            i <= s@.len(),
            hex_number(s@.take(i as int)) == Some(v as nat),
            i == 0 ==> v < 1,
            i == 1 ==> v < 16,
            i == 2 ==> v < 256,
            i == 3 ==> v < 4096,
            i == 4 ==> v < 65536,
        decreases s@.len() - i,
    {
        assert(s@.take(i + 1).drop_last() =~= s@.take(i as int));
        match hex_of(s[i]) {
            Some(d) => {
                v = v * 16 + d;
            },
            None => {
                proof {
                    lemma_hex_none(s@, i + 1);
                }
                return None;
            },
        }
        i = i + 1;
    }
    assert(s@.take(i as int) =~= s@);
    Some(v as u16)
}

/// The groups as mathematical numbers.
pub open spec fn group_nats(g: Seq<u16>) -> Seq<nat> {
    g.map_values(|x: u16| x as nat)
}

proof fn lemma_group_list_none(p: Seq<Seq<char>>, n: int, all: int)
    requires
        n <= all,
        group_list(p, n) is None,
    ensures
        group_list(p, all) is None,
    decreases all - n,
{
    if n < all {
        lemma_group_list_none(p, n + 1, all);
    }
}

fn parse_group_list(parts: &Vec<Vec<char>>, n: usize) -> (r: Option<Vec<u16>>)
    requires
        n <= parts@.len(),
    ensures
        match r {
            Some(g) => group_list(text::char_lists(parts@), n as int) == Some(group_nats(g@)),
            None => group_list(text::char_lists(parts@), n as int) is None,
        },
{
    let ghost p = text::char_lists(parts@);
    let mut out: Vec<u16> = Vec::new();
    let mut i: usize = 0;
    assert(group_nats(out@) =~= Seq::<nat>::empty());
    while i < n
        invariant
            p == text::char_lists(parts@),
            i <= n <= parts@.len(),
            group_list(p, i as int) == Some(group_nats(out@)),
        decreases n - i,
    {
        assert(p[i as int] == parts@[i as int]@);
        match parse_group(parts[i].as_slice()) {
            Some(g) => {
                let ghost before = group_nats(out@);
                out.push(g);
                assert(group_nats(out@) =~= before.push(g as nat));
            },
            None => {
                proof {
                    lemma_group_list_none(p, i + 1, n as int);
                }
                return None;
            },
        }
        i = i + 1;
    }
    Some(out)
}

fn parse_groups(s: &[char], allow_ipv4: bool) -> (r: Option<Vec<u16>>)
    ensures
        match r {
            Some(g) => groups(s@, allow_ipv4) == Some(group_nats(g@)),
            None => groups(s@, allow_ipv4) is None,
        },
{
    if s.len() == 0 {
        let out: Vec<u16> = Vec::new();
        assert(group_nats(out@) =~= Seq::<nat>::empty());
        return Some(out);
    }
    let parts = split_chars(s, ':');
    let n = parts.len();
    let ghost p = text::split(s@, ':');
    assert(p.len() == n && p.last() == parts@[n - 1]@);
    if allow_ipv4 {
        match parse_ipv4(parts[n - 1].as_slice()) {
            Some(v) => {
                return match parse_group_list(&parts, n - 1) {
                    Some(front) => {
                        let mut out = front;
                        let ghost before = group_nats(out@);
                        out.push((v / 0x10000) as u16);
                        out.push((v % 0x10000) as u16);
                        assert(group_nats(out@) =~= before.push(v as nat / 0x10000).push(v as nat % 0x10000));
                        Some(out)
                    },
                    None => None,
                };
            },
            None => {},
        }
    }
    parse_group_list(&parts, n)
}

fn find_double_colon(s: &[char]) -> (r: usize)
    ensures
        r == double_colon(s@, 0),
        r <= s@.len(),
        r < s@.len() ==> r + 2 <= s@.len(),
{
    let mut i: usize = 0;
    while i < s.len() && s.len() - i >= 2
        invariant
            i <= s@.len(),
            double_colon(s@, 0) == double_colon(s@, i as int),
        decreases s@.len() - i,
    {
        if s[i] == ':' && s[i + 1] == ':' {
            return i;
        }
        i = i + 1;
    }
    s.len()
}

/// The eight groups of an IPv6 address in text form.
fn parse_ipv6_groups(s: &[char]) -> (r: Option<Vec<u16>>)
    ensures
        match r {
            Some(g) => ipv6_groups(s@) == Some(group_nats(g@)) && g@.len() == 8,
            None => ipv6_groups(s@) is None,
        },
{
    let at = find_double_colon(s);
    if at < s.len() {
        let head = match parse_groups(slice_subrange(s, 0, at), false) {
            Some(g) => g,
            None => return None,
        };
        let tail = match parse_groups(slice_subrange(s, at + 2, s.len()), true) {
            Some(g) => g,
            None => return None,
        };
        if head.len() > 7 || tail.len() > 7 - head.len() {
            return None;
        }
        let ghost h = group_nats(head@);
        let ghost t = group_nats(tail@);
        let zeros = 8 - head.len() - tail.len();
        let mut out = head;
        let mut k: usize = 0;
        while k < zeros
            invariant
                k <= zeros,
                group_nats(out@) == h + Seq::new(k as nat, |i: int| 0nat),
            decreases zeros - k,
        {
            let ghost before = group_nats(out@);
            out.push(0);
            k = k + 1;
            assert(group_nats(out@) =~= before.push(0nat));
            assert(group_nats(out@) =~= h + Seq::new(k as nat, |i: int| 0nat));
        }
        let mut rest = tail;
        out.append(&mut rest);
        assert(group_nats(out@) =~= h + Seq::new(zeros as nat, |i: int| 0nat) + t);
        Some(out)
    } else {
        match parse_groups(s, true) {
            Some(g) => if g.len() == 8 {
                Some(g)
            } else {
                None
            },
            None => None,
        }
    }
}

/// The number that groups spell.
fn join_groups(g: &Vec<u16>) -> (r: u128)
    requires
        g@.len() == 8,
    ensures
        r == group_value(group_nats(g@)),
{
    let ghost all = group_nats(g@);
    let mut v: u128 = 0;
    let mut i: usize = 0;
    assert(all.take(0) =~= Seq::<nat>::empty());
    while i < 8
        invariant
            all == group_nats(g@),
            g@.len() == 8,
            i <= 8,
            v == group_value(all.take(i as int)),
            i == 0 ==> v < 1,
            i == 1 ==> v < 0x10000,
            i == 2 ==> v < 0x100000000,
            i == 3 ==> v < 0x1000000000000,
            i == 4 ==> v < 0x10000000000000000,
            i == 5 ==> v < 0x100000000000000000000,
            i == 6 ==> v < 0x1000000000000000000000000,
            i == 7 ==> v < 0x10000000000000000000000000000,
        decreases 8 - i,
    {
        assert(all.take(i + 1).drop_last() =~= all.take(i as int));
        v = v * 0x10000 + g[i] as u128;
        i = i + 1;
    }
    assert(all.take(8) =~= all);
    v
}

/// Read an IPv6 address.
pub fn parse_ipv6(s: &[char]) -> (r: Option<u128>)
    ensures
        match r {
            Some(v) => ipv6(s@) == Some(v as nat),
            None => ipv6(s@) is None,
        },
{
    match parse_ipv6_groups(s) {
        Some(g) => Some(join_groups(&g)),
        None => None,
    }
}

/// Read an IP address.
pub fn parse_ip(s: &[char]) -> (r: Option<IpAddr>)
    ensures
        r == ip(s@),
{
    match parse_ipv4(s) {
        Some(v) => Some(IpAddr::V4(v)),
        None => match parse_ipv6(s) {
            Some(v) => Some(IpAddr::V6(v)),
            None => None,
        },
    }
}

// ---------------------------------------------------------------------------
// Socket addresses
// ---------------------------------------------------------------------------

/// A number in plain digits, without a sign.
pub open spec fn plain_number(s: Seq<char>, max: int) -> Option<nat> {
    if s.len() > 0 && text::all_digits(s) && text::dec_value(s) <= max {
        Some(text::dec_value(s))
    } else {
        None
    }
}

fn parse_plain(s: &[char], max: u64) -> (r: Option<u64>)
    ensures
        match r {
            Some(v) => plain_number(s@, max as int) == Some(v as nat) && v <= max,
            None => plain_number(s@, max as int) is None,
        },
{
    if s.len() == 0 || !text::only_digits(s) {
        return None;
    }
    proof {
        assert(text::is_digit(s@[0]));
    }
    text::parse_number(s, max)
}

/// What stands between the brackets of an IPv6 socket address: an address, and a
/// numeric scope behind a percent sign if need be.
pub open spec fn scoped_ipv6(s: Seq<char>) -> Option<(nat, nat)> {
    let percent = text::first_char(s, '%');
    if percent < s.len() {
        match (ipv6(s.subrange(0, percent)), plain_number(s.subrange(percent + 1, s.len() as int), u32::MAX as int)) {
            (Some(a), Some(scope)) => Some((a, scope)),
            _ => None,
        }
    } else {
        match ipv6(s) {
            Some(a) => Some((a, 0)),
            None => None,
        }
    }
}

/// A socket address in text form: `ip:port` for IPv4, `[ip]:port` for IPv6.
pub open spec fn socket_addr(s: Seq<char>) -> Option<SocketAddr> {
    if s.len() > 0 && s[0] == '[' {
        let close = text::first_char(s, ']');
        if close + 1 >= s.len() || s[close + 1] != ':' {
            None
        } else {
            match (scoped_ipv6(s.subrange(1, close)), plain_number(s.subrange(close + 2, s.len() as int), 65535)) {
                (Some((a, scope)), Some(port)) => Some(
                    SocketAddr { ip: IpAddr::V6(a as u128), port: port as u16, flowinfo: 0, scope_id: scope as u32 },
                ),
                _ => None,
            }
        }
    } else {
        let colon = text::first_char(s, ':');
        if colon >= s.len() {
            None
        } else {
            match (ipv4(s.subrange(0, colon)), plain_number(s.subrange(colon + 1, s.len() as int), 65535)) {
                (Some(a), Some(port)) => Some(socket(IpAddr::V4(a as u32), port as u16)),
                _ => None,
            }
        }
    }
}

fn parse_scoped_ipv6(s: &[char]) -> (r: Option<(u128, u32)>)
    ensures
        match r {
            Some(v) => scoped_ipv6(s@) == Some((v.0 as nat, v.1 as nat)),
            None => scoped_ipv6(s@) is None,
        },
{
    let percent = text::find_char(s, '%', 0);
    if percent < s.len() {
        match (
            parse_ipv6(slice_subrange(s, 0, percent)),
            parse_plain(slice_subrange(s, percent + 1, s.len()), 4294967295),
        ) {
            (Some(a), Some(scope)) => Some((a, scope as u32)),
            _ => None,
        }
    } else {
        match parse_ipv6(s) {
            Some(a) => Some((a, 0)),
            None => None,
        }
    }
}

/// Read a socket address.
pub fn parse_socket_addr(s: &[char]) -> (r: Option<SocketAddr>)
    ensures
        r == socket_addr(s@),
{
    if s.len() > 0 && s[0] == '[' {
        let close = text::find_char(s, ']', 0);
        if close >= s.len() || s.len() - close < 2 || s[close + 1] != ':' {
            return None;
        }
        match (
            parse_scoped_ipv6(slice_subrange(s, 1, close)),
            parse_plain(slice_subrange(s, close + 2, s.len()), 65535),
        ) {
            (Some(v), Some(port)) => Some(
                SocketAddr { ip: IpAddr::V6(v.0), port: port as u16, flowinfo: 0, scope_id: v.1 },
            ),
            _ => None,
        }
    } else {
        let colon = text::find_char(s, ':', 0);
        if colon >= s.len() {
            return None;
        }
        match (parse_ipv4(slice_subrange(s, 0, colon)), parse_plain(slice_subrange(s, colon + 1, s.len()), 65535)) {
            (Some(a), Some(port)) => Some(SocketAddr::new(IpAddr::V4(a), port as u16)),
            _ => None,
        }
    }
}

// ---------------------------------------------------------------------------
// Writing addresses
// ---------------------------------------------------------------------------

/// An IPv4 address in dotted decimal.
pub open spec fn ipv4_text(v: nat) -> Seq<char> {
    text::dec(v / 0x1000000) + seq!['.'] + text::dec(v / 0x10000 % 256) + seq!['.'] + text::dec(v / 0x100 % 256) + seq![
        '.',
    ] + text::dec(v % 256)
}

/// A number in hexadecimal, without leading zeros.
pub open spec fn hex_text(n: nat) -> Seq<char>
    decreases n,
{
    if n < 16 {
        seq![text::hex_digit(n)]
    } else {
        hex_text(n / 16).push(text::hex_digit(n % 16))
    }
}

/// The eight groups of a 128-bit number.
pub open spec fn groups_of(v: nat) -> Seq<nat> {
    seq![
        v / 0x10000000000000000000000000000 % 0x10000,
        v / 0x1000000000000000000000000 % 0x10000,
        v / 0x100000000000000000000 % 0x10000,
        v / 0x10000000000000000 % 0x10000,
        v / 0x1000000000000 % 0x10000,
        v / 0x100000000 % 0x10000,
        v / 0x10000 % 0x10000,
        v % 0x10000,
    ]
}

/// How many zero groups stand in a row from `i` on.
pub open spec fn zero_run(g: Seq<nat>, i: int) -> nat
    decreases g.len() - i,
{
    if i < 0 || i >= g.len() || g[i] != 0 {
        0
    } else {
        1 + zero_run(g, i + 1)
    }
}

/// Where the first of the longest runs of zero groups begins, among the first
/// `n` positions.
pub open spec fn longest_run(g: Seq<nat>, n: int) -> int
    decreases n,
{
    if n <= 1 {
        0
    } else if zero_run(g, n - 1) > zero_run(g, longest_run(g, n - 1)) {
        n - 1
    } else {
        longest_run(g, n - 1)
    }
}

/// Groups from `from` up to `to`, with colons between them.
pub open spec fn group_texts(g: Seq<nat>, from: int, to: int) -> Seq<char>
    decreases to - from,
{
    if from >= to {
        Seq::empty()
    } else if to == from + 1 {
        hex_text(g[from])
    } else {
        group_texts(g, from, to - 1) + seq![':'] + hex_text(g[to - 1])
    }
}

/// An IPv6 address in its canonical form: the longest run of at least two zero
/// groups is left out, and an IPv4-mapped address ends in dotted decimal.
pub open spec fn ipv6_text(v: nat) -> Seq<char> {
    let g = groups_of(v);
    let at = longest_run(g, 8);
    let run = zero_run(g, at);
    if v / 0x100000000 == 0xffff {
        "::ffff:"@ + ipv4_text(v % 0x100000000)
    } else if run > 1 {
        group_texts(g, 0, at) + "::"@ + group_texts(g, at + run, 8)
    } else {
        group_texts(g, 0, 8)
    }
}

/// An IP address in text form.
pub open spec fn ip_text(a: IpAddr) -> Seq<char> {
    match a {
        IpAddr::V4(v) => ipv4_text(v as nat),
        IpAddr::V6(v) => ipv6_text(v as nat),
    }
}

/// A socket address in text form.
pub open spec fn socket_text(a: SocketAddr) -> Seq<char> {
    match a.ip {
        IpAddr::V4(v) => ipv4_text(v as nat) + seq![':'] + text::dec(a.port as nat),
        IpAddr::V6(v) => "["@ + ipv6_text(v as nat) + (if a.scope_id == 0 {
            Seq::empty()
        } else {
            "%"@ + text::dec(a.scope_id as nat)
        }) + "]:"@ + text::dec(a.port as nat),
    }
}

fn push_ipv4(out: &mut String, v: u32)
    ensures
        final(out)@ == old(out)@ + ipv4_text(v as nat),
{
    let ghost before = out@;
    push_dec(out, (v / 0x1000000) as u64);
    out.push('.');
    push_dec(out, (v / 0x10000 % 256) as u64);
    out.push('.');
    push_dec(out, (v / 0x100 % 256) as u64);
    out.push('.');
    push_dec(out, (v % 256) as u64);
    assert(out@ =~= before + ipv4_text(v as nat));
}

fn hex_char(n: u8) -> (r: char)
    requires
        n < 16,
    ensures
        r == text::hex_digit(n as nat),
{
    if n < 10 {
        (48 + n) as char
    } else {
        (87 + n) as char
    }
}

fn push_group(out: &mut String, n: u16)
    ensures
        final(out)@ == old(out)@ + hex_text(n as nat),
    decreases n,
{
    let ghost before = out@;
    if n >= 16 {
        push_group(out, n / 16);
        out.push(hex_char((n % 16) as u8));
    } else {
        out.push(hex_char(n as u8));
    }
    assert(out@ =~= before + hex_text(n as nat));
}

fn split_groups(v: u128) -> (r: Vec<u16>)
    ensures
        group_nats(r@) == groups_of(v as nat),
        r@.len() == 8,
{
    let out: Vec<u16> = vec![
        (v / 0x10000000000000000000000000000 % 0x10000) as u16,
        (v / 0x1000000000000000000000000 % 0x10000) as u16,
        (v / 0x100000000000000000000 % 0x10000) as u16,
        (v / 0x10000000000000000 % 0x10000) as u16,
        (v / 0x1000000000000 % 0x10000) as u16,
        (v / 0x100000000 % 0x10000) as u16,
        (v / 0x10000 % 0x10000) as u16,
        (v % 0x10000) as u16,
    ];
    assert(group_nats(out@) =~= groups_of(v as nat));
    out
}

fn run_from(g: &Vec<u16>, i: usize) -> (r: usize)
    requires
        i <= g@.len(),
    ensures
        r == zero_run(group_nats(g@), i as int),
        i + r <= g@.len(),
    decreases g@.len() - i,
{
    if i >= g.len() || g[i] != 0 {
        0
    } else {
        1 + run_from(g, i + 1)
    }
}

fn push_groups(out: &mut String, g: &Vec<u16>, from: usize, to: usize)
    requires
        from <= to <= g@.len(),
    ensures
        final(out)@ == old(out)@ + group_texts(group_nats(g@), from as int, to as int),
{
    let ghost before = out@;
    let ghost n = group_nats(g@);
    let mut i = from;
    assert(before + group_texts(n, from as int, from as int) =~= before);
    while i < to
        invariant
            n == group_nats(g@),
            from <= i <= to <= g@.len(),
            out@ == before + group_texts(n, from as int, i as int),
        decreases to - i,
    {
        let ghost here = out@;
        if i > from {
            out.push(':');
        }
        push_group(out, g[i]);
        proof {
            assert(n[i as int] == g@[i as int] as nat);
            assert(out@ =~= before + group_texts(n, from as int, i + 1));
        }
        i = i + 1;
    }
}

fn push_ipv6(out: &mut String, v: u128)
    ensures
        final(out)@ == old(out)@ + ipv6_text(v as nat),
{
    let ghost before = out@;
    if v / 0x100000000 == 0xffff {
        text::push_text(out, "::ffff:");
        push_ipv4(out, (v % 0x100000000) as u32);
        assert(out@ =~= before + ipv6_text(v as nat));
        return;
    }
    let g = split_groups(v);
    let ghost n = group_nats(g@);
    let mut at: usize = 0;
    let mut run = run_from(&g, 0);
    let mut i: usize = 1;
    while i < 8
        invariant
            g@.len() == 8,
            n == group_nats(g@),
            1 <= i <= 8,
            at < 8,
            at == longest_run(n, i as int),
            run == zero_run(n, at as int),
            at + run <= 8,
        decreases 8 - i,
    {
        let here = run_from(&g, i);
        if here > run {
            at = i;
            run = here;
        }
        i = i + 1;
    }
    if run > 1 {
        push_groups(out, &g, 0, at);
        text::push_text(out, "::");
        push_groups(out, &g, at + run, 8);
    } else {
        push_groups(out, &g, 0, 8);
    }
    assert(out@ =~= before + ipv6_text(v as nat));
}

/// Append an IP address.
pub fn push_ip(out: &mut String, a: IpAddr)
    ensures
        final(out)@ == old(out)@ + ip_text(a),
{
    match a {
        IpAddr::V4(v) => push_ipv4(out, v),
        IpAddr::V6(v) => push_ipv6(out, v),
    }
}

/// Append a socket address.
pub fn push_socket(out: &mut String, a: SocketAddr)
    ensures
        final(out)@ == old(out)@ + socket_text(a),
{
    let ghost before = out@;
    match a.ip {
        IpAddr::V4(v) => {
            push_ipv4(out, v);
            out.push(':');
            push_dec(out, a.port as u64);
        },
        IpAddr::V6(v) => {
            text::push_text(out, "[");
            push_ipv6(out, v);
            if a.scope_id != 0 {
                text::push_text(out, "%");
                push_dec(out, a.scope_id as u64);
            }
            text::push_text(out, "]:");
            push_dec(out, a.port as u64);
        },
    }
    assert(out@ =~= before + socket_text(a));
}

// ---------------------------------------------------------------------------
// What is no address
// ---------------------------------------------------------------------------

/// Whether no address in text form can begin with a character: neither a digit, a
/// hexadecimal one among them, nor a separator or a bracket.
pub open spec fn is_foreign(c: char) -> bool {
    hex_value(c) is None && c != '.' && c != ':' && c != '['
}

proof fn lemma_first_piece(s: Seq<char>, sep: char)
    requires
        s.len() > 0,
        s[0] != sep,
    ensures
        text::split(s, sep).len() > 0,
        text::split(s, sep)[0].len() > 0,
        text::split(s, sep)[0][0] == s[0],
{
    text::lemma_next_char(s, sep, 0);
    if text::next_char(s, sep, 0) == 0 {
        assert(s[0] == sep);
    }
}

proof fn lemma_hex_of_foreign(s: Seq<char>)
    requires
        s.len() > 0,
        hex_value(s[0]) is None,
    ensures
        hex_number(s) is None,
    decreases s.len(),
{
    if s.len() > 1 {
        lemma_hex_of_foreign(s.drop_last());
    }
}

proof fn lemma_ipv4_of_foreign(s: Seq<char>)
    requires
        s.len() > 0,
        is_foreign(s[0]),
    ensures
        ipv4(s) is None,
{
    lemma_first_piece(s, '.');
    let first = text::split(s, '.')[0];
    assert(!text::is_digit(first[0]));
}

proof fn lemma_groups_of_foreign(s: Seq<char>, allow_ipv4: bool)
    requires
        s.len() > 0,
        is_foreign(s[0]),
    ensures
        groups(s, allow_ipv4) is None,
{
    lemma_first_piece(s, ':');
    let p = text::split(s, ':');
    lemma_hex_of_foreign(p[0]);
    assert(group_list(p, 0) is Some);
    assert(group_list(p, 1) is None);
    lemma_group_list_none(p, 1, p.len() as int);
    if allow_ipv4 && ipv4(p.last()) is Some {
        lemma_ipv4_of_foreign(p[0]);
        assert(p.len() > 1);
        lemma_group_list_none(p, 1, p.len() - 1);
    }
}

/// A text that begins with a foreign character is no address, with a port or
/// without.
pub proof fn lemma_foreign_is_no_address(s: Seq<char>)
    requires
        s.len() > 0,
        is_foreign(s[0]),
    ensures
        ip(s) is None,
        socket_addr(s) is None,
{
    lemma_ipv4_of_foreign(s);
    lemma_groups_of_foreign(s, true);
    let at = double_colon(s, 0);
    lemma_double_colon_behind(s, 0);
    if at < s.len() {
        assert(s.subrange(0, at)[0] == s[0]);
        lemma_groups_of_foreign(s.subrange(0, at), false);
    }
    let colon = text::first_char(s, ':');
    text::lemma_next_char(s, ':', 0);
    if colon < s.len() {
        assert(s.subrange(0, colon)[0] == s[0]);
        lemma_ipv4_of_foreign(s.subrange(0, colon));
    }
}

proof fn lemma_double_colon_behind(s: Seq<char>, from: int)
    requires
        0 <= from < s.len(),
    ensures
        from <= double_colon(s, from) <= s.len(),
        s[from] != ':' ==> double_colon(s, from) > from,
    decreases s.len() - from,
{
    if from + 1 < s.len() && !(s[from] == ':' && s[from + 1] == ':') {
        lemma_double_colon_behind(s, from + 1);
    }
}

proof fn lemma_hex_characters(s: Seq<char>)
    requires
        hex_number(s) is Some,
    ensures
        forall|i: int| 0 <= i < s.len() ==> hex_value(#[trigger] s[i]) is Some,
    decreases s.len(),
{
    if s.len() > 0 {
        lemma_hex_characters(s.drop_last());
        assert forall|i: int| 0 <= i < s.len() implies hex_value(#[trigger] s[i]) is Some by {
            if i < s.len() - 1 {
                assert(s.drop_last()[i] == s[i]);
            }
        }
    }
}

/// Whether a character can stand in an IPv6 address.
pub open spec fn in_ipv6(c: char) -> bool {
    hex_value(c) is Some || c == ':' || c == '.'
}

proof fn lemma_ipv4_characters(s: Seq<char>)
    requires
        ipv4(s) is Some,
    ensures
        forall|i: int| 0 <= i < s.len() ==> in_ipv6(#[trigger] s[i]),
{
    let p = text::split(s, '.');
    assert forall|i: int| 0 <= i < s.len() implies in_ipv6(#[trigger] s[i]) by {
        if s[i] != '.' {
            text::lemma_in_a_piece(s, '.', 0, i);
            let k = choose|k: int| 0 <= k < p.len() && (#[trigger] p[k]).contains(s[i]);
            assert(octet(p[k]) is Some);
            let j = choose|j: int| 0 <= j < p[k].len() && p[k][j] == s[i];
            assert(text::is_digit(p[k][j]));
        }
    }
}

proof fn lemma_groups_are_there(p: Seq<Seq<char>>, n: int, k: int)
    requires
        0 <= k < n,
        group_list(p, n) is Some,
    ensures
        group(p[k]) is Some,
    decreases n,
{
    if k < n - 1 {
        lemma_groups_are_there(p, n - 1, k);
    }
}

proof fn lemma_group_count(p: Seq<Seq<char>>, n: int)
    requires
        0 <= n,
        group_list(p, n) is Some,
    ensures
        group_list(p, n)->0.len() == n,
    decreases n,
{
    if n > 0 {
        lemma_group_count(p, n - 1);
    }
}

proof fn lemma_groups_characters(s: Seq<char>, allow_ipv4: bool)
    requires
        groups(s, allow_ipv4) is Some,
    ensures
        forall|i: int| 0 <= i < s.len() ==> in_ipv6(#[trigger] s[i]),
        groups(s, allow_ipv4)->0.len() > 2 ==> s.contains(':'),
{
    let p = text::split(s, ':');
    let v4 = allow_ipv4 && ipv4(p.last()) is Some;
    assert forall|i: int| 0 <= i < s.len() implies in_ipv6(#[trigger] s[i]) by {
        if s[i] != ':' {
            text::lemma_in_a_piece(s, ':', 0, i);
            let k = choose|k: int| 0 <= k < p.len() && (#[trigger] p[k]).contains(s[i]);
            let j = choose|j: int| 0 <= j < p[k].len() && p[k][j] == s[i];
            if v4 && k == p.len() - 1 {
                lemma_ipv4_characters(p[k]);
            } else {
                lemma_groups_are_there(
                    p,
                    if v4 {
                        p.len() - 1
                    } else {
                        p.len() as int
                    },
                    k,
                );
                lemma_hex_characters(p[k]);
            }
            assert(in_ipv6(p[k][j]));
        }
    }
    if !s.contains(':') && s.len() > 0 {
        text::lemma_next_char(s, ':', 0);
        assert(p.len() == 1);
        if v4 {
            lemma_group_count(p, 0);
        } else {
            lemma_group_count(p, 1);
        }
    }
}

/// An IPv6 address in text form is made of hexadecimal digits, colons and dots, and
/// has a colon.
pub proof fn lemma_ipv6_characters(s: Seq<char>)
    requires
        ipv6(s) is Some,
    ensures
        s.len() > 0,
        forall|i: int| 0 <= i < s.len() ==> in_ipv6(#[trigger] s[i]),
        s.contains(':'),
{
    if s.len() == 0 {
        assert(groups(s, true) == Some(Seq::<nat>::empty()));
    }
    lemma_double_colon_behind(s, 0);
    let at = double_colon(s, 0);
    if at < s.len() {
        lemma_double_colon_is_one(s, 0);
        let head = s.subrange(0, at);
        let tail = s.subrange(at + 2, s.len() as int);
        lemma_groups_characters(head, false);
        lemma_groups_characters(tail, true);
        assert forall|i: int| 0 <= i < s.len() implies in_ipv6(#[trigger] s[i]) by {
            if i < at {
                assert(head[i] == s[i]);
            } else if i >= at + 2 {
                assert(tail[i - at - 2] == s[i]);
            }
        }
        assert(s.contains(s[at]));
    } else {
        lemma_groups_characters(s, true);
    }
}

proof fn lemma_double_colon_is_one(s: Seq<char>, from: int)
    requires
        0 <= from,
        double_colon(s, from) < s.len(),
    ensures
        double_colon(s, from) + 1 < s.len(),
        s[double_colon(s, from)] == ':',
        s[double_colon(s, from) + 1] == ':',
    decreases s.len() - from,
{
    if from + 1 < s.len() && !(s[from] == ':' && s[from + 1] == ':') {
        lemma_double_colon_is_one(s, from + 1);
    }
}

// ---------------------------------------------------------------------------
// Laws
// ---------------------------------------------------------------------------

proof fn lemma_octet_text(n: nat)
    requires
        n <= 255,
    ensures
        octet(text::dec(n)) == Some(n),
        !text::dec(n).contains('.'),
        !text::dec(n).contains(':'),
{
    let d = text::dec(n);
    text::lemma_dec_digits(n);
    assert forall|i: int| 0 <= i < d.len() implies d[i] != '.' && d[i] != ':' by {
        assert(text::is_digit(d[i]));
    }
    assert(text::dec(n / 10 / 10) =~= seq![text::digit(n / 10 / 10)]);
    if n >= 100 {
        assert(d == text::dec(n / 10).push(text::digit(n % 10)));
        assert(text::dec(n / 10) == text::dec(n / 10 / 10).push(text::digit(n / 10 % 10)));
        assert(d.len() == 3);
        assert(d[0] == text::digit(n / 10 / 10));
    } else if n >= 10 {
        assert(d == text::dec(n / 10).push(text::digit(n % 10)));
        assert(text::dec(n / 10) =~= seq![text::digit(n / 10)]);
        assert(d.len() == 2);
        assert(d[0] == text::digit(n / 10));
    }
}

/// An IPv4 address is read from its four numbers with dots between them, the first one
/// weighing most, and is written the same way.
pub proof fn law_ipv4_is_four_numbers(a: nat, b: nat, c: nat, d: nat)
    requires
        a <= 255,
        b <= 255,
        c <= 255,
        d <= 255,
    ensures
        ({
            let s = text::dec(a) + seq!['.'] + text::dec(b) + seq!['.'] + text::dec(c) + seq!['.'] + text::dec(d);
            let v = a * 16777216 + b * 65536 + c * 256 + d;
            &&& ipv4(s) == Some(v as nat)
            &&& ip(s) == Some(IpAddr::V4(v as u32))
            &&& ipv4_text(v as nat) == s
            &&& ip_text(IpAddr::V4(v as u32)) == s
        }),
{
    lemma_octet_text(a);
    lemma_octet_text(b);
    lemma_octet_text(c);
    lemma_octet_text(d);
    lemma_dotted(text::dec(a), text::dec(b), text::dec(c), text::dec(d));
    lemma_octets_of(a, b, c, d);
}

proof fn lemma_dotted(a: Seq<char>, b: Seq<char>, c: Seq<char>, d: Seq<char>)
    requires
        !a.contains('.') && !b.contains('.') && !c.contains('.') && !d.contains('.'),
    ensures
        text::split(a + seq!['.'] + b + seq!['.'] + c + seq!['.'] + d, '.') == seq![a, b, c, d],
{
    let two = a + seq!['.'] + b;
    let three = two + seq!['.'] + c;
    text::lemma_sole_piece(a, '.');
    text::lemma_last_piece(a, b, '.', 0);
    text::lemma_last_piece(two, c, '.', 0);
    text::lemma_last_piece(three, d, '.', 0);
    assert(text::split(three + seq!['.'] + d, '.') =~= seq![a, b, c, d]);
}

proof fn lemma_octets_of(a: nat, b: nat, c: nat, d: nat)
    requires
        a <= 255,
        b <= 255,
        c <= 255,
        d <= 255,
    ensures
        ({
            let v = a * 16777216 + b * 65536 + c * 256 + d;
            &&& v / 0x1000000 == a
            &&& v / 0x10000 % 256 == b
            &&& v / 0x100 % 256 == c
            &&& v % 256 == d
            &&& v <= u32::MAX
        }),
{
    let z: nat = a * 256 + b;
    let y: nat = z * 256 + c;
    let v: nat = a * 16777216 + b * 65536 + c * 256 + d;
    assert(v == y * 256 + d);
    assert(v / 256 == y && v % 256 == d);
    assert(y / 256 == z && y % 256 == c);
    assert(z / 256 == a && z % 256 == b);
    vstd::arithmetic::div_mod::lemma_div_denominator(v as int, 256, 256);
    vstd::arithmetic::div_mod::lemma_div_denominator(v as int, 65536, 256);
}

proof fn lemma_four_octets(n: nat)
    requires
        n <= u32::MAX,
    ensures
        n == n / 0x1000000 * 16777216 + n / 0x10000 % 256 * 65536 + n / 0x100 % 256 * 256 + n % 256,
        n / 0x1000000 <= 255,
{
    let y = n / 256;
    let z = n / 65536;
    vstd::arithmetic::div_mod::lemma_div_denominator(n as int, 256, 256);
    vstd::arithmetic::div_mod::lemma_div_denominator(n as int, 65536, 256);
    assert(n == y * 256 + n % 256);
    assert(y == z * 256 + y % 256);
    assert(z == n / 16777216 * 256 + z % 256);
}

/// An IPv4 address that is written is read back, with a port behind it or without.
#[verifier::rlimit(60)]
pub proof fn law_ipv4_is_read_back(v: u32, port: u16)
    ensures
        ip(ip_text(IpAddr::V4(v))) == Some(IpAddr::V4(v)),
        socket_addr(socket_text(socket(IpAddr::V4(v), port))) == Some(socket(IpAddr::V4(v), port)),
        socket_text(socket(IpAddr::V4(v), port)) == ip_text(IpAddr::V4(v)) + seq![':'] + text::dec(port as nat),
{
    let n = v as nat;
    let a = n / 0x1000000;
    let b = n / 0x10000 % 256;
    let c = n / 0x100 % 256;
    let d = n % 256;
    lemma_four_octets(n);
    law_ipv4_is_four_numbers(a, b, c, d);
    let s = ipv4_text(n);
    let p = text::dec(port as nat);
    text::lemma_dec_digits(port as nat);
    lemma_dotted_front(a, b, c, d);
    lemma_address_and_port(s, p);
}

proof fn lemma_dotted_front(a: nat, b: nat, c: nat, d: nat)
    requires
        a <= 255,
        b <= 255,
        c <= 255,
        d <= 255,
    ensures
        ({
            let s = text::dec(a) + seq!['.'] + text::dec(b) + seq!['.'] + text::dec(c) + seq!['.'] + text::dec(d);
            &&& s.len() > 0
            &&& s[0] != '['
            &&& !s.contains(':')
        }),
{
    let s = text::dec(a) + seq!['.'] + text::dec(b) + seq!['.'] + text::dec(c) + seq!['.'] + text::dec(d);
    lemma_octet_text(a);
    lemma_octet_text(b);
    lemma_octet_text(c);
    lemma_octet_text(d);
    text::lemma_dec_digits(a);
    assert(text::is_digit(text::dec(a)[0]));
    assert(s[0] == text::dec(a)[0]);
    assert forall|i: int| 0 <= i < s.len() implies s[i] != ':' by {
        lemma_dotted_has_no_colon(text::dec(a), text::dec(b), text::dec(c), text::dec(d), i);
    }
}

proof fn lemma_address_and_port(s: Seq<char>, p: Seq<char>)
    requires
        s.len() > 0,
        !s.contains(':'),
    ensures
        ({
            let all = s + seq![':'] + p;
            &&& all[0] == s[0]
            &&& text::first_char(all, ':') == s.len()
            &&& all.subrange(0, s.len() as int) == s
            &&& all.subrange(s.len() as int + 1, all.len() as int) == p
        }),
{
    let all = s + seq![':'] + p;
    assert forall|i: int| 0 <= i < s.len() implies all[i] == s[i] by {}
    assert(all[s.len() as int] == ':');
    text::lemma_first_char_at(all, ':', s.len() as int);
    assert(all.subrange(0, s.len() as int) =~= s);
    assert(all.subrange(s.len() as int + 1, all.len() as int) =~= p);
}

proof fn lemma_dotted_has_no_colon(a: Seq<char>, b: Seq<char>, c: Seq<char>, d: Seq<char>, i: int)
    requires
        !a.contains(':') && !b.contains(':') && !c.contains(':') && !d.contains(':'),
        0 <= i < a.len() + b.len() + c.len() + d.len() + 3,
    ensures
        (a + seq!['.'] + b + seq!['.'] + c + seq!['.'] + d)[i] != ':',
{
    let s = a + seq!['.'] + b + seq!['.'] + c + seq!['.'] + d;
    let x = a.len() as int;
    let y = x + 1 + b.len();
    let z = y + 1 + c.len();
    if i < x {
        assert(s[i] == a[i]);
    } else if x < i < y {
        assert(s[i] == b[i - x - 1]);
    } else if y < i < z {
        assert(s[i] == c[i - y - 1]);
    } else if z < i {
        assert(s[i] == d[i - z - 1]);
    }
}

// IPv6 addresses, written out.

proof fn lemma_hex_text(n: nat)
    ensures
        hex_number(hex_text(n)) == Some(n),
        hex_text(n).len() > 0,
        !hex_text(n).contains(':'),
        !hex_text(n).contains('.'),
        n < 16 ==> hex_text(n).len() == 1,
        n < 256 ==> hex_text(n).len() <= 2,
        n < 4096 ==> hex_text(n).len() <= 3,
        n < 65536 ==> hex_text(n).len() <= 4,
    decreases n,
{
    let s = hex_text(n);
    let d = text::hex_digit(n % 16);
    assert(hex_value(d) == Some(n % 16) && d != ':' && d != '.');
    if n < 16 {
        assert(s.drop_last() =~= Seq::<char>::empty());
        assert(hex_number(s.drop_last()) == Some(0nat));
        assert(s.last() == d);
        assert(s[0] == d);
    } else {
        let front = hex_text(n / 16);
        lemma_hex_text(n / 16);
        assert(s.drop_last() =~= front);
        assert(s.last() == d);
        assert forall|i: int| 0 <= i < s.len() implies s[i] != ':' && s[i] != '.' by {
            if i < front.len() {
                assert(s[i] == front[i]);
            }
        }
    }
}

/// Whether colons stand apart in a text, and none at its ends.
spec fn colons_apart(s: Seq<char>) -> bool {
    &&& s.len() > 0
    &&& s[0] != ':'
    &&& s.last() != ':'
    &&& forall|i: int| 0 <= i < s.len() - 1 ==> !(#[trigger] s[i] == ':' && s[i + 1] == ':')
}

proof fn lemma_groups_are_written(g: Seq<nat>, from: int, to: int)
    requires
        0 <= from < to <= g.len(),
        forall|i: int| from <= i < to ==> #[trigger] g[i] < 65536,
    ensures
        colons_apart(group_texts(g, from, to)),
        text::split(group_texts(g, from, to), ':') == Seq::new((to - from) as nat, |i: int| hex_text(g[from + i])),
    decreases to - from,
{
    let s = group_texts(g, from, to);
    let want = Seq::new((to - from) as nat, |i: int| hex_text(g[from + i]));
    let last = hex_text(g[to - 1]);
    lemma_hex_text(g[to - 1]);
    assert forall|i: int| 0 <= i < last.len() implies last[i] != ':' by {}
    if to == from + 1 {
        text::lemma_sole_piece(s, ':');
        assert(want =~= seq![s]);
    } else {
        let front = group_texts(g, from, to - 1);
        lemma_groups_are_written(g, from, to - 1);
        text::lemma_last_piece(front, last, ':', 0);
        assert(want =~= Seq::new((to - 1 - from) as nat, |i: int| hex_text(g[from + i])).push(last));
        let n = front.len() as int;
        assert(s[0] == front[0] && s.last() == last.last());
        assert forall|i: int| 0 <= i < s.len() - 1 implies !(#[trigger] s[i] == ':' && s[i + 1] == ':') by {
            if i < n - 1 {
                assert(s[i] == front[i] && s[i + 1] == front[i + 1]);
            } else if i == n - 1 {
                assert(s[i] == front.last());
            } else {
                assert(s[i + 1] == last[i - n]);
            }
        }
    }
}

proof fn lemma_group_list(p: Seq<Seq<char>>, g: Seq<nat>, n: int)
    requires
        0 <= n <= p.len(),
        n <= g.len(),
        forall|i: int| 0 <= i < n ==> group(#[trigger] p[i]) == Some(g[i]),
    ensures
        group_list(p, n) == Some(g.take(n)),
    decreases n,
{
    if n > 0 {
        lemma_group_list(p, g, n - 1);
        assert(g.take(n) =~= g.take(n - 1).push(g[n - 1]));
    } else {
        assert(g.take(0) =~= Seq::<nat>::empty());
    }
}

proof fn lemma_groups_are_read(g: Seq<nat>, from: int, to: int, allow_ipv4: bool)
    requires
        0 <= from <= to <= g.len(),
        forall|i: int| from <= i < to ==> #[trigger] g[i] < 65536,
    ensures
        groups(group_texts(g, from, to), allow_ipv4) == Some(g.subrange(from, to)),
{
    let s = group_texts(g, from, to);
    let part = g.subrange(from, to);
    if from == to {
        assert(part =~= Seq::<nat>::empty());
    } else {
        lemma_groups_are_written(g, from, to);
        let p = text::split(s, ':');
        let n = (to - from) as int;
        assert forall|i: int| 0 <= i < n implies group(#[trigger] p[i]) == Some(part[i]) by {
            assert(g[from + i] < 65536);
            lemma_hex_text(g[from + i]);
        }
        lemma_group_list(p, part, n);
        assert(part.take(n) =~= part);
        lemma_hex_text(g[to - 1]);
        assert(p.last() == hex_text(g[to - 1]));
        text::lemma_sole_piece(p.last(), '.');
    }
}

proof fn lemma_double_colon_at(s: Seq<char>, from: int, at: int)
    requires
        0 <= from <= at,
        at + 1 < s.len(),
        s[at] == ':' && s[at + 1] == ':',
        forall|i: int| from <= i < at ==> !(#[trigger] s[i] == ':' && s[i + 1] == ':'),
    ensures
        double_colon(s, from) == at,
    decreases at - from,
{
    if from < at {
        assert(!(s[from] == ':' && s[from + 1] == ':'));
        lemma_double_colon_at(s, from + 1, at);
    }
}

proof fn lemma_no_double_colon(s: Seq<char>, from: int)
    requires
        0 <= from,
        forall|i: int| 0 <= i < s.len() - 1 ==> !(#[trigger] s[i] == ':' && s[i + 1] == ':'),
    ensures
        double_colon(s, from) == s.len(),
    decreases s.len() - from,
{
    if from + 1 < s.len() {
        assert(!(s[from] == ':' && s[from + 1] == ':'));
        lemma_no_double_colon(s, from + 1);
    }
}

proof fn lemma_zero_run(g: Seq<nat>, at: int)
    requires
        0 <= at <= g.len(),
    ensures
        at + zero_run(g, at) <= g.len(),
        forall|i: int| at <= i < at + zero_run(g, at) ==> #[trigger] g[i] == 0,
    decreases g.len() - at,
{
    if at < g.len() && g[at] == 0 {
        lemma_zero_run(g, at + 1);
    }
}

proof fn lemma_longest_run(g: Seq<nat>, n: int)
    requires
        1 <= n,
    ensures
        0 <= longest_run(g, n) < n,
        forall|i: int| 0 <= i < n ==> zero_run(g, longest_run(g, n)) >= #[trigger] zero_run(g, i),
    decreases n,
{
    if n > 1 {
        lemma_longest_run(g, n - 1);
    }
}

/// Eight groups in hexadecimal, with colons between them, are an IPv6 address; and so are
/// those before and behind a double colon that stands for the zeros between them.
pub proof fn law_ipv6_is_eight_groups(g: Seq<nat>, from: int, to: int)
    requires
        g.len() == 8,
        forall|i: int| 0 <= i < 8 ==> #[trigger] g[i] < 65536,
        0 <= from < to <= 8,
        forall|i: int| from <= i < to ==> g[i] == 0,
    ensures
        ipv6_groups(group_texts(g, 0, 8)) == Some(g),
        ipv6_groups(group_texts(g, 0, from) + seq![':', ':'] + group_texts(g, to, 8)) == Some(g),
{
    let whole = group_texts(g, 0, 8);
    lemma_groups_are_written(g, 0, 8);
    lemma_groups_are_read(g, 0, 8, true);
    assert(g.subrange(0, 8) =~= g);
    lemma_no_double_colon(whole, 0);
    let head = group_texts(g, 0, from);
    let tail = group_texts(g, to, 8);
    let s = head + seq![':', ':'] + tail;
    lemma_groups_are_read(g, 0, from, false);
    lemma_groups_are_read(g, to, 8, true);
    if from > 0 {
        lemma_groups_are_written(g, 0, from);
    }
    let n = head.len() as int;
    assert(s[n] == ':' && s[n + 1] == ':');
    assert forall|i: int| 0 <= i < n implies !(#[trigger] s[i] == ':' && s[i + 1] == ':') by {
        assert(s[i] == head[i]);
        if i < n - 1 {
            assert(s[i + 1] == head[i + 1]);
        } else {
            assert(head[i] == head.last());
        }
    }
    lemma_double_colon_at(s, 0, n);
    assert(s.subrange(0, n) =~= head);
    assert(s.subrange(n + 2, s.len() as int) =~= tail);
    let a = g.subrange(0, from);
    let b = g.subrange(to, 8);
    assert(a.len() + b.len() <= 7);
    assert(a + Seq::new((8 - a.len() - b.len()) as nat, |i: int| 0nat) + b =~= g);
}

proof fn lemma_group_value(g: Seq<nat>)
    requires
        g.len() == 8,
    ensures
        group_value(g) == ((((((g[0] * 0x10000 + g[1]) * 0x10000 + g[2]) * 0x10000 + g[3]) * 0x10000 + g[4]) * 0x10000
            + g[5]) * 0x10000 + g[6]) * 0x10000 + g[7],
{
    let g7 = g.drop_last();
    let g6 = g7.drop_last();
    let g5 = g6.drop_last();
    let g4 = g5.drop_last();
    let g3 = g4.drop_last();
    let g2 = g3.drop_last();
    let g1 = g2.drop_last();
    assert(g1.drop_last() =~= Seq::<nat>::empty());
    assert(group_value(g1.drop_last()) == 0);
    assert(group_value(g1) == g[0]);
    assert(group_value(g2) == g[0] * 0x10000 + g[1]);
    assert(group_value(g3) == group_value(g2) * 0x10000 + g[2]);
    assert(group_value(g4) == group_value(g3) * 0x10000 + g[3]);
    assert(group_value(g5) == group_value(g4) * 0x10000 + g[4]);
    assert(group_value(g6) == group_value(g5) * 0x10000 + g[5]);
    assert(group_value(g7) == group_value(g6) * 0x10000 + g[6]);
}

proof fn lemma_next_group(v: nat, d: nat, e: nat)
    requires
        d > 0,
        e == d * 0x10000,
    ensures
        v / d == v / e * 0x10000 + v / d % 0x10000,
{
    vstd::arithmetic::div_mod::lemma_div_denominator(v as int, d as int, 0x10000);
}

proof fn lemma_groups_of(v: nat)
    requires
        v <= u128::MAX,
    ensures
        groups_of(v).len() == 8,
        forall|i: int| 0 <= i < 8 ==> #[trigger] groups_of(v)[i] < 65536,
        group_value(groups_of(v)) == v,
{
    let g = groups_of(v);
    lemma_group_value(g);
    lemma_next_group(v, 0x10000, 0x100000000);
    lemma_next_group(v, 0x100000000, 0x1000000000000);
    lemma_next_group(v, 0x1000000000000, 0x10000000000000000);
    lemma_next_group(v, 0x10000000000000000, 0x100000000000000000000);
    lemma_next_group(v, 0x100000000000000000000, 0x1000000000000000000000000);
    lemma_next_group(v, 0x1000000000000000000000000, 0x10000000000000000000000000000);
    assert(v == v / 0x10000 * 0x10000 + v % 0x10000);
    assert(v / 0x10000000000000000000000000000 < 65536);
    let q1 = v / 0x10000;
    let q2 = v / 0x100000000;
    let q3 = v / 0x1000000000000;
    let q4 = v / 0x10000000000000000;
    let q5 = v / 0x100000000000000000000;
    let q6 = v / 0x1000000000000000000000000;
    let q7 = v / 0x10000000000000000000000000000;
    assert(g[0] == q7);
    assert(q6 == q7 * 0x10000 + g[1]);
    assert(q5 == q6 * 0x10000 + g[2]);
    assert(q4 == q5 * 0x10000 + g[3]);
    assert(q3 == q4 * 0x10000 + g[4]);
    assert(q2 == q3 * 0x10000 + g[5]);
    assert(q1 == q2 * 0x10000 + g[6]);
}

proof fn lemma_mapped_is_read(v: nat)
    requires
        v / 0x100000000 == 0xffff,
    ensures
        ipv6("::ffff:"@ + ipv4_text(v % 0x100000000)) == Some(v),
{
    reveal_strlit("::ffff:");
    let low = v % 0x100000000;
    let dotted = ipv4_text(low);
    let s = "::ffff:"@ + dotted;
    let head = seq!['f', 'f', 'f', 'f'];
    let rest = s.subrange(2, s.len() as int);
    assert(s[0] == ':' && s[1] == ':');
    lemma_double_colon_at(s, 0, 0);
    assert(s.subrange(0, 0) =~= Seq::<char>::empty());
    assert(rest =~= head + seq![':'] + dotted);
    lemma_four_octets(low);
    let a = low / 0x1000000;
    let b = low / 0x10000 % 256;
    let c = low / 0x100 % 256;
    let d = low % 256;
    law_ipv4_is_four_numbers(a, b, c, d);
    lemma_dotted_front(a, b, c, d);
    assert(!head.contains(':'));
    text::lemma_sole_piece(head, ':');
    text::lemma_last_piece(head, dotted, ':', 0);
    let p = text::split(rest, ':');
    assert(p =~= seq![head, dotted]);
    lemma_ffff();
    lemma_group_list(p, seq![0xffffnat], 1);
    assert(seq![0xffffnat].take(1) =~= seq![0xffffnat]);
    let tail = seq![0xffffnat].push(low / 0x10000).push(low % 0x10000);
    assert(groups(rest, true) == Some(tail));
    let none = Seq::<nat>::empty();
    assert(groups(s.subrange(0, 0), false) == Some(none));
    let all = none + Seq::new(5, |i: int| 0nat) + tail;
    assert((8 - none.len() - tail.len()) as nat == 5);
    assert(ipv6_groups(s) == Some(all));
    lemma_group_value(all);
    assert(all[0] == 0 && all[1] == 0 && all[2] == 0 && all[3] == 0 && all[4] == 0);
    assert(all[5] == 0xffff && all[6] == low / 0x10000 && all[7] == low % 0x10000);
}

proof fn lemma_ffff()
    ensures
        group(seq!['f', 'f', 'f', 'f']) == Some(0xffffnat),
{
    let s4 = seq!['f', 'f', 'f', 'f'];
    let s3 = s4.drop_last();
    let s2 = s3.drop_last();
    let s1 = s2.drop_last();
    assert(s1.drop_last() =~= Seq::<char>::empty());
    assert(hex_number(s1.drop_last()) == Some(0nat));
    assert(hex_number(s1) == Some(15nat));
    assert(hex_number(s2) == Some(255nat));
    assert(hex_number(s3) == Some(4095nat));
}

proof fn lemma_colon_is_not_ipv4(s: Seq<char>)
    requires
        s.contains(':'),
    ensures
        ipv4(s) is None,
{
    let i = choose|i: int| 0 <= i < s.len() && s[i] == ':';
    let p = text::split(s, '.');
    text::lemma_in_a_piece(s, '.', 0, i);
    let k = choose|k: int| 0 <= k < p.len() && (#[trigger] p[k]).contains(s[i]);
    let j = choose|j: int| 0 <= j < p[k].len() && p[k][j] == ':';
    assert(!text::is_digit(p[k][j]));
    assert(octet(p[k]) is None);
}

/// An IPv6 address that is written is read back.
pub proof fn law_ipv6_is_read_back(v: u128)
    ensures
        ipv6(ip_text(IpAddr::V6(v))) == Some(v as nat),
        ip(ip_text(IpAddr::V6(v))) == Some(IpAddr::V6(v)),
{
    let n = v as nat;
    let s = ipv6_text(n);
    let g = groups_of(n);
    let at = longest_run(g, 8);
    let run = zero_run(g, at);
    lemma_groups_of(n);
    lemma_longest_run(g, 8);
    lemma_zero_run(g, at);
    reveal_strlit("::");
    reveal_strlit("::ffff:");
    assert("::"@ =~= seq![':', ':']);
    if n / 0x100000000 == 0xffff {
        lemma_mapped_is_read(n);
        assert(s[0] == ':');
    } else if run > 1 {
        law_ipv6_is_eight_groups(g, at, at + run);
        assert(s[group_texts(g, 0, at).len() as int] == ':');
    } else {
        lemma_whole_is_read(g);
    }
    lemma_colon_is_not_ipv4(s);
}

proof fn lemma_whole_is_read(g: Seq<nat>)
    requires
        g.len() == 8,
        forall|i: int| 0 <= i < 8 ==> #[trigger] g[i] < 65536,
    ensures
        ipv6_groups(group_texts(g, 0, 8)) == Some(g),
        group_texts(g, 0, 8).contains(':'),
{
    let whole = group_texts(g, 0, 8);
    lemma_groups_are_written(g, 0, 8);
    lemma_groups_are_read(g, 0, 8, true);
    assert(g.subrange(0, 8) =~= g);
    lemma_no_double_colon(whole, 0);
    assert(whole[group_texts(g, 0, 7).len() as int] == ':');
}

/// The longest run of zeros is the one that is left out, the first of several, if it has
/// two groups at least.
pub proof fn law_longest_run_is_left_out(v: u128, at: int, run: nat)
    requires
        0 <= at < 8,
        run == zero_run(groups_of(v as nat), at),
        run > 1,
        v as nat / 0x100000000 != 0xffff,
        forall|i: int| 0 <= i < at ==> #[trigger] zero_run(groups_of(v as nat), i) < run,
        forall|i: int| at < i < 8 ==> #[trigger] zero_run(groups_of(v as nat), i) <= run,
    ensures
        ip_text(IpAddr::V6(v)) == group_texts(groups_of(v as nat), 0, at) + seq![':', ':'] + group_texts(
            groups_of(v as nat),
            at + run,
            8,
        ),
{
    reveal_strlit("::");
    assert("::"@ =~= seq![':', ':']);
    lemma_first_longest(groups_of(v as nat), 8, at);
}

proof fn lemma_first_longest(g: Seq<nat>, n: int, at: int)
    requires
        0 <= at < n,
        forall|i: int| 0 <= i < at ==> #[trigger] zero_run(g, i) < zero_run(g, at),
        forall|i: int| at < i < n ==> #[trigger] zero_run(g, i) <= zero_run(g, at),
    ensures
        longest_run(g, n) == at,
    decreases n,
{
    if n > 1 {
        if at == n - 1 {
            lemma_longest_run(g, n - 1);
        } else {
            lemma_first_longest(g, n - 1, at);
        }
    }
}

/// An IPv6 address with a port is written in brackets and read back.
pub proof fn law_ipv6_socket_is_read_back(v: u128, port: u16)
    ensures
        socket_text(socket(IpAddr::V6(v), port)) == seq!['['] + ip_text(IpAddr::V6(v)) + seq![']', ':'] + text::dec(
            port as nat,
        ),
        socket_addr(socket_text(socket(IpAddr::V6(v), port))) == Some(socket(IpAddr::V6(v), port)),
{
    reveal_strlit("[");
    reveal_strlit("]:");
    assert("["@ =~= seq!['[']);
    assert("]:"@ =~= seq![']', ':']);
    let t = ip_text(IpAddr::V6(v));
    let p = text::dec(port as nat);
    law_ipv6_is_read_back(v);
    lemma_ipv6_characters(t);
    text::lemma_dec_digits(port as nat);
    let s = seq!['['] + t + seq![']', ':'] + p;
    assert("["@ + t + Seq::empty() + "]:"@ + p =~= s);
    let close = t.len() as int + 1;
    assert forall|i: int| 0 <= i < close implies s[i] != ']' by {
        if i > 0 {
            assert(s[i] == t[i - 1]);
            assert(in_ipv6(t[i - 1]));
        }
    }
    assert(s[close] == ']' && s[close + 1] == ':');
    text::lemma_first_char_at(s, ']', close);
    assert(s.subrange(1, close) =~= t);
    assert(s.subrange(close + 2, s.len() as int) =~= p);
    text::lemma_next_char(t, '%', 0);
    let percent = text::first_char(t, '%');
    if percent < t.len() {
        assert(in_ipv6(t[percent]));
    }
}

/// A number above 255 is no part of an IPv4 address, nor is one with a superfluous zero or
/// none at all.
pub proof fn law_ipv4_numbers_are_plain(n: nat, s: Seq<char>)
    ensures
        octet(text::dec(n)) is Some <==> n <= 255,
        s.len() > 1 && s[0] == '0' ==> octet(s) is None,
        octet(Seq::empty()) is None,
{
    text::lemma_dec_digits(n);
    if n <= 255 {
        lemma_octet_text(n);
    }
}

} // verus!
