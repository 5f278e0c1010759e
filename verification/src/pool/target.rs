//! What a pool's targets are, and which addresses they stand for.

use crate::net;
use crate::net::IpAddr;
use crate::text;
use vstd::prelude::*;
use vstd::slice::slice_subrange;

verus! {

/// The most addresses that a network may be expanded to without a sample count. A
/// larger network would be probed forever.
pub const MAX_CIDR_EXPANSION: usize = 64;

// ---------------------------------------------------------------------------
// Networks
// ---------------------------------------------------------------------------

/// A network: an address in it, and how many leading bits its addresses share.
#[derive(Debug, Clone, Copy, PartialEq, Eq, Structural)]
pub struct Network {
    pub addr: IpAddr,
    pub prefix_len: u8,
}

/// Two to the power of `n`.
pub open spec fn two_to(n: nat) -> nat
    decreases n,
{
    if n == 0 {
        1
    } else {
        2 * two_to((n - 1) as nat)
    }
}

/// The number that an address spells.
pub open spec fn addr_value(a: IpAddr) -> nat {
    match a {
        IpAddr::V4(v) => v as nat,
        IpAddr::V6(v) => v as nat,
    }
}

/// Whether two addresses are of one family.
pub open spec fn same_family(a: IpAddr, b: IpAddr) -> bool {
    a is V4 == (b is V4)
}

impl Network {
    /// How many bits an address of the network's family has.
    pub open spec fn width(self) -> nat {
        match self.addr {
            IpAddr::V4(_) => 32,
            IpAddr::V6(_) => 128,
        }
    }

    /// The prefix is no longer than an address.
    pub open spec fn valid(self) -> bool {
        self.prefix_len <= self.width()
    }

    /// Tell whether the prefix is no longer than an address.
    pub fn is_valid(&self) -> (r: bool)
        ensures
            r == self.valid(),
    {
        match self.addr {
            IpAddr::V4(_) => self.prefix_len <= 32,
            IpAddr::V6(_) => self.prefix_len <= 128,
        }
    }

    /// How many bits its addresses differ in.
    pub open spec fn host_bits(self) -> nat {
        (self.width() - self.prefix_len) as nat
    }

    /// How many addresses it holds.
    pub open spec fn extent(self) -> nat {
        two_to(self.host_bits())
    }

    /// How many addresses it holds, as far as a number of 128 bits tells.
    pub open spec fn size(self) -> nat {
        if self.host_bits() >= 128 {
            u128::MAX as nat
        } else {
            self.extent()
        }
    }

    /// The number of its first address.
    pub open spec fn base(self) -> nat {
        (addr_value(self.addr) / self.extent() * self.extent()) as nat
    }

    /// Whether an address is in the network.
    pub open spec fn contains(self, a: IpAddr) -> bool {
        same_family(self.addr, a) && self.base() <= addr_value(a) < self.base() + self.extent()
    }
}

proof fn lemma_two_to_bound(a: nat, b: nat)
    requires
        a <= b,
    ensures
        0 < two_to(a) <= two_to(b),
    decreases b,
{
    if a < b {
        lemma_two_to_bound(a, (b - 1) as nat);
    } else if a > 0 {
        lemma_two_to_bound((a - 1) as nat, (b - 1) as nat);
    }
}

proof fn lemma_two_to_values()
    ensures
        two_to(32) == 4294967296,
        two_to(127) == 170141183460469231731687303715884105728,
        two_to(128) == 340282366920938463463374607431768211456,
        two_to(6) == 64,
{
    reveal_with_fuel(two_to, 33);
    assert(two_to(32) == 4294967296);
    assert(two_to(64) == 18446744073709551616) by {
        assert(two_to(32) == 4294967296);
        reveal_with_fuel(two_to, 33);
    }
    assert(two_to(96) == 79228162514264337593543950336) by {
        reveal_with_fuel(two_to, 33);
    }
    assert(two_to(127) == 170141183460469231731687303715884105728) by {
        reveal_with_fuel(two_to, 33);
    }
}

proof fn lemma_base(net: Network)
    requires
        net.valid(),
    ensures
        net.extent() > 0,
        net.base() <= addr_value(net.addr) < net.base() + net.extent(),
        net.base() + net.extent() <= two_to(net.width()),
{
    let e = net.extent();
    let v = addr_value(net.addr);
    let w = two_to(net.width());
    lemma_two_to_bound(net.host_bits(), net.width());
    lemma_two_to_values();
    assert(v < w);
    lemma_two_to_sum(net.host_bits(), net.prefix_len as nat);
    let p = two_to(net.prefix_len as nat);
    assert(w == e * p);
    assert(v / e * e <= v < v / e * e + e) by (nonlinear_arith)
        requires
            e > 0,
            v >= 0,
    ;
    assert(v / e * e + e <= w) by (nonlinear_arith)
        requires
            e > 0,
            0 <= v < w,
            w == e * p,
    ;
}

proof fn lemma_two_to_sum(a: nat, b: nat)
    ensures
        two_to(a + b) == two_to(a) * two_to(b),
    decreases b,
{
    if b > 0 {
        lemma_two_to_sum(a, (b - 1) as nat);
        assert(two_to(a) * (2 * two_to((b - 1) as nat)) == 2 * (two_to(a) * two_to((b - 1) as nat)))
            by (nonlinear_arith);
    } else {
        assert(two_to(a) * 1 == two_to(a)) by (nonlinear_arith);
    }
}

/// How many addresses a network holds, saturating for the largest.
pub fn network_size(net: &Network) -> (r: u128)
    requires
        net.valid(),
    ensures
        r == net.size(),
{
    let width: u8 = match net.addr {
        IpAddr::V4(_) => 32,
        IpAddr::V6(_) => 128,
    };
    let host_bits = width - net.prefix_len;
    if host_bits >= 128 {
        return u128::MAX;
    }
    let mut r: u128 = 1;
    let mut i: u8 = 0;
    while i < host_bits
        invariant
            i <= host_bits < 128,
            r == two_to(i as nat),
        decreases host_bits - i,
    {
        proof {
            lemma_two_to_bound(i as nat, 126);
            lemma_two_to_values();
            assert(two_to(127) == 2 * two_to(126));
            assert(two_to((i + 1) as nat) == 2 * two_to(i as nat));
        }
        r = 2 * r;
        i = i + 1;
    }
    r
}

/// The number of a network's first address.
fn network_base(net: &Network) -> (r: u128)
    requires
        net.valid(),
    ensures
        r == net.base(),
{
    let value: u128 = match net.addr {
        IpAddr::V4(v) => v as u128,
        IpAddr::V6(v) => v,
    };
    proof {
        lemma_base(*net);
        lemma_two_to_values();
    }
    let whole = match net.addr {
        IpAddr::V4(_) => false,
        IpAddr::V6(_) => net.prefix_len == 0,
    };
    if whole {
        proof {
            let e = net.extent();
            assert(value < e);
            assert(value as int / e as int == 0) by (nonlinear_arith)
                requires
                    0 <= value < e,
            ;
        }
        return 0;
    }
    let size = network_size(net);
    proof {
        assert(size == net.extent());
        let s = size as int;
        let v = value as int;
        assert(0 <= v / s * s <= v) by (nonlinear_arith)
            requires
                s > 0,
                v >= 0,
        ;
    }
    value / size * size
}

/// The address at a place within a network.
pub open spec fn addr_at(net: Network, offset: nat) -> IpAddr {
    match net.addr {
        IpAddr::V4(_) => IpAddr::V4((net.base() + offset) as u32),
        IpAddr::V6(_) => IpAddr::V6((net.base() + offset) as u128),
    }
}

/// The address at a place within a network.
pub fn offset_into(net: &Network, offset: u128) -> (r: IpAddr)
    requires
        net.valid(),
        offset < net.size(),
    ensures
        r == addr_at(*net, offset as nat),
        addr_value(r) == net.base() + offset,
        net.contains(r),
{
    let base = network_base(net);
    proof {
        lemma_base(*net);
        lemma_two_to_values();
        lemma_two_to_bound(net.host_bits(), net.width());
    }
    match net.addr {
        IpAddr::V4(_) => IpAddr::V4((base + offset) as u32),
        IpAddr::V6(_) => IpAddr::V6(base + offset),
    }
}

/// The first and the last place of a network's hosts: the network and broadcast
/// addresses of an IPv4 network are none, unless there is nothing else.
pub open spec fn first_host(net: Network) -> nat {
    if net.addr is V4 && net.prefix_len < 31 {
        1
    } else {
        0
    }
}

/// How many hosts a network has.
pub open spec fn host_count(net: Network) -> nat {
    if net.addr is V4 && net.prefix_len < 31 {
        (net.extent() - 2) as nat
    } else {
        net.extent()
    }
}

/// The first hosts of a network, up to `most`.
pub open spec fn hosts_of(net: Network, most: nat) -> Seq<IpAddr> {
    Seq::new(
        if host_count(net) < most {
            host_count(net)
        } else {
            most
        },
        |i: int| addr_at(net, (first_host(net) + i) as nat),
    )
}

fn first_hosts(net: &Network, most: usize) -> (r: Vec<IpAddr>)
    requires
        net.valid(),
    ensures
        r@ == hosts_of(*net, most as nat),
{
    let size = network_size(net);
    proof {
        lemma_two_to_values();
        lemma_two_to_bound(net.host_bits(), net.width());
        if net.addr is V4 && net.prefix_len < 31 {
            lemma_two_to_bound(2, net.host_bits());
            reveal_with_fuel(two_to, 3);
        }
    }
    let trimmed = match net.addr {
        IpAddr::V4(_) => net.prefix_len < 31,
        IpAddr::V6(_) => false,
    };
    let first: u128 = if trimmed {
        1
    } else {
        0
    };
    let count: u128 = if trimmed {
        size - 2
    } else {
        size
    };
    let mut out: Vec<IpAddr> = Vec::new();
    while out.len() < most && (out.len() as u128) < count
        invariant
            net.valid(),
            size == net.size(),
            size <= net.extent(),
            size == net.extent() || size == u128::MAX,
            first == first_host(*net),
            count == (if trimmed {
                size - 2
            } else {
                size as int
            }),
            trimmed == (net.addr is V4 && net.prefix_len < 31),
            trimmed ==> size >= 4,
            out@.len() <= most,
            out@.len() <= count,
            forall|k: int| 0 <= k < out@.len() ==> #[trigger] out@[k] == addr_at(*net, (first_host(*net) + k) as nat),
        decreases most - out@.len(),
    {
        out.push(offset_into(net, first + out.len() as u128));
    }
    proof {
        if size == u128::MAX {
            lemma_two_to_values();
        }
    }
    assert(out@ =~= hosts_of(*net, most as nat));
    out
}

// ---------------------------------------------------------------------------
// Sampling
// ---------------------------------------------------------------------------

/// `rand::random_range` over `0..bound`. It panics on an empty range. Which number
/// comes is left to chance.
#[verifier::external_body]
fn random_below(bound: u128) -> (r: u128)
    requires
        bound > 0,
    ensures
        r < bound,
{
    rand::random_range(0..bound)
}

/// Whether addresses are drawn from a network, none of them twice.
pub open spec fn is_draw(net: Network, list: Seq<IpAddr>) -> bool {
    list.no_duplicates() && forall|i: int| 0 <= i < list.len() ==> net.contains(#[trigger] list[i])
}

fn has_addr(list: &Vec<IpAddr>, a: IpAddr) -> (r: bool)
    ensures
        r == list@.contains(a),
{
    let mut i: usize = 0;
    while i < list.len()
        invariant
            i <= list@.len(),
            forall|k: int| 0 <= k < i ==> #[trigger] list@[k] != a,
        decreases list@.len() - i,
    {
        if list[i] == a {
            return true;
        }
        i = i + 1;
    }
    false
}

/// Add the address at a place within a network to a draw, unless it is there
/// already.
pub fn add_draw(out: &mut Vec<IpAddr>, net: &Network, offset: u128)
    requires
        net.valid(),
        offset < net.size(),
        is_draw(*net, old(out)@),
    ensures
        is_draw(*net, final(out)@),
        final(out)@ == (if old(out)@.contains(addr_at(*net, offset as nat)) {
            old(out)@
        } else {
            old(out)@.push(addr_at(*net, offset as nat))
        }),
{
    let addr = offset_into(net, offset);
    if !has_addr(out, addr) {
        out.push(addr);
    }
}

/// How many addresses are drawn from a network: no more than it holds.
pub open spec fn wanted(net: Network, want: usize) -> int {
    if want < net.size() {
        want as int
    } else {
        net.size() as int
    }
}

/// How many attempts are made for a number of addresses. With almost as many wanted
/// as there are, draws collide often, so that the draw may fall short.
pub open spec fn attempts_for(want: int) -> int {
    if want > usize::MAX / 8 {
        usize::MAX as int
    } else if want * 8 < 16 {
        16
    } else {
        want * 8
    }
}

/// The addresses at some places within a network, none of them twice, until there
/// are enough.
pub open spec fn drawn(net: Network, want: int, offsets: Seq<u128>) -> Seq<IpAddr>
    decreases offsets.len(),
{
    if offsets.len() == 0 {
        Seq::empty()
    } else {
        let list = drawn(net, want, offsets.drop_last());
        let addr = addr_at(net, offsets.last() as nat);
        if list.len() >= want || list.contains(addr) {
            list
        } else {
            list.push(addr)
        }
    }
}

/// Whether every place is one of a network.
pub open spec fn are_places(net: Network, offsets: Seq<u128>) -> bool {
    forall|i: int| 0 <= i < offsets.len() ==> #[trigger] offsets[i] < net.size()
}

/// The addresses at given places within a network, none of them twice, until there
/// are as many as are wanted.
pub fn draw_at(net: &Network, want: usize, offsets: &Vec<u128>) -> (r: Vec<IpAddr>)
    requires
        net.valid(),
        are_places(*net, offsets@),
    ensures
        r@ == drawn(*net, want as int, offsets@),
        is_draw(*net, r@),
        r@.len() <= want,
        want > 0 && offsets@.len() > 0 ==> r@.len() > 0,
{
    let mut out: Vec<IpAddr> = Vec::new();
    let mut i: usize = 0;
    assert(offsets@.take(0) =~= Seq::<u128>::empty());
    while i < offsets.len()
        invariant
            net.valid(),
            are_places(*net, offsets@),
            i <= offsets@.len(),
            out@ == drawn(*net, want as int, offsets@.take(i as int)),
            is_draw(*net, out@),
            out@.len() <= want,
            want > 0 && i > 0 ==> out@.len() > 0,
        decreases offsets@.len() - i,
    {
        assert(offsets@.take(i + 1).drop_last() =~= offsets@.take(i as int));
        if out.len() < want {
            add_draw(&mut out, net, offsets[i]);
        }
        i = i + 1;
    }
    assert(offsets@.take(i as int) =~= offsets@);
    out
}

/// Places within a network, by chance.
fn random_places(net: &Network, n: usize) -> (r: Vec<u128>)
    requires
        net.valid(),
    ensures
        r@.len() == n,
        are_places(*net, r@),
{
    proof {
        lemma_two_to_bound(net.host_bits(), net.width());
    }
    let size = network_size(net);
    let mut out: Vec<u128> = Vec::new();
    while out.len() < n
        invariant
            size == net.size(),
            size > 0,
            out@.len() <= n,
            are_places(*net, out@),
        decreases n - out@.len(),
    {
        out.push(random_below(size));
    }
    out
}

/// Whether a list was drawn from a network in as many attempts as are made.
pub open spec fn is_sample(net: Network, want: usize, offsets: Seq<u128>, list: Seq<IpAddr>) -> bool {
    &&& are_places(net, offsets)
    &&& offsets.len() == attempts_for(wanted(net, want))
    &&& list == drawn(net, wanted(net, want), offsets)
}

/// Draw random addresses from a network, or expand it where no sample count is
/// given. Which places come is left to chance; [`draw_at`] says what becomes of
/// them.
pub fn draw_sample(net: &Network, sample: Option<usize>) -> (r: Vec<IpAddr>)
    requires
        net.valid(),
    ensures
        sample is None ==> r@ == hosts_of(*net, MAX_CIDR_EXPANSION as nat),
        sample matches Some(want) ==> is_draw(*net, r@) && r@.len() <= want && r@.len() <= net.size(),
        sample matches Some(want) ==> (want > 0 ==> r@.len() > 0),
        sample matches Some(want) ==> exists|offsets: Seq<u128>| #[trigger] is_sample(*net, want, offsets, r@),
{
    let size = network_size(net);
    proof {
        lemma_two_to_bound(net.host_bits(), net.width());
    }
    let given = match sample {
        None => return first_hosts(net, MAX_CIDR_EXPANSION),
        Some(want) => want,
    };
    let want: usize = if (given as u128) < size {
        given
    } else {
        size as usize
    };
    let attempts: usize = if want > usize::MAX / 8 {
        usize::MAX
    } else if want * 8 < 16 {
        16
    } else {
        want * 8
    };
    let offsets = random_places(net, attempts);
    let out = draw_at(net, want, &offsets);
    assert(is_sample(*net, given, offsets@, out@));
    out
}

// ---------------------------------------------------------------------------
// Targets
// ---------------------------------------------------------------------------

/// What kind of endpoint source a target is.
#[derive(Debug, Clone, PartialEq, Eq)]
pub enum TargetSpec {
    /// A DNS name, resolved again and again.
    Domain(String),
    /// A literal address.
    Ip(IpAddr),
    /// A network, sampled or fully expanded.
    Cidr { net: Network, sample: Option<usize> },
}

/// What a [`TargetSpec`] says.
pub enum TargetView {
    Domain(Seq<char>),
    Ip(IpAddr),
    Cidr { net: Network, sample: Option<usize> },
}

impl View for TargetSpec {
    type V = TargetView;

    open spec fn view(&self) -> TargetView {
        match self {
            TargetSpec::Domain(name) => TargetView::Domain(name@),
            TargetSpec::Ip(ip) => TargetView::Ip(*ip),
            TargetSpec::Cidr { net, sample } => TargetView::Cidr { net: *net, sample: *sample },
        }
    }
}

/// The network that the `ipnet` crate reads in a text.
pub uninterp spec fn cidr(s: Seq<char>) -> Option<Network>;

/// Parses a text with `<ipnet::IpNet as FromStr>`. Which texts it takes is the
/// crate's to know: the result is a function of the text. A network that it
/// returns has a prefix no longer than its addresses.
#[verifier::external_body]
fn parse_cidr(s: &str) -> (r: Option<Network>)
    ensures
        r == cidr(s@),
        r is Some ==> r->0.valid(),
{
    match s.parse::<ipnet::IpNet>() {
        Ok(ipnet::IpNet::V4(n)) => Some(Network { addr: IpAddr::V4(u32::from(n.addr())), prefix_len: n.prefix_len() }),
        Ok(ipnet::IpNet::V6(n)) => Some(
            Network { addr: IpAddr::V6(u128::from(n.addr())), prefix_len: n.prefix_len() },
        ),
        Err(_) => None,
    }
}

/// A trimmed target without its sample count, and that count: what stands in the
/// last pair of brackets.
pub open spec fn sample_parts(t: Seq<char>) -> Result<(Seq<char>, Option<nat>), Seq<char>> {
    if t.len() == 0 || t.last() != ']' {
        Ok((t, None))
    } else {
        let head = t.drop_last();
        let open = text::last_char(head, '[', head.len() as int);
        if open < 0 {
            Err("unmatched ']' in target "@ + text::quoted(t))
        } else {
            match text::number_up_to(text::trim(head.subrange(open + 1, head.len() as int)), usize::MAX as int) {
                None => Err("sample count in "@ + text::quoted(t) + " must be a positive integer"@),
                Some(n) => if n == 0 {
                    Err("sample count in "@ + text::quoted(t) + " must be at least 1"@)
                } else {
                    Ok((text::trim(head.subrange(0, open)), Some(n)))
                },
            }
        }
    }
}

/// What a trimmed target is, given the network that its body spells. A slash
/// makes a network before anything else, an address comes next, and what is left
/// is a domain.
pub open spec fn target_of(t: Seq<char>, net: Option<Network>) -> Result<TargetView, Seq<char>> {
    if t.len() == 0 {
        Err("empty target"@)
    } else {
        match sample_parts(t) {
            Err(m) => Err(m),
            Ok((body, sample)) => if body.contains('/') {
                match net {
                    None => Err("target "@ + text::quoted(t) + " is not a valid CIDR"@),
                    Some(net) => if sample is None && net.size() > MAX_CIDR_EXPANSION {
                        Err(
                            "target "@ + text::quoted(t) + " expands to "@ + text::dec(net.size())
                                + " addresses, over the limit of 64; append a sample count, e.g. \""@ + body + "[4]\""@,
                        )
                    } else {
                        Ok(
                            TargetView::Cidr {
                                net,
                                sample: match sample {
                                    Some(n) => Some(n as usize),
                                    None => None,
                                },
                            },
                        )
                    },
                }
            } else if sample is Some {
                Err("sample count in "@ + text::quoted(t) + " only applies to a CIDR target"@)
            } else if net::ip(body) is Some {
                Ok(TargetView::Ip(net::ip(body)->0))
            } else if body.contains(':') {
                Err(
                    "target "@ + text::quoted(t)
                        + " looks like an IPv6 address but does not parse as one (a domain target must not contain ':')"@,
                )
            } else {
                Ok(TargetView::Domain(body))
            },
        }
    }
}

/// The part of a trimmed target that says where it is.
pub open spec fn target_body(t: Seq<char>) -> Seq<char> {
    match sample_parts(t) {
        Ok((body, _)) => body,
        Err(_) => t,
    }
}

/// What a target is.
pub open spec fn target(s: Seq<char>) -> Result<TargetView, Seq<char>> {
    target_of(text::trim(s), cidr(target_body(text::trim(s))))
}

fn split_sample(t: &[char]) -> (r: Result<(String, Option<usize>), String>)
    ensures
        match r {
            Ok(v) => sample_parts(t@) == Ok::<_, Seq<char>>(
                (
                    v.0@,
                    match v.1 {
                        Some(n) => Some(n as nat),
                        None => None,
                    },
                ),
            ),
            Err(m) => sample_parts(t@) == Err::<(Seq<char>, Option<nat>), Seq<char>>(m@),
        },
{
    if t.len() == 0 || t[t.len() - 1] != ']' {
        return Ok((text::string_of(t), None));
    }
    let shown = text::quote(text::string_of(t).as_str());
    let head = slice_subrange(t, 0, t.len() - 1);
    assert(head@ =~= t@.drop_last());
    let open = match text::rfind_char(head, '[') {
        Some(i) => i,
        None => {
            let m = text::concat3("unmatched ']' in target ", shown.as_str(), "");
            proof {
                reveal_strlit("");
                assert(m@ =~= "unmatched ']' in target "@ + text::quoted(t@));
            }
            return Err(m);
        },
    };
    let count = text::trimmed(slice_subrange(head, open + 1, head.len()));
    match text::parse_number(count, usize::MAX as u64) {
        None => Err(text::concat3("sample count in ", shown.as_str(), " must be a positive integer")),
        Some(n) => {
            if n == 0 {
                return Err(text::concat3("sample count in ", shown.as_str(), " must be at least 1"));
            }
            let body = text::trimmed(slice_subrange(head, 0, open));
            Ok((text::string_of(body), Some(n as usize)))
        },
    }
}

impl TargetSpec {
    /// Read a target, given the network that its body spells.
    pub fn parse_given(s: &str, net: Option<Network>) -> (r: Result<Self, String>)
        requires
            net matches Some(n) ==> n.valid(),
        ensures
            match r {
                Ok(spec) => target_of(text::trim(s@), net) == Ok::<TargetView, Seq<char>>(spec@),
                Err(m) => target_of(text::trim(s@), net) == Err::<TargetView, Seq<char>>(m@),
            },
    {
        let t = text::trimmed_chars(s);
        if t.len() == 0 {
            return Err("empty target".to_owned());
        }
        let shown = text::quote(text::string_of(t.as_slice()).as_str());
        let (body, sample) = match split_sample(t.as_slice()) {
            Ok(v) => v,
            Err(m) => return Err(m),
        };
        let cs = text::chars_of(body.as_str());
        if text::has_char(cs.as_slice(), '/') {
            let net = match net {
                Some(net) => net,
                None => return Err(text::concat3("target ", shown.as_str(), " is not a valid CIDR")),
            };
            if sample.is_none() {
                let size = network_size(&net);
                if size > MAX_CIDR_EXPANSION as u128 {
                    let mut m = text::concat3("target ", shown.as_str(), " expands to ");
                    text::push_wide_dec(&mut m, size);
                    text::push_text(&mut m, " addresses, over the limit of 64; append a sample count, e.g. \"");
                    text::push_text(&mut m, body.as_str());
                    text::push_text(&mut m, "[4]\"");
                    return Err(m);
                }
            }
            return Ok(TargetSpec::Cidr { net, sample });
        }
        if sample.is_some() {
            return Err(text::concat3("sample count in ", shown.as_str(), " only applies to a CIDR target"));
        }
        match net::parse_ip(cs.as_slice()) {
            Some(ip) => return Ok(TargetSpec::Ip(ip)),
            None => {},
        }
        if text::has_char(cs.as_slice(), ':') {
            return Err(
                text::concat3(
                    "target ",
                    shown.as_str(),
                    " looks like an IPv6 address but does not parse as one (a domain target must not contain ':')",
                ),
            );
        }
        Ok(TargetSpec::Domain(body))
    }

    /// Read a target.
    pub fn parse(s: &str) -> (r: Result<Self, String>)
        ensures
            match r {
                Ok(spec) => target(s@) == Ok::<TargetView, Seq<char>>(spec@),
                Err(m) => target(s@) == Err::<TargetView, Seq<char>>(m@),
            },
            r matches Ok(TargetSpec::Cidr { net, sample }) ==> net.valid(),
    {
        let t = text::trimmed_chars(s);
        let net = match split_sample(t.as_slice()) {
            Ok((body, _)) => parse_cidr(body.as_str()),
            Err(_) => parse_cidr(text::string_of(t.as_slice()).as_str()),
        };
        TargetSpec::parse_given(s, net)
    }
}

/// A pool's target with its own tags, and the addresses drawn from it if it is a
/// network. They are drawn once: drawing again would throw away what has been
/// measured.
#[derive(Debug, Clone)]
pub struct Target {
    pub spec: TargetSpec,
    pub custom_tags: Vec<String>,
    pub sampled: Vec<IpAddr>,
}

/// The tags of a target without the white space around them.
pub open spec fn trimmed_tags(tags: Seq<String>) -> Seq<Seq<char>> {
    tags.map_values(|t: String| text::trim(t@))
}

impl Target {
    /// A network is sound.
    pub open spec fn valid(self) -> bool {
        self.spec matches TargetSpec::Cidr { net, sample } ==> net.valid()
    }

    /// Tell whether a network is sound.
    pub fn is_valid(&self) -> (r: bool)
        ensures
            r == self.valid(),
    {
        match &self.spec {
            TargetSpec::Cidr { net, sample: _ } => net.is_valid(),
            _ => true,
        }
    }

    /// Prepare a target, drawing from it if it is a network. An error says where
    /// the target stands.
    pub fn prepare(pool: &str, index: usize, addr: &str, tags: &Vec<String>) -> (r: Result<Self, String>)
        ensures
            match r {
                Ok(t) => {
                    &&& t.valid()
                    &&& target(addr@) == Ok::<TargetView, Seq<char>>(t.spec@)
                    &&& text::texts(t.custom_tags@) == trimmed_tags(tags@)
                    &&& match t.spec@ {
                        TargetView::Cidr { net, sample } => {
                            &&& sample is None ==> t.sampled@ == hosts_of(net, MAX_CIDR_EXPANSION as nat)
                            &&& sample matches Some(n) ==> is_draw(net, t.sampled@) && t.sampled@.len() <= n
                            &&& sample matches Some(n) ==> (n > 0 ==> t.sampled@.len() > 0)
                            &&& sample matches Some(n) ==> exists|offsets: Seq<u128>| #[trigger]
                                is_sample(net, n, offsets, t.sampled@)
                        },
                        _ => t.sampled@.len() == 0,
                    }
                },
                Err(m) => target(addr@) matches Err(why) && m@ == "[pools."@ + pool@ + "]: targets["@ + text::dec(
                    index as nat,
                ) + "]: "@ + why,
            },
    {
        let spec = match TargetSpec::parse(addr) {
            Ok(spec) => spec,
            Err(why) => {
                let mut m = text::concat3("[pools.", pool, "]: targets[");
                text::push_dec(&mut m, index as u64);
                text::push_text(&mut m, "]: ");
                text::push_text(&mut m, why.as_str());
                return Err(m);
            },
        };
        let sampled = match &spec {
            TargetSpec::Cidr { net, sample } => draw_sample(net, *sample),
            _ => Vec::new(),
        };
        let mut custom_tags: Vec<String> = Vec::new();
        let mut i: usize = 0;
        while i < tags.len()
            invariant
                i <= tags@.len(),
                custom_tags@.len() == i,
                forall|k: int| 0 <= k < i ==> (#[trigger] custom_tags@[k])@ == text::trim(tags@[k]@),
            decreases tags@.len() - i,
        {
            custom_tags.push(text::trimmed_text(tags[i].as_str()));
            i = i + 1;
        }
        assert(text::texts(custom_tags@) =~= trimmed_tags(tags@));
        Ok(Target { spec, custom_tags, sampled })
    }
}

// ---------------------------------------------------------------------------
// Laws
// ---------------------------------------------------------------------------

proof fn lemma_power(n: nat)
    ensures
        two_to(n) == vstd::arithmetic::power2::pow2(n),
        two_to(n) > 0,
    decreases n,
{
    if n > 0 {
        lemma_power((n - 1) as nat);
        vstd::arithmetic::power2::lemma_pow2_unfold(n);
    } else {
        vstd::arithmetic::power2::lemma2_to64();
    }
}

/// A network holds the addresses of its family that share its leading bits, 2 to the
/// number of the remaining bits in all.
pub proof fn law_network_holds_its_prefix(net: Network, a: IpAddr)
    requires
        net.valid(),
    ensures
        ({
            let rest = match net.addr {
                IpAddr::V4(_) => (32 - net.prefix_len) as nat,
                IpAddr::V6(_) => (128 - net.prefix_len) as nat,
            };
            let span = vstd::arithmetic::power2::pow2(rest);
            &&& net.extent() == span
            &&& match (net.addr, a) {
                (IpAddr::V4(x), IpAddr::V4(y)) => net.contains(a) <==> x as nat / span == y as nat / span,
                (IpAddr::V6(x), IpAddr::V6(y)) => net.contains(a) <==> x as nat / span == y as nat / span,
                _ => !net.contains(a),
            }
        }),
        net.contains(net.addr),
{
    lemma_power(net.host_bits());
    lemma_base(net);
    let span = net.extent();
    let x = addr_value(net.addr);
    let y = addr_value(a);
    assert((x / span * span <= y < x / span * span + span) <==> x / span == y / span) by (nonlinear_arith)
        requires
            span > 0,
            x >= 0,
            y >= 0,
    ;
}

/// The hosts of a network are its addresses, from the first on and none twice, without
/// the first and the last of an IPv4 network that has others; with room for all of them,
/// every one is listed.
pub proof fn law_hosts_are_the_networks(net: Network, most: nat, a: IpAddr)
    requires
        net.valid(),
    ensures
        ({
            let list = hosts_of(net, most);
            let reserved = net.addr is V4 && net.prefix_len < 31 && (addr_value(a) == net.base() || addr_value(a)
                == net.base() + net.extent() - 1);
            &&& list.len() <= most
            &&& list.contains(a) ==> net.contains(a) && !reserved
            &&& net.contains(a) && !reserved && net.extent() <= most ==> list.contains(a)
            &&& forall|i: int, j: int| 0 <= i < j < list.len() ==> addr_value(#[trigger] list[i]) < addr_value(#[trigger] list[j])
        }),
{
    let list = hosts_of(net, most);
    let base = net.base();
    lemma_base(net);
    lemma_two_to_values();
    lemma_two_to_bound(net.host_bits(), net.width());
    if net.addr is V4 && net.prefix_len < 31 {
        lemma_two_to_bound(2, net.host_bits());
        reveal_with_fuel(two_to, 3);
    }
    assert forall|i: int| 0 <= i < list.len() implies addr_value(#[trigger] list[i]) == base + first_host(net) + i
        && same_family(net.addr, list[i]) by {
        assert(base + first_host(net) + i < base + net.extent());
    }
    if list.contains(a) {
        let i = choose|i: int| 0 <= i < list.len() && list[i] == a;
        assert(addr_value(list[i]) == base + first_host(net) + i);
    }
    let reserved = net.addr is V4 && net.prefix_len < 31 && (addr_value(a) == base || addr_value(a) == base
        + net.extent() - 1);
    if net.contains(a) && !reserved && net.extent() <= most {
        let i = addr_value(a) - base - first_host(net);
        assert(0 <= i < list.len());
        assert(addr_value(list[i]) == addr_value(a));
        assert(list[i] == a);
    }
}

/// A draw takes each place as it comes, except one whose address it has and all those
/// after it has enough; no more are wanted than the network has.
pub proof fn law_draw_takes_places_as_they_come(net: Network, want: int, offsets: Seq<u128>, i: int)
    requires
        want >= 0,
    ensures
        drawn(net, want, offsets).len() <= want,
        drawn(net, want, offsets).no_duplicates(),
        0 <= i < offsets.len() && drawn(net, want, offsets).len() < want ==> drawn(net, want, offsets).contains(
            addr_at(net, offsets[i] as nat),
        ),
        offsets.len() > 0 && want > 0 ==> drawn(net, want, offsets).len() > 0 && drawn(net, want, offsets)[0] == addr_at(
            net,
            offsets[0] as nat,
        ),
    decreases offsets.len(),
{
    if offsets.len() > 0 {
        let before = offsets.drop_last();
        let list = drawn(net, want, before);
        let all = drawn(net, want, offsets);
        let addr = addr_at(net, offsets.last() as nat);
        law_draw_takes_places_as_they_come(net, want, before, i);
        if !(list.len() >= want || list.contains(addr)) {
            assert(all[list.len() as int] == addr);
            assert forall|k: int| 0 <= k < list.len() implies all[k] == list[k] by {}
        }
        if 0 <= i < offsets.len() && all.len() < want {
            if i < before.len() {
                assert(before[i] == offsets[i]);
                let k = choose|k: int| 0 <= k < list.len() && list[k] == addr_at(net, offsets[i] as nat);
                assert(all[k] == list[k]);
            } else {
                assert(all.contains(addr));
            }
        }
    }
}

/// No more addresses are wanted than there are, and eight attempts are made for each, 16
/// at least.
pub proof fn law_attempts_are_bounded(net: Network, want: usize)
    ensures
        wanted(net, want) <= want,
        wanted(net, want) <= net.size(),
        want <= net.size() ==> wanted(net, want) == want,
        want <= 2 ==> attempts_for(want as int) == 16,
        2 <= want <= 1000000 ==> attempts_for(want as int) == 8 * want,
        MAX_CIDR_EXPANSION == 64,
{
}

/// A sample count stands in brackets behind a target, and is a positive number.
pub proof fn law_sample_count_is_read(body: Seq<char>, n: nat)
    requires
        body.len() > 0,
        !text::is_space(body[0]),
        !text::is_space(body.last()),
    ensures
        0 < n <= usize::MAX ==> sample_parts(body + seq!['['] + text::dec(n) + seq![']']) == Ok::<
            (Seq<char>, Option<nat>),
            Seq<char>,
        >((body, Some(n))),
        sample_parts(body + seq!['['] + text::dec(0) + seq![']']) is Err,
        body.last() != ']' ==> sample_parts(body) == Ok::<(Seq<char>, Option<nat>), Seq<char>>((body, None)),
{
    lemma_bracketed(body, n);
    lemma_bracketed(body, 0);
    text::lemma_trimmed_already(body);
}

proof fn lemma_bracketed(body: Seq<char>, n: nat)
    ensures
        ({
            let t = body + seq!['['] + text::dec(n) + seq![']'];
            let head = t.drop_last();
            let open = text::last_char(head, '[', head.len() as int);
            &&& t.last() == ']'
            &&& open == body.len()
            &&& head.subrange(0, open) == body
            &&& text::trim(head.subrange(open + 1, head.len() as int)) == text::dec(n)
            &&& text::number(text::dec(n)) == Some(n)
        }),
{
    let d = text::dec(n);
    text::lemma_dec_digits(n);
    assert(text::is_digit(d[0]) && text::is_digit(d.last()));
    text::lemma_trimmed_already(d);
    let t = body + seq!['['] + d + seq![']'];
    let head = t.drop_last();
    assert(head =~= body + seq!['['] + d);
    text::lemma_last_char(head, '[', head.len() as int);
    let open = text::last_char(head, '[', head.len() as int);
    assert(head[body.len() as int] == '[');
    if open > body.len() {
        assert(head[open] == d[open - body.len() - 1]);
        assert(text::is_digit(d[open - body.len() - 1]));
    }
    assert(head.subrange(0, open) =~= body);
    assert(head.subrange(open + 1, head.len() as int) =~= d);
}

/// A target with a slash is a network or nothing, and one of more than 64 addresses needs
/// a sample count; an address is an address; what has neither a slash nor a colon is a
/// domain.
pub proof fn law_target_is_told_by_its_form(body: Seq<char>, net: Option<Network>)
    requires
        body.len() > 0,
        body.last() != ']',
    ensures
        body.contains('/') && net is None ==> target_of(body, net) is Err,
        body.contains('/') ==> (net matches Some(n) ==> (n.size() <= 64 ==> target_of(body, net) == Ok::<
            TargetView,
            Seq<char>,
        >(TargetView::Cidr { net: n, sample: None }))),
        body.contains('/') ==> (net matches Some(n) ==> (n.size() > 64 ==> target_of(body, net) is Err)),
        !body.contains('/') ==> (net::ip(body) matches Some(ip) ==> target_of(body, net) == Ok::<TargetView, Seq<char>>(
            TargetView::Ip(ip),
        )),
        !body.contains('/') && net::ip(body) is None && !body.contains(':') ==> target_of(body, net) == Ok::<
            TargetView,
            Seq<char>,
        >(TargetView::Domain(body)),
        !body.contains('/') && net::ip(body) is None && body.contains(':') ==> target_of(body, net) is Err,
        target_body(body) == body,
{
}

/// A sample count goes with a network, of whatever size, and with nothing else.
pub proof fn law_only_networks_are_sampled(body: Seq<char>, n: nat, net: Option<Network>)
    requires
        body.len() > 0,
        !text::is_space(body[0]),
        !text::is_space(body.last()),
        0 < n <= usize::MAX,
    ensures
        body.contains('/') ==> (net matches Some(x) ==> target_of(body + seq!['['] + text::dec(n) + seq![']'], net)
            == Ok::<TargetView, Seq<char>>(TargetView::Cidr { net: x, sample: Some(n as usize) })),
        !body.contains('/') ==> target_of(body + seq!['['] + text::dec(n) + seq![']'], net) is Err,
        target_body(body + seq!['['] + text::dec(n) + seq![']']) == body,
{
    law_sample_count_is_read(body, n);
}

} // verus!
