//! Connection classification from the first bytes of a stream.
//!
//! The routing key (TLS SNI, or HTTP Host) has to be learned without consuming
//! any bytes, so that an unmatched connection can still be spliced through
//! verbatim. Two parsers work on the bytes a peek returned: [`parse_tls_sni`]
//! reads the server name of a TLS ClientHello, [`parse_http_host`] the `Host`
//! header of a plaintext HTTP request.

use crate::octets;
use crate::octets::{decode_text, read_be16, read_be24, starts_with};
use vstd::prelude::*;
use vstd::slice::slice_subrange;

verus! {

/// Largest peek window. A ClientHello (or HTTP request head) that does not
/// reveal its SNI/Host within this many bytes is treated as carrying no key.
pub const MAX_PEEK: usize = 8192;

/// How long to wait for enough bytes to classify, in milliseconds.
pub const PEEK_TIMEOUT_MILLIS: u64 = 10000;

/// The classification result for an inbound connection.
#[derive(Debug, Clone)]
pub enum Inbound {
    /// A TLS ClientHello was seen. `sni` is the extracted server name, if any.
    Tls { sni: Option<String> },
    /// A plaintext HTTP request was seen. `host` is the Host header, if any.
    Http { host: Option<String> },
    /// Neither TLS nor HTTP could be recognized.
    Unknown,
}

/// What an [`Inbound`] says, over character sequences.
pub enum InboundView {
    Tls { sni: Option<Seq<char>> },
    Http { host: Option<Seq<char>> },
    Unknown,
}

impl View for Inbound {
    type V = InboundView;

    open spec fn view(&self) -> InboundView {
        match self {
            Inbound::Tls { sni } => InboundView::Tls { sni: text_of(*sni) },
            Inbound::Http { host } => InboundView::Http { host: text_of(*host) },
            Inbound::Unknown => InboundView::Unknown,
        }
    }
}

/// The characters of an optional string.
pub open spec fn text_of(s: Option<String>) -> Option<Seq<char>> {
    match s {
        Some(s) => Some(s@),
        None => None,
    }
}

impl InboundView {
    /// The routing key: the SNI of a TLS stream, the Host of an HTTP one.
    pub open spec fn key(self) -> Option<Seq<char>> {
        match self {
            InboundView::Tls { sni } => sni,
            InboundView::Http { host } => host,
            InboundView::Unknown => None,
        }
    }
}

impl Inbound {
    /// The routing key (SNI for TLS, Host for HTTP), if present.
    pub fn key(&self) -> (r: Option<&str>)
        ensures
            match r {
                Some(k) => self@.key() == Some(k@),
                None => self@.key() is None,
            },
    {
        match self {
            Inbound::Tls { sni } => match sni {
                Some(s) => Some(s.as_str()),
                None => None,
            },
            Inbound::Http { host } => match host {
                Some(s) => Some(s.as_str()),
                None => None,
            },
            Inbound::Unknown => None,
        }
    }

    /// Whether the inbound stream is TLS (and can therefore be terminated).
    pub fn is_tls(&self) -> (r: bool)
        ensures
            r == (self@ is Tls),
    {
        match self {
            Inbound::Tls { .. } => true,
            Inbound::Http { .. } => false,
            Inbound::Unknown => false,
        }
    }
}

// ---------------------------------------------------------------------------
// TLS ClientHello SNI parser
// ---------------------------------------------------------------------------

/// What a ClientHello says about the server name.
#[derive(Debug, Clone)]
pub enum TlsParse {
    Sni(String),
    NoSni,
    NeedMore,
    NotClientHello,
}

/// What a [`TlsParse`] says, over character sequences.
pub enum TlsAnswer {
    Sni(Seq<char>),
    NoSni,
    NeedMore,
    NotClientHello,
}

impl View for TlsParse {
    type V = TlsAnswer;

    open spec fn view(&self) -> TlsAnswer {
        match self {
            TlsParse::Sni(s) => TlsAnswer::Sni(s@),
            TlsParse::NoSni => TlsAnswer::NoSni,
            TlsParse::NeedMore => TlsAnswer::NeedMore,
            TlsParse::NotClientHello => TlsAnswer::NotClientHello,
        }
    }
}

/// The name a host_name entry holds: its bytes as text, when they are
/// well-formed and not empty.
pub open spec fn host_name(name: Seq<u8>) -> TlsAnswer {
    if vstd::utf8::valid_utf8(name) && name.len() > 0 {
        TlsAnswer::Sni(vstd::utf8::decode_utf8(name))
    } else {
        TlsAnswer::NoSni
    }
}

/// The first host_name among the entries of a ServerNameList that starts at
/// `at` and stops at `end`. An entry is a type byte, a 16-bit length and a name.
pub open spec fn first_host_name(b: Seq<u8>, at: int, end: int) -> TlsAnswer
    decreases b.len() - at,
{
    if at < 0 || at + 3 > end {
        TlsAnswer::NoSni
    } else {
        let len = octets::be16_at(b, at + 1);
        if at + 3 + len > b.len() {
            TlsAnswer::NeedMore
        } else if b[at] == 0 {
            host_name(b.subrange(at + 3, at + 3 + len))
        } else {
            first_host_name(b, at + 3 + len, end)
        }
    }
}

/// The answer of a server_name extension body: a 16-bit list length, then the
/// entries of the list.
pub open spec fn server_name_answer(b: Seq<u8>) -> TlsAnswer {
    if b.len() < 2 {
        TlsAnswer::NeedMore
    } else {
        first_host_name(b, 2, octets::least(2 + octets::be16_at(b, 0), b.len() as int))
    }
}

/// The answer of the extensions between `at` and `end`: that of the first
/// server_name extension (type 0). An extension is a 16-bit type, a 16-bit
/// length and a body. That there is no such extension is known only when all of
/// them are there.
pub open spec fn extensions_answer(b: Seq<u8>, at: int, end: int) -> TlsAnswer
    decreases b.len() - at,
{
    if at < 0 || at + 4 > octets::least(end, b.len() as int) {
        if end < at || end > b.len() {
            TlsAnswer::NeedMore
        } else {
            TlsAnswer::NoSni
        }
    } else {
        let len = octets::be16_at(b, at + 2);
        if at + 4 + len > b.len() {
            TlsAnswer::NeedMore
        } else if octets::be16_at(b, at) == 0 {
            server_name_answer(b.subrange(at + 4, at + 4 + len))
        } else {
            extensions_answer(b, at + 4 + len, end)
        }
    }
}

/// The answer of a ClientHello body whose handshake message is to end at
/// `message_end`: version and random (34 bytes), a session id, the cipher
/// suites, the compression methods, and the extensions. A buffer that holds the
/// whole message but no extensions has no SNI.
pub open spec fn hello_body_answer(b: Seq<u8>, message_end: int) -> TlsAnswer {
    let sid: int = 43;
    let end = octets::least(message_end, b.len() as int);
    if sid > end || sid >= b.len() {
        TlsAnswer::NeedMore
    } else {
        let suites = sid + 1 + b[sid];
        if suites + 2 > end {
            TlsAnswer::NeedMore
        } else {
            let methods = suites + 2 + octets::be16_at(b, suites);
            if methods + 1 > end {
                TlsAnswer::NeedMore
            } else {
                let ext = methods + 1 + b[methods];
                if ext > end {
                    TlsAnswer::NeedMore
                } else if ext + 2 > end {
                    if message_end > b.len() {
                        TlsAnswer::NeedMore
                    } else {
                        TlsAnswer::NoSni
                    }
                } else {
                    extensions_answer(b, ext + 2, octets::least(ext + 2 + octets::be16_at(b, ext), message_end))
                }
            }
        }
    }
}

/// The answer of a buffer that should hold a TLS record (content type 0x16, a
/// version, a 16-bit length) with a ClientHello (message type 1, a 24-bit
/// length) in it. A buffer that stops short asks for more.
pub open spec fn tls_answer(b: Seq<u8>) -> TlsAnswer {
    if b.len() < 5 {
        TlsAnswer::NeedMore
    } else if b[0] != 0x16 {
        TlsAnswer::NotClientHello
    } else if octets::least(5 + octets::be16_at(b, 3), b.len() as int) < 9 {
        TlsAnswer::NeedMore
    } else if b[5] != 1 {
        TlsAnswer::NotClientHello
    } else {
        hello_body_answer(b, 9 + octets::be24_at(b, 6))
    }
}

fn min_usize(a: usize, b: usize) -> (r: usize)
    ensures
        r == octets::least(a as int, b as int),
{
    if a <= b {
        a
    } else {
        b
    }
}

/// Parse the SNI (host_name) out of a TLS ClientHello. Malformed or truncated
/// input yields `NeedMore`/`NotClientHello`; every index is in bounds.
pub fn parse_tls_sni(b: &[u8]) -> (r: TlsParse)
    ensures
        r@ == tls_answer(b@),
{
    if b.len() < 5 {
        return TlsParse::NeedMore;
    }
    if b[0] != 0x16 {
        return TlsParse::NotClientHello;
    }
    let end = min_usize(5 + read_be16(b, 3), b.len());
    if end < 9 {
        return TlsParse::NeedMore;
    }
    if b[5] != 0x01 {
        return TlsParse::NotClientHello;
    }
    let message_end = 9 + read_be24(b, 6);
    let hs_end = min_usize(message_end, b.len());
    let sid: usize = 43;
    if sid > hs_end {
        return TlsParse::NeedMore;
    }
    if sid >= b.len() {
        return TlsParse::NeedMore;
    }
    let suites = sid + 1 + (b[sid] as usize);
    if suites + 2 > hs_end {
        return TlsParse::NeedMore;
    }
    let methods = suites + 2 + read_be16(b, suites);
    if methods + 1 > hs_end {
        return TlsParse::NeedMore;
    }
    let ext = methods + 1 + (b[methods] as usize);
    if ext + 2 > hs_end {
        // No extensions at all, if the message is complete: no SNI.
        return if ext <= hs_end && message_end <= b.len() {
            TlsParse::NoSni
        } else {
            TlsParse::NeedMore
        };
    }
    let ext_end = min_usize(ext + 2 + read_be16(b, ext), message_end);
    let last = min_usize(ext_end, b.len());
    let mut p: usize = ext + 2;
    while p <= last && last - p >= 4
        invariant
            last == octets::least(ext_end as int, b@.len() as int),
            p <= b@.len(),
            extensions_answer(b@, p as int, ext_end as int) == tls_answer(b@),
        decreases b@.len() - p,
    {
        let ext_len = read_be16(b, p + 2);
        if ext_len > b.len() - (p + 4) {
            return TlsParse::NeedMore;
        }
        if read_be16(b, p) == 0 {
            return parse_sni_extension(slice_subrange(b, p + 4, p + 4 + ext_len));
        }
        p = p + 4 + ext_len;
    }
    if ext_end < p || ext_end > b.len() {
        TlsParse::NeedMore
    } else {
        TlsParse::NoSni
    }
}

proof fn lemma_extensions_are_final(b: Seq<u8>, n: int, at: int, end: int)
    requires
        0 <= at <= n <= b.len(),
        extensions_answer(b.take(n), at, end) !is NeedMore,
    ensures
        extensions_answer(b, at, end) == extensions_answer(b.take(n), at, end),
    decreases n - at,
{
    let t = b.take(n);
    if at + 4 <= octets::least(end, n) {
        let len = octets::be16_at(t, at + 2);
        assert(octets::be16_at(b, at + 2) == len);
        assert(octets::be16_at(b, at) == octets::be16_at(t, at));
        if octets::be16_at(t, at) == 0 {
            assert(t.subrange(at + 4, at + 4 + len) =~= b.subrange(at + 4, at + 4 + len));
        } else {
            lemma_extensions_are_final(b, n, at + 4 + len, end);
        }
    }
}

/// A ClientHello that was cut short never gets a premature answer: once the
/// first `n` bytes settle the matter, the bytes that follow change nothing.
pub proof fn law_tls_answer_is_final(b: Seq<u8>, n: int)
    requires
        0 <= n <= b.len(),
        tls_answer(b.take(n)) !is NeedMore,
    ensures
        tls_answer(b) == tls_answer(b.take(n)),
{
    let t = b.take(n);
    assert(t[0] == b[0]);
    if t[0] == 0x16 && t[5] == 1 {
        let message_end = 9 + octets::be24_at(t, 6);
        assert(octets::be16_at(b, 3) == octets::be16_at(t, 3));
        assert(octets::be24_at(b, 6) == octets::be24_at(t, 6));
        let suites = 43 + 1 + t[43];
        let methods = suites + 2 + octets::be16_at(t, suites);
        assert(octets::be16_at(b, suites) == octets::be16_at(t, suites));
        assert(t[methods] == b[methods]);
        let ext = methods + 1 + t[methods];
        if ext + 2 <= octets::least(message_end, n) {
            assert(octets::be16_at(b, ext) == octets::be16_at(t, ext));
            lemma_extensions_are_final(b, n, ext + 2, octets::least(ext + 2 + octets::be16_at(t, ext), message_end));
        }
    }
}

/// Parse a server_name extension body.
pub fn parse_sni_extension(b: &[u8]) -> (r: TlsParse)
    ensures
        r@ == server_name_answer(b@),
{
    if b.len() < 2 {
        return TlsParse::NeedMore;
    }
    let end = min_usize(2 + read_be16(b, 0), b.len());
    let mut p: usize = 2;
    while p <= end && end - p >= 3
        invariant
            end <= b@.len(),
            p <= b@.len(),
            first_host_name(b@, p as int, end as int) == server_name_answer(b@),
        decreases b@.len() - p,
    {
        let name_len = read_be16(b, p + 1);
        if name_len > b.len() - (p + 3) {
            return TlsParse::NeedMore;
        }
        if b[p] == 0x00 {
            if name_len == 0 {
                return TlsParse::NoSni;
            }
            return match decode_text(slice_subrange(b, p + 3, p + 3 + name_len)) {
                Some(s) => TlsParse::Sni(s),
                None => TlsParse::NoSni,
            };
        }
        p = p + 3 + name_len;
    }
    TlsParse::NoSni
}

// ---------------------------------------------------------------------------
// HTTP Host parser
// ---------------------------------------------------------------------------

/// What an HTTP request head says about the host.
#[derive(Debug, Clone)]
pub enum HttpParse {
    Host(String),
    NoHost,
    NeedMore,
    NotHttp,
}

/// What an [`HttpParse`] says, over character sequences.
pub enum HttpAnswer {
    Host(Seq<char>),
    NoHost,
    NeedMore,
    NotHttp,
}

impl View for HttpParse {
    type V = HttpAnswer;

    open spec fn view(&self) -> HttpAnswer {
        match self {
            HttpParse::Host(s) => HttpAnswer::Host(s@),
            HttpParse::NoHost => HttpAnswer::NoHost,
            HttpParse::NeedMore => HttpAnswer::NeedMore,
            HttpParse::NotHttp => HttpAnswer::NotHttp,
        }
    }
}

/// Line feed.
pub const LF: u8 = 10;

/// Carriage return.
pub const CR: u8 = 13;

/// Colon.
pub const COLON: u8 = 58;

/// Whether the header block's terminator begins with the line feed at `i`: a
/// second line feed follows, or a carriage return and a line feed.
pub open spec fn ends_block(b: Seq<u8>, i: int) -> bool {
    &&& 0 <= i < b.len()
    &&& b[i] == LF
    &&& {
        ||| i + 1 < b.len() && b[i + 1] == LF
        ||| i + 2 < b.len() && b[i + 1] == CR && b[i + 2] == LF
    }
}

/// The index one past the terminator that begins at `i`.
pub open spec fn block_end_at(b: Seq<u8>, i: int) -> int {
    if b[i + 1] == LF {
        i + 2
    } else {
        i + 3
    }
}

/// The index one past the first header-block terminator at or behind `from`.
pub open spec fn block_end_from(b: Seq<u8>, from: int) -> Option<int>
    decreases b.len() - from,
{
    if from < 0 || from >= b.len() {
        None
    } else if ends_block(b, from) {
        Some(block_end_at(b, from))
    } else {
        block_end_from(b, from + 1)
    }
}

/// The index one past the blank line ending the header block, or `None` when
/// the terminator is not in `b` yet. `\r\n\r\n` and bare `\n\n` both count.
pub fn header_block_end(b: &[u8]) -> (r: Option<usize>)
    ensures
        match r {
            Some(end) => block_end_from(b@, 0) == Some(end as int) && end <= b@.len(),
            None => block_end_from(b@, 0) is None,
        },
{
    let mut i: usize = 0;
    while i < b.len()
        invariant
            i <= b@.len(),
            block_end_from(b@, i as int) == block_end_from(b@, 0),
        decreases b@.len() - i,
    {
        if b[i] == LF && b.len() - i >= 2 {
            if b[i + 1] == LF {
                return Some(i + 2);
            }
            if b.len() - i >= 3 && b[i + 1] == CR && b[i + 2] == LF {
                return Some(i + 3);
            }
        }
        i = i + 1;
    }
    None
}

/// The index of the first `c` at or behind `from`, or the length.
pub open spec fn next_byte(b: Seq<u8>, c: u8, from: int) -> int
    decreases b.len() - from,
{
    if from < 0 || from >= b.len() {
        b.len() as int
    } else if b[from] == c {
        from
    } else {
        next_byte(b, c, from + 1)
    }
}

fn find_byte(b: &[u8], c: u8, from: usize) -> (r: usize)
    requires
        from <= b@.len(),
    ensures
        r == next_byte(b@, c, from as int),
        from <= r <= b@.len(),
        r < b@.len() ==> b@[r as int] == c,
{
    let mut i = from;
    while i < b.len()
        invariant
            from <= i <= b@.len(),
            next_byte(b@, c, from as int) == next_byte(b@, c, i as int),
        decreases b@.len() - i,
    {
        if b[i] == c {
            return i;
        }
        i = i + 1;
    }
    i
}

/// ASCII whitespace: tab, line feed, form feed, carriage return, space.
pub open spec fn is_ascii_space(c: u8) -> bool {
    c == 9 || c == 10 || c == 12 || c == 13 || c == 32
}

/// `b` without its leading ASCII whitespace.
pub open spec fn trim_front(b: Seq<u8>) -> Seq<u8>
    decreases b.len(),
{
    if b.len() > 0 && is_ascii_space(b[0]) {
        trim_front(b.subrange(1, b.len() as int))
    } else {
        b
    }
}

/// `b` without its trailing ASCII whitespace.
pub open spec fn trim_back(b: Seq<u8>) -> Seq<u8>
    decreases b.len(),
{
    if b.len() > 0 && is_ascii_space(b[b.len() - 1]) {
        trim_back(b.subrange(0, b.len() - 1))
    } else {
        b
    }
}

/// `b` without its leading and trailing ASCII whitespace.
pub open spec fn trim_ascii(b: Seq<u8>) -> Seq<u8> {
    trim_back(trim_front(b))
}

fn trimmed(b: &[u8]) -> (r: &[u8])
    ensures
        r@ == trim_ascii(b@),
{
    let mut i: usize = 0;
    assert(b@.subrange(0, b@.len() as int) =~= b@);
    while i < b.len() && (b[i] == 9 || b[i] == 10 || b[i] == 12 || b[i] == 13 || b[i] == 32)
        invariant
            i <= b@.len(),
            trim_front(b@) == trim_front(b@.subrange(i as int, b@.len() as int)),
        decreases b@.len() - i,
    {
        proof {
            let rest = b@.subrange(i as int, b@.len() as int);
            assert(rest.subrange(1, rest.len() as int) =~= b@.subrange(i + 1, b@.len() as int));
        }
        i = i + 1;
    }
    let ghost front = b@.subrange(i as int, b@.len() as int);
    assert(trim_front(b@) == front);
    let mut j: usize = b.len();
    while j > i && (b[j - 1] == 9 || b[j - 1] == 10 || b[j - 1] == 12 || b[j - 1] == 13 || b[j - 1] == 32)
        invariant
            i <= j <= b@.len(),
            trim_back(front) == trim_back(b@.subrange(i as int, j as int)),
        decreases j,
    {
        proof {
            let rest = b@.subrange(i as int, j as int);
            assert(rest.subrange(0, rest.len() - 1) =~= b@.subrange(i as int, j - 1));
        }
        j = j - 1;
    }
    slice_subrange(b, i, j)
}

/// Whether `c` is the letter `lower` in either case.
pub open spec fn same_letter(c: u8, lower: u8) -> bool {
    c == lower || c + 32 == lower
}

/// Whether `name` is `host` in any mix of cases.
pub open spec fn is_host_name(name: Seq<u8>) -> bool {
    &&& name.len() == 4
    &&& same_letter(name[0], 104)
    &&& same_letter(name[1], 111)
    &&& same_letter(name[2], 115)
    &&& same_letter(name[3], 116)
}

/// The trimmed value of a `Host: value` line, and nothing for any other line.
pub open spec fn host_value(line: Seq<u8>) -> Option<Seq<u8>> {
    let colon = next_byte(line, COLON, 0);
    if colon < line.len() && is_host_name(trim_ascii(line.subrange(0, colon))) {
        Some(trim_ascii(line.subrange(colon + 1, line.len() as int)))
    } else {
        None
    }
}

/// The line that starts at `from`, without its line ending.
pub open spec fn line_at(head: Seq<u8>, from: int) -> Seq<u8> {
    let end = next_byte(head, LF, from);
    if end > from && head[end - 1] == CR {
        head.subrange(from, end - 1)
    } else {
        head.subrange(from, end)
    }
}

/// The value of the first Host line among the lines from `from` on, up to the
/// blank line.
pub open spec fn first_host(head: Seq<u8>, from: int) -> Option<Seq<u8>>
    decreases head.len() - from,
{
    let end = next_byte(head, LF, from);
    if from < 0 || from > head.len() || line_at(head, from).len() == 0 {
        None
    } else if host_value(line_at(head, from)) is Some {
        host_value(line_at(head, from))
    } else if end < from || end >= head.len() {
        None
    } else {
        first_host(head, end + 1)
    }
}

/// The text of a Host value, when it is well-formed and not empty.
pub open spec fn host_text(value: Seq<u8>) -> HttpAnswer {
    if vstd::utf8::valid_utf8(value) && value.len() > 0 {
        HttpAnswer::Host(vstd::utf8::decode_utf8(value))
    } else {
        HttpAnswer::NoHost
    }
}

/// Whether the buffer plausibly starts an HTTP request line.
pub open spec fn http_like(b: Seq<u8>) -> bool {
    ||| seq![71u8, 69, 84, 32].is_prefix_of(b)
    ||| seq![80u8, 79, 83, 84, 32].is_prefix_of(b)
    ||| seq![80u8, 85, 84, 32].is_prefix_of(b)
    ||| seq![72u8, 69, 65, 68, 32].is_prefix_of(b)
    ||| seq![68u8, 69, 76, 69].is_prefix_of(b)
    ||| seq![79u8, 80, 84, 73].is_prefix_of(b)
    ||| seq![80u8, 65, 84, 67].is_prefix_of(b)
    ||| seq![84u8, 82, 65, 67].is_prefix_of(b)
    ||| seq![67u8, 79, 78, 78].is_prefix_of(b)
}

/// How many bytes the lines take that are there with their line feed.
pub open spec fn whole_lines(b: Seq<u8>) -> int
    decreases b.len(),
{
    if b.len() == 0 {
        0
    } else if b.last() == LF {
        b.len() as int
    } else {
        whole_lines(b.drop_last())
    }
}

/// The bytes of the request head: up to the terminator, or, while there is none,
/// the lines that have come whole. The rest of a line that was cut short is not
/// known yet.
pub open spec fn request_head(b: Seq<u8>) -> Seq<u8> {
    match block_end_from(b, 0) {
        Some(end) => b.subrange(0, end),
        None => b.subrange(0, whole_lines(b)),
    }
}

fn whole_lines_end(b: &[u8]) -> (r: usize)
    ensures
        r == whole_lines(b@),
        r <= b@.len(),
{
    let mut n: usize = b.len();
    assert(b@.take(n as int) =~= b@);
    while n > 0
        invariant
            n <= b@.len(),
            whole_lines(b@.take(n as int)) == whole_lines(b@),
        decreases n,
    {
        assert(b@.take(n as int).last() == b@[n - 1]);
        if b[n - 1] == LF {
            return n;
        }
        assert(b@.take(n as int).drop_last() =~= b@.take(n - 1));
        n = n - 1;
    }
    0
}

/// The answer of a buffer that should hold an HTTP request: its Host, looked
/// for in the head alone.
pub open spec fn http_answer(b: Seq<u8>) -> HttpAnswer {
    if !http_like(b) {
        HttpAnswer::NotHttp
    } else {
        match first_host(request_head(b), 0) {
            Some(value) => host_text(value),
            None => if block_end_from(b, 0) is Some {
                HttpAnswer::NoHost
            } else {
                HttpAnswer::NeedMore
            },
        }
    }
}

/// True if the buffer plausibly starts an HTTP request line.
pub fn looks_like_http(b: &[u8]) -> (r: bool)
    ensures
        r == http_like(b@),
{
    let get: [u8; 4] = [71, 69, 84, 32];
    let post: [u8; 5] = [80, 79, 83, 84, 32];
    let put: [u8; 4] = [80, 85, 84, 32];
    let head: [u8; 5] = [72, 69, 65, 68, 32];
    let delete: [u8; 4] = [68, 69, 76, 69];
    let options: [u8; 4] = [79, 80, 84, 73];
    let patch: [u8; 4] = [80, 65, 84, 67];
    let trace: [u8; 4] = [84, 82, 65, 67];
    let connect: [u8; 4] = [67, 79, 78, 78];
    assert(get@ =~= seq![71u8, 69, 84, 32]);
    assert(post@ =~= seq![80u8, 79, 83, 84, 32]);
    assert(put@ =~= seq![80u8, 85, 84, 32]);
    assert(head@ =~= seq![72u8, 69, 65, 68, 32]);
    assert(delete@ =~= seq![68u8, 69, 76, 69]);
    assert(options@ =~= seq![79u8, 80, 84, 73]);
    assert(patch@ =~= seq![80u8, 65, 84, 67]);
    assert(trace@ =~= seq![84u8, 82, 65, 67]);
    assert(connect@ =~= seq![67u8, 79, 78, 78]);
    starts_with(b, get.as_slice()) || starts_with(b, post.as_slice()) || starts_with(b, put.as_slice())
        || starts_with(b, head.as_slice()) || starts_with(b, delete.as_slice()) || starts_with(
        b,
        options.as_slice(),
    ) || starts_with(b, patch.as_slice()) || starts_with(b, trace.as_slice()) || starts_with(
        b,
        connect.as_slice(),
    )
}

fn is_letter(c: u8, lower: u8) -> (r: bool)
    requires
        97 <= lower <= 122,
    ensures
        r == same_letter(c, lower),
{
    c == lower || c == lower - 32
}

fn host_line_value(line: &[u8]) -> (r: Option<&[u8]>)
    ensures
        match r {
            Some(v) => host_value(line@) == Some(v@),
            None => host_value(line@) is None,
        },
{
    let colon = find_byte(line, COLON, 0);
    if colon >= line.len() {
        return None;
    }
    let name = trimmed(slice_subrange(line, 0, colon));
    if name.len() == 4 && is_letter(name[0], 104) && is_letter(name[1], 111) && is_letter(name[2], 115) && is_letter(
        name[3],
        116,
    ) {
        Some(trimmed(slice_subrange(line, colon + 1, line.len())))
    } else {
        None
    }
}

/// Extract the `Host` header from a plaintext HTTP request head. Tolerant of a
/// partial buffer: `NeedMore` until the header block terminator or a whole Host
/// line is seen.
///
/// Only the head is looked at, as raw byte lines, and only the Host value has to
/// be text: a binary body, or stray bytes in another header, never hide the
/// routing key.
pub fn parse_http_host(b: &[u8]) -> (r: HttpParse)
    ensures
        r@ == http_answer(b@),
{
    if !looks_like_http(b) {
        return HttpParse::NotHttp;
    }
    let head_end = header_block_end(b);
    let head = match head_end {
        Some(end) => slice_subrange(b, 0, end),
        None => slice_subrange(b, 0, whole_lines_end(b)),
    };
    assert(head@ == request_head(b@));
    let mut from: usize = 0;
    loop
        invariant
            http_like(b@),
            head@ == request_head(b@),
            head_end is Some == (block_end_from(b@, 0) is Some),
            from <= head@.len(),
            first_host(head@, from as int) == first_host(request_head(b@), 0),
        ensures
            first_host(request_head(b@), 0) is None,
        decreases head@.len() - from,
    {
        let end = find_byte(head, LF, from);
        let line = if end > from && head[end - 1] == CR {
            slice_subrange(head, from, end - 1)
        } else {
            slice_subrange(head, from, end)
        };
        assert(line@ == line_at(head@, from as int));
        if line.len() == 0 {
            break;
        }
        match host_line_value(line) {
            Some(value) => {
                if value.len() == 0 {
                    return HttpParse::NoHost;
                }
                return match decode_text(value) {
                    Some(h) => HttpParse::Host(h),
                    None => HttpParse::NoHost,
                };
            },
            None => {},
        }
        if end >= head.len() {
            break;
        }
        from = end + 1;
    }
    if head_end.is_some() {
        HttpParse::NoHost
    } else {
        HttpParse::NeedMore
    }
}

// ---------------------------------------------------------------------------
// Classification
// ---------------------------------------------------------------------------

/// What a peeked window says of the connection.
#[derive(Debug, Clone)]
pub enum Classified {
    /// The classification is settled.
    Known(Inbound),
    /// Peek again until at least `want` bytes are buffered.
    PeekMore { want: usize },
}

/// What a [`Classified`] says, over character sequences.
pub enum ClassifiedView {
    Known(InboundView),
    PeekMore { want: nat },
}

impl View for Classified {
    type V = ClassifiedView;

    open spec fn view(&self) -> ClassifiedView {
        match self {
            Classified::Known(inbound) => ClassifiedView::Known(inbound@),
            Classified::PeekMore { want } => ClassifiedView::PeekMore { want: *want as nat },
        }
    }
}

/// Whether the first byte is the content type of a TLS handshake record.
pub open spec fn starts_tls(window: Seq<u8>) -> bool {
    window.len() > 0 && window[0] == 0x16
}

/// The classification of a peeked window. A parser that asks for more gets one
/// byte more, until the window is full: what a full window does not reveal is
/// taken to be missing.
pub open spec fn classification(window: Seq<u8>) -> ClassifiedView {
    if window.len() == 0 {
        ClassifiedView::Known(InboundView::Unknown)
    } else if starts_tls(window) {
        match tls_answer(window) {
            TlsAnswer::Sni(name) => ClassifiedView::Known(InboundView::Tls { sni: Some(name) }),
            TlsAnswer::NeedMore => if window.len() < MAX_PEEK {
                ClassifiedView::PeekMore { want: window.len() + 1 }
            } else {
                ClassifiedView::Known(InboundView::Tls { sni: None })
            },
            TlsAnswer::NoSni => ClassifiedView::Known(InboundView::Tls { sni: None }),
            TlsAnswer::NotClientHello => ClassifiedView::Known(InboundView::Tls { sni: None }),
        }
    } else {
        match http_answer(window) {
            HttpAnswer::Host(host) => ClassifiedView::Known(InboundView::Http { host: Some(host) }),
            HttpAnswer::NeedMore => if window.len() < MAX_PEEK {
                ClassifiedView::PeekMore { want: window.len() + 1 }
            } else {
                ClassifiedView::Known(InboundView::Http { host: None })
            },
            HttpAnswer::NoHost => ClassifiedView::Known(InboundView::Http { host: None }),
            HttpAnswer::NotHttp => ClassifiedView::Known(InboundView::Unknown),
        }
    }
}

/// Classify a connection from the bytes peeked so far.
///
/// An empty window stands for a peek that returned nothing (an error, a timeout
/// or the end of the stream).
pub fn classify(window: &[u8]) -> (r: Classified)
    ensures
        r@ == classification(window@),
{
    if window.len() == 0 {
        return Classified::Known(Inbound::Unknown);
    }
    if window[0] == 0x16 {
        match parse_tls_sni(window) {
            TlsParse::Sni(name) => Classified::Known(Inbound::Tls { sni: Some(name) }),
            TlsParse::NeedMore => if window.len() < MAX_PEEK {
                Classified::PeekMore { want: window.len() + 1 }
            } else {
                Classified::Known(Inbound::Tls { sni: None })
            },
            TlsParse::NoSni => Classified::Known(Inbound::Tls { sni: None }),
            TlsParse::NotClientHello => Classified::Known(Inbound::Tls { sni: None }),
        }
    } else {
        match parse_http_host(window) {
            HttpParse::Host(host) => Classified::Known(Inbound::Http { host: Some(host) }),
            HttpParse::NeedMore => if window.len() < MAX_PEEK {
                Classified::PeekMore { want: window.len() + 1 }
            } else {
                Classified::Known(Inbound::Http { host: None })
            },
            HttpParse::NoHost => Classified::Known(Inbound::Http { host: None }),
            HttpParse::NotHttp => Classified::Known(Inbound::Unknown),
        }
    }
}

/// What a further peek means for the classification.
#[derive(Debug, Clone)]
pub enum Further {
    /// The window has grown to this many bytes.
    Grown(usize),
    /// Nothing more comes.
    Over(Inbound),
}

/// Take in a further peek at a window of `have` bytes: the byte count that is
/// buffered now, or `None` at the end of the stream, on an error or when a timeout
/// left nothing to read. A connection whose window does not grow any more before it
/// could be classified stays unknown.
pub fn after_peek(have: usize, peeked: Option<usize>) -> (r: Further)
    ensures
        match peeked {
            Some(n) => if n > have {
                r == Further::Grown(n)
            } else {
                r == Further::Over(Inbound::Unknown)
            },
            None => r == Further::Over(Inbound::Unknown),
        },
{
    match peeked {
        Some(n) => if n > have {
            Further::Grown(n)
        } else {
            Further::Over(Inbound::Unknown)
        },
        None => Further::Over(Inbound::Unknown),
    }
}

/// The longest pause between two peeks, in milliseconds.
pub const MAX_BACKOFF_MILLIS: u64 = 50;

/// The state of waiting for more bytes to be buffered.
#[derive(Debug, Clone, Copy, PartialEq, Eq, Structural)]
pub struct PeekWait {
    /// The byte count of the last peek.
    pub last: usize,
    /// The next pause, in milliseconds.
    pub backoff_millis: u64,
}

/// What to do after a peek.
#[derive(Debug, Clone, Copy, PartialEq, Eq, Structural)]
pub enum PeekNext {
    /// Stop waiting, with this many bytes, or with nothing at the end of the
    /// stream or on an error.
    Done(Option<usize>),
    /// Peek again at once: the window has grown.
    Again,
    /// Pause for this many milliseconds, then peek again.
    Pause(u64),
}

impl PeekWait {
    /// Whether the pause is one that waiting can reach.
    pub open spec fn valid(self) -> bool {
        1 <= self.backoff_millis <= MAX_BACKOFF_MILLIS
    }

    /// The state before the first peek.
    pub fn new() -> (r: Self)
        ensures
            r == (PeekWait { last: 0, backoff_millis: 1 }),
            r.valid(),
    {
        PeekWait { last: 0, backoff_millis: 1 }
    }

    /// Take in one peek: the buffered byte count (`Some(0)` at the end of the
    /// stream), or `None` on an error. A peek that brought nothing new is
    /// followed by a pause that doubles up to [`MAX_BACKOFF_MILLIS`].
    pub fn step(&mut self, want: usize, peeked: Option<usize>) -> (r: PeekNext)
        requires
            old(self).valid(),
        ensures
            final(self).valid(),
            match peeked {
                None => r == PeekNext::Done(None) && *final(self) == *old(self),
                Some(0) => r == PeekNext::Done(None) && *final(self) == *old(self),
                Some(n) => if n >= want {
                    r == PeekNext::Done(Some(n)) && *final(self) == *old(self)
                } else if n <= old(self).last {
                    &&& r == PeekNext::Pause(old(self).backoff_millis)
                    &&& final(self).last == n
                    &&& final(self).backoff_millis == octets::least(2 * old(self).backoff_millis, MAX_BACKOFF_MILLIS as int)
                } else {
                    &&& r == PeekNext::Again
                    &&& final(self).last == n
                    &&& final(self).backoff_millis == old(self).backoff_millis
                },
            },
    {
        match peeked {
            None => PeekNext::Done(None),
            Some(n) => {
                if n == 0 {
                    return PeekNext::Done(None);
                }
                if n >= want {
                    return PeekNext::Done(Some(n));
                }
                if n <= self.last {
                    let pause = self.backoff_millis;
                    self.backoff_millis = if pause * 2 <= MAX_BACKOFF_MILLIS {
                        pause * 2
                    } else {
                        MAX_BACKOFF_MILLIS
                    };
                    self.last = n;
                    PeekNext::Pause(pause)
                } else {
                    self.last = n;
                    PeekNext::Again
                }
            },
        }
    }
}

// ---------------------------------------------------------------------------
// Laws
// ---------------------------------------------------------------------------

proof fn lemma_block_end_is_behind(b: Seq<u8>, from: int)
    requires
        0 <= from,
        block_end_from(b, from) is Some,
    ensures
        from + 2 <= block_end_from(b, from)->0 <= b.len(),
        b[block_end_from(b, from)->0 - 1] == LF,
    decreases b.len() - from,
{
    if from < b.len() && !ends_block(b, from) {
        lemma_block_end_is_behind(b, from + 1);
    }
}

/// A terminator stays the first one, whatever bytes follow.
proof fn lemma_block_end_is_final(b: Seq<u8>, n: int, from: int)
    requires
        0 <= from,
        0 <= n <= b.len(),
        block_end_from(b.take(n), from) is Some,
    ensures
        block_end_from(b, from) == block_end_from(b.take(n), from),
    decreases n - from,
{
    let t = b.take(n);
    lemma_block_end_is_behind(t, from);
    if !ends_block(t, from) {
        lemma_block_end_is_behind(t, from + 1);
        lemma_block_end_is_final(b, n, from + 1);
    }
}

/// A terminator that ends within the first bytes is found in them.
proof fn lemma_block_end_is_early(b: Seq<u8>, n: int, from: int)
    requires
        0 <= from,
        0 <= n <= b.len(),
        block_end_from(b, from) is Some,
        block_end_from(b, from)->0 <= n,
    ensures
        block_end_from(b.take(n), from) == block_end_from(b, from),
    decreases b.len() - from,
{
    lemma_block_end_is_behind(b, from);
    if !ends_block(b, from) {
        lemma_block_end_is_early(b, n, from + 1);
    }
}

proof fn lemma_method_with_body(method: Seq<u8>, head: Seq<u8>, body: Seq<u8>)
    requires
        head.len() > 0,
        head[head.len() - 1] == LF,
        forall|i: int| 0 <= i < method.len() ==> method[i] != LF,
    ensures
        method.is_prefix_of(head + body) == method.is_prefix_of(head),
{
    let whole = head + body;
    if method.len() > head.len() {
        if method.is_prefix_of(whole) {
            assert(method[head.len() - 1] == whole[head.len() - 1]);
        }
    } else {
        assert(whole.subrange(0, method.len() as int) =~= head.subrange(0, method.len() as int));
    }
}

/// Bytes behind the header block never change the answer: a complete request
/// head gives the same answer whatever body follows it.
pub proof fn law_body_is_never_read(head: Seq<u8>, body: Seq<u8>)
    requires
        block_end_from(head, 0) == Some(head.len() as int),
    ensures
        http_answer(head + body) == http_answer(head),
{
    lemma_block_end_is_behind(head, 0);
    assert((head + body).take(head.len() as int) =~= head);
    lemma_block_end_is_final(head + body, head.len() as int, 0);
    lemma_method_with_body(seq![71u8, 69, 84, 32], head, body);
    lemma_method_with_body(seq![80u8, 79, 83, 84, 32], head, body);
    lemma_method_with_body(seq![80u8, 85, 84, 32], head, body);
    lemma_method_with_body(seq![72u8, 69, 65, 68, 32], head, body);
    lemma_method_with_body(seq![68u8, 69, 76, 69], head, body);
    lemma_method_with_body(seq![79u8, 80, 84, 73], head, body);
    lemma_method_with_body(seq![80u8, 65, 84, 67], head, body);
    lemma_method_with_body(seq![84u8, 82, 65, 67], head, body);
    lemma_method_with_body(seq![67u8, 79, 78, 78], head, body);
    assert((head + body).subrange(0, head.len() as int) =~= head);
    assert(head.subrange(0, head.len() as int) =~= head);
}

/// A complete head is always answered: it never asks for more bytes.
pub proof fn law_complete_head_is_answered(b: Seq<u8>)
    requires
        block_end_from(b, 0) is Some,
    ensures
        !(http_answer(b) is NeedMore),
{
}

proof fn lemma_whole_lines(b: Seq<u8>)
    ensures
        0 <= whole_lines(b) <= b.len(),
        whole_lines(b) > 0 ==> b[whole_lines(b) - 1] == LF,
        forall|i: int| whole_lines(b) <= i < b.len() ==> #[trigger] b[i] != LF,
    decreases b.len(),
{
    if b.len() > 0 && b.last() != LF {
        lemma_whole_lines(b.drop_last());
        assert forall|i: int| whole_lines(b) <= i < b.len() implies #[trigger] b[i] != LF by {
            if i < b.len() - 1 {
                assert(b.drop_last()[i] == b[i]);
            }
        }
    }
}

proof fn lemma_next_byte_early(b: Seq<u8>, n: int, c: u8, from: int)
    requires
        0 <= from <= n <= b.len(),
        next_byte(b.take(n), c, from) < n,
    ensures
        next_byte(b, c, from) == next_byte(b.take(n), c, from),
        from <= next_byte(b, c, from),
    decreases n - from,
{
    if from < n && b[from] != c {
        lemma_next_byte_early(b, n, c, from + 1);
    }
}

proof fn lemma_next_byte_is_there(b: Seq<u8>, c: u8, from: int, at: int)
    requires
        0 <= from <= at < b.len(),
        b[at] == c,
    ensures
        from <= next_byte(b, c, from) <= at,
    decreases at - from,
{
    if b[from] != c {
        lemma_next_byte_is_there(b, c, from + 1, at);
    }
}

/// A Host line among whole lines stays the first one, whatever lines follow.
proof fn lemma_first_host_is_final(b: Seq<u8>, n: int, from: int)
    requires
        0 <= from <= n <= b.len(),
        n > 0 ==> b[n - 1] == LF,
        first_host(b.take(n), from) is Some,
    ensures
        first_host(b, from) == first_host(b.take(n), from),
    decreases n - from,
{
    let t = b.take(n);
    assert(from < n);
    lemma_next_byte_is_there(t, LF, from, n - 1);
    lemma_next_byte_early(b, n, LF, from);
    let end = next_byte(t, LF, from);
    assert(line_at(b, from) =~= line_at(t, from));
    if host_value(line_at(t, from)) is None {
        lemma_first_host_is_final(b, n, end + 1);
    }
}

proof fn lemma_method_grows(method: Seq<u8>, b: Seq<u8>, n: int)
    requires
        0 <= n <= b.len(),
        method.is_prefix_of(b.take(n)),
    ensures
        method.is_prefix_of(b),
{
    assert(b.take(n).subrange(0, method.len() as int) =~= b.subrange(0, method.len() as int));
}

proof fn lemma_http_like_grows(b: Seq<u8>, n: int)
    requires
        0 <= n <= b.len(),
        http_like(b.take(n)),
    ensures
        http_like(b),
{
    let t = b.take(n);
    if seq![71u8, 69, 84, 32].is_prefix_of(t) {
        lemma_method_grows(seq![71u8, 69, 84, 32], b, n);
    } else if seq![80u8, 79, 83, 84, 32].is_prefix_of(t) {
        lemma_method_grows(seq![80u8, 79, 83, 84, 32], b, n);
    } else if seq![80u8, 85, 84, 32].is_prefix_of(t) {
        lemma_method_grows(seq![80u8, 85, 84, 32], b, n);
    } else if seq![72u8, 69, 65, 68, 32].is_prefix_of(t) {
        lemma_method_grows(seq![72u8, 69, 65, 68, 32], b, n);
    } else if seq![68u8, 69, 76, 69].is_prefix_of(t) {
        lemma_method_grows(seq![68u8, 69, 76, 69], b, n);
    } else if seq![79u8, 80, 84, 73].is_prefix_of(t) {
        lemma_method_grows(seq![79u8, 80, 84, 73], b, n);
    } else if seq![80u8, 65, 84, 67].is_prefix_of(t) {
        lemma_method_grows(seq![80u8, 65, 84, 67], b, n);
    } else if seq![84u8, 82, 65, 67].is_prefix_of(t) {
        lemma_method_grows(seq![84u8, 82, 65, 67], b, n);
    } else {
        lemma_method_grows(seq![67u8, 79, 78, 78], b, n);
    }
}

/// A request that was cut short never gets a premature answer: once the first `n`
/// bytes settle the matter, the bytes that follow change nothing. Left out is a
/// request that is cut within its method, which does not look like HTTP yet.
pub proof fn law_http_answer_is_final(b: Seq<u8>, n: int)
    requires
        0 <= n <= b.len(),
        http_answer(b.take(n)) !is NeedMore,
        http_like(b) ==> http_like(b.take(n)),
    ensures
        http_answer(b) == http_answer(b.take(n)),
{
    let t = b.take(n);
    if http_like(t) {
        lemma_http_like_grows(b, n);
        match block_end_from(t, 0) {
            Some(end) => {
                lemma_block_end_is_behind(t, 0);
                lemma_block_end_is_final(b, n, 0);
                assert(request_head(b) =~= request_head(t));
            },
            None => {
                lemma_whole_lines(t);
                lemma_whole_lines(b);
                let w = whole_lines(t);
                let head = request_head(b);
                if block_end_from(b, 0) is Some {
                    lemma_block_end_is_behind(b, 0);
                    if block_end_from(b, 0)->0 <= n {
                        lemma_block_end_is_early(b, n, 0);
                    }
                } else if w > 0 {
                    assert(b[w - 1] == LF);
                }
                assert(w <= head.len());
                assert(head.take(w) =~= request_head(t));
                lemma_first_host_is_final(head, w, 0);
            },
        }
    }
}

// A ClientHello, written out.

/// A number in two bytes, the higher one first.
pub open spec fn be16(n: nat) -> Seq<u8> {
    seq![(n / 256) as u8, (n % 256) as u8]
}

/// A number in three bytes, the highest one first.
pub open spec fn be24(n: nat) -> Seq<u8> {
    seq![(n / 65536) as u8, (n / 256 % 256) as u8, (n % 256) as u8]
}

/// An extension: its type, the length of its body, and its body.
pub open spec fn extension(kind: nat, body: Seq<u8>) -> Seq<u8> {
    be16(kind) + be16(body.len()) + body
}

/// A list of extensions.
pub open spec fn extensions(list: Seq<(nat, Seq<u8>)>) -> Seq<u8>
    decreases list.len(),
{
    if list.len() == 0 {
        Seq::empty()
    } else {
        extension(list[0].0, list[0].1) + extensions(list.drop_first())
    }
}

/// A server_name extension that names one host.
pub open spec fn server_name(name: Seq<u8>) -> Seq<u8> {
    extension(0, be16(3 + name.len()) + seq![0u8] + be16(name.len()) + name)
}

/// What a ClientHello says, beside the name of the server.
pub struct Hello {
    /// The version of the record layer: two bytes.
    pub record_version: Seq<u8>,
    /// The version and the random value: 34 bytes.
    pub opening: Seq<u8>,
    pub session_id: Seq<u8>,
    pub cipher_suites: Seq<u8>,
    pub compression_methods: Seq<u8>,
    /// The extensions in front of the server's name, by their types.
    pub before: Seq<(nat, Seq<u8>)>,
    /// The bytes of the extensions behind it.
    pub after: Seq<u8>,
}

impl Hello {
    /// All the extensions, with the server's name among them.
    pub open spec fn extension_bytes(self, name: Seq<u8>) -> Seq<u8> {
        extensions(self.before) + server_name(name) + self.after
    }

    /// The body of the handshake message.
    pub open spec fn body(self, name: Seq<u8>) -> Seq<u8> {
        self.opening + (seq![self.session_id.len() as u8] + (self.session_id + (be16(self.cipher_suites.len()) + (
        self.cipher_suites + (seq![self.compression_methods.len() as u8] + (self.compression_methods + (be16(
            self.extension_bytes(name).len(),
        ) + self.extension_bytes(name))))))))
    }

    /// The handshake message in one record.
    pub open spec fn record(self, name: Seq<u8>) -> Seq<u8> {
        seq![0x16u8] + (self.record_version + (be16(4 + self.body(name).len()) + (seq![1u8] + (be24(
            self.body(name).len(),
        ) + self.body(name)))))
    }

    /// Whether every part fits where its length is written, and no server name
    /// stands in front.
    pub open spec fn fits(self, name: Seq<u8>) -> bool {
        &&& self.record_version.len() == 2
        &&& self.opening.len() == 34
        &&& self.session_id.len() < 256
        &&& self.cipher_suites.len() < 65536
        &&& self.compression_methods.len() < 256
        &&& forall|i: int|
            0 <= i < self.before.len() ==> 0 < (#[trigger] self.before[i]).0 < 65536 && self.before[i].1.len() < 65536
        &&& self.extension_bytes(name).len() < 65536
        &&& 4 + self.body(name).len() < 65536
    }
}

/// Whether `part` stands in `b` at `at`.
#[verifier::opaque]
spec fn stands(b: Seq<u8>, at: int, part: Seq<u8>) -> bool {
    0 <= at && at + part.len() <= b.len() && b.subrange(at, at + part.len()) == part
}

proof fn lemma_stands_apart(b: Seq<u8>, at: int, x: Seq<u8>, y: Seq<u8>)
    requires
        stands(b, at, x + y),
    ensures
        stands(b, at, x),
        stands(b, at + x.len(), y),
        0 <= at,
        at + x.len() + y.len() <= b.len(),
{
    reveal(stands);
    let both = b.subrange(at, at + x.len() + y.len());
    assert(b.subrange(at, at + x.len()) =~= both.subrange(0, x.len() as int));
    assert(both.subrange(0, x.len() as int) =~= x);
    assert(b.subrange(at + x.len(), at + x.len() + y.len()) =~= both.subrange(x.len() as int, both.len() as int));
    assert(both.subrange(x.len() as int, both.len() as int) =~= y);
}

proof fn lemma_be16_stands(b: Seq<u8>, at: int, n: nat)
    requires
        0 <= n < 65536,
        stands(b, at, be16(n)),
    ensures
        octets::be16_at(b, at) == n,
{
    reveal(stands);
    let two = b.subrange(at, at + 2);
    assert(two[0] == b[at] && two[1] == b[at + 1]);
    assert(two == be16(n));
    assert(be16(n)[0] == n / 256 && be16(n)[1] == n % 256);
}

proof fn lemma_be24_stands(b: Seq<u8>, at: int, n: nat)
    requires
        0 <= n < 65536,
        stands(b, at, be24(n)),
    ensures
        octets::be24_at(b, at) == n,
{
    reveal(stands);
    let three = b.subrange(at, at + 3);
    assert(three[0] == b[at] && three[1] == b[at + 1] && three[2] == b[at + 2]);
    assert(three == be24(n));
    assert(n / 256 < 256 && n / 65536 == 0);
    assert(be24(n)[0] == 0 && be24(n)[1] == n / 256 && be24(n)[2] == n % 256);
}

proof fn lemma_byte_stands(b: Seq<u8>, at: int, c: u8)
    requires
        stands(b, at, seq![c]),
    ensures
        b[at] == c,
{
    reveal(stands);
    assert(b.subrange(at, at + 1)[0] == b[at]);
    assert(seq![c][0] == c);
}

proof fn lemma_server_name_is_read(b: Seq<u8>, at: int, end: int, name: Seq<u8>)
    requires
        0 < name.len(),
        vstd::utf8::valid_utf8(name),
        server_name(name).len() < 65536,
        stands(b, at, server_name(name)),
        at + server_name(name).len() <= end,
    ensures
        extensions_answer(b, at, end) == TlsAnswer::Sni(vstd::utf8::decode_utf8(name)),
{
    let n = name.len();
    let list = be16(3 + n) + seq![0u8] + be16(n) + name;
    assert(server_name(name) =~= be16(0) + (be16(list.len()) + list));
    lemma_stands_apart(b, at, be16(0), be16(list.len()) + list);
    lemma_stands_apart(b, at + 2, be16(list.len()), list);
    lemma_be16_stands(b, at, 0);
    lemma_be16_stands(b, at + 2, list.len());
    let body = b.subrange(at + 4, at + 4 + list.len());
    assert(body == list) by {
        reveal(stands);
    }
    assert(body =~= be16(3 + n) + (seq![0u8] + (be16(n) + name)));
    assert(stands(body, 0, body)) by {
        reveal(stands);
        assert(body.subrange(0, body.len() as int) =~= body);
    }
    lemma_stands_apart(body, 0, be16(3 + n), seq![0u8] + (be16(n) + name));
    lemma_be16_stands(body, 0, 3 + n);
    lemma_stands_apart(body, 2, seq![0u8], be16(n) + name);
    lemma_byte_stands(body, 2, 0);
    lemma_stands_apart(body, 3, be16(n), name);
    lemma_be16_stands(body, 3, n);
    assert(body.subrange(5, 5 + n as int) == name) by {
        reveal(stands);
    }
    assert(first_host_name(body, 2, 5 + n as int) == host_name(name));
}

proof fn lemma_extensions_are_passed(b: Seq<u8>, at: int, end: int, before: Seq<(nat, Seq<u8>)>, name: Seq<u8>, after: Seq<u8>)
    requires
        0 < name.len(),
        vstd::utf8::valid_utf8(name),
        forall|i: int| 0 <= i < before.len() ==> 0 < (#[trigger] before[i]).0 < 65536 && before[i].1.len() < 65536,
        (extensions(before) + server_name(name) + after).len() < 65536,
        stands(b, at, extensions(before) + server_name(name) + after),
        at + extensions(before).len() + server_name(name).len() + after.len() <= end,
    ensures
        extensions_answer(b, at, end) == TlsAnswer::Sni(vstd::utf8::decode_utf8(name)),
    decreases before.len(),
{
    if before.len() == 0 {
        assert(extensions(before) + server_name(name) + after =~= server_name(name) + after);
        lemma_stands_apart(b, at, server_name(name), after);
        lemma_server_name_is_read(b, at, end, name);
    } else {
        let kind = before[0].0;
        let body = before[0].1;
        let rest = before.drop_first();
        let more = extensions(rest) + server_name(name) + after;
        assert(extensions(before) + server_name(name) + after =~= be16(kind) + (be16(body.len()) + (body + more)));
        lemma_stands_apart(b, at, be16(kind), be16(body.len()) + (body + more));
        lemma_stands_apart(b, at + 2, be16(body.len()), body + more);
        lemma_stands_apart(b, at + 4, body, more);
        lemma_be16_stands(b, at, kind);
        lemma_be16_stands(b, at + 2, body.len());
        assert forall|i: int| 0 <= i < rest.len() implies 0 < (#[trigger] rest[i]).0 < 65536 && rest[i].1.len() < 65536 by {
            assert(rest[i] == before[i + 1]);
        }
        lemma_extensions_are_passed(b, at + 4 + body.len(), end, rest, name, after);
    }
}

proof fn lemma_body_is_read(hello: Hello, name: Seq<u8>, b: Seq<u8>)
    requires
        hello.fits(name),
        0 < name.len(),
        vstd::utf8::valid_utf8(name),
        stands(b, 9, hello.body(name)),
    ensures
        hello_body_answer(b, 9 + hello.body(name).len() as int) == TlsAnswer::Sni(vstd::utf8::decode_utf8(name)),
{
    let exts = hello.extension_bytes(name);
    let e = be16(exts.len()) + exts;
    let m = hello.compression_methods + e;
    let ml = seq![hello.compression_methods.len() as u8] + m;
    let c = hello.cipher_suites + ml;
    let cl = be16(hello.cipher_suites.len()) + c;
    let s = hello.session_id + cl;
    let sl = seq![hello.session_id.len() as u8] + s;
    lemma_stands_apart(b, 9, hello.opening, sl);
    lemma_stands_apart(b, 43, seq![hello.session_id.len() as u8], s);
    lemma_byte_stands(b, 43, hello.session_id.len() as u8);
    let suites = 44 + hello.session_id.len() as int;
    lemma_stands_apart(b, 44, hello.session_id, cl);
    lemma_stands_apart(b, suites, be16(hello.cipher_suites.len()), c);
    lemma_be16_stands(b, suites, hello.cipher_suites.len());
    let methods = suites + 2 + hello.cipher_suites.len();
    lemma_stands_apart(b, suites + 2, hello.cipher_suites, ml);
    lemma_stands_apart(b, methods, seq![hello.compression_methods.len() as u8], m);
    lemma_byte_stands(b, methods, hello.compression_methods.len() as u8);
    let ext = methods + 1 + hello.compression_methods.len();
    lemma_stands_apart(b, methods + 1, hello.compression_methods, e);
    lemma_stands_apart(b, ext, be16(exts.len()), exts);
    lemma_be16_stands(b, ext, exts.len());
    assert(9 + hello.body(name).len() == ext + 2 + exts.len());
    lemma_extensions_are_passed(b, ext + 2, ext + 2 + exts.len(), hello.before, name, hello.after);
}

/// A ClientHello in one record that names one host is read: the answer is that
/// host, whatever else the message says and whatever bytes follow it.
pub proof fn law_hello_gives_its_name(hello: Hello, name: Seq<u8>, tail: Seq<u8>)
    requires
        hello.fits(name),
        0 < name.len(),
        vstd::utf8::valid_utf8(name),
    ensures
        tls_answer(hello.record(name) + tail) == TlsAnswer::Sni(vstd::utf8::decode_utf8(name)),
{
    let exts = hello.extension_bytes(name);
    assert(hello.body(name) == hello.body_with(exts));
    assert(hello.record(name) == hello.record_with(1, exts));
    lemma_record_is_read(hello, 1, exts, tail);
    lemma_body_is_read(hello, name, hello.record(name) + tail);
}

/// A full window is always classified, and a window that asks for more asks for
/// at most a full one.
pub proof fn law_classification_settles(window: Seq<u8>)
    requires
        window.len() <= MAX_PEEK,
    ensures
        window.len() == MAX_PEEK ==> classification(window) is Known,
        classification(window) matches ClassifiedView::PeekMore { want } ==> window.len() < want <= MAX_PEEK,
{
}

// ---------------------------------------------------------------------------
// Written-out requests
// ---------------------------------------------------------------------------

/// The bytes of an ASCII text.
pub open spec fn ascii(s: Seq<char>) -> Seq<u8> {
    s.map_values(|c: char| c as u8)
}

/// A byte string with its upper-case ASCII letters in lower case.
pub open spec fn ascii_lower(b: Seq<u8>) -> Seq<u8> {
    b.map_values(
        |c: u8|
            if 65 <= c && c <= 90 {
                (c + 32) as u8
            } else {
                c
            },
    )
}

/// Whether a byte string is the name of an HTTP method.
pub open spec fn is_method(m: Seq<u8>) -> bool {
    ||| m == ascii("GET"@)
    ||| m == ascii("POST"@)
    ||| m == ascii("PUT"@)
    ||| m == ascii("HEAD"@)
    ||| m == ascii("DELETE"@)
    ||| m == ascii("OPTIONS"@)
    ||| m == ascii("PATCH"@)
    ||| m == ascii("TRACE"@)
    ||| m == ascii("CONNECT"@)
}

/// Whether a byte string lies on one line.
pub open spec fn on_one_line(b: Seq<u8>) -> bool {
    !b.contains(10) && !b.contains(13)
}

/// Whether a byte string neither begins nor ends with white space, and is not empty.
pub open spec fn is_word(b: Seq<u8>) -> bool {
    &&& b.len() > 0
    &&& !(b[0] == 9 || b[0] == 10 || b[0] == 12 || b[0] == 13 || b[0] == 32)
    &&& !(b.last() == 9 || b.last() == 10 || b.last() == 12 || b.last() == 13 || b.last() == 32)
}

/// Whether a header line can stand under a name: one line, a word in front of the
/// first colon.
pub open spec fn is_header(name: Seq<u8>, value: Seq<u8>) -> bool {
    on_one_line(name) && on_one_line(value) && is_word(name) && !name.contains(58)
}

/// Header lines, each with its name, a colon, its value and a line ending.
pub open spec fn header_lines(lines: Seq<(Seq<u8>, Seq<u8>)>, eol: Seq<u8>) -> Seq<u8>
    decreases lines.len(),
{
    if lines.len() == 0 {
        Seq::empty()
    } else {
        lines[0].0 + seq![58u8] + lines[0].1 + eol + header_lines(lines.drop_first(), eol)
    }
}

/// A request up to its first header line.
pub open spec fn request_line(method: Seq<u8>, rest: Seq<u8>, eol: Seq<u8>) -> Seq<u8> {
    method + seq![32u8] + rest + eol
}

/// Whether header lines can be passed on the way to the Host line.
pub open spec fn none_is_host(lines: Seq<(Seq<u8>, Seq<u8>)>) -> bool {
    forall|i: int|
        0 <= i < lines.len() ==> is_header((#[trigger] lines[i]).0, lines[i].1) && ascii_lower(lines[i].0) != ascii(
            "host"@,
        )
}

/// Whether bytes end a line.
pub open spec fn ends_line(eol: Seq<u8>) -> bool {
    eol == seq![10u8] || eol == seq![13u8, 10u8]
}

proof fn lemma_host_letters(name: Seq<u8>)
    ensures
        is_host_name(name) <==> ascii_lower(name) == ascii("host"@),
{
    reveal_strlit("host");
    let low = ascii_lower(name);
    let host = ascii("host"@);
    assert(host =~= seq![104u8, 111, 115, 116]);
    if is_host_name(name) {
        assert(low =~= host);
    }
    if low == host {
        assert(low.len() == 4);
        assert(low[0] == host[0] && low[1] == host[1] && low[2] == host[2] && low[3] == host[3]);
    }
}

proof fn lemma_word_is_trimmed(pad: Seq<u8>, word: Seq<u8>)
    requires
        is_word(word),
        forall|i: int| 0 <= i < pad.len() ==> is_ascii_space(#[trigger] pad[i]),
    ensures
        trim_ascii(pad + word) == word,
    decreases pad.len(),
{
    let all = pad + word;
    if pad.len() == 0 {
        assert(all =~= word);
    } else {
        assert(all[0] == pad[0]);
        assert(all.subrange(1, all.len() as int) =~= pad.drop_first() + word);
        assert forall|i: int| 0 <= i < pad.drop_first().len() implies is_ascii_space(#[trigger] pad.drop_first()[i]) by {
            assert(pad.drop_first()[i] == pad[i + 1]);
        }
        lemma_word_is_trimmed(pad.drop_first(), word);
    }
}

proof fn lemma_next_byte_at(b: Seq<u8>, c: u8, from: int, at: int)
    requires
        0 <= from <= at < b.len(),
        b[at] == c,
        forall|i: int| from <= i < at ==> #[trigger] b[i] != c,
    ensures
        next_byte(b, c, from) == at,
    decreases at - from,
{
    if from < at {
        lemma_next_byte_at(b, c, from + 1, at);
    }
}

/// A header line is split at its colon.
proof fn lemma_header_value(name: Seq<u8>, value: Seq<u8>)
    requires
        is_word(name),
        !name.contains(58),
    ensures
        ({
            let line = name + seq![58u8] + value;
            host_value(line) == if ascii_lower(name) == ascii("host"@) {
                Some(trim_ascii(value))
            } else {
                None
            }
        }),
{
    let line = name + seq![58u8] + value;
    let n = name.len() as int;
    assert forall|i: int| 0 <= i < n implies #[trigger] line[i] != 58 by {
        assert(line[i] == name[i]);
    }
    lemma_next_byte_at(line, 58, 0, n);
    assert(line.subrange(0, n) =~= name);
    assert(line.subrange(n + 1, line.len() as int) =~= value);
    lemma_word_is_trimmed(Seq::empty(), name);
    assert(Seq::<u8>::empty() + name =~= name);
    lemma_host_letters(name);
}

/// A line is read up to its ending.
proof fn lemma_line_is_read(s: Seq<u8>, from: int, line: Seq<u8>, eol: Seq<u8>, rest: Seq<u8>)
    requires
        0 <= from <= s.len(),
        s.subrange(from, s.len() as int) == line + eol + rest,
        on_one_line(line),
        ends_line(eol),
    ensures
        next_byte(s, 10, from) == from + line.len() + eol.len() - 1,
        line_at(s, from) == line,
        from + line.len() + eol.len() <= s.len(),
        s.subrange(from + line.len() + eol.len(), s.len() as int) == rest,
        forall|i: int| from <= i < from + line.len() + eol.len() - 1 ==> #[trigger] s[i] != 10,
{
    let all = line + eol + rest;
    let end = from + line.len() + eol.len() - 1;
    assert forall|i: int| from <= i < s.len() implies s[i] == all[i - from] by {
        assert(s.subrange(from, s.len() as int)[i - from] == s[i]);
    }
    assert(all.len() == s.len() - from);
    assert forall|i: int| from <= i < end implies #[trigger] s[i] != 10 by {
        assert(s[i] == all[i - from]);
        if i - from < line.len() {
            assert(line.contains(line[i - from]));
        }
    }
    assert(s[end] == all[end - from]);
    lemma_next_byte_at(s, 10, from, end);
    if eol.len() == 2 {
        assert(s[end - 1] == all[end - 1 - from]);
        assert(s.subrange(from, end - 1) =~= line);
    } else {
        if line.len() > 0 {
            assert(s[end - 1] == line.last());
            assert(line.contains(line.last()));
        }
        assert(s.subrange(from, end) =~= line);
    }
    assert(s.subrange(end + 1, s.len() as int) =~= rest) by {
        assert forall|i: int| 0 <= i < rest.len() implies s.subrange(end + 1, s.len() as int)[i] == rest[i] by {
            assert(s[end + 1 + i] == all[end + 1 + i - from]);
        }
    }
}

/// No header block ends within bytes that hold no blank line: where a line ends,
/// another begins.
proof fn lemma_no_block_ends(b: Seq<u8>, from: int, end: int)
    requires
        0 <= from <= end,
        end + 1 < b.len(),
        forall|i: int| from <= i < end ==> #[trigger] b[i] != 10,
        b[end + 1] != 10,
        b[end + 1] != 13,
    ensures
        forall|i: int| from <= i <= end ==> !#[trigger] ends_block(b, i),
{
}

proof fn lemma_block_end_skips(b: Seq<u8>, from: int, to: int)
    requires
        0 <= from <= to <= b.len(),
        forall|i: int| from <= i < to ==> !#[trigger] ends_block(b, i),
    ensures
        block_end_from(b, from) == block_end_from(b, to),
    decreases to - from,
{
    if from < to {
        lemma_block_end_skips(b, from + 1, to);
    }
}

proof fn lemma_headers_are_passed(
    b: Seq<u8>,
    n: int,
    from: int,
    lines: Seq<(Seq<u8>, Seq<u8>)>,
    name: Seq<u8>,
    value: Seq<u8>,
    eol: Seq<u8>,
)
    requires
        0 <= from <= n <= b.len(),
        none_is_host(lines),
        is_header(name, value),
        ascii_lower(name) == ascii("host"@),
        ends_line(eol),
        b.take(n).subrange(from, n) == header_lines(lines, eol) + (name + seq![58u8] + value + eol),
    ensures
        first_host(b.take(n), from) == Some(trim_ascii(value)),
        forall|i: int| from <= i < n - 1 ==> !#[trigger] ends_block(b, i),
        from < n,
        b[from] != 10,
        b[from] != 13,
        b[n - 1] == 10,
    decreases lines.len(),
{
    let s = b.take(n);
    let last = name + seq![58u8] + value;
    if lines.len() == 0 {
        let line = last;
        assert(header_lines(lines, eol) + (last + eol) =~= line + eol + Seq::<u8>::empty());
        assert(on_one_line(line)) by {
            lemma_on_one_line(name, value);
        }
        lemma_line_is_read(s, from, line, eol, Seq::empty());
        lemma_header_value(name, value);
        assert(s.subrange(from, n)[0] == line[0]);
        assert(line[0] == name[0]);
        assert(name.contains(name[0]));
        assert(b[from] == s[from]);
        assert(s.subrange(from, n).last() == eol.last());
        assert(s[n - 1] == b[n - 1]);
        assert forall|i: int| from <= i < n - 1 implies !#[trigger] ends_block(b, i) by {
            assert(s[i] == b[i]);
        }
    } else {
        let (k, v) = lines[0];
        let line = k + seq![58u8] + v;
        let rest = header_lines(lines.drop_first(), eol) + (last + eol);
        assert(header_lines(lines, eol) + (last + eol) =~= line + eol + rest);
        assert(is_header(k, v));
        lemma_on_one_line(k, v);
        lemma_line_is_read(s, from, line, eol, rest);
        lemma_header_value(k, v);
        let next = from + line.len() + eol.len();
        assert(none_is_host(lines.drop_first())) by {
            assert forall|i: int| 0 <= i < lines.drop_first().len() implies is_header(
                (#[trigger] lines.drop_first()[i]).0,
                lines.drop_first()[i].1,
            ) && ascii_lower(lines.drop_first()[i].0) != ascii("host"@) by {
                assert(lines.drop_first()[i] == lines[i + 1]);
            }
        }
        lemma_headers_are_passed(b, n, next, lines.drop_first(), name, value, eol);
        assert(s.subrange(from, n)[0] == line[0]);
        assert(line[0] == k[0]);
        assert(k.contains(k[0]));
        assert(b[from] == s[from]);
        assert forall|i: int| from <= i < next - 1 implies #[trigger] b[i] != 10 by {
            assert(s[i] == b[i]);
        }
        lemma_no_block_ends(b, from, next - 1);
    }
}

proof fn lemma_on_one_line(name: Seq<u8>, value: Seq<u8>)
    requires
        on_one_line(name),
        on_one_line(value),
    ensures
        on_one_line(name + seq![58u8] + value),
        on_one_line(name + seq![32u8] + value),
{
    let a = name + seq![58u8] + value;
    let b = name + seq![32u8] + value;
    assert forall|i: int| 0 <= i < a.len() implies a[i] != 10 && a[i] != 13 && b[i] != 10 && b[i] != 13 by {
        if i < name.len() {
            assert(name.contains(name[i]));
            assert(a[i] == name[i] && b[i] == name[i]);
        } else if i > name.len() {
            assert(value.contains(value[i - name.len() - 1]));
            assert(a[i] == value[i - name.len() - 1] && b[i] == value[i - name.len() - 1]);
        }
    }
}

/// The first line of a request is no Host line.
proof fn lemma_request_line_is_no_host(method: Seq<u8>, rest: Seq<u8>)
    requires
        is_method(method),
        on_one_line(rest),
    ensures
        on_one_line(method + seq![32u8] + rest),
        host_value(method + seq![32u8] + rest) is None,
        method[0] != 10,
        method[0] != 13,
        method[0] != 0x16,
{
    lemma_methods(method);
    let line = method + seq![32u8] + rest;
    assert(on_one_line(method)) by {
        assert forall|i: int| 0 <= i < method.len() implies method[i] != 10 && method[i] != 13 by {}
    }
    lemma_on_one_line(method, rest);
    let colon = next_byte(line, 58, 0);
    if colon < line.len() {
        lemma_next_byte_skips(line, 58, 0, method.len() as int);
        let name = line.subrange(0, colon);
        assert(name[0] == method[0] && name[1] == method[1] && name[2] == method[2]);
        assert(trim_front(name) == name);
        lemma_trim_back_keeps(name, 3);
        let t = trim_ascii(name);
        assert(t[0] == name[0] && t[1] == name[1]);
    }
}

proof fn lemma_next_byte_skips(b: Seq<u8>, c: u8, from: int, to: int)
    requires
        0 <= from <= to <= b.len(),
        forall|i: int| from <= i < to ==> #[trigger] b[i] != c,
    ensures
        next_byte(b, c, from) >= to,
        next_byte(b, c, from) <= b.len(),
    decreases b.len() - from,
{
    if from < b.len() && b[from] != c {
        if from < to {
            lemma_next_byte_skips(b, c, from + 1, to);
        } else {
            lemma_next_byte_skips(b, c, from + 1, from + 1);
        }
    }
}

proof fn lemma_trim_back_keeps(b: Seq<u8>, n: int)
    requires
        0 < n <= b.len(),
        !is_ascii_space(b[n - 1]),
    ensures
        n <= trim_back(b).len() <= b.len(),
        forall|i: int| 0 <= i < trim_back(b).len() ==> trim_back(b)[i] == b[i],
    decreases b.len(),
{
    if is_ascii_space(b[b.len() - 1]) {
        let front = b.subrange(0, b.len() - 1);
        lemma_trim_back_keeps(front, n);
        assert forall|i: int| 0 <= i < trim_back(b).len() implies trim_back(b)[i] == b[i] by {
            assert(trim_back(front)[i] == front[i]);
        }
    }
}

/// The methods, byte by byte.
proof fn lemma_methods(method: Seq<u8>)
    requires
        is_method(method),
    ensures
        method.len() >= 3,
        http_like(method + seq![32u8]),
        !is_host_name(method),
        !(same_letter(method[0], 104) && same_letter(method[1], 111)),
        forall|i: int| 0 <= i < method.len() ==> 65 <= #[trigger] method[i] <= 90,
{
    reveal_strlit("GET");
    reveal_strlit("POST");
    reveal_strlit("PUT");
    reveal_strlit("HEAD");
    reveal_strlit("DELETE");
    reveal_strlit("OPTIONS");
    reveal_strlit("PATCH");
    reveal_strlit("TRACE");
    reveal_strlit("CONNECT");
    let m = method + seq![32u8];
    if method == ascii("GET"@) {
        assert(seq![71u8, 69, 84, 32] =~= m.subrange(0, 4));
    } else if method == ascii("POST"@) {
        assert(seq![80u8, 79, 83, 84, 32] =~= m.subrange(0, 5));
    } else if method == ascii("PUT"@) {
        assert(seq![80u8, 85, 84, 32] =~= m.subrange(0, 4));
    } else if method == ascii("HEAD"@) {
        assert(seq![72u8, 69, 65, 68, 32] =~= m.subrange(0, 5));
    } else if method == ascii("DELETE"@) {
        assert(seq![68u8, 69, 76, 69] =~= m.subrange(0, 4));
    } else if method == ascii("OPTIONS"@) {
        assert(seq![79u8, 80, 84, 73] =~= m.subrange(0, 4));
    } else if method == ascii("PATCH"@) {
        assert(seq![80u8, 65, 84, 67] =~= m.subrange(0, 4));
    } else if method == ascii("TRACE"@) {
        assert(seq![84u8, 82, 65, 67] =~= m.subrange(0, 4));
    } else {
        assert(seq![67u8, 79, 78, 78] =~= m.subrange(0, 4));
    }
}

/// A request is answered with the value of its Host line: whatever method it has,
/// whatever it is for, whatever header lines stand in front, whichever letters of
/// `Host` are capitals, however its lines end, and whatever follows. White space
/// round the value is no part of it.
#[verifier::rlimit(60)]
pub proof fn law_request_gives_its_host(
    method: Seq<u8>,
    rest: Seq<u8>,
    lines: Seq<(Seq<u8>, Seq<u8>)>,
    name: Seq<u8>,
    pad: Seq<u8>,
    host: Seq<u8>,
    eol: Seq<u8>,
    tail: Seq<u8>,
)
    requires
        is_method(method),
        on_one_line(rest),
        none_is_host(lines),
        is_header(name, pad + host),
        ascii_lower(name) == ascii("host"@),
        forall|i: int| 0 <= i < pad.len() ==> #[trigger] pad[i] == 32 || pad[i] == 9,
        is_word(host),
        vstd::utf8::valid_utf8(host),
        ends_line(eol),
    ensures
        ({
            let b = request_line(method, rest, eol) + header_lines(lines, eol) + (name + seq![58u8] + (pad + host) + eol)
                + tail;
            let text = vstd::utf8::decode_utf8(host);
            &&& http_answer(b) == HttpAnswer::Host(text)
            &&& classification(b) == ClassifiedView::Known(InboundView::Http { host: Some(text) })
        }),
{
    let first = method + seq![32u8] + rest;
    let last = name + seq![58u8] + (pad + host) + eol;
    let head = request_line(method, rest, eol) + header_lines(lines, eol) + last;
    let b = head + tail;
    let n = head.len() as int;
    let from = first.len() + eol.len();
    let s = b.take(n);
    assert(s =~= head);
    lemma_methods(method);
    lemma_request_line_is_no_host(method, rest);
    let rem = header_lines(lines, eol) + last;
    assert(s.subrange(0, s.len() as int) =~= first + eol + rem);
    lemma_line_is_read(s, 0, first, eol, rem);
    assert(s.subrange(from as int, n) == rem);
    lemma_headers_are_passed(b, n, from as int, lines, name, pad + host, eol);
    assert(first_host(s, 0) == first_host(s, from as int));
    lemma_word_is_trimmed(pad, host);
    // No blank line up to here, so the head reaches at least as far.
    assert forall|i: int| 0 <= i < from - 1 implies #[trigger] b[i] != 10 by {
        assert(s[i] == b[i]);
    }
    lemma_no_block_ends(b, 0, from - 1);
    lemma_block_end_skips(b, 0, n - 1);
    lemma_whole_lines(b);
    if block_end_from(b, 0) is Some {
        lemma_block_end_is_behind(b, n - 1);
    }
    let whole = request_head(b);
    assert(n <= whole.len());
    assert(whole.take(n) =~= s);
    lemma_first_host_is_final(whole, n, 0);
    assert(http_like(b)) by {
        let m = method + seq![32u8];
        assert(b.take(m.len() as int) =~= m);
        lemma_http_like_grows(b, m.len() as int);
    }
    assert(b[0] == method[0]);
}

proof fn lemma_no_host_among(
    b: Seq<u8>,
    n: int,
    from: int,
    lines: Seq<(Seq<u8>, Seq<u8>)>,
    eol: Seq<u8>,
)
    requires
        0 <= from <= n <= b.len(),
        none_is_host(lines),
        ends_line(eol),
        b.take(n).subrange(from, n) == header_lines(lines, eol),
    ensures
        first_host(b.take(n), from) is None,
        forall|i: int| from <= i < n - 1 ==> !#[trigger] ends_block(b, i),
        from < n ==> b[from] != 10 && b[from] != 13 && b[n - 1] == 10,
    decreases lines.len(),
{
    let s = b.take(n);
    if lines.len() == 0 {
        assert(s.subrange(from, n).len() == 0);
        assert(line_at(s, from).len() == 0);
    } else {
        let (k, v) = lines[0];
        let line = k + seq![58u8] + v;
        let rest = header_lines(lines.drop_first(), eol);
        assert(header_lines(lines, eol) =~= line + eol + rest);
        assert(is_header(k, v));
        lemma_on_one_line(k, v);
        lemma_line_is_read(s, from, line, eol, rest);
        lemma_header_value(k, v);
        let next = from + line.len() + eol.len();
        assert(none_is_host(lines.drop_first())) by {
            assert forall|i: int| 0 <= i < lines.drop_first().len() implies is_header(
                (#[trigger] lines.drop_first()[i]).0,
                lines.drop_first()[i].1,
            ) && ascii_lower(lines.drop_first()[i].0) != ascii("host"@) by {
                assert(lines.drop_first()[i] == lines[i + 1]);
            }
        }
        lemma_no_host_among(b, n, next, lines.drop_first(), eol);
        assert(s.subrange(from, n)[0] == line[0]);
        assert(line[0] == k[0]);
        assert(k.contains(k[0]));
        assert(b[from] == s[from]);
        assert forall|i: int| from <= i < next - 1 implies #[trigger] b[i] != 10 by {
            assert(s[i] == b[i]);
        }
        if next < n {
            lemma_no_block_ends(b, from, next - 1);
        } else {
            assert(s[n - 1] == b[n - 1]);
            assert((line + eol + rest)[n - 1 - from] == eol.last());
            assert(s.subrange(from, n)[n - 1 - from] == s[n - 1]);
        }
    }
}

/// The lines of a request head in front of the blank line, none of which is a Host
/// line, hold no host and no blank line.
proof fn lemma_hostless_lines(
    b: Seq<u8>,
    n: int,
    method: Seq<u8>,
    rest: Seq<u8>,
    lines: Seq<(Seq<u8>, Seq<u8>)>,
    eol: Seq<u8>,
)
    requires
        is_method(method),
        on_one_line(rest),
        none_is_host(lines),
        ends_line(eol),
        n == (request_line(method, rest, eol) + header_lines(lines, eol)).len(),
        n <= b.len(),
        b.take(n) == request_line(method, rest, eol) + header_lines(lines, eol),
    ensures
        first_host(b.take(n), 0) is None,
        forall|i: int| 0 <= i < n - 1 ==> !#[trigger] ends_block(b, i),
        n > 0,
        b[n - 1] == 10,
        b[0] != 0x16,
        http_like(b),
{
    let first = method + seq![32u8] + rest;
    let from = (first.len() + eol.len()) as int;
    let s = b.take(n);
    lemma_methods(method);
    lemma_request_line_is_no_host(method, rest);
    let rem = header_lines(lines, eol);
    assert(s.subrange(0, s.len() as int) =~= first + eol + rem);
    lemma_line_is_read(s, 0, first, eol, rem);
    lemma_no_host_among(b, n, from, lines, eol);
    assert(first_host(s, 0) == first_host(s, from));
    assert forall|i: int| 0 <= i < from - 1 implies #[trigger] b[i] != 10 by {
        assert(s[i] == b[i]);
    }
    if from < n {
        lemma_no_block_ends(b, 0, from - 1);
    } else {
        assert(s[n - 1] == b[n - 1]);
        assert((first + eol)[n - 1] == eol.last());
        assert(s[n - 1] == (first + eol + rem)[n - 1]);
    }
    assert(s[0] == method[0]);
    assert(b[0] == s[0]);
    let m = method + seq![32u8];
    assert forall|i: int| 0 <= i < m.len() implies b[i] == m[i] by {
        assert(s[i] == (first + eol + rem)[i]);
        assert(b[i] == s[i]);
    }
    assert(b.take(m.len() as int) =~= m);
    lemma_http_like_grows(b, m.len() as int);
}

/// A request whose head is complete and has no Host line is HTTP without a host.
pub proof fn law_request_without_host_has_none(
    method: Seq<u8>,
    rest: Seq<u8>,
    lines: Seq<(Seq<u8>, Seq<u8>)>,
    eol: Seq<u8>,
    body: Seq<u8>,
)
    requires
        is_method(method),
        on_one_line(rest),
        none_is_host(lines),
        ends_line(eol),
    ensures
        ({
            let b = request_line(method, rest, eol) + header_lines(lines, eol) + eol + body;
            &&& http_answer(b) is NoHost
            &&& classification(b) == ClassifiedView::Known(InboundView::Http { host: None })
        }),
{
    let head = request_line(method, rest, eol) + header_lines(lines, eol);
    let b = head + eol + body;
    let n = head.len() as int;
    assert(b.take(n) =~= head);
    lemma_hostless_lines(b, n, method, rest, lines, eol);
    assert(b[n] == eol[0]);
    if eol.len() == 2 {
        assert(b[n + 1] == eol[1]);
    }
    assert(ends_block(b, n - 1));
    lemma_block_end_skips(b, 0, n - 1);
    let whole = request_head(b);
    let end = n + eol.len();
    assert(block_end_from(b, 0) == Some(end));
    assert(whole =~= head + eol);
    lemma_blank_line_ends(whole, n, method, rest, lines, eol);
}

/// A Host line behind the lines of a head would have to be on the line behind them.
proof fn lemma_blank_line_ends(
    whole: Seq<u8>,
    n: int,
    method: Seq<u8>,
    rest: Seq<u8>,
    lines: Seq<(Seq<u8>, Seq<u8>)>,
    eol: Seq<u8>,
)
    requires
        is_method(method),
        on_one_line(rest),
        none_is_host(lines),
        ends_line(eol),
        n == (request_line(method, rest, eol) + header_lines(lines, eol)).len(),
        whole == request_line(method, rest, eol) + header_lines(lines, eol) + eol,
    ensures
        first_host(whole, 0) is None,
{
    let first = method + seq![32u8] + rest;
    lemma_request_line_is_no_host(method, rest);
    let rem = header_lines(lines, eol) + eol;
    assert(whole.subrange(0, whole.len() as int) =~= first + eol + rem);
    lemma_line_is_read(whole, 0, first, eol, rem);
    lemma_lines_then_blank(whole, (first.len() + eol.len()) as int, lines, eol);
}

proof fn lemma_lines_then_blank(s: Seq<u8>, from: int, lines: Seq<(Seq<u8>, Seq<u8>)>, eol: Seq<u8>)
    requires
        0 <= from <= s.len(),
        none_is_host(lines),
        ends_line(eol),
        s.subrange(from, s.len() as int) == header_lines(lines, eol) + eol,
    ensures
        first_host(s, from) is None,
    decreases lines.len(),
{
    if lines.len() == 0 {
        let none = Seq::<u8>::empty();
        assert(header_lines(lines, eol) + eol =~= none + eol + none);
        lemma_line_is_read(s, from, none, eol, none);
    } else {
        let (k, v) = lines[0];
        let line = k + seq![58u8] + v;
        let rest = header_lines(lines.drop_first(), eol) + eol;
        assert(header_lines(lines, eol) + eol =~= line + eol + rest);
        assert(is_header(k, v));
        lemma_on_one_line(k, v);
        lemma_line_is_read(s, from, line, eol, rest);
        lemma_header_value(k, v);
        assert(none_is_host(lines.drop_first())) by {
            assert forall|i: int| 0 <= i < lines.drop_first().len() implies is_header(
                (#[trigger] lines.drop_first()[i]).0,
                lines.drop_first()[i].1,
            ) && ascii_lower(lines.drop_first()[i].0) != ascii("host"@) by {
                assert(lines.drop_first()[i] == lines[i + 1]);
            }
        }
        lemma_lines_then_blank(s, from + line.len() + eol.len(), lines.drop_first(), eol);
    }
}

/// A request whose head has not come whole, and whose whole lines hold no Host line,
/// waits for more: nothing is made of a line that was cut short.
pub proof fn law_unfinished_request_waits(
    method: Seq<u8>,
    rest: Seq<u8>,
    lines: Seq<(Seq<u8>, Seq<u8>)>,
    eol: Seq<u8>,
    cut: Seq<u8>,
)
    requires
        is_method(method),
        on_one_line(rest),
        none_is_host(lines),
        ends_line(eol),
        on_one_line(cut),
    ensures
        ({
            let b = request_line(method, rest, eol) + header_lines(lines, eol) + cut;
            &&& http_answer(b) is NeedMore
            &&& b.len() < 8192 ==> classification(b) == (ClassifiedView::PeekMore { want: b.len() + 1 })
            &&& b.len() >= 8192 ==> classification(b) == ClassifiedView::Known(InboundView::Http { host: None })
        }),
{
    let head = request_line(method, rest, eol) + header_lines(lines, eol);
    let b = head + cut;
    let n = head.len() as int;
    assert(b.take(n) =~= head);
    lemma_hostless_lines(b, n, method, rest, lines, eol);
    assert forall|i: int| n <= i < b.len() implies #[trigger] b[i] != 10 && b[i] != 13 by {
        assert(b[i] == cut[i - n]);
        assert(cut.contains(cut[i - n]));
    }
    assert forall|i: int| 0 <= i < b.len() implies !#[trigger] ends_block(b, i) by {}
    lemma_block_end_skips(b, 0, b.len() as int);
    lemma_whole_lines(b);
    assert(whole_lines(b) == n);
    assert(request_head(b) =~= head);
    assert(b.take(n) =~= request_head(b));
}

/// What is taken for HTTP begins with a method, and what begins with one is.
pub proof fn law_http_begins_with_a_method(b: Seq<u8>)
    ensures
        http_answer(b) !is NotHttp <==> {
            ||| ascii("GET "@).is_prefix_of(b)
            ||| ascii("POST "@).is_prefix_of(b)
            ||| ascii("PUT "@).is_prefix_of(b)
            ||| ascii("HEAD "@).is_prefix_of(b)
            ||| ascii("DELE"@).is_prefix_of(b)
            ||| ascii("OPTI"@).is_prefix_of(b)
            ||| ascii("PATC"@).is_prefix_of(b)
            ||| ascii("TRAC"@).is_prefix_of(b)
            ||| ascii("CONN"@).is_prefix_of(b)
        },
{
    reveal_strlit("GET ");
    reveal_strlit("POST ");
    reveal_strlit("PUT ");
    reveal_strlit("HEAD ");
    reveal_strlit("DELE");
    reveal_strlit("OPTI");
    reveal_strlit("PATC");
    reveal_strlit("TRAC");
    reveal_strlit("CONN");
    assert(ascii("GET "@) =~= seq![71u8, 69, 84, 32]);
    assert(ascii("POST "@) =~= seq![80u8, 79, 83, 84, 32]);
    assert(ascii("PUT "@) =~= seq![80u8, 85, 84, 32]);
    assert(ascii("HEAD "@) =~= seq![72u8, 69, 65, 68, 32]);
    assert(ascii("DELE"@) =~= seq![68u8, 69, 76, 69]);
    assert(ascii("OPTI"@) =~= seq![79u8, 80, 84, 73]);
    assert(ascii("PATC"@) =~= seq![80u8, 65, 84, 67]);
    assert(ascii("TRAC"@) =~= seq![84u8, 82, 65, 67]);
    assert(ascii("CONN"@) =~= seq![67u8, 79, 78, 78]);
}

/// A connection is TLS if and only if its first byte opens a handshake record. The
/// name of a ClientHello is its key; one without a name, or that turns out to be
/// something else, is TLS without a key. What is neither TLS nor HTTP is unknown.
pub proof fn law_first_byte_tells_tls(b: Seq<u8>)
    ensures
        classification(b) matches ClassifiedView::Known(InboundView::Tls { .. }) ==> b.len() > 0 && b[0] == 22,
        b.len() > 0 && b[0] == 22 ==> match tls_answer(b) {
            TlsAnswer::Sni(name) => classification(b) == ClassifiedView::Known(InboundView::Tls { sni: Some(name) }),
            TlsAnswer::NeedMore => b.len() < 8192 ==> classification(b) == (ClassifiedView::PeekMore {
                want: b.len() + 1,
            }),
            _ => classification(b) == ClassifiedView::Known(InboundView::Tls { sni: None }),
        },
        b.len() == 0 || (b[0] != 22 && http_answer(b) is NotHttp) ==> classification(b) == ClassifiedView::Known(
            InboundView::Unknown,
        ),
{
}

/// A connection's routing key is the name that it carries, whichever kind it is.
pub proof fn law_key_is_the_name_carried(name: Option<Seq<char>>)
    ensures
        (InboundView::Tls { sni: name }).key() == name,
        (InboundView::Http { host: name }).key() == name,
        InboundView::Unknown.key() is None,
{
}

// ---------------------------------------------------------------------------
// Written-out hellos without a name
// ---------------------------------------------------------------------------

impl Hello {
    /// The body of a handshake message with the given extensions.
    pub open spec fn body_with(self, exts: Seq<u8>) -> Seq<u8> {
        self.opening + (seq![self.session_id.len() as u8] + (self.session_id + (be16(self.cipher_suites.len()) + (
        self.cipher_suites + (seq![self.compression_methods.len() as u8] + (self.compression_methods + (be16(exts.len())
            + exts)))))))
    }

    /// A handshake message of a given type, with the given extensions, in one record.
    pub open spec fn record_with(self, kind: u8, exts: Seq<u8>) -> Seq<u8> {
        seq![0x16u8] + (self.record_version + (be16(4 + self.body_with(exts).len()) + (seq![kind] + (be24(
            self.body_with(exts).len(),
        ) + self.body_with(exts)))))
    }
}

proof fn lemma_nameless_extensions(b: Seq<u8>, at: int, list: Seq<(nat, Seq<u8>)>)
    requires
        forall|i: int| 0 <= i < list.len() ==> 0 < (#[trigger] list[i]).0 < 65536 && list[i].1.len() < 65536,
        stands(b, at, extensions(list)),
    ensures
        extensions_answer(b, at, at + extensions(list).len()) == TlsAnswer::NoSni,
    decreases list.len(),
{
    if list.len() == 0 {
        assert(0 <= at <= b.len()) by {
            reveal(stands);
        }
    } else {
        let kind = list[0].0;
        let body = list[0].1;
        let rest = list.drop_first();
        let more = extensions(rest);
        assert(extensions(list) =~= be16(kind) + (be16(body.len()) + (body + more)));
        lemma_stands_apart(b, at, be16(kind), be16(body.len()) + (body + more));
        lemma_stands_apart(b, at + 2, be16(body.len()), body + more);
        lemma_stands_apart(b, at + 4, body, more);
        lemma_be16_stands(b, at, kind);
        lemma_be16_stands(b, at + 2, body.len());
        assert forall|i: int| 0 <= i < rest.len() implies 0 < (#[trigger] rest[i]).0 < 65536 && rest[i].1.len() < 65536 by {
            assert(rest[i] == list[i + 1]);
        }
        lemma_nameless_extensions(b, at + 4 + body.len(), rest);
    }
}

proof fn lemma_nameless_body(hello: Hello, b: Seq<u8>)
    requires
        hello.opening.len() == 34,
        hello.session_id.len() < 256,
        hello.cipher_suites.len() < 65536,
        hello.compression_methods.len() < 256,
        forall|i: int|
            0 <= i < hello.before.len() ==> 0 < (#[trigger] hello.before[i]).0 < 65536 && hello.before[i].1.len() < 65536,
        extensions(hello.before).len() < 65536,
        stands(b, 9, hello.body_with(extensions(hello.before))),
    ensures
        hello_body_answer(b, 9 + hello.body_with(extensions(hello.before)).len() as int) == TlsAnswer::NoSni,
{
    let exts = extensions(hello.before);
    let e = be16(exts.len()) + exts;
    let m = hello.compression_methods + e;
    let ml = seq![hello.compression_methods.len() as u8] + m;
    let c = hello.cipher_suites + ml;
    let cl = be16(hello.cipher_suites.len()) + c;
    let s = hello.session_id + cl;
    let sl = seq![hello.session_id.len() as u8] + s;
    lemma_stands_apart(b, 9, hello.opening, sl);
    lemma_stands_apart(b, 43, seq![hello.session_id.len() as u8], s);
    lemma_byte_stands(b, 43, hello.session_id.len() as u8);
    let suites = 44 + hello.session_id.len() as int;
    lemma_stands_apart(b, 44, hello.session_id, cl);
    lemma_stands_apart(b, suites, be16(hello.cipher_suites.len()), c);
    lemma_be16_stands(b, suites, hello.cipher_suites.len());
    let methods = suites + 2 + hello.cipher_suites.len();
    lemma_stands_apart(b, suites + 2, hello.cipher_suites, ml);
    lemma_stands_apart(b, methods, seq![hello.compression_methods.len() as u8], m);
    lemma_byte_stands(b, methods, hello.compression_methods.len() as u8);
    let ext = methods + 1 + hello.compression_methods.len();
    lemma_stands_apart(b, methods + 1, hello.compression_methods, e);
    lemma_stands_apart(b, ext, be16(exts.len()), exts);
    lemma_be16_stands(b, ext, exts.len());
    assert(9 + hello.body_with(exts).len() == ext + 2 + exts.len());
    lemma_nameless_extensions(b, ext + 2, hello.before);
}

/// A ClientHello in one record none of whose extensions is a server name has no name,
/// and a message of another type is no ClientHello.
pub proof fn law_hello_without_a_name_has_none(hello: Hello, kind: u8, tail: Seq<u8>)
    requires
        hello.record_version.len() == 2,
        hello.opening.len() == 34,
        hello.session_id.len() < 256,
        hello.cipher_suites.len() < 65536,
        hello.compression_methods.len() < 256,
        forall|i: int|
            0 <= i < hello.before.len() ==> 0 < (#[trigger] hello.before[i]).0 < 65536 && hello.before[i].1.len() < 65536,
        extensions(hello.before).len() < 65536,
        4 + hello.body_with(extensions(hello.before)).len() < 65536,
    ensures
        tls_answer(hello.record_with(1, extensions(hello.before)) + tail) == TlsAnswer::NoSni,
        kind != 1 ==> tls_answer(hello.record_with(kind, extensions(hello.before)) + tail) == TlsAnswer::NotClientHello,
{
    let exts = extensions(hello.before);
    lemma_record_is_read(hello, 1, exts, tail);
    lemma_record_is_read(hello, kind, exts, tail);
    lemma_nameless_body(hello, hello.record_with(1, exts) + tail);
}

proof fn lemma_record_is_read(hello: Hello, kind: u8, exts: Seq<u8>, tail: Seq<u8>)
    requires
        hello.record_version.len() == 2,
        hello.opening.len() == 34,
        4 + hello.body_with(exts).len() < 65536,
    ensures
        ({
            let b = hello.record_with(kind, exts) + tail;
            &&& b.len() >= 9 + hello.body_with(exts).len()
            &&& b[0] == 0x16
            &&& octets::be16_at(b, 3) == 4 + hello.body_with(exts).len()
            &&& b[5] == kind
            &&& octets::be24_at(b, 6) == hello.body_with(exts).len()
            &&& stands(b, 9, hello.body_with(exts))
        }),
{
    let b = hello.record_with(kind, exts) + tail;
    let body = hello.body_with(exts);
    let h2 = be24(body.len()) + body;
    let h1 = seq![kind] + h2;
    let r2 = be16(4 + body.len()) + h1;
    let r1 = hello.record_version + r2;
    assert(stands(b, 0, hello.record_with(kind, exts))) by {
        reveal(stands);
        assert(b.subrange(0, hello.record_with(kind, exts).len() as int) =~= hello.record_with(kind, exts));
    }
    lemma_stands_apart(b, 0, seq![0x16u8], r1);
    lemma_byte_stands(b, 0, 0x16);
    lemma_stands_apart(b, 1, hello.record_version, r2);
    lemma_stands_apart(b, 3, be16(4 + body.len()), h1);
    lemma_be16_stands(b, 3, 4 + body.len());
    lemma_stands_apart(b, 5, seq![kind], h2);
    lemma_byte_stands(b, 5, kind);
    lemma_stands_apart(b, 6, be24(body.len()), body);
    lemma_be24_stands(b, 6, body.len());
}

/// At most 8 KiB are looked at, for 10 seconds at most, with pauses of 50 milliseconds at
/// most.
pub proof fn law_peeking_is_bounded(w: PeekWait)
    requires
        w.valid(),
    ensures
        MAX_PEEK == 8192,
        PEEK_TIMEOUT_MILLIS == 10000,
        1 <= w.backoff_millis <= 50,
{
}

} // verus!
