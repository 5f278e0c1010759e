//! What an HTTP probe sends, and what it makes of the response.

use crate::octets;
use crate::text;
use vstd::prelude::*;
use vstd::slice::slice_subrange;

verus! {

/// How much of a response is read for its status line.
pub const STATUS_BUFFER: usize = 128;

/// The request of a probe. The connection is closed after it, so that the server
/// does not wait for another.
pub open spec fn request_text(path: Seq<char>, sni: Seq<char>) -> Seq<char> {
    "GET "@ + path + " HTTP/1.1\r\nHost: "@ + sni
        + "\r\nUser-Agent: sni-gate-probe\r\nAccept: */*\r\nConnection: close\r\n\r\n"@
}

/// The request of a probe.
pub fn probe_request(path: &str, sni: &str) -> (r: String)
    ensures
        r@ == request_text(path@, sni@),
{
    text::concat5(
        "GET ",
        path,
        " HTTP/1.1\r\nHost: ",
        sni,
        "\r\nUser-Agent: sni-gate-probe\r\nAccept: */*\r\nConnection: close\r\n\r\n",
    )
}

/// Whether enough of a response has come: a line break, or a full buffer.
pub fn response_complete(bytes: &[u8]) -> (r: bool)
    ensures
        r == (bytes@.len() == STATUS_BUFFER || exists|i: int|
            0 <= i && i + 1 < bytes@.len() && #[trigger] bytes@[i] == 13 && bytes@[i + 1] == 10),
{
    if bytes.len() == STATUS_BUFFER {
        return true;
    }
    let mut i: usize = 1;
    while i < bytes.len()
        invariant
            1 <= i,
            i <= bytes.len() || bytes@.len() == 0,
            bytes@.len() != STATUS_BUFFER,
            forall|k: int| 0 <= k && k + 1 < i ==> !(#[trigger] bytes@[k] == 13 && bytes@[k + 1] == 10),
        decreases bytes.len() - i,
    {
        if bytes[i - 1] == 13 && bytes[i] == 10 {
            assert(bytes@[i - 1] == 13);
            return true;
        }
        i = i + 1;
    }
    false
}

/// The first line of a text, without its line break.
pub open spec fn first_line(s: Seq<char>) -> Seq<char> {
    let end = text::first_char(s, '\n');
    let line = s.subrange(0, end);
    if end < s.len() && line.len() > 0 && line.last() == '\r' {
        line.drop_last()
    } else {
        line
    }
}

/// Where the next word starts, at or behind `from`.
pub open spec fn word_start(s: Seq<char>, from: int) -> int
    decreases s.len() - from,
{
    if from >= s.len() {
        s.len() as int
    } else if text::is_space(s[from]) {
        word_start(s, from + 1)
    } else {
        from
    }
}

/// Where a word ends that starts at `from`.
pub open spec fn word_end(s: Seq<char>, from: int) -> int
    decreases s.len() - from,
{
    if from >= s.len() {
        s.len() as int
    } else if text::is_space(s[from]) {
        from
    } else {
        word_end(s, from + 1)
    }
}

/// The status that a response line states, or why it states none.
pub open spec fn status_of(line: Seq<char>) -> Result<nat, Seq<char>> {
    let a = word_start(line, 0);
    let b = word_end(line, a);
    let c = word_start(line, b);
    let d = word_end(line, c);
    if a >= line.len() {
        Err("empty probe response"@)
    } else if !"HTTP/"@.is_prefix_of(line.subrange(a, b)) {
        Err("probe response does not start with an HTTP status line: "@ + text::quoted(line))
    } else if c >= line.len() {
        Err("probe response has no status code: "@ + text::quoted(line))
    } else {
        match text::number_up_to(line.subrange(c, d), 65535) {
            Some(n) => Ok(n),
            None => Err("probe response status "@ + text::quoted(line.subrange(c, d)) + " is not a number"@),
        }
    }
}

/// The status that a response states, or why it states none.
pub open spec fn response_status(bytes: Seq<u8>) -> Result<nat, Seq<char>> {
    if vstd::utf8::valid_utf8(bytes) {
        status_of(first_line(vstd::utf8::decode_utf8(bytes)))
    } else {
        Err("probe response is not valid UTF-8"@)
    }
}

proof fn lemma_words(s: Seq<char>, from: int)
    requires
        0 <= from <= s.len(),
    ensures
        from <= word_start(s, from) <= s.len(),
        from <= word_end(s, from) <= s.len(),
    decreases s.len() - from,
{
    if from < s.len() {
        lemma_words(s, from + 1);
    }
}

fn skip_space(s: &[char], from: usize) -> (r: usize)
    requires
        from <= s@.len(),
    ensures
        r == word_start(s@, from as int),
        from <= r <= s@.len(),
{
    let mut i = from;
    while i < s.len() && text::is_white(s[i])
        invariant
            from <= i <= s@.len(),
            word_start(s@, from as int) == word_start(s@, i as int),
        decreases s@.len() - i,
    {
        i = i + 1;
    }
    i
}

fn skip_word(s: &[char], from: usize) -> (r: usize)
    requires
        from <= s@.len(),
    ensures
        r == word_end(s@, from as int),
        from <= r <= s@.len(),
{
    let mut i = from;
    while i < s.len() && !text::is_white(s[i])
        invariant
            from <= i <= s@.len(),
            word_end(s@, from as int) == word_end(s@, i as int),
        decreases s@.len() - i,
    {
        i = i + 1;
    }
    i
}

/// The status that a response states in its first line.
pub fn parse_status(bytes: &[u8]) -> (r: Result<u16, String>)
    ensures
        match r {
            Ok(n) => response_status(bytes@) == Ok::<nat, Seq<char>>(n as nat),
            Err(m) => response_status(bytes@) == Err::<nat, Seq<char>>(m@),
        },
{
    let decoded = match octets::decode_text(bytes) {
        Some(s) => s,
        None => return Err("probe response is not valid UTF-8".to_owned()),
    };
    let cs = text::chars_of(decoded.as_str());
    let end = text::find_char(cs.as_slice(), '\n', 0);
    let stop = if end < cs.len() && end > 0 && cs[end - 1] == '\r' {
        end - 1
    } else {
        end
    };
    let line = slice_subrange(cs.as_slice(), 0, stop);
    assert(line@ =~= first_line(cs@));
    let a = skip_space(line, 0);
    let b = skip_word(line, a);
    let c = skip_space(line, b);
    let d = skip_word(line, c);
    if a >= line.len() {
        return Err("empty probe response".to_owned());
    }
    if !text::starts_with_text(slice_subrange(line, a, b), "HTTP/") {
        let mut m = "probe response does not start with an HTTP status line: ".to_owned();
        text::push_text(&mut m, text::quote(text::string_of(line).as_str()).as_str());
        return Err(m);
    }
    if c >= line.len() {
        let mut m = "probe response has no status code: ".to_owned();
        text::push_text(&mut m, text::quote(text::string_of(line).as_str()).as_str());
        return Err(m);
    }
    let code = slice_subrange(line, c, d);
    match text::parse_number(code, 65535) {
        Some(n) => Ok(n as u16),
        None => Err(
            text::concat3(
                "probe response status ",
                text::quote(text::string_of(code).as_str()).as_str(),
                " is not a number",
            ),
        ),
    }
}

/// Numbers with a comma between them, among the first `n`.
pub open spec fn number_list(list: Seq<u16>, n: int) -> Seq<char>
    decreases n,
{
    if n <= 0 {
        Seq::empty()
    } else if n == 1 {
        text::dec(list[0] as nat)
    } else {
        number_list(list, n - 1) + ", "@ + text::dec(list[n - 1] as nat)
    }
}

/// Whether a response counts as success.
pub fn accept_status(status: u16, accepted: &Vec<u16>) -> (r: Result<(), String>)
    ensures
        r is Ok == accepted@.contains(status),
        r matches Err(m) ==> m@ == "probe response status "@ + text::dec(status as nat)
            + " is not among the accepted ["@ + number_list(accepted@, accepted@.len() as int) + "]"@,
{
    let mut m = "probe response status ".to_owned();
    text::push_dec(&mut m, status as u64);
    text::push_text(&mut m, " is not among the accepted [");
    let ghost head = m@;
    let mut i: usize = 0;
    assert(head + number_list(accepted@, 0) =~= head);
    while i < accepted.len()
        invariant
            i <= accepted@.len(),
            m@ == head + number_list(accepted@, i as int),
            forall|k: int| 0 <= k < i ==> #[trigger] accepted@[k] != status,
        decreases accepted@.len() - i,
    {
        if accepted[i] == status {
            return Ok(());
        }
        if i > 0 {
            text::push_text(&mut m, ", ");
        }
        text::push_dec(&mut m, accepted[i] as u64);
        i = i + 1;
        assert(m@ =~= head + number_list(accepted@, i as int));
    }
    text::push_text(&mut m, "]");
    Err(m)
}

// ---------------------------------------------------------------------------
// Laws
// ---------------------------------------------------------------------------

/// A probe asks for its path at its host, over HTTP/1.1, and for the connection to be
/// closed; a blank line ends it.
pub proof fn law_probe_asks_for_its_path(path: Seq<char>, sni: Seq<char>)
    ensures
        ("GET "@ + path + " HTTP/1.1"@ + seq!['\r', '\n'] + "Host: "@ + sni + seq!['\r', '\n']).is_prefix_of(
            request_text(path, sni),
        ),
        text::has_part(
            request_text(path, sni),
            seq!['\r', '\n'] + "Connection: close"@ + seq!['\r', '\n', '\r', '\n'],
        ),
        request_text(path, sni).subrange(request_text(path, sni).len() - 4, request_text(path, sni).len() as int)
            == seq!['\r', '\n', '\r', '\n'],
{
    reveal_strlit("GET ");
    reveal_strlit(" HTTP/1.1");
    reveal_strlit("Host: ");
    reveal_strlit("Connection: close");
    reveal_strlit(" HTTP/1.1\r\nHost: ");
    reveal_strlit("\r\nUser-Agent: sni-gate-probe\r\nAccept: */*\r\nConnection: close\r\n\r\n");
    let nl = seq!['\r', '\n'];
    let tail = "\r\nUser-Agent: sni-gate-probe\r\nAccept: */*\r\nConnection: close\r\n\r\n"@;
    let head = "GET "@ + path + " HTTP/1.1\r\nHost: "@ + sni;
    let all = request_text(path, sni);
    assert(all == head + tail);
    assert(" HTTP/1.1\r\nHost: "@ =~= " HTTP/1.1"@ + nl + "Host: "@);
    let front = "GET "@ + path + " HTTP/1.1"@ + nl + "Host: "@ + sni + nl;
    assert(front =~= head + nl);
    assert(tail.subrange(0, 2) =~= nl);
    assert(all.subrange(0, front.len() as int) =~= front);
    let last = nl + "Connection: close"@ + seq!['\r', '\n', '\r', '\n'];
    assert(last.len() == 23);
    let at = all.len() - 23;
    assert(all.subrange(at, at + last.len()) =~= last);
    assert(all.subrange(all.len() - 4, all.len() as int) =~= seq!['\r', '\n', '\r', '\n']);
}

proof fn lemma_word_at(s: Seq<char>, from: int, end: int)
    requires
        0 <= from <= end <= s.len(),
        forall|i: int| from <= i < end ==> !text::is_space(#[trigger] s[i]),
        end == s.len() || text::is_space(s[end]),
    ensures
        word_end(s, from) == end,
    decreases end - from,
{
    if from < end {
        lemma_word_at(s, from + 1, end);
    }
}

/// A status line that is written out states its status: the protocol and its version, a
/// space, the number, a space, and whatever else, up to the end of the line.
#[verifier::rlimit(60)]
pub proof fn law_status_line_is_read(version: Seq<char>, n: u16, reason: Seq<char>, rest: Seq<char>)
    requires
        forall|i: int| 0 <= i < version.len() ==> !text::is_space(#[trigger] version[i]),
        !reason.contains('\n'),
    ensures
        response_status(
            vstd::utf8::encode_utf8(
                "HTTP/"@ + version + seq![' '] + text::dec(n as nat) + seq![' '] + reason + seq!['\r', '\n'] + rest,
            ),
        ) == Ok::<nat, Seq<char>>(n as nat),
{
    reveal_strlit("HTTP/");
    let d = text::dec(n as nat);
    text::lemma_dec_digits(n as nat);
    let line = "HTTP/"@ + version + seq![' '] + d + seq![' '] + reason;
    let s = line + seq!['\r', '\n'] + rest;
    assert(s =~= "HTTP/"@ + version + seq![' '] + d + seq![' '] + reason + seq!['\r', '\n'] + rest);
    let b = 5 + version.len() as int;
    let c = b + 1;
    let e = c + d.len() as int;
    assert forall|i: int| 0 <= i < line.len() implies line[i] != '\n' by {
        if i < 5 {
            assert(line[i] == "HTTP/"@[i]);
        } else if i < b {
            assert(line[i] == version[i - 5]);
            assert(!text::is_space(version[i - 5]));
        } else if c <= i < e {
            assert(line[i] == d[i - c]);
            assert(text::is_digit(d[i - c]));
        } else if i > e {
            assert(line[i] == reason[i - e - 1]);
        }
    }
    let end = line.len() as int;
    assert(s[end] == '\r' && s[end + 1] == '\n');
    assert forall|i: int| 0 <= i < line.len() implies s[i] == line[i] by {}
    text::lemma_first_char_at(s, '\n', end + 1);
    assert(s.subrange(0, end + 1).drop_last() =~= line);
    assert(first_line(s) == line);
    assert(line[0] == 'H');
    assert(line[b] == ' ' && line[e] == ' ');
    assert forall|i: int| 0 <= i < b implies !text::is_space(#[trigger] line[i]) by {
        if i < 5 {
            assert(line[i] == "HTTP/"@[i]);
        } else {
            assert(line[i] == version[i - 5]);
        }
    }
    lemma_word_at(line, 0, b);
    assert forall|i: int| c <= i < e implies !text::is_space(#[trigger] line[i]) by {
        assert(line[i] == d[i - c]);
        assert(text::is_digit(d[i - c]));
    }
    assert(line[c] == d[0]);
    assert(text::is_digit(d[0]));
    assert(word_start(line, c) == c);
    assert(word_start(line, b) == c);
    lemma_word_at(line, c, e);
    assert(line.subrange(c, e) =~= d);
    assert(line.subrange(0, b).subrange(0, 5) =~= "HTTP/"@);
    vstd::utf8::encode_utf8_valid_utf8(s);
    vstd::utf8::encode_utf8_decode_utf8(s);
}

/// Numbers are listed with a comma and a space between them.
pub proof fn law_numbers_are_listed(list: Seq<u16>)
    ensures
        number_list(list, 0).len() == 0,
        list.len() > 0 ==> number_list(list, 1) == text::dec(list[0] as nat),
        list.len() > 1 ==> number_list(list, 2) == text::dec(list[0] as nat) + seq![',', ' '] + text::dec(list[1] as nat),
{
    reveal_strlit(", ");
    assert(", "@ =~= seq![',', ' ']);
    reveal_with_fuel(number_list, 3);
}

/// A status line is looked for in the first 128 bytes.
pub proof fn law_status_is_looked_for_in_front()
    ensures
        STATUS_BUFFER == 128,
{
}

} // verus!
