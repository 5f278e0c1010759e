//! Startup validation that a cleartext backend really speaks HTTP/2.
//!
//! The probe validates, it never decides: no outcome silently downgrades a route.

use crate::octets;
use crate::text;
use vstd::prelude::*;

verus! {

/// Length of an HTTP/2 frame header: length, type, flags and stream id.
pub const FRAME_HEADER_LEN: usize = 9;

/// The code of the SETTINGS frame.
pub const FRAME_TYPE_SETTINGS: u8 = 4;

/// The HTTP/2 client connection preface.
pub open spec fn preface() -> Seq<u8> {
    seq![
        80u8, 82, 73, 32, 42, 32, 72, 84, 84, 80, 47, 50, 46, 48, 13, 10, 13, 10, 83, 77, 13, 10, 13, 10,
    ]
}

/// An empty SETTINGS frame.
pub open spec fn empty_settings() -> Seq<u8> {
    seq![0u8, 0, 0, 4, 0, 0, 0, 0, 0]
}

/// What a client says first: the preface, and a SETTINGS frame behind it.
pub fn greeting() -> (r: Vec<u8>)
    ensures
        r@ == preface() + empty_settings(),
{
    let r: Vec<u8> = vec![
        80, 82, 73, 32, 42, 32, 72, 84, 84, 80, 47, 50, 46, 48, 13, 10, 13, 10, 83, 77, 13, 10, 13, 10, 0, 0, 0, 4, 0,
        0, 0, 0, 0,
    ];
    assert(r@ =~= preface() + empty_settings());
    r
}

/// How a reply that is not HTTP/2 begins: `HTTP/1.`.
pub open spec fn http1_head() -> Seq<u8> {
    seq![72u8, 84, 84, 80, 47, 49, 46]
}

/// What is wrong with the first bytes that a backend has sent.
pub open spec fn reply_problem(reply: Seq<u8>) -> Option<Seq<char>> {
    if reply.len() == 0 {
        Some("backend closed the connection without replying (it rejected the HTTP/2 preface)"@)
    } else if http1_head().is_prefix_of(reply) {
        Some(
            "backend replied with HTTP/1.x, so it does not speak h2c (enable HTTP/2 on it, or disable http2 for this route)"@,
        )
    } else if reply.len() < FRAME_HEADER_LEN {
        Some("backend sent a short "@ + text::dec(reply.len()) + "-byte reply, not an HTTP/2 frame header"@)
    } else if reply[3] != FRAME_TYPE_SETTINGS {
        Some(
            "backend's first frame was type 0x"@ + text::hex(reply[3] as nat, 2) + ", expected SETTINGS (0x04)"@,
        )
    } else {
        None
    }
}

/// Interpret the first bytes that a backend has sent in reply to the preface. The
/// message says what to mend.
pub fn classify_reply(reply: &[u8]) -> (r: Result<(), String>)
    ensures
        match r {
            Ok(_) => reply_problem(reply@) is None,
            Err(m) => reply_problem(reply@) == Some(m@),
        },
{
    if reply.len() == 0 {
        return Err(
            "backend closed the connection without replying (it rejected the HTTP/2 preface)".to_owned(),
        );
    }
    let head: Vec<u8> = vec![72, 84, 84, 80, 47, 49, 46];
    assert(head@ =~= http1_head());
    if octets::starts_with(reply, head.as_slice()) {
        return Err(
            "backend replied with HTTP/1.x, so it does not speak h2c (enable HTTP/2 on it, or disable http2 for this route)".to_owned(),
        );
    }
    if reply.len() < FRAME_HEADER_LEN {
        let mut m = "backend sent a short ".to_owned();
        text::push_dec(&mut m, reply.len() as u64);
        text::push_text(&mut m, "-byte reply, not an HTTP/2 frame header");
        return Err(m);
    }
    if reply[3] != FRAME_TYPE_SETTINGS {
        let mut m = "backend's first frame was type 0x".to_owned();
        text::push_hex(&mut m, reply[3] as u64, 2);
        text::push_text(&mut m, ", expected SETTINGS (0x04)");
        return Err(m);
    }
    Ok(())
}

/// What a probe does after its first attempt.
#[derive(Debug)]
pub enum AfterPrimary {
    /// The verdict is in.
    Done(Result<(), String>),
    /// Try the other address family, and keep why the first has failed.
    TryFallback(String),
}

/// Decide after the attempt on the first address. A failure there is not the
/// route's verdict while there is another address.
pub fn after_primary(outcome: Result<(), String>, has_fallback: bool) -> (r: AfterPrimary)
    ensures
        match outcome {
            Ok(_) => r == AfterPrimary::Done(Ok(())),
            Err(m) => if has_fallback {
                r == AfterPrimary::TryFallback(m)
            } else {
                r == AfterPrimary::Done(Err(m))
            },
        },
{
    match outcome {
        Ok(_) => AfterPrimary::Done(Ok(())),
        Err(m) => if has_fallback {
            AfterPrimary::TryFallback(m)
        } else {
            AfterPrimary::Done(Err(m))
        },
    }
}

/// Decide after the attempt on the second address. Only a failure on both is
/// reported, and it reports both.
pub fn after_fallback(primary: &str, outcome: Result<(), String>) -> (r: Result<(), String>)
    ensures
        match outcome {
            Ok(_) => r is Ok,
            Err(m) => r is Err && r->Err_0@ == primary@ + "; "@ + m@,
        },
{
    match outcome {
        Ok(_) => Ok(()),
        Err(m) => Err(text::concat3(primary, "; ", m.as_str())),
    }
}

/// What a client says first is the HTTP/2 preface, `PRI * HTTP/2.0`, a blank line, `SM`
/// and another, and an empty SETTINGS frame on stream 0.
pub proof fn law_greeting_is_the_preface()
    ensures
        preface() == crate::peek::ascii("PRI * HTTP/2.0"@) + seq![13u8, 10, 13, 10] + crate::peek::ascii("SM"@) + seq![
            13u8,
            10,
            13,
            10,
        ],
        empty_settings().len() == 9,
        octets::be24_at(empty_settings(), 0) == 0,
        empty_settings()[3] == 4,
        octets::be32_at(empty_settings(), 5) == 0,
        http1_head() == crate::peek::ascii("HTTP/1."@),
{
    reveal_strlit("PRI * HTTP/2.0");
    reveal_strlit("SM");
    reveal_strlit("HTTP/1.");
    assert(preface() =~= crate::peek::ascii("PRI * HTTP/2.0"@) + seq![13u8, 10, 13, 10] + crate::peek::ascii("SM"@) + seq![
        13u8,
        10,
        13,
        10,
    ]);
    assert(http1_head() =~= crate::peek::ascii("HTTP/1."@));
}

/// A backend passes exactly where its first nine bytes are the header of a SETTINGS
/// frame, and never where it answers in HTTP/1.
pub proof fn law_backend_answers_with_settings(reply: Seq<u8>)
    ensures
        crate::peek::ascii("HTTP/1."@).is_prefix_of(reply) ==> reply_problem(reply) is Some,
        reply.len() < 9 ==> reply_problem(reply) is Some,
        reply.len() >= 9 && !crate::peek::ascii("HTTP/1."@).is_prefix_of(reply) ==> (reply_problem(reply) is None
            <==> reply[3] == 4),
{
    law_greeting_is_the_preface();
}

} // verus!
