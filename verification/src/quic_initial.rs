//! Stateless QUIC v1 Initial inspection for raw SNI routing.
//!
//! QUIC Initial packets use publicly derivable keys. Only those packets are
//! decrypted; their CRYPTO frames are reassembled and the TLS ClientHello in
//! them is inspected. Raw routes still forward every original datagram
//! untouched.

use crate::octets;
use crate::octets::{append, read_be32, to_vec};
use crate::peek;
use crate::peek::{parse_tls_sni, TlsAnswer, TlsParse};
use aes::cipher::generic_array::GenericArray;
use aes::cipher::{BlockEncrypt, KeyInit};
use aes::Aes128;
use aes_gcm::aead::AeadInPlace;
use aes_gcm::{Aes128Gcm, Nonce, Tag};
use hkdf::Hkdf;
use sha2::Sha256;
use std::collections::BTreeMap;
use vstd::prelude::*;
use vstd::slice::slice_subrange;

verus! {

/// The longest ClientHello that is reassembled.
pub const MAX_CLIENT_HELLO: usize = 16384;

/// The version number of QUIC v1.
pub const QUIC_V1: u32 = 1;

/// The salt of QUIC v1 Initial secrets.
pub open spec fn initial_salt_v1() -> Seq<u8> {
    seq![
        0x38u8, 0x76, 0x2c, 0xf7, 0xf5, 0x59, 0x34, 0xb3, 0x4d, 0x17,
        0x9a, 0xe6, 0xa4, 0xc8, 0x0c, 0xad, 0xcc, 0xbb, 0x7f, 0x0a,
    ]
}

// ---------------------------------------------------------------------------
// Variable-length integers
// ---------------------------------------------------------------------------

/// The encoded length of a variable-length integer, from its first byte.
pub open spec fn varint_width(first: u8) -> int {
    if first < 64 {
        1
    } else if first < 128 {
        2
    } else if first < 192 {
        4
    } else {
        8
    }
}

/// The variable-length integer at `at`: its value and the index behind it.
/// The two highest bits of the first byte give the width, the others begin the
/// big-endian value.
pub open spec fn varint_at(b: Seq<u8>, at: int) -> Option<(int, int)> {
    if at < 0 || at >= b.len() || at + varint_width(b[at]) > b.len() {
        None
    } else {
        let w = varint_width(b[at]);
        let top = b[at] as int % 64;
        let value = if w == 1 {
            top
        } else if w == 2 {
            top * 256 + b[at + 1]
        } else if w == 4 {
            top * 0x1000000 + b[at + 1] * 0x10000 + b[at + 2] * 0x100 + b[at + 3]
        } else {
            top * 0x100000000000000 + b[at + 1] * 0x1000000000000 + b[at + 2] * 0x10000000000
                + b[at + 3] * 0x100000000 + b[at + 4] * 0x1000000 + b[at + 5] * 0x10000
                + b[at + 6] * 0x100 + b[at + 7]
        };
        Some((value, at + w))
    }
}

/// Read a variable-length integer and move `at` behind it. `at` stays where it
/// is when the bytes do not suffice.
pub fn read_varint(bytes: &[u8], at: &mut usize) -> (r: Result<u64, ()>)
    ensures
        match r {
            Ok(v) => varint_at(bytes@, *old(at) as int) == Some((v as int, *final(at) as int))
                && *old(at) < *final(at) <= bytes@.len() && v < 0x4000000000000000,
            Err(_) => varint_at(bytes@, *old(at) as int) is None && *final(at) == *old(at),
        },
{
    let p = *at;
    if p >= bytes.len() {
        return Err(());
    }
    let first = bytes[p];
    let left = bytes.len() - p;
    let top = (first % 64) as u64;
    if first < 64 {
        *at = p + 1;
        Ok(top)
    } else if first < 128 {
        if left < 2 {
            return Err(());
        }
        *at = p + 2;
        Ok(top * 256 + bytes[p + 1] as u64)
    } else if first < 192 {
        if left < 4 {
            return Err(());
        }
        *at = p + 4;
        Ok(top * 0x1000000 + bytes[p + 1] as u64 * 0x10000 + bytes[p + 2] as u64 * 0x100 + bytes[p + 3] as u64)
    } else {
        if left < 8 {
            return Err(());
        }
        *at = p + 8;
        Ok(
            top * 0x100000000000000 + bytes[p + 1] as u64 * 0x1000000000000 + bytes[p + 2] as u64 * 0x10000000000
                + bytes[p + 3] as u64 * 0x100000000 + bytes[p + 4] as u64 * 0x1000000 + bytes[p + 5] as u64
                * 0x10000 + bytes[p + 6] as u64 * 0x100 + bytes[p + 7] as u64,
        )
    }
}

/// The index behind `n` variable-length integers that start at `at`.
pub open spec fn behind_varints(b: Seq<u8>, at: int, n: int) -> Option<int>
    decreases n,
{
    if n <= 0 {
        Some(at)
    } else {
        match varint_at(b, at) {
            Some((_, next)) => behind_varints(b, next, n - 1),
            None => None,
        }
    }
}

/// The index behind an ACK frame's fields that start at `at`: largest
/// acknowledged, delay, range count, first range, and two integers a range.
pub open spec fn behind_ack(b: Seq<u8>, at: int) -> Option<int> {
    match behind_varints(b, at, 2) {
        Some(count_at) => match varint_at(b, count_at) {
            Some((ranges, first_at)) => behind_varints(b, first_at, 1 + 2 * ranges),
            None => None,
        },
        None => None,
    }
}

/// Move `at` behind the fields of an ACK frame.
pub fn skip_ack(bytes: &[u8], at: &mut usize) -> (r: Result<(), ()>)
    requires
        *old(at) <= bytes@.len(),
    ensures
        match r {
            Ok(_) => behind_ack(bytes@, *old(at) as int) == Some(*final(at) as int)
                && *old(at) < *final(at) <= bytes@.len(),
            Err(_) => behind_ack(bytes@, *old(at) as int) is None,
        },
{
    let ghost start = *at as int;
    proof {
        reveal_with_fuel(behind_varints, 3);
    }
    if read_varint(bytes, at).is_err() {
        return Err(());
    }
    if read_varint(bytes, at).is_err() {
        return Err(());
    }
    assert(behind_varints(bytes@, start, 2) == Some(*at as int));
    let ranges = match read_varint(bytes, at) {
        Ok(v) => v,
        Err(_) => return Err(()),
    };
    let ghost rest = behind_varints(bytes@, *at as int, 1 + 2 * ranges);
    let total: u64 = 1 + 2 * ranges;
    let mut i: u64 = 0;
    while i < total
        invariant
            i <= total,
            start == *old(at),
            start < *at <= bytes@.len(),
            behind_varints(bytes@, *at as int, total - i) == rest,
            behind_ack(bytes@, start) == rest,
        decreases total - i,
    {
        if read_varint(bytes, at).is_err() {
            return Err(());
        }
        i = i + 1;
    }
    Ok(())
}

// ---------------------------------------------------------------------------
// Key derivation and packet protection
// ---------------------------------------------------------------------------

/// What `hkdf::Hkdf::<Sha256>` derives: extract with a salt, then expand to `n`
/// bytes.
pub uninterp spec fn hkdf_sha256(salt: Seq<u8>, ikm: Seq<u8>, info: Seq<u8>, n: nat) -> Seq<u8>;

/// What `hkdf::Hkdf::<Sha256>` expands a pseudorandom key to.
pub uninterp spec fn hkdf_sha256_expand(prk: Seq<u8>, info: Seq<u8>, n: nat) -> Seq<u8>;

/// What `aes::Aes128` encrypts one block to.
pub uninterp spec fn aes128_block(key: Seq<u8>, block: Seq<u8>) -> Seq<u8>;

/// What `aes_gcm::Aes128Gcm` opens a sealed message to, if the tag is right.
pub uninterp spec fn aes128_gcm_open(
    key: Seq<u8>,
    nonce: Seq<u8>,
    aad: Seq<u8>,
    body: Seq<u8>,
    tag: Seq<u8>,
) -> Option<Seq<u8>>;

/// Calls `Hkdf::<Sha256>::new` and `expand`. The expansion fails only beyond
/// 255 hash lengths; below that it fills the output it was given.
#[verifier::external_body]
fn hkdf_derive(salt: &[u8], ikm: &[u8], info: &[u8], n: usize) -> (r: Option<Vec<u8>>)
    requires
        n <= 8160,
    ensures
        r is Some,
        r->0@ == hkdf_sha256(salt@, ikm@, info@, n as nat),
        r->0@.len() == n,
{
    let mut out = vec![0u8; n];
    Hkdf::<Sha256>::new(Some(salt), ikm).expand(info, &mut out).ok()?;
    Some(out)
}

/// Calls `Hkdf::<Sha256>::from_prk` and `expand`. A key of at least one hash
/// length is accepted, and the expansion fails only beyond 255 hash lengths.
#[verifier::external_body]
fn hkdf_expand(prk: &[u8], info: &[u8], n: usize) -> (r: Option<Vec<u8>>)
    requires
        prk@.len() >= 32,
        n <= 8160,
    ensures
        r is Some,
        r->0@ == hkdf_sha256_expand(prk@, info@, n as nat),
        r->0@.len() == n,
{
    let mut out = vec![0u8; n];
    Hkdf::<Sha256>::from_prk(prk).ok()?.expand(info, &mut out).ok()?;
    Some(out)
}

/// Calls `Aes128::new_from_slice`, which accepts 16 bytes, and `encrypt_block`,
/// which turns one 16-byte block into another.
#[verifier::external_body]
fn aes_encrypt(key: &[u8], block: &[u8]) -> (r: Option<Vec<u8>>)
    requires
        key@.len() == 16,
        block@.len() == 16,
    ensures
        r is Some,
        r->0@ == aes128_block(key@, block@),
        r->0@.len() == 16,
{
    let cipher = Aes128::new_from_slice(key).ok()?;
    let mut out = GenericArray::clone_from_slice(block);
    cipher.encrypt_block(&mut out);
    Some(out.to_vec())
}

/// Calls `Aes128Gcm::new_from_slice`, which accepts 16 bytes, and
/// `decrypt_in_place_detached`, which decrypts the buffer without changing its
/// length, or refuses it.
#[verifier::external_body]
fn gcm_open(key: &[u8], nonce: &[u8], aad: &[u8], body: &[u8], tag: &[u8]) -> (r: Option<Vec<u8>>)
    requires
        key@.len() == 16,
        nonce@.len() == 12,
        tag@.len() == 16,
    ensures
        match r {
            Some(v) => aes128_gcm_open(key@, nonce@, aad@, body@, tag@) == Some(v@) && v@.len() == body@.len(),
            None => aes128_gcm_open(key@, nonce@, aad@, body@, tag@) is None,
        },
{
    let cipher = Aes128Gcm::new_from_slice(key).ok()?;
    let mut plain = body.to_vec();
    cipher
        .decrypt_in_place_detached(Nonce::from_slice(nonce), aad, &mut plain, Tag::from_slice(tag))
        .ok()?;
    Some(plain)
}

/// The HKDF-Expand-Label info of TLS 1.3: the output length, the length-prefixed
/// label behind `tls13 `, and an empty context.
pub open spec fn label_info(label: Seq<u8>, n: int) -> Seq<u8> {
    seq![(n / 256) as u8, (n % 256) as u8, (label.len() + 6) as u8] + tls13_prefix() + label + seq![0u8]
}

/// `tls13 `.
pub open spec fn tls13_prefix() -> Seq<u8> {
    seq![116u8, 108, 115, 49, 51, 32]
}

/// Write the HKDF-Expand-Label info of a label.
fn info_of(label: &[u8], n: usize) -> (r: Vec<u8>)
    requires
        label@.len() <= 249,
        n <= 8160,
    ensures
        r@ == label_info(label@, n as int),
{
    let mut info: Vec<u8> = vec![(n / 256) as u8, (n % 256) as u8, (label.len() + 6) as u8];
    let prefix: [u8; 6] = [116, 108, 115, 49, 51, 32];
    append(&mut info, prefix.as_slice());
    append(&mut info, label);
    info.push(0);
    assert(prefix@ =~= tls13_prefix());
    assert(info@ =~= label_info(label@, n as int));
    info
}

/// Expand `secret` under a TLS 1.3 label to `n` bytes.
pub fn expand_label(secret: &[u8], label: &[u8], n: usize) -> (r: Result<Vec<u8>, ()>)
    requires
        secret@.len() >= 32,
        label@.len() <= 249,
        n <= 8160,
    ensures
        r matches Ok(v) && v@ == hkdf_sha256_expand(secret@, label_info(label@, n as int), n as nat)
            && v@.len() == n,
{
    let info = info_of(label, n);
    match hkdf_expand(secret, info.as_slice(), n) {
        Some(v) => Ok(v),
        None => Err(()),
    }
}

/// The client's packet-protection keys.
#[derive(Debug, Clone)]
pub struct InitialKeys {
    /// The AEAD key.
    pub key: Vec<u8>,
    /// The AEAD nonce base.
    pub iv: Vec<u8>,
    /// The header-protection key.
    pub hp: Vec<u8>,
}

/// What [`InitialKeys`] hold.
pub struct KeysView {
    pub key: Seq<u8>,
    pub iv: Seq<u8>,
    pub hp: Seq<u8>,
}

impl View for InitialKeys {
    type V = KeysView;

    open spec fn view(&self) -> KeysView {
        KeysView { key: self.key@, iv: self.iv@, hp: self.hp@ }
    }
}

/// The secret that the client's Initial keys are expanded from: what is extracted
/// from the connection id, expanded under the client's label.
pub open spec fn client_secret(dcid: Seq<u8>) -> Seq<u8> {
    hkdf_sha256(
        initial_salt_v1(),
        dcid,
        label_info(seq![99u8, 108, 105, 101, 110, 116, 32, 105, 110], 32),
        32,
    )
}

/// The client's Initial keys for a connection whose first destination
/// connection id is `dcid`.
pub open spec fn client_keys(dcid: Seq<u8>) -> KeysView {
    let secret = client_secret(dcid);
    KeysView {
        key: hkdf_sha256_expand(secret, label_info(seq![113u8, 117, 105, 99, 32, 107, 101, 121], 16), 16),
        iv: hkdf_sha256_expand(secret, label_info(seq![113u8, 117, 105, 99, 32, 105, 118], 12), 12),
        hp: hkdf_sha256_expand(secret, label_info(seq![113u8, 117, 105, 99, 32, 104, 112], 16), 16),
    }
}

/// The `i`th byte of a 64-bit big-endian number.
pub open spec fn be64_byte(v: u64, i: int) -> u8 {
    let d: int = if i == 0 {
        0x100000000000000
    } else if i == 1 {
        0x1000000000000
    } else if i == 2 {
        0x10000000000
    } else if i == 3 {
        0x100000000
    } else if i == 4 {
        0x1000000
    } else if i == 5 {
        0x10000
    } else if i == 6 {
        0x100
    } else {
        1
    };
    (v as int / d % 256) as u8
}

/// The AEAD nonce of a packet: the base, with the packet number folded into its
/// last eight bytes.
pub open spec fn packet_nonce(iv: Seq<u8>, packet_number: u64) -> Seq<u8> {
    Seq::new(
        iv.len(),
        |i: int|
            if i < 4 {
                iv[i]
            } else {
                iv[i] ^ be64_byte(packet_number, i - 4)
            },
    )
}

impl InitialKeys {
    /// Whether every key has the length that its cipher takes.
    pub open spec fn valid(&self) -> bool {
        self.key@.len() == 16 && self.iv@.len() == 12 && self.hp@.len() == 16
    }

    /// Derive the client's keys from its first destination connection id.
    pub fn client(dcid: &[u8]) -> (r: Result<Self, ()>)
        ensures
            r matches Ok(k) && k@ == client_keys(dcid@) && k.valid(),
            r matches Ok(k) && k@.key == hkdf_sha256_expand(
                hkdf_sha256(initial_salt_v1(), dcid@, label_info(peek::ascii("client in"@), 32), 32),
                label_info(peek::ascii("quic key"@), 16),
                16,
            ),
    {
        let salt: [u8; 20] = [
            0x38, 0x76, 0x2c, 0xf7, 0xf5, 0x59, 0x34, 0xb3, 0x4d, 0x17,
            0x9a, 0xe6, 0xa4, 0xc8, 0x0c, 0xad, 0xcc, 0xbb, 0x7f, 0x0a,
        ];
        let client_in: [u8; 9] = [99, 108, 105, 101, 110, 116, 32, 105, 110];
        let quic_key: [u8; 8] = [113, 117, 105, 99, 32, 107, 101, 121];
        let quic_iv: [u8; 7] = [113, 117, 105, 99, 32, 105, 118];
        let quic_hp: [u8; 7] = [113, 117, 105, 99, 32, 104, 112];
        assert(salt@ =~= initial_salt_v1());
        assert(client_in@ =~= seq![99u8, 108, 105, 101, 110, 116, 32, 105, 110]);
        assert(quic_key@ =~= seq![113u8, 117, 105, 99, 32, 107, 101, 121]);
        proof {
            reveal_strlit("client in");
            reveal_strlit("quic key");
            assert(client_in@ =~= peek::ascii("client in"@));
            assert(quic_key@ =~= peek::ascii("quic key"@));
        }
        assert(quic_iv@ =~= seq![113u8, 117, 105, 99, 32, 105, 118]);
        assert(quic_hp@ =~= seq![113u8, 117, 105, 99, 32, 104, 112]);
        let info = info_of(client_in.as_slice(), 32);
        let secret = match hkdf_derive(salt.as_slice(), dcid, info.as_slice(), 32) {
            Some(v) => v,
            None => return Err(()),
        };
        let key = expand_label(secret.as_slice(), quic_key.as_slice(), 16)?;
        let iv = expand_label(secret.as_slice(), quic_iv.as_slice(), 12)?;
        let hp = expand_label(secret.as_slice(), quic_hp.as_slice(), 16)?;
        Ok(InitialKeys { key, iv, hp })
    }

    /// The header-protection mask of a ciphertext sample.
    pub fn header_mask(&self, sample: &[u8]) -> (r: Result<Vec<u8>, ()>)
        requires
            self.valid(),
            sample@.len() == 16,
        ensures
            r matches Ok(v) && v@ == aes128_block(self@.hp, sample@) && v@.len() == 16,
    {
        match aes_encrypt(self.hp.as_slice(), sample) {
            Some(v) => Ok(v),
            None => Err(()),
        }
    }

    /// The AEAD nonce of a packet.
    pub fn nonce(&self, packet_number: u64) -> (r: Vec<u8>)
        requires
            self.valid(),
        ensures
            r@ == packet_nonce(self@.iv, packet_number),
            r@.len() == 12,
    {
        let n = packet_number;
        let folded: [u8; 8] = [
            (n / 0x100000000000000 % 256) as u8,
            (n / 0x1000000000000 % 256) as u8,
            (n / 0x10000000000 % 256) as u8,
            (n / 0x100000000 % 256) as u8,
            (n / 0x1000000 % 256) as u8,
            (n / 0x10000 % 256) as u8,
            (n / 0x100 % 256) as u8,
            (n % 256) as u8,
        ];
        let mut out: Vec<u8> = Vec::new();
        let mut i: usize = 0;
        while i < 12
            invariant
                self.valid(),
                i <= 12,
                out@.len() == i,
                forall|k: int| 0 <= k < 8 ==> folded@[k] == be64_byte(packet_number, k),
                forall|k: int| 0 <= k < i ==> out@[k] == packet_nonce(self@.iv, packet_number)[k],
            decreases 12 - i,
        {
            if i < 4 {
                out.push(self.iv[i]);
            } else {
                out.push(self.iv[i] ^ folded[i - 4]);
            }
            i = i + 1;
        }
        assert(out@ =~= packet_nonce(self@.iv, packet_number));
        out
    }
}

// ---------------------------------------------------------------------------
// One Initial packet
// ---------------------------------------------------------------------------

/// Where the parts of an Initial packet lie.
pub struct InitialLayout {
    /// The destination connection id, as a range of the packet.
    pub dcid: (int, int),
    /// Where the packet number begins.
    pub pn_at: int,
    /// The length of packet number, payload and tag.
    pub length: int,
}

/// What the unprotected part of a header says.
pub enum LayoutAnswer {
    /// Not a QUIC v1 Initial.
    Other,
    /// An Initial whose header does not hold together.
    Malformed,
    Initial(InitialLayout),
}

/// The layout of a packet: the long-header form with version 1 and type Initial,
/// two connection ids, a token, the length, and room for a ciphertext sample
/// four bytes behind the packet number.
pub open spec fn initial_layout(p: Seq<u8>) -> LayoutAnswer {
    if p.len() < 7 || p[0] < 0x80 || octets::be32_at(p, 1) != QUIC_V1 || p[0] as int / 16 % 4 != 0 {
        LayoutAnswer::Other
    } else {
        let dcid_end = 6 + p[5];
        if dcid_end >= p.len() {
            LayoutAnswer::Malformed
        } else {
            let token_at = dcid_end + 1 + p[dcid_end];
            match varint_at(p, token_at) {
                None => LayoutAnswer::Malformed,
                Some((token_len, token_start)) => match varint_at(p, token_start + token_len) {
                    None => LayoutAnswer::Malformed,
                    Some((length, pn_at)) => if pn_at + 20 > p.len() {
                        LayoutAnswer::Malformed
                    } else {
                        LayoutAnswer::Initial(InitialLayout { dcid: (6, dcid_end), pn_at, length })
                    },
                },
            }
        }
    }
}

/// The layout of an Initial packet in executable form.
#[derive(Debug, Clone, Copy)]
pub struct Layout {
    /// One past the destination connection id, which begins at 6.
    pub dcid_end: usize,
    /// Where the packet number begins.
    pub pn_at: usize,
    /// The length of packet number, payload and tag.
    pub length: u64,
}

/// Find the parts of an Initial packet. `Ok(None)` is any other packet.
pub fn parse_layout(packet: &[u8]) -> (r: Result<Option<Layout>, ()>)
    ensures
        match r {
            Ok(None) => initial_layout(packet@) is Other,
            Ok(Some(l)) => {
                &&& initial_layout(packet@) == LayoutAnswer::Initial(
                    InitialLayout { dcid: (6, l.dcid_end as int), pn_at: l.pn_at as int, length: l.length as int },
                )
                &&& 6 <= l.dcid_end < l.pn_at
                &&& l.pn_at + 20 <= packet.len()
            },
            Err(_) => initial_layout(packet@) is Malformed,
        },
{
    if packet.len() < 7 || packet[0] < 0x80 {
        return Ok(None);
    }
    if read_be32(packet, 1) != QUIC_V1 || packet[0] / 16 % 4 != 0 {
        return Ok(None);
    }
    let dcid_end = 6 + packet[5] as usize;
    if dcid_end >= packet.len() {
        return Err(());
    }
    let mut at: usize = dcid_end + 1 + packet[dcid_end] as usize;
    let token_len = read_varint(packet, &mut at)?;
    if token_len > (packet.len() - at) as u64 {
        return Err(());
    }
    at = at + token_len as usize;
    let length = read_varint(packet, &mut at)?;
    if packet.len() - at < 20 {
        return Err(());
    }
    Ok(Some(Layout { dcid_end, pn_at: at, length }))
}

/// The big-endian number that a byte string spells.
pub open spec fn be_number(s: Seq<u8>) -> nat
    decreases s.len(),
{
    if s.len() == 0 {
        0
    } else {
        be_number(s.drop_last()) * 256 + s.last() as nat
    }
}

/// The first byte with its protection taken off.
pub open spec fn clear_first(first: u8, mask: Seq<u8>) -> u8 {
    first ^ (mask[0] & 0x0f)
}

/// The length of the packet number, from the unprotected first byte.
pub open spec fn packet_number_len(first: u8) -> int {
    (first & 3) as int + 1
}

/// The header with its protection taken off, packet number included.
pub open spec fn clear_header(p: Seq<u8>, pn_at: int, mask: Seq<u8>) -> Seq<u8> {
    let n = packet_number_len(clear_first(p[0], mask));
    Seq::new(
        (pn_at + n) as nat,
        |i: int|
            if i == 0 {
                clear_first(p[0], mask)
            } else if i >= pn_at {
                p[i] ^ mask[i - pn_at + 1]
            } else {
                p[i]
            },
    )
}

/// What a packet turns out to be.
pub enum PacketAnswer {
    /// Not a QUIC v1 Initial.
    Other,
    /// An Initial that does not hold together or does not decrypt.
    Malformed,
    /// An Initial of `consumed` bytes with this payload.
    Payload { consumed: int, payload: Seq<u8> },
}

/// What a packet with a known layout opens to under a header mask and keys.
pub open spec fn opened_packet(p: Seq<u8>, pn_at: int, length: int, mask: Seq<u8>, keys: KeysView) -> PacketAnswer {
    let header = clear_header(p, pn_at, mask);
    let pn_len = header.len() - pn_at;
    let end = pn_at + length;
    if end > p.len() || length < pn_len + 16 {
        PacketAnswer::Malformed
    } else {
        let pn = be_number(header.subrange(pn_at, pn_at + pn_len));
        match aes128_gcm_open(
            keys.key,
            packet_nonce(keys.iv, pn as u64),
            header,
            p.subrange(pn_at + pn_len, end - 16),
            p.subrange(end - 16, end),
        ) {
            Some(payload) => PacketAnswer::Payload { consumed: end, payload },
            None => PacketAnswer::Malformed,
        }
    }
}

/// What a packet opens to: its layout is found, the mask is made from the sample
/// four bytes behind the packet number, and the rest is decrypted.
pub open spec fn packet_answer(p: Seq<u8>) -> PacketAnswer {
    match initial_layout(p) {
        LayoutAnswer::Other => PacketAnswer::Other,
        LayoutAnswer::Malformed => PacketAnswer::Malformed,
        LayoutAnswer::Initial(l) => {
            let keys = client_keys(p.subrange(l.dcid.0, l.dcid.1));
            let mask = aes128_block(keys.hp, p.subrange(l.pn_at + 4, l.pn_at + 20));
            opened_packet(p, l.pn_at, l.length, mask, keys)
        },
    }
}

/// A decrypted Initial packet.
#[derive(Debug, Clone)]
pub struct DecryptedInitial {
    /// The length of the packet in the datagram.
    pub consumed: usize,
    /// Its frames.
    pub payload: Vec<u8>,
}

/// Take the protection off a packet with a known layout and decrypt it.
pub fn open_packet(packet: &[u8], layout: &Layout, mask: &[u8], keys: &InitialKeys) -> (r: Result<
    DecryptedInitial,
    (),
>)
    requires
        keys.valid(),
        mask@.len() == 16,
        0 < layout.pn_at,
        layout.pn_at + 20 <= packet@.len(),
    ensures
        match r {
            Ok(d) => opened_packet(packet@, layout.pn_at as int, layout.length as int, mask@, keys@)
                == (PacketAnswer::Payload { consumed: d.consumed as int, payload: d.payload@ })
                && layout.pn_at < d.consumed <= packet@.len(),
            Err(_) => opened_packet(packet@, layout.pn_at as int, layout.length as int, mask@, keys@) is Malformed,
        },
{
    let pn_at = layout.pn_at;
    let first: u8 = packet[0] ^ (mask[0] & 0x0f);
    assert(first & 3 <= 3) by (bit_vector);
    let pn_len = (first & 3) as usize + 1;
    let ghost p = packet@;
    let ghost clear = clear_header(p, pn_at as int, mask@);
    assert(clear.len() == pn_at + pn_len);
    let room = packet.len() - pn_at;
    if layout.length > room as u64 || layout.length < (pn_len + 16) as u64 {
        return Err(());
    }
    let end = pn_at + layout.length as usize;
    let mut header: Vec<u8> = to_vec(slice_subrange(packet, 0, pn_at));
    header.set(0, first);
    let mut pn: u64 = 0;
    let mut i: usize = 0;
    assert(header@ =~= clear.subrange(0, pn_at as int));
    assert(clear.subrange(pn_at as int, pn_at as int) =~= Seq::<u8>::empty());
    while i < pn_len
        invariant
            i <= pn_len <= 4,
            p == packet@,
            pn_at + 20 <= packet.len(),
            pn_at > 0,
            mask@.len() == 16,
            clear == clear_header(p, pn_at as int, mask@),
            clear.len() == pn_at + pn_len,
            header@ == clear.subrange(0, pn_at + i),
            pn == be_number(clear.subrange(pn_at as int, pn_at + i)),
            i == 0 ==> pn < 1,
            i == 1 ==> pn < 256,
            i == 2 ==> pn < 65536,
            i == 3 ==> pn < 16777216,
            i == 4 ==> pn < 4294967296,
        decreases pn_len - i,
    {
        let b = packet[pn_at + i] ^ mask[i + 1];
        header.push(b);
        proof {
            let longer = clear.subrange(pn_at as int, pn_at + i + 1);
            assert(longer.drop_last() =~= clear.subrange(pn_at as int, pn_at + i));
            assert(longer.last() == b);
            assert(header@ =~= clear.subrange(0, pn_at + i + 1));
        }
        pn = pn * 256 + b as u64;
        i = i + 1;
    }
    assert(header@ =~= clear);
    let nonce = keys.nonce(pn);
    match gcm_open(
        keys.key.as_slice(),
        nonce.as_slice(),
        header.as_slice(),
        slice_subrange(packet, pn_at + pn_len, end - 16),
        slice_subrange(packet, end - 16, end),
    ) {
        Some(payload) => Ok(DecryptedInitial { consumed: end, payload }),
        None => Err(()),
    }
}

/// Decrypt the Initial packet at the front of `packet`. `Ok(None)` is any other
/// packet.
pub fn decrypt_initial(packet: &[u8]) -> (r: Result<Option<DecryptedInitial>, ()>)
    ensures
        match r {
            Ok(None) => packet_answer(packet@) is Other,
            Ok(Some(d)) => packet_answer(packet@) == (PacketAnswer::Payload {
                consumed: d.consumed as int,
                payload: d.payload@,
            }) && 0 < d.consumed <= packet@.len(),
            Err(_) => packet_answer(packet@) is Malformed,
        },
{
    let layout = match parse_layout(packet)? {
        Some(l) => l,
        None => return Ok(None),
    };
    let keys = InitialKeys::client(slice_subrange(packet, 6, layout.dcid_end))?;
    let mask = keys.header_mask(slice_subrange(packet, layout.pn_at + 4, layout.pn_at + 20))?;
    let opened = open_packet(packet, &layout, mask.as_slice(), &keys)?;
    Ok(Some(opened))
}

// ---------------------------------------------------------------------------
// Reassembly
// ---------------------------------------------------------------------------

/// What the inspected datagrams say about the server name.
#[derive(Debug, Clone, PartialEq, Eq)]
pub enum InitialSni {
    Name(String),
    NoSni,
    NeedMore,
    Invalid,
}

/// What an [`InitialSni`] says, over character sequences.
pub enum SniAnswer {
    Name(Seq<char>),
    NoSni,
    NeedMore,
    Invalid,
}

impl View for InitialSni {
    type V = SniAnswer;

    open spec fn view(&self) -> SniAnswer {
        match self {
            InitialSni::Name(s) => SniAnswer::Name(s@),
            InitialSni::NoSni => SniAnswer::NoSni,
            InitialSni::NeedMore => SniAnswer::NeedMore,
            InitialSni::Invalid => SniAnswer::Invalid,
        }
    }
}

/// How far `at` is from `end`; nothing once it is there.
pub open spec fn ahead_of(at: int, end: int) -> int {
    if at < end {
        end - at
    } else {
        0
    }
}

/// The CRYPTO fragments received so far, by stream offset.
#[verifier::ext_equal]
pub struct CryptoStream {
    pub fragments: Map<u64, Seq<u8>>,
    /// How many bytes they hold together.
    pub retained: nat,
}

/// Reassembles one client's Initial CRYPTO stream, bounded before address
/// validation so that a fragmented ClientHello cannot exhaust memory.
#[derive(Debug)]
pub struct InitialInspector {
    crypto: BTreeMap<u64, Vec<u8>>,
    retained: usize,
}

impl View for InitialInspector {
    type V = CryptoStream;

    closed spec fn view(&self) -> CryptoStream {
        CryptoStream { fragments: self.crypto@.map_values(|v: Vec<u8>| v@), retained: self.retained as nat }
    }
}

impl CryptoStream {
    /// No fragment received.
    pub open spec fn empty() -> Self {
        CryptoStream { fragments: Map::empty(), retained: 0 }
    }

    /// The bounds that every stream keeps: all fragments end within the largest
    /// ClientHello, and the retained bytes do not exceed it.
    pub open spec fn bounded(self) -> bool {
        &&& self.retained <= MAX_CLIENT_HELLO
        &&& forall|k: u64| #[trigger]
            self.fragments.contains_key(k) ==> k + self.fragments[k].len() <= MAX_CLIENT_HELLO
    }

    /// The stream with a fragment more. A fragment beyond the bounds is refused;
    /// one at a known offset is a retransmission and changes nothing.
    pub open spec fn with_fragment(self, offset: int, data: Seq<u8>) -> Option<Self> {
        if offset + data.len() > MAX_CLIENT_HELLO || self.retained + data.len() > MAX_CLIENT_HELLO {
            None
        } else if self.fragments.contains_key(offset as u64) {
            Some(self)
        } else {
            Some(
                CryptoStream {
                    fragments: self.fragments.insert(offset as u64, data),
                    retained: self.retained + data.len(),
                },
            )
        }
    }

    /// The contiguous bytes from `at` on. An empty fragment ends them.
    pub open spec fn contiguous(self, at: int) -> Seq<u8>
        decreases ahead_of(at, MAX_CLIENT_HELLO as int),
    {
        if at < 0 || at >= MAX_CLIENT_HELLO || !self.fragments.contains_key(at as u64)
            || self.fragments[at as u64].len() == 0 {
            Seq::empty()
        } else {
            let part = self.fragments[at as u64];
            part + self.contiguous(at + part.len())
        }
    }

    /// The handshake bytes at the front of the stream, below the size bound.
    pub open spec fn hello(self) -> Option<Seq<u8>> {
        let bytes = self.contiguous(0);
        if bytes.len() == 0 || bytes.len() >= MAX_CLIENT_HELLO {
            None
        } else {
            Some(bytes)
        }
    }

    /// The stream after the frames of `payload` from `at` on, and whether they
    /// were all in order. PADDING, PING and ACK frames are skipped; any other
    /// frame but CRYPTO, and any frame cut short, ends the reading.
    pub open spec fn with_frames(self, payload: Seq<u8>, at: int) -> (Self, bool)
        decreases ahead_of(at, payload.len() as int),
    {
        if at < 0 || at >= payload.len() {
            (self, true)
        } else {
            match varint_at(payload, at) {
                None => (self, false),
                Some((kind, next)) => if next <= at {
                    (self, false)
                } else if kind == 0 || kind == 1 {
                    self.with_frames(payload, next)
                } else if kind == 6 {
                    match crypto_frame(payload, next) {
                        None => (self, false),
                        Some((offset, start, end)) => match self.with_fragment(
                            offset,
                            payload.subrange(start, end),
                        ) {
                            None => (self, false),
                            Some(longer) => if end <= at {
                                (self, false)
                            } else {
                                longer.with_frames(payload, end)
                            },
                        },
                    }
                } else if kind == 2 || kind == 3 {
                    match behind_ack(payload, next) {
                        Some(end) => if end <= at {
                            (self, false)
                        } else {
                            self.with_frames(payload, end)
                        },
                        None => (self, false),
                    }
                } else {
                    (self, false)
                },
            }
        }
    }

    /// The stream after the Initial packets of a datagram from `at` on, and
    /// whether they were all in order. The first other packet ends the reading.
    pub open spec fn with_packets(self, datagram: Seq<u8>, at: int) -> (Self, bool)
        decreases datagram.len() - at,
    {
        if at < 0 || at >= datagram.len() {
            (self, true)
        } else {
            match packet_answer(datagram.subrange(at, datagram.len() as int)) {
                PacketAnswer::Other => (self, true),
                PacketAnswer::Malformed => (self, false),
                PacketAnswer::Payload { consumed, payload } => {
                    let (longer, ok) = self.with_frames(payload, 0);
                    if !ok || consumed <= 0 {
                        (longer, false)
                    } else {
                        longer.with_packets(datagram, at + consumed)
                    }
                },
            }
        }
    }

    /// What the stream says about the server name.
    pub open spec fn answer(self) -> SniAnswer {
        match self.hello() {
            None => SniAnswer::NeedMore,
            Some(hello) => match peek::tls_answer(tls_record_of(hello)) {
                TlsAnswer::Sni(name) => SniAnswer::Name(name),
                TlsAnswer::NoSni => SniAnswer::NoSni,
                TlsAnswer::NeedMore => SniAnswer::NeedMore,
                TlsAnswer::NotClientHello => SniAnswer::Invalid,
            },
        }
    }
}

/// The fields of a CRYPTO frame that start at `at`: stream offset, and the range
/// of its data.
pub open spec fn crypto_frame(payload: Seq<u8>, at: int) -> Option<(int, int, int)> {
    match varint_at(payload, at) {
        None => None,
        Some((offset, len_at)) => match varint_at(payload, len_at) {
            None => None,
            Some((len, start)) => if start + len > payload.len() {
                None
            } else {
                Some((offset, start, start + len))
            },
        },
    }
}

/// A handshake message in the TLS record that would carry it.
pub open spec fn tls_record_of(handshake: Seq<u8>) -> Seq<u8> {
    if handshake.len() > 65535 {
        Seq::empty()
    } else {
        seq![0x16u8, 0x03, 0x01, (handshake.len() / 256) as u8, (handshake.len() % 256) as u8] + handshake
    }
}

/// Put a handshake message into the TLS record that would carry it.
pub fn tls_record(handshake: &[u8]) -> (r: Vec<u8>)
    ensures
        r@ == tls_record_of(handshake@),
{
    if handshake.len() > 65535 {
        return Vec::new();
    }
    let mut record: Vec<u8> = vec![
        0x16,
        0x03,
        0x01,
        (handshake.len() / 256) as u8,
        (handshake.len() % 256) as u8,
    ];
    append(&mut record, handshake);
    assert(record@ =~= tls_record_of(handshake@));
    record
}

impl Default for InitialInspector {
    fn default() -> (r: Self)
        ensures
            r@ == CryptoStream::empty(),
            r@.bounded(),
    {
        let r = InitialInspector { crypto: BTreeMap::new(), retained: 0 };
        assert(r@ =~= CryptoStream::empty());
        r
    }
}

impl InitialInspector {
    /// How many bytes of the stream are held.
    pub fn buffered_bytes(&self) -> (r: usize)
        ensures
            r == self@.retained,
    {
        self.retained
    }

    /// Take in one datagram and say what is known of the server name.
    pub fn ingest(&mut self, datagram: &[u8]) -> (r: InitialSni)
        requires
            old(self)@.bounded(),
        ensures
            final(self)@.bounded(),
            final(self)@ == old(self)@.with_packets(datagram@, 0).0,
            r@ == (if old(self)@.with_packets(datagram@, 0).1 {
                final(self)@.answer()
            } else {
                SniAnswer::Invalid
            }),
    {
        let ghost before = self@;
        let ghost whole = before.with_packets(datagram@, 0);
        let mut at: usize = 0;
        while at < datagram.len()
            invariant_except_break
                self@.with_packets(datagram@, at as int) == whole,
            invariant
                at <= datagram@.len(),
                before == old(self)@,
                whole == before.with_packets(datagram@, 0),
                self@.bounded(),
            ensures
                whole == (self@, true),
            decreases datagram@.len() - at,
        {
            match decrypt_initial(slice_subrange(datagram, at, datagram.len())) {
                Ok(Some(packet)) => {
                    if self.add_frames(packet.payload.as_slice()).is_err() {
                        return InitialSni::Invalid;
                    }
                    at = at + packet.consumed;
                },
                Ok(None) => {
                    break;
                },
                Err(_) => {
                    return InitialSni::Invalid;
                },
            }
        }
        self.conclude()
    }

    /// What the stream received so far says about the server name.
    pub fn conclude(&self) -> (r: InitialSni)
        requires
            self@.bounded(),
        ensures
            r@ == self@.answer(),
    {
        match self.client_hello() {
            None => InitialSni::NeedMore,
            Some(hello) => {
                let record = tls_record(hello.as_slice());
                match parse_tls_sni(record.as_slice()) {
                    TlsParse::Sni(name) => InitialSni::Name(name),
                    TlsParse::NoSni => InitialSni::NoSni,
                    TlsParse::NeedMore => InitialSni::NeedMore,
                    TlsParse::NotClientHello => InitialSni::Invalid,
                }
            },
        }
    }

    /// Take in the frames of one decrypted Initial packet. The fragments in front
    /// of the first bad frame are kept.
    pub fn add_frames(&mut self, payload: &[u8]) -> (r: Result<(), ()>)
        requires
            old(self)@.bounded(),
        ensures
            final(self)@.bounded(),
            final(self)@ == old(self)@.with_frames(payload@, 0).0,
            r is Ok == old(self)@.with_frames(payload@, 0).1,
    {
        let ghost whole = self@.with_frames(payload@, 0);
        let mut at: usize = 0;
        while at < payload.len()
            invariant
                at <= payload@.len(),
                whole == old(self)@.with_frames(payload@, 0),
                self@.with_frames(payload@, at as int) == whole,
                self@.bounded(),
            decreases payload@.len() - at,
        {
            let kind = match read_varint(payload, &mut at) {
                Ok(v) => v,
                Err(_) => return Err(()),
            };
            if kind == 0 || kind == 1 {
                // PADDING and PING
            } else if kind == 6 {
                let offset = match read_varint(payload, &mut at) {
                    Ok(v) => v,
                    Err(_) => return Err(()),
                };
                let len = match read_varint(payload, &mut at) {
                    Ok(v) => v,
                    Err(_) => return Err(()),
                };
                if len > (payload.len() - at) as u64 {
                    return Err(());
                }
                let end = at + len as usize;
                if self.insert_crypto(offset, slice_subrange(payload, at, end)).is_err() {
                    return Err(());
                }
                at = end;
            } else if kind == 2 || kind == 3 {
                if skip_ack(payload, &mut at).is_err() {
                    return Err(());
                }
            } else {
                return Err(());
            }
        }
        Ok(())
    }

    /// Keep one fragment of the stream.
    pub fn insert_crypto(&mut self, offset: u64, data: &[u8]) -> (r: Result<(), ()>)
        requires
            old(self)@.bounded(),
        ensures
            final(self)@.bounded(),
            match old(self)@.with_fragment(offset as int, data@) {
                Some(longer) => r is Ok && final(self)@ == longer,
                None => r is Err && final(self)@ == old(self)@,
            },
    {

        if data.len() > MAX_CLIENT_HELLO || offset > (MAX_CLIENT_HELLO - data.len()) as u64 {
            return Err(());
        }
        if data.len() > MAX_CLIENT_HELLO - self.retained {
            return Err(());
        }
        if self.crypto.contains_key(&offset) {
            return Ok(()); // harmless retransmission
        }
        let ghost before = self@;
        self.retained = self.retained + data.len();
        self.crypto.insert(offset, to_vec(data));
        proof {
            let longer = before.with_fragment(offset as int, data@)->0;
            assert(self@.fragments =~= longer.fragments);
            assert(self@ =~= longer);
            assert forall|k: u64| #[trigger] self@.fragments.contains_key(k) implies k + self@.fragments[k].len()
                <= MAX_CLIENT_HELLO by {
                if k != offset {
                    assert(before.fragments.contains_key(k));
                }
            }
        }
        Ok(())
    }

    /// The handshake bytes at the front of the stream.
    pub fn client_hello(&self) -> (r: Option<Vec<u8>>)
        requires
            self@.bounded(),
        ensures
            match r {
                Some(v) => self@.hello() == Some(v@),
                None => self@.hello() is None,
            },
    {

        let mut at: u64 = 0;
        let mut out: Vec<u8> = Vec::new();
        let ghost all = self@.contiguous(0);
        assert(out@ + all =~= all);
        while at < MAX_CLIENT_HELLO as u64
            invariant_except_break
                out@ + self@.contiguous(at as int) == all,
                at <= MAX_CLIENT_HELLO,
            invariant
                self@.bounded(),
                all == self@.contiguous(0),
            ensures
                out@ == all,
            decreases MAX_CLIENT_HELLO - at,
        {
            match self.crypto.get(&at) {
                Some(part) => {
                    assert(self@.fragments.contains_key(at));
                    assert(self@.fragments[at] == part@);
                    if part.len() == 0 {
                        assert(out@ + Seq::<u8>::empty() =~= out@);
                        break;
                    }
                    proof {
                        let rest = self@.contiguous(at + part@.len());
                        assert(out@ + (part@ + rest) =~= (out@ + part@) + rest);
                    }
                    append(&mut out, part.as_slice());
                    at = at + part.len() as u64;
                },
                None => {
                    assert(!self@.fragments.contains_key(at));
                    assert(out@ + Seq::<u8>::empty() =~= out@);
                    break;
                },
            }
            assert(at == MAX_CLIENT_HELLO ==> out@ + Seq::<u8>::empty() =~= out@);
        }
        if out.len() == 0 || out.len() >= MAX_CLIENT_HELLO {
            None
        } else {
            Some(out)
        }
    }
}

// ---------------------------------------------------------------------------
// Laws
// ---------------------------------------------------------------------------

/// Whatever a peer sends, the retained bytes stay within the largest ClientHello.
pub proof fn law_frames_stay_bounded(stream: CryptoStream, payload: Seq<u8>, at: int)
    requires
        stream.bounded(),
    ensures
        stream.with_frames(payload, at).0.bounded(),
    decreases ahead_of(at, payload.len() as int),
{
    if 0 <= at < payload.len() {
        match varint_at(payload, at) {
            Some((kind, next)) => {
                if next > at {
                    law_frames_stay_bounded(stream, payload, next);
                    if kind == 6 {
                        match crypto_frame(payload, next) {
                            Some((offset, start, end)) => {
                                let data = payload.subrange(start, end);
                                if offset >= 0 && stream.with_fragment(offset, data) is Some && end > at {
                                    let longer = stream.with_fragment(offset, data)->0;
                                    assert(offset as u64 == offset);
                                    assert forall|k: u64| #[trigger] longer.fragments.contains_key(k) implies k
                                        + longer.fragments[k].len() <= MAX_CLIENT_HELLO by {
                                        if k != offset {
                                            assert(stream.fragments.contains_key(k));
                                        }
                                    }
                                    law_frames_stay_bounded(longer, payload, end);
                                }
                            },
                            None => {},
                        }
                    }
                    match behind_ack(payload, next) {
                        Some(end) => {
                            if end > at {
                                law_frames_stay_bounded(stream, payload, end);
                            }
                        },
                        None => {},
                    }
                }
            },
            None => {},
        }
    }
}

/// A ClientHello cut into two fragments is put together again, in whichever
/// order the fragments arrive.
pub proof fn law_two_fragments_reassemble(first: Seq<u8>, second: Seq<u8>)
    requires
        0 < first.len(),
        0 < second.len(),
        first.len() + second.len() < MAX_CLIENT_HELLO,
    ensures
        ({
            let none = CryptoStream::empty();
            let front = none.with_fragment(0, first)->0;
            let back = none.with_fragment(first.len() as int, second)->0;
            let in_order = front.with_fragment(first.len() as int, second);
            let swapped = back.with_fragment(0, first);
            &&& front.hello() == Some(first)
            &&& back.hello() is None
            &&& in_order is Some
            &&& in_order->0.hello() == Some(first + second)
            &&& swapped is Some
            &&& swapped->0.hello() == Some(first + second)
        }),
{
    reveal_with_fuel(CryptoStream::contiguous, 4);
    let none = CryptoStream::empty();
    let front = none.with_fragment(0, first)->0;
    let back = none.with_fragment(first.len() as int, second)->0;
    let in_order = front.with_fragment(first.len() as int, second)->0;
    let swapped = back.with_fragment(0, first)->0;
    let cut = first.len() as int;
    let total = first.len() + second.len();
    assert(cut as u64 == cut);
    assert(total as u64 == total);
    assert(front.contiguous(0) =~= first);
    assert(back.contiguous(0) =~= Seq::<u8>::empty());
    assert(in_order.contiguous(cut) =~= second);
    assert(in_order.contiguous(0) =~= first + second);
    assert(swapped.contiguous(cut) =~= second);
    assert(swapped.contiguous(0) =~= first + second);
}

/// A fragment at a known offset never changes the stream.
pub proof fn law_retransmission_is_harmless(stream: CryptoStream, offset: u64, data: Seq<u8>)
    requires
        stream.fragments.contains_key(offset),
        stream.with_fragment(offset as int, data) is Some,
    ensures
        stream.with_fragment(offset as int, data) == Some(stream),
{
}

// ---------------------------------------------------------------------------
// Written-out packets
// ---------------------------------------------------------------------------

/// The client's Initial keys are those that QUIC version 1 derives: the secret is
/// extracted from the connection id with the salt of the version, expanded under
/// `client in`, and the keys are expanded from it under labels of their own.
pub proof fn law_client_keys_are_those_of_version_1(dcid: Seq<u8>)
    ensures
        ({
            let salt = seq![
                0x38u8, 0x76, 0x2c, 0xf7, 0xf5, 0x59, 0x34, 0xb3, 0x4d, 0x17,
                0x9a, 0xe6, 0xa4, 0xc8, 0x0c, 0xad, 0xcc, 0xbb, 0x7f, 0x0a,
            ];
            let secret = hkdf_sha256(
                salt,
                dcid,
                seq![0u8, 32, 15] + peek::ascii("tls13 client in"@) + seq![0u8],
                32,
            );
            let keys = client_keys(dcid);
            &&& keys.key == hkdf_sha256_expand(secret, seq![0u8, 16, 14] + peek::ascii("tls13 quic key"@) + seq![0u8], 16)
            &&& keys.iv == hkdf_sha256_expand(secret, seq![0u8, 12, 13] + peek::ascii("tls13 quic iv"@) + seq![0u8], 12)
            &&& keys.hp == hkdf_sha256_expand(secret, seq![0u8, 16, 13] + peek::ascii("tls13 quic hp"@) + seq![0u8], 16)
        }),
{
    reveal_strlit("tls13 client in");
    reveal_strlit("tls13 quic key");
    reveal_strlit("tls13 quic iv");
    reveal_strlit("tls13 quic hp");
    assert(label_info(seq![99u8, 108, 105, 101, 110, 116, 32, 105, 110], 32) =~= seq![0u8, 32, 15] + peek::ascii(
        "tls13 client in"@,
    ) + seq![0u8]);
    assert(label_info(seq![113u8, 117, 105, 99, 32, 107, 101, 121], 16) =~= seq![0u8, 16, 14] + peek::ascii(
        "tls13 quic key"@,
    ) + seq![0u8]);
    assert(label_info(seq![113u8, 117, 105, 99, 32, 105, 118], 12) =~= seq![0u8, 12, 13] + peek::ascii(
        "tls13 quic iv"@,
    ) + seq![0u8]);
    assert(label_info(seq![113u8, 117, 105, 99, 32, 104, 112], 16) =~= seq![0u8, 16, 13] + peek::ascii(
        "tls13 quic hp"@,
    ) + seq![0u8]);
}

/// A number as a variable-length integer of one, two, four or eight bytes.
pub open spec fn varint(n: nat, width: nat) -> Seq<u8> {
    if width == 1 {
        seq![n as u8]
    } else if width == 2 {
        seq![(64 + n / 256) as u8, (n % 256) as u8]
    } else if width == 4 {
        seq![(128 + n / 0x1000000) as u8, (n / 0x10000 % 256) as u8, (n / 0x100 % 256) as u8, (n % 256) as u8]
    } else {
        seq![
            (192 + n / 0x100000000000000) as u8,
            (n / 0x1000000000000 % 256) as u8,
            (n / 0x10000000000 % 256) as u8,
            (n / 0x100000000 % 256) as u8,
            (n / 0x1000000 % 256) as u8,
            (n / 0x10000 % 256) as u8,
            (n / 0x100 % 256) as u8,
            (n % 256) as u8,
        ]
    }
}

/// Whether a number fits a variable-length integer of a width.
pub open spec fn varint_fits(n: nat, width: nat) -> bool {
    ||| width == 1 && n < 0x40
    ||| width == 2 && n < 0x4000
    ||| width == 4 && n < 0x40000000
    ||| width == 8 && n < 0x4000000000000000
}

/// A number is the sum of its bytes, each in its place.
proof fn lemma_bytes_of(v: nat)
    ensures
        v == v / 0x100000000000000 * 0x100000000000000 + v / 0x1000000000000 % 256 * 0x1000000000000 + v / 0x10000000000
            % 256 * 0x10000000000 + v / 0x100000000 % 256 * 0x100000000 + v / 0x1000000 % 256 * 0x1000000 + v / 0x10000
            % 256 * 0x10000 + v / 0x100 % 256 * 0x100 + v % 256,
{
    let q1 = v / 0x100;
    let q2 = v / 0x10000;
    let q3 = v / 0x1000000;
    let q4 = v / 0x100000000;
    let q5 = v / 0x10000000000;
    let q6 = v / 0x1000000000000;
    let q7 = v / 0x100000000000000;
    lemma_next_byte_of(v, 0x100, 0x10000);
    lemma_next_byte_of(v, 0x10000, 0x1000000);
    lemma_next_byte_of(v, 0x1000000, 0x100000000);
    lemma_next_byte_of(v, 0x100000000, 0x10000000000);
    lemma_next_byte_of(v, 0x10000000000, 0x1000000000000);
    lemma_next_byte_of(v, 0x1000000000000, 0x100000000000000);
    assert(v == q1 * 256 + v % 256);
    assert(q1 == q2 * 256 + q1 % 256);
    assert(q2 == q3 * 256 + q2 % 256);
    assert(q3 == q4 * 256 + q3 % 256);
    assert(q4 == q5 * 256 + q4 % 256);
    assert(q5 == q6 * 256 + q5 % 256);
    assert(q6 == q7 * 256 + q6 % 256);
}

proof fn lemma_next_byte_of(v: nat, d: nat, e: nat)
    requires
        d > 0,
        e == d * 256,
    ensures
        v / e == (v / d) / 256,
        v / d == v / e * 256 + v / d % 256,
{
    vstd::arithmetic::div_mod::lemma_div_denominator(v as int, d as int, 256);
}

/// A variable-length integer is read back, in whichever width it was written,
/// wherever it stands.
pub proof fn law_varint_is_read_back(front: Seq<u8>, n: nat, width: nat, back: Seq<u8>)
    requires
        varint_fits(n, width),
    ensures
        varint_at(front + varint(n, width) + back, front.len() as int) == Some(
            (n as int, (front.len() + width) as int),
        ),
{
    let b = front + varint(n, width) + back;
    lemma_varint_stands(b, front.len() as int, n, width);
}

/// Whether bytes stand somewhere.
spec fn lies(b: Seq<u8>, at: int, part: Seq<u8>) -> bool {
    &&& 0 <= at
    &&& at + part.len() <= b.len()
    &&& forall|i: int| 0 <= i < part.len() ==> b[at + i] == #[trigger] part[i]
}

proof fn lemma_varint_stands(b: Seq<u8>, at: int, n: nat, width: nat)
    requires
        varint_fits(n, width),
        lies(b, at, varint(n, width)),
    ensures
        varint_at(b, at) == Some((n as int, at + width)),
{
    let v = varint(n, width);
    assert(v.len() == width);
    assert(b[at + 0] == v[0]);
    if width == 2 {
        assert(b[at + 1] == v[1]);
    } else if width == 4 {
        assert(b[at + 1] == v[1] && b[at + 2] == v[2] && b[at + 3] == v[3]);
        lemma_bytes_of(n);
        assert(n / 0x100000000 == 0 && n / 0x10000000000 == 0 && n / 0x1000000000000 == 0 && n / 0x100000000000000 == 0);
        assert(n / 0x1000000 % 256 == n / 0x1000000);
    } else if width == 8 {
        assert(b[at + 1] == v[1] && b[at + 2] == v[2] && b[at + 3] == v[3]);
        assert(b[at + 4] == v[4] && b[at + 5] == v[5] && b[at + 6] == v[6] && b[at + 7] == v[7]);
        lemma_bytes_of(n);
        assert(n / 0x100000000000000 < 64);
    }
}

/// A packet's nonce is the base with the packet number, in twelve bytes, folded in.
pub proof fn law_nonce_folds_in_the_packet_number(iv: Seq<u8>, packet_number: u64)
    requires
        iv.len() == 12,
    ensures
        packet_nonce(iv, packet_number).len() == 12,
        forall|i: int| 0 <= i < 4 ==> packet_nonce(iv, packet_number)[i] == iv[i],
        be_number(Seq::new(8, |i: int| packet_nonce(iv, packet_number)[4 + i] ^ iv[4 + i])) == packet_number,
{
    let nonce = packet_nonce(iv, packet_number);
    let folded = Seq::new(8, |i: int| nonce[4 + i] ^ iv[4 + i]);
    assert forall|i: int| 0 <= i < 8 implies folded[i] == be64_byte(packet_number, i) by {
        let x = iv[4 + i];
        let y = be64_byte(packet_number, i);
        assert((x ^ y) ^ x == y) by (bit_vector);
    }
    let bytes = seq![
        be64_byte(packet_number, 0),
        be64_byte(packet_number, 1),
        be64_byte(packet_number, 2),
        be64_byte(packet_number, 3),
        be64_byte(packet_number, 4),
        be64_byte(packet_number, 5),
        be64_byte(packet_number, 6),
        be64_byte(packet_number, 7),
    ];
    assert(folded =~= bytes);
    lemma_be_number_8(bytes);
    lemma_bytes_of(packet_number as nat);
    assert(packet_number as nat / 0x100000000000000 < 256);
}

proof fn lemma_be_number_8(s: Seq<u8>)
    requires
        s.len() == 8,
    ensures
        be_number(s) == s[0] * 0x100000000000000 + s[1] * 0x1000000000000 + s[2] * 0x10000000000 + s[3] * 0x100000000
            + s[4] * 0x1000000 + s[5] * 0x10000 + s[6] * 0x100 + s[7],
{
    let s7 = s.drop_last();
    let s6 = s7.drop_last();
    let s5 = s6.drop_last();
    let s4 = s5.drop_last();
    let s3 = s4.drop_last();
    let s2 = s3.drop_last();
    let s1 = s2.drop_last();
    assert(s1.drop_last().len() == 0);
    assert(be_number(s1.drop_last()) == 0);
    assert(be_number(s1) == s[0]);
    assert(be_number(s2) == be_number(s1) * 256 + s[1]);
    assert(be_number(s3) == be_number(s2) * 256 + s[2]);
    assert(be_number(s4) == be_number(s3) * 256 + s[3]);
    assert(be_number(s5) == be_number(s4) * 256 + s[4]);
    assert(be_number(s6) == be_number(s5) * 256 + s[5]);
    assert(be_number(s7) == be_number(s6) * 256 + s[6]);
    assert(be_number(s) == be_number(s7) * 256 + s[7]);
}

/// What is in an Initial packet, beside what it is sealed to.
pub struct Initial {
    pub dcid: Seq<u8>,
    pub scid: Seq<u8>,
    pub token: Seq<u8>,
    /// The width of the token's length.
    pub token_width: nat,
    /// The width of the packet's length.
    pub length_width: nat,
    /// The packet number as it is written, one to four bytes.
    pub number: Seq<u8>,
}

impl Initial {
    /// Whether every part fits where its length is written, with a body of `n` bytes.
    pub open spec fn fits(self, n: nat) -> bool {
        &&& self.dcid.len() < 256
        &&& self.scid.len() < 256
        &&& varint_fits(self.token.len(), self.token_width)
        &&& varint_fits(self.number.len() + n + 16, self.length_width)
        &&& 1 <= self.number.len() <= 4
        &&& self.number.len() + n >= 4
    }

    /// The header in front of the packet number, without its first byte.
    pub open spec fn middle(self, n: nat) -> Seq<u8> {
        seq![0u8, 0, 0, 1, self.dcid.len() as u8] + (self.dcid + (seq![self.scid.len() as u8] + (self.scid + (varint(
            self.token.len(),
            self.token_width,
        ) + (self.token + varint(self.number.len() + n + 16, self.length_width))))))
    }

    /// The whole header, unprotected: a long header of type Initial.
    pub open spec fn header(self, n: nat) -> Seq<u8> {
        seq![(0xc0 + self.number.len() - 1) as u8] + self.middle(n) + self.number
    }

    /// The packet as it is sent: the sealed body and its tag, behind the header with
    /// four bits of its first byte and the packet number masked.
    pub open spec fn packet(self, body: Seq<u8>, tag: Seq<u8>, mask: Seq<u8>) -> Seq<u8> {
        let first = (0xc0 + self.number.len() - 1) as u8;
        seq![first ^ (mask[0] & 0x0f)] + self.middle(body.len()) + Seq::new(
            self.number.len(),
            |i: int| self.number[i] ^ mask[i + 1],
        ) + body + tag
    }

    /// The sample of a sealed body that the mask is made from: sixteen bytes, four
    /// behind the beginning of the packet number.
    pub open spec fn sample(self, body: Seq<u8>, tag: Seq<u8>) -> Seq<u8> {
        (body + tag).subrange(4 - self.number.len(), 20 - self.number.len())
    }
}

proof fn lemma_lies_apart(b: Seq<u8>, at: int, x: Seq<u8>, y: Seq<u8>)
    requires
        lies(b, at, x + y),
    ensures
        lies(b, at, x),
        lies(b, at + x.len(), y),
{
    let both = x + y;
    assert forall|i: int| 0 <= i < x.len() implies b[at + i] == #[trigger] x[i] by {
        assert(both[i] == x[i]);
    }
    assert forall|i: int| 0 <= i < y.len() implies b[at + x.len() + i] == #[trigger] y[i] by {
        assert(both[x.len() + i] == y[i]);
    }
}

proof fn lemma_first_byte(first: u8, m: u8)
    requires
        0xc0 <= first <= 0xc3,
    ensures
        0xc0 <= (first ^ (m & 0x0f)) <= 0xcf,
        (first ^ (m & 0x0f)) ^ (m & 0x0f) == first,
        (first & 3) == first - 0xc0,
{
    assert(0xc0 <= first && first <= 0xc3 ==> 0xc0 <= (first ^ (m & 0x0f)) && (first ^ (m & 0x0f)) <= 0xcf) by (bit_vector);
    assert((first ^ (m & 0x0f)) ^ (m & 0x0f) == first) by (bit_vector);
    assert(0xc0 <= first && first <= 0xc3 ==> (first & 3) == first - 0xc0) by (bit_vector);
}

impl Initial {
    /// Where the packet number begins.
    pub open spec fn number_at(self, n: nat) -> int {
        1 + self.middle(n).len() as int
    }
}

/// The layout of a written-out packet is found.
proof fn lemma_layout_is_found(p: Seq<u8>, i: Initial, n: nat)
    requires
        i.fits(n),
        lies(p, 1, i.middle(n)),
        0xc0 <= p[0] <= 0xcf,
        p.len() >= i.number_at(n) + i.number.len() + n + 16,
    ensures
        initial_layout(p) == LayoutAnswer::Initial(
            InitialLayout {
                dcid: (6, 6 + i.dcid.len() as int),
                pn_at: i.number_at(n),
                length: (i.number.len() + n + 16) as int,
            },
        ),
        p.subrange(6, 6 + i.dcid.len() as int) == i.dcid,
{
    let length = varint(i.number.len() + n + 16, i.length_width);
    let t5 = i.token + length;
    let t4 = varint(i.token.len(), i.token_width) + t5;
    let t3 = i.scid + t4;
    let t2 = seq![i.scid.len() as u8] + t3;
    let t1 = i.dcid + t2;
    let front = seq![0u8, 0, 0, 1, i.dcid.len() as u8];
    assert(i.middle(n) == front + t1);
    lemma_lies_apart(p, 1, front, t1);
    let one: int = 1;
    assert(p[one + 0] == front[0] && p[one + 1] == front[1] && p[one + 2] == front[2] && p[one + 3] == front[3] && p[one
        + 4] == front[4]);
    lemma_lies_apart(p, 6, i.dcid, t2);
    assert(p.subrange(6, 6 + i.dcid.len() as int) =~= i.dcid);
    let dcid_end = 6 + i.dcid.len() as int;
    lemma_lies_apart(p, dcid_end, seq![i.scid.len() as u8], t3);
    assert(p[dcid_end + 0] == seq![i.scid.len() as u8][0]);
    lemma_lies_apart(p, dcid_end + 1, i.scid, t4);
    let token_at = dcid_end + 1 + i.scid.len();
    lemma_lies_apart(p, token_at, varint(i.token.len(), i.token_width), t5);
    lemma_varint_stands(p, token_at, i.token.len(), i.token_width);
    let token_start = token_at + i.token_width;
    assert(varint(i.token.len(), i.token_width).len() == i.token_width);
    lemma_lies_apart(p, token_start, i.token, length);
    let length_at = token_start + i.token.len();
    lemma_varint_stands(p, length_at, i.number.len() + n + 16, i.length_width);
    assert(length.len() == i.length_width);
    assert(i.middle(n).len() == 5 + i.dcid.len() + 1 + i.scid.len() + i.token_width + i.token.len() + i.length_width);
}

/// The bytes of a written-out packet, part by part.
proof fn lemma_packet_bytes(i: Initial, body: Seq<u8>, tag: Seq<u8>, mask: Seq<u8>, rest: Seq<u8>)
    requires
        i.fits(body.len()),
        tag.len() == 16,
    ensures
        ({
            let p = i.packet(body, tag, mask);
            let whole = p + rest;
            let at = i.number_at(body.len());
            let k = i.number.len();
            &&& p.len() == at + k + body.len() + 16
            &&& whole.len() == p.len() + rest.len()
            &&& whole[0] == ((0xc0 + k - 1) as u8) ^ (mask[0] & 0x0f)
            &&& lies(whole, 1, i.middle(body.len()))
            &&& forall|j: int| 0 <= j < k ==> #[trigger] whole[at + j] == i.number[j] ^ mask[j + 1]
            &&& lies(whole, at + k, body + tag)
        }),
{
    let n = body.len();
    let head = seq![((0xc0 + i.number.len() - 1) as u8) ^ (mask[0] & 0x0f)];
    let masked = Seq::new(i.number.len(), |j: int| i.number[j] ^ mask[j + 1]);
    let p = i.packet(body, tag, mask);
    let whole = p + rest;
    let at = i.number_at(n);
    let k = i.number.len();
    let sealed = body + tag;
    assert(p == head + i.middle(n) + masked + body + tag);
    assert(whole[0] == head[0]);
    assert forall|j: int| 0 <= j < i.middle(n).len() implies whole[1 + j] == #[trigger] i.middle(n)[j] by {}
    assert forall|j: int| 0 <= j < k implies #[trigger] whole[at + j] == i.number[j] ^ mask[j + 1] by {
        assert(whole[at + j] == masked[j]);
    }
    assert forall|j: int| 0 <= j < sealed.len() implies whole[at + k + j] == #[trigger] sealed[j] by {}
}

/// The header of a written-out packet is unmasked.
proof fn lemma_header_is_unmasked(w: Seq<u8>, i: Initial, n: nat, mask: Seq<u8>)
    requires
        i.fits(n),
        w.len() >= i.number_at(n) + i.number.len(),
        w[0] == ((0xc0 + i.number.len() - 1) as u8) ^ (mask[0] & 0x0f),
        lies(w, 1, i.middle(n)),
        forall|j: int|
            0 <= j < i.number.len() ==> #[trigger] w[i.number_at(n) + j] == i.number[j] ^ mask[j + 1],
    ensures
        clear_header(w, i.number_at(n), mask) == i.header(n),
        i.header(n).subrange(i.number_at(n), i.number_at(n) + i.number.len()) == i.number,
        i.header(n).len() == i.number_at(n) + i.number.len(),
{
    let at = i.number_at(n);
    let k = i.number.len() as int;
    let first = (0xc0 + i.number.len() - 1) as u8;
    lemma_first_byte(first, mask[0]);
    let clear = clear_header(w, at, mask);
    let want = i.header(n);
    assert(want == seq![first] + i.middle(n) + i.number);
    assert(clear.len() == want.len());
    assert forall|j: int| 0 <= j < want.len() implies clear[j] == want[j] by {
        if j >= at {
            let x = i.number[j - at];
            let y = mask[j - at + 1];
            assert(w[at + (j - at)] == x ^ y);
            assert((x ^ y) ^ y == x) by (bit_vector);
        } else if j > 0 {
            let one: int = 1;
            assert(w[one + (j - 1)] == i.middle(n)[j - 1]);
        }
    }
    assert(clear =~= want);
    assert(want.subrange(at, at + k) =~= i.number);
}

/// The sample, the body and the tag of a written-out packet are found.
proof fn lemma_sealed_parts(w: Seq<u8>, i: Initial, body: Seq<u8>, tag: Seq<u8>)
    requires
        i.fits(body.len()),
        tag.len() == 16,
        lies(w, i.number_at(body.len()) + i.number.len(), body + tag),
    ensures
        ({
            let at = i.number_at(body.len());
            let k = i.number.len() as int;
            let end = at + k + body.len() + 16;
            &&& w.subrange(at + 4, at + 20) == i.sample(body, tag)
            &&& w.subrange(at + k, end - 16) == body
            &&& w.subrange(end - 16, end) == tag
        }),
{
    let n = body.len();
    let at = i.number_at(n);
    let k = i.number.len() as int;
    let sealed = body + tag;
    let end = at + k + n + 16;
    assert forall|j: int| 0 <= j < 16 implies w[at + 4 + j] == i.sample(body, tag)[j] by {
        assert(w[at + k + (4 - k + j)] == sealed[4 - k + j]);
    }
    assert(w.subrange(at + 4, at + 20) =~= i.sample(body, tag));
    assert forall|j: int| 0 <= j < n implies w[at + k + j] == body[j] by {
        assert(sealed[j] == body[j]);
    }
    assert(w.subrange(at + k, end - 16) =~= body);
    assert forall|j: int| 0 <= j < 16 implies w[at + k + n + j] == tag[j] by {
        assert(sealed[n + j] == tag[j]);
        assert(w[at + k + (n + j)] == sealed[n + j]);
    }
    assert(w.subrange(end - 16, end) =~= tag);
}

/// An Initial packet is opened with the keys of its destination connection id: where
/// the sealed body opens under the clear header and the packet number, that is the
/// payload, and the packet ends behind its tag, whatever follows it.
#[verifier::rlimit(60)]
pub proof fn law_sealed_packet_is_opened(i: Initial, body: Seq<u8>, tag: Seq<u8>, payload: Seq<u8>, rest: Seq<u8>)
    requires
        i.fits(body.len()),
        tag.len() == 16,
        aes128_gcm_open(
            client_keys(i.dcid).key,
            packet_nonce(client_keys(i.dcid).iv, be_number(i.number) as u64),
            i.header(body.len()),
            body,
            tag,
        ) == Some(payload),
    ensures
        ({
            let p = i.packet(body, tag, aes128_block(client_keys(i.dcid).hp, i.sample(body, tag)));
            packet_answer(p + rest) == (PacketAnswer::Payload { consumed: p.len() as int, payload })
        }),
{
    let keys = client_keys(i.dcid);
    let mask = aes128_block(keys.hp, i.sample(body, tag));
    let n = body.len();
    let p = i.packet(body, tag, mask);
    let whole = p + rest;
    lemma_packet_bytes(i, body, tag, mask, rest);
    lemma_first_byte((0xc0 + i.number.len() - 1) as u8, mask[0]);
    lemma_layout_is_found(whole, i, n);
    lemma_sealed_parts(whole, i, body, tag);
    lemma_header_is_unmasked(whole, i, n, mask);
}

/// PADDING and PING frames are passed over, and a frame that does not belong into an
/// Initial packet ends the reading.
pub proof fn law_idle_frames_are_passed_over(stream: CryptoStream, payload: Seq<u8>, at: int)
    requires
        0 <= at < payload.len(),
    ensures
        payload[at] == 0 || payload[at] == 1 ==> stream.with_frames(payload, at) == stream.with_frames(payload, at + 1),
        payload[at] == 4 || payload[at] == 5 || 7 <= payload[at] < 64 ==> stream.with_frames(payload, at) == (
            stream,
            false,
        ),
{
}

/// An ACK frame is passed over whole: four integers and two more for each further
/// range.
pub proof fn law_ack_is_passed_over(
    stream: CryptoStream,
    front: Seq<u8>,
    largest: nat,
    delay: nat,
    first: nat,
    gap: nat,
    more: nat,
    back: Seq<u8>,
)
    requires
        largest < 64,
        delay < 64,
        first < 64,
        gap < 64,
        more < 64,
    ensures
        ({
            let p = front + seq![2u8, largest as u8, delay as u8, 0u8, first as u8] + back;
            stream.with_frames(p, front.len() as int) == stream.with_frames(p, front.len() as int + 5)
        }),
        ({
            let p = front + seq![2u8, largest as u8, delay as u8, 1u8, first as u8, gap as u8, more as u8] + back;
            stream.with_frames(p, front.len() as int) == stream.with_frames(p, front.len() as int + 7)
        }),
{
    let at = front.len() as int;
    reveal_with_fuel(behind_varints, 4);
    let a = seq![2u8, largest as u8, delay as u8, 0u8, first as u8];
    let p = front + a + back;
    assert(p[at] == a[0] && p[at + 1] == a[1] && p[at + 2] == a[2] && p[at + 3] == a[3] && p[at + 4] == a[4]);
    let c = seq![2u8, largest as u8, delay as u8, 1u8, first as u8, gap as u8, more as u8];
    let q = front + c + back;
    assert(q[at] == c[0] && q[at + 1] == c[1] && q[at + 2] == c[2] && q[at + 3] == c[3] && q[at + 4] == c[4] && q[at + 5]
        == c[5] && q[at + 6] == c[6]);
}

proof fn lemma_padding(stream: CryptoStream, payload: Seq<u8>, at: int)
    requires
        0 <= at <= payload.len(),
        forall|i: int| at <= i < payload.len() ==> #[trigger] payload[i] == 0,
    ensures
        stream.with_frames(payload, at) == (stream, true),
    decreases payload.len() - at,
{
    if at < payload.len() {
        law_idle_frames_are_passed_over(stream, payload, at);
        lemma_padding(stream, payload, at + 1);
    }
}

/// A CRYPTO frame: its type, the offset and the length of its data, and the data.
pub open spec fn crypto(offset: nat, offset_width: nat, data: Seq<u8>, length_width: nat) -> Seq<u8> {
    seq![6u8] + (varint(offset, offset_width) + (varint(data.len(), length_width) + data))
}

/// A CRYPTO frame is taken in at its offset, and the reading goes on behind it.
pub proof fn law_crypto_frame_is_taken_in(
    stream: CryptoStream,
    front: Seq<u8>,
    offset: nat,
    offset_width: nat,
    data: Seq<u8>,
    length_width: nat,
    back: Seq<u8>,
)
    requires
        varint_fits(offset, offset_width),
        varint_fits(data.len(), length_width),
    ensures
        ({
            let frame = crypto(offset, offset_width, data, length_width);
            let p = front + frame + back;
            match stream.with_fragment(offset as int, data) {
                Some(longer) => stream.with_frames(p, front.len() as int) == longer.with_frames(
                    p,
                    front.len() as int + frame.len(),
                ),
                None => stream.with_frames(p, front.len() as int) == (stream, false),
            }
        }),
{
    let frame = crypto(offset, offset_width, data, length_width);
    let p = front + frame + back;
    let at = front.len() as int;
    assert(lies(p, at, frame)) by {
        assert forall|i: int| 0 <= i < frame.len() implies p[at + i] == #[trigger] frame[i] by {}
    }
    let rest = varint(data.len(), length_width) + data;
    lemma_lies_apart(p, at, seq![6u8], varint(offset, offset_width) + rest);
    assert(p[at + 0] == seq![6u8][0]);
    lemma_lies_apart(p, at + 1, varint(offset, offset_width), rest);
    lemma_varint_stands(p, at + 1, offset, offset_width);
    assert(varint(offset, offset_width).len() == offset_width);
    lemma_lies_apart(p, at + 1 + offset_width, varint(data.len(), length_width), data);
    lemma_varint_stands(p, at + 1 + offset_width, data.len(), length_width);
    assert(varint(data.len(), length_width).len() == length_width);
    let start = at + 1 + offset_width + length_width;
    assert(p.subrange(start, start + data.len()) =~= data);
    assert(frame.len() == 1 + offset_width + length_width + data.len());
    assert(varint_at(p, at) == Some((6int, at + 1)));
    assert(crypto_frame(p, at + 1) == Some((offset as int, start, start + data.len())));
}

/// What the stream makes of one whole message.
proof fn lemma_one_message(handshake: Seq<u8>)
    requires
        0 < handshake.len() < 16384,
    ensures
        CryptoStream::empty().with_fragment(0, handshake) is Some,
        CryptoStream::empty().with_fragment(0, handshake)->0.hello() == Some(handshake),
{
    let longer = CryptoStream::empty().with_fragment(0, handshake)->0;
    assert(longer.fragments[0] == handshake);
    reveal_with_fuel(CryptoStream::contiguous, 3);
    let n = handshake.len() as int;
    assert(n as u64 == n);
    assert(longer.contiguous(n) =~= Seq::<u8>::empty());
    assert(longer.contiguous(0) =~= handshake);
}

/// What the frames of one whole message and padding come to.
proof fn lemma_one_frame(handshake: Seq<u8>, offset_width: nat, length_width: nat, padding: Seq<u8>)
    requires
        0 < handshake.len() < 16384,
        varint_fits(0, offset_width),
        varint_fits(handshake.len(), length_width),
        forall|k: int| 0 <= k < padding.len() ==> #[trigger] padding[k] == 0,
    ensures
        CryptoStream::empty().with_frames(crypto(0, offset_width, handshake, length_width) + padding, 0) == (
            CryptoStream::empty().with_fragment(0, handshake)->0,
            true,
        ),
{
    let frame = crypto(0, offset_width, handshake, length_width);
    let payload = frame + padding;
    let none = Seq::<u8>::empty();
    let empty = CryptoStream::empty();
    lemma_one_message(handshake);
    law_crypto_frame_is_taken_in(empty, none, 0, offset_width, handshake, length_width, padding);
    assert(none + frame + padding =~= payload);
    assert forall|k: int| frame.len() <= k < payload.len() implies #[trigger] payload[k] == 0 by {
        assert(payload[k] == padding[k - frame.len()]);
    }
    lemma_padding(empty.with_fragment(0, handshake)->0, payload, frame.len() as int);
}

/// A datagram that is one packet is read as that packet.
proof fn lemma_one_packet(datagram: Seq<u8>, payload: Seq<u8>, stream: CryptoStream, longer: CryptoStream)
    requires
        datagram.len() > 0,
        packet_answer(datagram) == (PacketAnswer::Payload { consumed: datagram.len() as int, payload }),
        stream.with_frames(payload, 0) == (longer, true),
    ensures
        stream.with_packets(datagram, 0) == (longer, true),
{
    assert(datagram.subrange(0, datagram.len() as int) =~= datagram);
    assert(longer.with_packets(datagram, datagram.len() as int) == (longer, true));
}

/// A ClientHello without its record is put into one.
proof fn lemma_message_in_record(hello: peek::Hello, name: Seq<u8>)
    requires
        hello.record_version == seq![3u8, 1u8],
        hello.fits(name),
    ensures
        tls_record_of(seq![1u8] + (peek::be24(hello.body(name).len()) + hello.body(name))) == hello.record(name),
{
    let handshake = seq![1u8] + (peek::be24(hello.body(name).len()) + hello.body(name));
    let n = handshake.len();
    assert(n == 4 + hello.body(name).len());
    let head = seq![0x16u8, 0x03, 0x01, (n / 256) as u8, (n % 256) as u8];
    assert(hello.record(name) == seq![0x16u8] + (seq![3u8, 1u8] + (peek::be16(n) + handshake)));
    assert(head + handshake =~= seq![0x16u8] + (seq![3u8, 1u8] + (peek::be16(n) + handshake)));
}

/// A client's first flight in one datagram gives the name that its ClientHello asks
/// for: the packet is opened, its CRYPTO frame taken in, padding passed over, and the
/// message read.
#[verifier::rlimit(60)]
pub proof fn law_flight_gives_its_name(
    i: Initial,
    hello: peek::Hello,
    name: Seq<u8>,
    offset_width: nat,
    length_width: nat,
    padding: Seq<u8>,
    body: Seq<u8>,
    tag: Seq<u8>,
)
    requires
        i.fits(body.len()),
        tag.len() == 16,
        hello.record_version == seq![3u8, 1u8],
        hello.fits(name),
        0 < name.len(),
        vstd::utf8::valid_utf8(name),
        4 + hello.body(name).len() < 16384,
        varint_fits(0, offset_width),
        varint_fits(4 + hello.body(name).len(), length_width),
        forall|k: int| 0 <= k < padding.len() ==> #[trigger] padding[k] == 0,
        aes128_gcm_open(
            client_keys(i.dcid).key,
            packet_nonce(client_keys(i.dcid).iv, be_number(i.number) as u64),
            i.header(body.len()),
            body,
            tag,
        ) == Some(
            crypto(
                0,
                offset_width,
                seq![1u8] + (peek::be24(hello.body(name).len()) + hello.body(name)),
                length_width,
            ) + padding,
        ),
    ensures
        ({
            let datagram = i.packet(body, tag, aes128_block(client_keys(i.dcid).hp, i.sample(body, tag)));
            let (stream, ok) = CryptoStream::empty().with_packets(datagram, 0);
            ok && stream.answer() == SniAnswer::Name(vstd::utf8::decode_utf8(name))
        }),
{
    let mask = aes128_block(client_keys(i.dcid).hp, i.sample(body, tag));
    let message = hello.body(name);
    let handshake = seq![1u8] + (peek::be24(message.len()) + message);
    let payload = crypto(0, offset_width, handshake, length_width) + padding;
    let none = Seq::<u8>::empty();
    let p = i.packet(body, tag, mask);
    assert(handshake.len() == 4 + message.len());
    law_sealed_packet_is_opened(i, body, tag, payload, none);
    lemma_packet_bytes(i, body, tag, mask, none);
    assert(p + none =~= p);
    lemma_one_frame(handshake, offset_width, length_width, padding);
    lemma_one_message(handshake);
    let longer = CryptoStream::empty().with_fragment(0, handshake)->0;
    lemma_one_packet(p, payload, CryptoStream::empty(), longer);
    lemma_message_in_record(hello, name);
    peek::law_hello_gives_its_name(hello, name, none);
    assert(hello.record(name) + none =~= hello.record(name));
}

/// Only Initial packets of version 1 are opened: a short header, another version and
/// another packet type are each left alone.
pub proof fn law_other_packets_are_left_alone(p: Seq<u8>)
    requires
        p.len() >= 7,
    ensures
        p[0] < 128 ==> packet_answer(p) is Other,
        !(p[1] == 0 && p[2] == 0 && p[3] == 0 && p[4] == 1) ==> packet_answer(p) is Other,
        p[0] as int % 64 >= 16 ==> packet_answer(p) is Other,
        packet_answer(p) is Other ==> p[0] < 128 || !(p[1] == 0 && p[2] == 0 && p[3] == 0 && p[4] == 1) || p[0] as int
            % 64 >= 16,
{
}

/// A stream takes in fragments that end within 16 KiB, as long as they hold no more than
/// that together, and a hello is shorter than that.
pub proof fn law_reassembly_is_bounded(stream: CryptoStream, offset: u64, data: Seq<u8>)
    ensures
        stream.with_fragment(offset as int, data) is Some <==> offset + data.len() <= 16384 && stream.retained
            + data.len() <= 16384,
        stream.hello() matches Some(h) ==> 0 < h.len() < 16384,
{
}

} // verus!
