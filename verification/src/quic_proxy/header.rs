//! The version-independent part of a QUIC long header.

use crate::octets;
use crate::octets::read_be32;
use crate::quic_initial::QUIC_V1;
use vstd::prelude::*;
use vstd::slice::slice_subrange;

verus! {

/// The version number of QUIC v2.
pub const QUIC_V2: u32 = 0x6b3343cf;

/// The longest connection id.
pub const MAX_CID_LEN: usize = 20;

/// The fields of a long header.
#[derive(Debug, Clone, Copy)]
pub struct LongHeader<'a> {
    /// The first byte.
    pub first: u8,
    pub version: u32,
    /// The destination connection id.
    pub dcid: &'a [u8],
    /// The source connection id.
    pub scid: &'a [u8],
}

/// What a long header holds.
pub struct HeaderView {
    pub first: u8,
    pub version: u32,
    pub dcid: Seq<u8>,
    pub scid: Seq<u8>,
}

impl<'a> View for LongHeader<'a> {
    type V = HeaderView;

    open spec fn view(&self) -> HeaderView {
        HeaderView { first: self.first, version: self.version, dcid: self.dcid@, scid: self.scid@ }
    }
}

impl HeaderView {
    /// Whether the packet type is Initial, in a version that is known.
    pub open spec fn is_initial(self) -> bool {
        let kind = self.first as int / 16 % 4;
        if self.version == QUIC_V1 {
            kind == 0
        } else {
            self.version == QUIC_V2 && kind == 1
        }
    }
}

/// The long header at the front of a datagram: the form bit, a version, and two
/// length-prefixed connection ids of at most 20 bytes.
pub open spec fn long_header(p: Seq<u8>) -> Option<HeaderView> {
    if p.len() < 7 || p[0] < 0x80 || p[5] > MAX_CID_LEN || 6 + p[5] >= p.len() {
        None
    } else {
        let scid_at = 6 + p[5];
        if p[scid_at] > MAX_CID_LEN || scid_at + 1 + p[scid_at] > p.len() {
            None
        } else {
            Some(
                HeaderView {
                    first: p[0],
                    version: octets::be32_at(p, 1) as u32,
                    dcid: p.subrange(6, scid_at),
                    scid: p.subrange(scid_at + 1, scid_at + 1 + p[scid_at]),
                },
            )
        }
    }
}

/// Whether a datagram starts with an Initial packet.
pub open spec fn starts_initial(p: Seq<u8>) -> bool {
    long_header(p) is Some && long_header(p)->0.is_initial()
}

impl<'a> LongHeader<'a> {
    /// Read the long header at the front of a datagram.
    pub fn parse(packet: &'a [u8]) -> (r: Option<Self>)
        ensures
            match r {
                Some(h) => long_header(packet@) == Some(h@),
                None => long_header(packet@) is None,
            },
    {
        if packet.len() < 7 || packet[0] < 0x80 {
            return None;
        }
        let version = read_be32(packet, 1);
        let dcid_len = packet[5] as usize;
        if dcid_len > MAX_CID_LEN {
            return None;
        }
        let scid_at = 6 + dcid_len;
        if scid_at >= packet.len() {
            return None;
        }
        let scid_len = packet[scid_at] as usize;
        if scid_len > MAX_CID_LEN || scid_len > packet.len() - (scid_at + 1) {
            return None;
        }
        Some(
            LongHeader {
                first: packet[0],
                version,
                dcid: slice_subrange(packet, 6, scid_at),
                scid: slice_subrange(packet, scid_at + 1, scid_at + 1 + scid_len),
            },
        )
    }

    /// Whether the packet type is Initial, in a version that is known.
    pub fn is_initial(&self) -> (r: bool)
        ensures
            r == self@.is_initial(),
    {
        let kind = self.first / 16 % 4;
        if self.version == QUIC_V1 {
            kind == 0
        } else {
            self.version == QUIC_V2 && kind == 1
        }
    }
}

/// Whether a datagram starts with an Initial packet.
pub fn is_quic_initial(datagram: &[u8]) -> (r: bool)
    ensures
        r == starts_initial(datagram@),
{
    match LongHeader::parse(datagram) {
        Some(header) => header.is_initial(),
        None => false,
    }
}

/// A long header that is written out is read back: its first byte, its version, and both
/// connection ids, whatever follows.
pub proof fn law_long_header_is_read_back(first: u8, version: u32, dcid: Seq<u8>, scid: Seq<u8>, rest: Seq<u8>)
    requires
        first >= 128,
        dcid.len() <= 20,
        scid.len() <= 20,
    ensures
        long_header(
            seq![
                first,
                (version / 16777216) as u8,
                (version / 65536 % 256) as u8,
                (version / 256 % 256) as u8,
                (version % 256) as u8,
                dcid.len() as u8,
            ] + dcid + seq![scid.len() as u8] + scid + rest,
        ) == Some(HeaderView { first, version, dcid, scid }),
{
    let p = seq![
        first,
        (version / 16777216) as u8,
        (version / 65536 % 256) as u8,
        (version / 256 % 256) as u8,
        (version % 256) as u8,
        dcid.len() as u8,
    ] + dcid + seq![scid.len() as u8] + scid + rest;
    let at = 6 + dcid.len() as int;
    assert(p[0] == first && p[5] == dcid.len());
    assert(p[at] == scid.len());
    assert(p.subrange(6, at) =~= dcid);
    assert(p.subrange(at + 1, at + 1 + scid.len()) =~= scid);
    assert(octets::be32_at(p, 1) == version) by {
        assert(p[1] == version / 16777216);
        assert(p[2] == version / 65536 % 256);
        assert(p[3] == version / 256 % 256);
        assert(p[4] == version % 256);
    }
}

/// A header without the form bit is not long, and no connection id has more than 20
/// bytes.
pub proof fn law_other_headers_are_not_long(p: Seq<u8>)
    ensures
        p.len() < 7 ==> long_header(p) is None,
        p.len() > 0 && p[0] < 128 ==> long_header(p) is None,
        p.len() > 5 && p[5] > 20 ==> long_header(p) is None,
        long_header(p) matches Some(h) ==> h.dcid.len() <= 20 && h.scid.len() <= 20,
{
}

/// The packet type of an Initial is 0 in QUIC version 1 and 1 in version 2; in any other
/// version nothing is known to be one.
pub proof fn law_initial_type_depends_on_the_version(h: HeaderView)
    requires
        h.first >= 192,
    ensures
        h.version == 1 ==> (h.is_initial() <==> h.first < 208),
        h.version == 0x6b3343cf ==> (h.is_initial() <==> 208 <= h.first < 224),
        h.version != 1 && h.version != 0x6b3343cf ==> !h.is_initial(),
{
}

} // verus!
