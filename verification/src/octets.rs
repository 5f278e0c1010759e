//! Byte-slice helpers shared by the wire-format parsers.

use vstd::prelude::*;
use vstd::slice::slice_subrange;

verus! {

/// The big-endian 16-bit number at `at`.
pub open spec fn be16_at(b: Seq<u8>, at: int) -> int {
    b[at] * 256 + b[at + 1]
}

/// The big-endian 24-bit number at `at`.
pub open spec fn be24_at(b: Seq<u8>, at: int) -> int {
    b[at] * 65536 + b[at + 1] * 256 + b[at + 2]
}

/// The big-endian 32-bit number at `at`.
pub open spec fn be32_at(b: Seq<u8>, at: int) -> int {
    b[at] * 16777216 + b[at + 1] * 65536 + b[at + 2] * 256 + b[at + 3]
}

/// The smaller of two integers.
pub open spec fn least(a: int, b: int) -> int {
    if a <= b {
        a
    } else {
        b
    }
}

/// Read the big-endian 16-bit number at `at`.
pub fn read_be16(b: &[u8], at: usize) -> (r: usize)
    requires
        at + 2 <= b@.len(),
    ensures
        r == be16_at(b@, at as int),
        r <= 65535,
{
    (b[at] as usize) * 256 + (b[at + 1] as usize)
}

/// Read the big-endian 24-bit number at `at`.
pub fn read_be24(b: &[u8], at: usize) -> (r: usize)
    requires
        at + 3 <= b@.len(),
    ensures
        r == be24_at(b@, at as int),
        r <= 16777215,
{
    (b[at] as usize) * 65536 + (b[at + 1] as usize) * 256 + (b[at + 2] as usize)
}

/// Read the big-endian 32-bit number at `at`.
pub fn read_be32(b: &[u8], at: usize) -> (r: u32)
    requires
        at + 4 <= b@.len(),
    ensures
        r == be32_at(b@, at as int),
{
    (b[at] as u32) * 16777216 + (b[at + 1] as u32) * 65536 + (b[at + 2] as u32) * 256 + (b[at + 3] as u32)
}

/// Whether two byte strings are equal.
pub fn same(a: &[u8], b: &[u8]) -> (r: bool)
    ensures
        r == (a@ == b@),
{
    if a.len() != b.len() {
        return false;
    }
    let mut i: usize = 0;
    while i < a.len()
        invariant
            i <= a@.len(),
            a@.len() == b@.len(),
            forall|k: int| 0 <= k < i ==> a@[k] == b@[k],
        decreases a@.len() - i,
    {
        if a[i] != b[i] {
            return false;
        }
        i = i + 1;
    }
    assert(a@ =~= b@);
    true
}

/// Whether `b` begins with `head`.
pub fn starts_with(b: &[u8], head: &[u8]) -> (r: bool)
    ensures
        r == head@.is_prefix_of(b@),
{
    if b.len() < head.len() {
        return false;
    }
    same(slice_subrange(b, 0, head.len()), head)
}

/// Append `tail` to `out`.
pub fn append(out: &mut Vec<u8>, tail: &[u8])
    ensures
        final(out)@ == old(out)@ + tail@,
{
    let ghost before = out@;
    out.extend_from_slice(tail);
    assert(out@ =~= before + tail@);
}

/// An owned copy of `b`.
pub fn to_vec(b: &[u8]) -> (r: Vec<u8>)
    ensures
        r@ == b@,
{
    vstd::slice::slice_to_vec(b)
}

/// Decode bytes as text with `std::str::from_utf8`: the decoded text when the
/// bytes are well-formed UTF-8, and nothing otherwise.
#[verifier::external_body]
pub(crate) fn decode_text(b: &[u8]) -> (r: Option<String>)
    ensures
        match r {
            Some(s) => vstd::utf8::valid_utf8(b@) && s@ == vstd::utf8::decode_utf8(b@),
            None => !vstd::utf8::valid_utf8(b@),
        },
{
    std::str::from_utf8(b).ok().map(String::from)
}

/// The contents of a list of byte strings.
pub open spec fn lists(list: Seq<Vec<u8>>) -> Seq<Seq<u8>> {
    list.map_values(|v: Vec<u8>| v@)
}

/// Whether two lists hold the same byte strings in the same order.
pub fn same_lists(a: &Vec<Vec<u8>>, b: &Vec<Vec<u8>>) -> (r: bool)
    ensures
        r == (lists(a@) == lists(b@)),
{
    if a.len() != b.len() {
        assert(lists(a@).len() != lists(b@).len());
        return false;
    }
    let mut i: usize = 0;
    while i < a.len()
        invariant
            i <= a@.len() == b@.len(),
            forall|j: int| 0 <= j < i ==> (#[trigger] lists(a@)[j]) == lists(b@)[j],
        decreases a@.len() - i,
    {
        assert(lists(a@)[i as int] == a@[i as int]@ && lists(b@)[i as int] == b@[i as int]@);
        if !same(a[i].as_slice(), b[i].as_slice()) {
            return false;
        }
        i = i + 1;
    }
    assert(lists(a@) =~= lists(b@));
    true
}

/// A copy of a list of byte strings.
pub fn copy_lists(list: &Vec<Vec<u8>>) -> (r: Vec<Vec<u8>>)
    ensures
        lists(r@) == lists(list@),
{
    let mut out: Vec<Vec<u8>> = Vec::new();
    let mut i: usize = 0;
    while i < list.len()
        invariant
            i <= list@.len(),
            lists(out@) == lists(list@).take(i as int),
        decreases list@.len() - i,
    {
        let ghost before = out@;
        out.push(to_vec(list[i].as_slice()));
        assert(lists(out@) =~= lists(before).push(list@[i as int]@));
        assert(lists(list@).take(i + 1) =~= lists(list@).take(i as int).push(list@[i as int]@));
        i = i + 1;
    }
    assert(lists(list@).take(i as int) =~= lists(list@));
    out
}

} // verus!
