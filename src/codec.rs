use vstd::prelude::*;
use vstd::utf8::{decode_utf8, encode_utf8, valid_utf8};

verus! {

broadcast use vstd::utf8::encode_utf8_valid_utf8, vstd::utf8::encode_utf8_decode_utf8;

/// Little-endian bytes of a `u32`.
pub open spec fn le32(v: u32) -> Seq<u8> {
    seq![(v & 0xff) as u8, ((v >> 8u32) & 0xff) as u8, ((v >> 16u32) & 0xff) as u8, (v >> 24u32) as u8]
}

/// The `u32` whose little-endian bytes start `s`.
pub open spec fn from_le32(s: Seq<u8>) -> u32 {
    (s[0] as u32) | ((s[1] as u32) << 8u32) | ((s[2] as u32) << 16u32) | ((s[3] as u32) << 24u32)
}

/// Little-endian bytes of a `u64`.
pub open spec fn le64(v: u64) -> Seq<u8> {
    seq![(v & 0xff) as u8, ((v >> 8u64) & 0xff) as u8, ((v >> 16u64) & 0xff) as u8, ((v >> 24u64) & 0xff) as u8,
        ((v >> 32u64) & 0xff) as u8, ((v >> 40u64) & 0xff) as u8, ((v >> 48u64) & 0xff) as u8, (v >> 56u64) as u8]
}

/// The `u64` whose little-endian bytes start `s`.
pub open spec fn from_le64(s: Seq<u8>) -> u64 {
    (s[0] as u64) | ((s[1] as u64) << 8u64) | ((s[2] as u64) << 16u64) | ((s[3] as u64) << 24u64)
        | ((s[4] as u64) << 32u64) | ((s[5] as u64) << 40u64) | ((s[6] as u64) << 48u64) | ((s[7] as u64) << 56u64)
}

pub proof fn lemma_le32(v: u32)
    ensures
        from_le32(le32(v)) == v,
{
    let (b0, b1, b2, b3) = ((v & 0xff) as u8, ((v >> 8u32) & 0xff) as u8, ((v >> 16u32) & 0xff) as u8, (v >> 24u32) as u8);
    assert(((b0 as u32) | ((b1 as u32) << 8u32) | ((b2 as u32) << 16u32) | ((b3 as u32) << 24u32)) == v) by (bit_vector)
        requires
            b0 == (v & 0xff) as u8,
            b1 == ((v >> 8u32) & 0xff) as u8,
            b2 == ((v >> 16u32) & 0xff) as u8,
            b3 == (v >> 24u32) as u8,
    ;
}

pub proof fn lemma_le64(v: u64)
    ensures
        from_le64(le64(v)) == v,
{
    let b0 = (v & 0xff) as u8;
    let b1 = ((v >> 8u64) & 0xff) as u8;
    let b2 = ((v >> 16u64) & 0xff) as u8;
    let b3 = ((v >> 24u64) & 0xff) as u8;
    let b4 = ((v >> 32u64) & 0xff) as u8;
    let b5 = ((v >> 40u64) & 0xff) as u8;
    let b6 = ((v >> 48u64) & 0xff) as u8;
    let b7 = (v >> 56u64) as u8;
    assert(((b0 as u64) | ((b1 as u64) << 8u64) | ((b2 as u64) << 16u64) | ((b3 as u64) << 24u64)
        | ((b4 as u64) << 32u64) | ((b5 as u64) << 40u64) | ((b6 as u64) << 48u64) | ((b7 as u64) << 56u64)) == v)
        by (bit_vector)
        requires
            b0 == (v & 0xff) as u8,
            b1 == ((v >> 8u64) & 0xff) as u8,
            b2 == ((v >> 16u64) & 0xff) as u8,
            b3 == ((v >> 24u64) & 0xff) as u8,
            b4 == ((v >> 32u64) & 0xff) as u8,
            b5 == ((v >> 40u64) & 0xff) as u8,
            b6 == ((v >> 48u64) & 0xff) as u8,
            b7 == (v >> 56u64) as u8,
    ;
}

/// Appends the little-endian bytes of `v`.
pub fn put_u32(out: &mut Vec<u8>, v: u32)
    ensures
        final(out)@ == old(out)@ + le32(v),
{
    out.push((v & 0xff) as u8);
    out.push(((v >> 8) & 0xff) as u8);
    out.push(((v >> 16) & 0xff) as u8);
    out.push((v >> 24) as u8);
    assert(final(out)@ =~= old(out)@ + le32(v));
}

/// Appends the little-endian bytes of `v`.
pub fn put_u64(out: &mut Vec<u8>, v: u64)
    ensures
        final(out)@ == old(out)@ + le64(v),
{
    out.push((v & 0xff) as u8);
    out.push(((v >> 8) & 0xff) as u8);
    out.push(((v >> 16) & 0xff) as u8);
    out.push(((v >> 24) & 0xff) as u8);
    out.push(((v >> 32) & 0xff) as u8);
    out.push(((v >> 40) & 0xff) as u8);
    out.push(((v >> 48) & 0xff) as u8);
    out.push((v >> 56) as u8);
    assert(final(out)@ =~= old(out)@ + le64(v));
}

/// Reads the little-endian `u32` at byte `at`.
pub fn get_u32(s: &[u8], at: usize) -> (r: u32)
    requires
        at + 4 <= s@.len(),
    ensures
        r == from_le32(s@.subrange(at as int, at + 4)),
{
    (s[at] as u32) | ((s[at + 1] as u32) << 8) | ((s[at + 2] as u32) << 16) | ((s[at + 3] as u32) << 24)
}

/// Reads the little-endian `u64` at byte `at`.
pub fn get_u64(s: &[u8], at: usize) -> (r: u64)
    requires
        at + 8 <= s@.len(),
    ensures
        r == from_le64(s@.subrange(at as int, at + 8)),
{
    (s[at] as u64) | ((s[at + 1] as u64) << 8) | ((s[at + 2] as u64) << 16) | ((s[at + 3] as u64) << 24)
        | ((s[at + 4] as u64) << 32) | ((s[at + 5] as u64) << 40) | ((s[at + 6] as u64) << 48)
        | ((s[at + 7] as u64) << 56)
}

/// A string as a length-prefixed field: the UTF-8 byte count as a `u64`, then the bytes.
pub open spec fn str_field(s: Seq<char>) -> Seq<u8> {
    le64(encode_utf8(s).len() as u64) + encode_utf8(s)
}

/// Appends `s` as a length-prefixed field.
pub fn put_str(out: &mut Vec<u8>, s: &str)
    ensures
        final(out)@ == old(out)@ + str_field(s@),
{
    let b = s.as_bytes();
    put_u64(out, b.len() as u64);
    let ghost mid = out@;
    let mut i: usize = 0;
    while i < b.len()
        invariant
            i <= b@.len(),
            b@ == encode_utf8(s@),
            out@ == mid + b@.subrange(0, i as int),
        decreases b@.len() - i,
    {
        out.push(b[i]);
        i = i + 1;
        assert(out@ =~= mid + b@.subrange(0, i as int));
    }
    assert(b@.subrange(0, b@.len() as int) =~= b@);
    assert(final(out)@ =~= old(out)@ + str_field(s@));
}

/// Relies on `String::from_utf8`: it succeeds exactly on valid UTF-8, and the string then
/// holds the characters those bytes encode.
#[verifier::external_body]
fn string_from_utf8(bytes: Vec<u8>) -> (r: Option<String>)
    ensures
        r is Some <==> valid_utf8(bytes@),
        r matches Some(s) ==> s@ == decode_utf8(bytes@),
{
    String::from_utf8(bytes).ok()
}

/// The string field at byte `at` of `s` and the position after it, when it is complete and
/// valid UTF-8.
pub open spec fn str_field_at(s: Seq<u8>, at: int) -> Option<(Seq<char>, int)> {
    if at + 8 <= s.len() && at + 8 + from_le64(s.subrange(at, at + 8)) <= s.len() {
        let end = at + 8 + from_le64(s.subrange(at, at + 8));
        if valid_utf8(s.subrange(at + 8, end)) {
            Some((decode_utf8(s.subrange(at + 8, end)), end))
        } else {
            None
        }
    } else {
        None
    }
}

/// Reads the string field at byte `at`.
pub fn get_str(s: &[u8], at: usize) -> (r: Option<(String, usize)>)
    ensures
        match r {
            Some((st, end)) => str_field_at(s@, at as int) == Some((st@, end as int)),
            None => str_field_at(s@, at as int) is None,
        },
{
    if s.len() < 8 || at > s.len() - 8 {
        return None;
    }
    let len = get_u64(s, at);
    if len > (s.len() - at - 8) as u64 {
        return None;
    }
    let end = at + 8 + len as usize;
    let mut bytes: Vec<u8> = Vec::new();
    let mut i: usize = at + 8;
    while i < end
        invariant
            at + 8 <= i <= end <= s@.len(),
            bytes@ == s@.subrange(at + 8, i as int),
        decreases end - i,
    {
        bytes.push(s[i]);
        i = i + 1;
        assert(bytes@ =~= s@.subrange(at + 8, i as int));
    }
    match string_from_utf8(bytes) {
        Some(st) => Some((st, end)),
        None => None,
    }
}

/// Reading a string field back after writing it yields the string and the position after it.
pub proof fn lemma_str_field(pre: Seq<u8>, s: Seq<char>, post: Seq<u8>)
    requires
        encode_utf8(s).len() <= u64::MAX,
    ensures
        str_field_at(pre + str_field(s) + post, pre.len() as int)
            == Some((s, (pre.len() + 8 + encode_utf8(s).len()) as int)),
{
    let b = pre + str_field(s) + post;
    let at = pre.len() as int;
    let n = encode_utf8(s).len();
    assert(b.subrange(at, at + 8) =~= le64(n as u64));
    lemma_le64(n as u64);
    assert(b.subrange(at + 8, at + 8 + n) =~= encode_utf8(s));
}

/// The stored form of an `i32` column value: its two's-complement bytes, little-endian.
pub fn serialize_i32(v: i32) -> (r: Vec<u8>)
    ensures
        r@ == le32(v as u32),
{
    let mut out: Vec<u8> = Vec::new();
    put_u32(&mut out, v as u32);
    assert(out@ =~= le32(v as u32));
    out
}

} // verus!
