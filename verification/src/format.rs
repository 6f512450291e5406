//! The mathematical model of the wire format.
//!
//! A buffer is `record*`, and a record is
//! `key_len(u32 LE) value_len(u32 LE) key value`. The spec functions here
//! define encoding and decoding over `Seq<u8>`; the executable code in
//! [`crate::codec`] is verified against them.

use vstd::prelude::*;

verus! {

/// A fault found while decoding a buffer. Both variants mean the buffer is
/// malformed; decoding aborts at the first fault with no partial result.
#[derive(Clone, Copy, Debug, PartialEq, Eq, Structural)]
pub enum DecodeError {
    /// Fewer than 8 bytes remain where a record header is expected.
    TruncatedHeader,
    /// A header was read, but the declared key and value lengths exceed the
    /// remaining buffer bytes.
    TruncatedBody,
}

/// The 32-bit little-endian value stored at `d[i..i+4]`.
pub open spec fn le32_at(d: Seq<u8>, i: int) -> int
    recommends
        0 <= i,
        i + 4 <= d.len(),
{
    d[i] + 0x100 * d[i + 1] + 0x1_0000 * d[i + 2] + 0x100_0000 * d[i + 3]
}

/// The four little-endian bytes of `n`, exact for `0 <= n < 2^32`.
pub open spec fn u32_le(n: int) -> Seq<u8> {
    seq![
        (n % 0x100) as u8,
        ((n / 0x100) % 0x100) as u8,
        ((n / 0x1_0000) % 0x100) as u8,
        ((n / 0x100_0000) % 0x100) as u8,
    ]
}

/// One encoded record: 8-byte header, then the key bytes, then the value
/// bytes.
pub open spec fn encode_record(k: Seq<u8>, v: Seq<u8>) -> Seq<u8> {
    u32_le(k.len() as int) + u32_le(v.len() as int) + k + v
}

/// A whole buffer: the records of `pairs`, in order, with no separator,
/// count or padding.
pub open spec fn encode(pairs: Seq<(Seq<u8>, Seq<u8>)>) -> Seq<u8>
    decreases pairs.len(),
{
    if pairs.len() == 0 {
        Seq::empty()
    } else {
        encode_record(pairs[0].0, pairs[0].1) + encode(pairs.drop_first())
    }
}

/// The byte count of the encoding: `8 + key_len + value_len` summed over the
/// records.
pub open spec fn encoded_len(pairs: Seq<(Seq<u8>, Seq<u8>)>) -> int
    decreases pairs.len(),
{
    if pairs.len() == 0 {
        0
    } else {
        8 + pairs[0].0.len() + pairs[0].1.len() + encoded_len(pairs.drop_first())
    }
}

/// Whether every key and value of `pairs` has a length the 32-bit header
/// field can hold.
pub open spec fn lengths_in_range(pairs: Seq<(Seq<u8>, Seq<u8>)>) -> bool {
    forall|i: int|
        0 <= i < pairs.len() ==> (#[trigger] pairs[i]).0.len() <= u32::MAX
            && pairs[i].1.len() <= u32::MAX
}

/// The record sequence a buffer decodes to, or the first fault found in a
/// front-to-back scan.
pub open spec fn decode_bytes(d: Seq<u8>) -> Result<Seq<(Seq<u8>, Seq<u8>)>, DecodeError>
    decreases d.len(),
{
    if d.len() == 0 {
        Ok(Seq::empty())
    } else if d.len() < 8 {
        Err(DecodeError::TruncatedHeader)
    } else {
        let kl = le32_at(d, 0);
        let vl = le32_at(d, 4);
        if 8 + kl + vl > d.len() {
            Err(DecodeError::TruncatedBody)
        } else {
            match decode_bytes(d.skip(8 + kl + vl)) {
                Ok(rest) => Ok(
                    rest.insert(0, (d.subrange(8, 8 + kl), d.subrange(8 + kl, 8 + kl + vl))),
                ),
                Err(e) => Err(e),
            }
        }
    }
}

/// Appending one pair to the input appends exactly that pair's record bytes
/// to the encoding.
pub proof fn lemma_encode_push(pairs: Seq<(Seq<u8>, Seq<u8>)>, p: (Seq<u8>, Seq<u8>))
    ensures
        encode(pairs.push(p)) == encode(pairs) + encode_record(p.0, p.1),
    decreases pairs.len(),
{
    let s = pairs.push(p);
    let rec = |q: (Seq<u8>, Seq<u8>)| encode_record(q.0, q.1);
    if pairs.len() == 0 {
        assert(s.drop_first() =~= Seq::<(Seq<u8>, Seq<u8>)>::empty());
        assert(s[0] == p);
        assert(encode(Seq::<(Seq<u8>, Seq<u8>)>::empty()) == Seq::<u8>::empty());
        assert(encode(s.drop_first()) == Seq::<u8>::empty());
        assert(encode(pairs) == Seq::<u8>::empty());
        assert(encode(s) == rec(p) + Seq::<u8>::empty());
        assert(rec(p) + Seq::<u8>::empty() =~= Seq::<u8>::empty() + rec(p));
    } else {
        assert(s.drop_first() =~= pairs.drop_first().push(p));
        lemma_encode_push(pairs.drop_first(), p);
        assert(s[0] == pairs[0]);
        assert(encode(s) == rec(pairs[0]) + (encode(pairs.drop_first()) + rec(p)));
        assert(rec(pairs[0]) + (encode(pairs.drop_first()) + rec(p)) =~= (rec(pairs[0])
            + encode(pairs.drop_first())) + rec(p));
    }
}

/// The fault `decode_bytes` finds, if any.
pub open spec fn scan_fault(d: Seq<u8>) -> Option<DecodeError> {
    match decode_bytes(d) {
        Ok(_) => None,
        Err(e) => Some(e),
    }
}

/// First-match lookup directly over buffer bytes: the value of the first
/// record whose key equals `key`; a fault if the buffer is malformed at or
/// before the point a match would have occurred; `None` if the scan
/// completes without a match.
pub open spec fn lookup_bytes(key: Seq<u8>, d: Seq<u8>) -> Result<Option<Seq<u8>>, DecodeError>
    decreases d.len(),
{
    if d.len() == 0 {
        Ok(None)
    } else if d.len() < 8 {
        Err(DecodeError::TruncatedHeader)
    } else {
        let kl = le32_at(d, 0);
        let vl = le32_at(d, 4);
        if 8 + kl + vl > d.len() {
            Err(DecodeError::TruncatedBody)
        } else if d.subrange(8, 8 + kl) == key {
            Ok(Some(d.subrange(8 + kl, 8 + kl + vl)))
        } else {
            lookup_bytes(key, d.skip(8 + kl + vl))
        }
    }
}

/// First-match lookup over a record sequence: the value of the earliest pair
/// whose key equals `key`.
pub open spec fn lookup_pairs(key: Seq<u8>, pairs: Seq<(Seq<u8>, Seq<u8>)>) -> Option<Seq<u8>>
    decreases pairs.len(),
{
    if pairs.len() == 0 {
        None
    } else if pairs[0].0 == key {
        Some(pairs[0].1)
    } else {
        lookup_pairs(key, pairs.drop_first())
    }
}

/// The views of a sequence of owned byte-pair records.
pub open spec fn views_of(ps: Seq<(Vec<u8>, Vec<u8>)>) -> Seq<(Seq<u8>, Seq<u8>)> {
    ps.map(|i: int, p: (Vec<u8>, Vec<u8>)| (p.0@, p.1@))
}

/// The views of a sequence of owned byte strings.
pub open spec fn byte_views_of(bs: Seq<Vec<u8>>) -> Seq<Seq<u8>> {
    bs.map(|i: int, b: Vec<u8>| b@)
}

/// The keys of a record sequence, in order.
pub open spec fn keys_of(pairs: Seq<(Seq<u8>, Seq<u8>)>) -> Seq<Seq<u8>> {
    pairs.map(|i: int, p: (Seq<u8>, Seq<u8>)| p.0)
}

/// The values of a record sequence, in order.
pub open spec fn values_of(pairs: Seq<(Seq<u8>, Seq<u8>)>) -> Seq<Seq<u8>> {
    pairs.map(|i: int, p: (Seq<u8>, Seq<u8>)| p.1)
}

} // verus!
