//! The format's laws, stated over the model of [`crate::format`] and proved
//! once for all inputs: round-trip fidelity, the length invariant, the
//! empty-buffer cases, the first-match-wins lookup policy, and the fact that
//! a match is returned even when the buffer is malformed after it.

use vstd::prelude::*;

use crate::format::decode_bytes;
use crate::format::encode;
use crate::format::encode_record;
use crate::format::encoded_len;
use crate::format::le32_at;
use crate::format::lengths_in_range;
use crate::format::lookup_bytes;
use crate::format::lookup_pairs;
use crate::format::u32_le;
use crate::format::DecodeError;

verus! {

/// The four little-endian bytes of a 32-bit value read back as that value.
proof fn lemma_le32_roundtrip(n: u32)
    ensures
        n % 0x100 + 0x100 * ((n / 0x100) % 0x100) + 0x1_0000 * ((n / 0x1_0000) % 0x100)
            + 0x100_0000 * ((n / 0x100_0000) % 0x100) == n,
{
    assert(n % 0x100 + 0x100 * ((n / 0x100) % 0x100) + 0x1_0000 * ((n / 0x1_0000) % 0x100)
        + 0x100_0000 * ((n / 0x100_0000) % 0x100) == n) by (bit_vector);
}

/// Reading a 32-bit little-endian field that holds the bytes of `m` yields
/// `m`.
proof fn lemma_le32_at_of(d: Seq<u8>, i: int, m: int)
    requires
        0 <= m <= u32::MAX,
        0 <= i,
        i + 4 <= d.len(),
        d[i] == u32_le(m)[0],
        d[i + 1] == u32_le(m)[1],
        d[i + 2] == u32_le(m)[2],
        d[i + 3] == u32_le(m)[3],
    ensures
        le32_at(d, i) == m,
{
    lemma_le32_roundtrip(m as u32);
}

/// The head structure of `encode(pairs) + tail` for non-empty `pairs`: the
/// first header holds the first pair's lengths, the key and value bytes
/// follow, and what remains past them is `encode(pairs.drop_first()) + tail`.
proof fn lemma_encode_head(pairs: Seq<(Seq<u8>, Seq<u8>)>, tail: Seq<u8>)
    requires
        pairs.len() > 0,
        pairs[0].0.len() <= u32::MAX,
        pairs[0].1.len() <= u32::MAX,
    ensures
        (encode(pairs) + tail).len() >= 8,
        le32_at(encode(pairs) + tail, 0) == pairs[0].0.len(),
        le32_at(encode(pairs) + tail, 4) == pairs[0].1.len(),
        8 + pairs[0].0.len() + pairs[0].1.len() <= (encode(pairs) + tail).len(),
        (encode(pairs) + tail).subrange(8, 8 + pairs[0].0.len() as int) == pairs[0].0,
        (encode(pairs) + tail).subrange(
            8 + pairs[0].0.len() as int,
            8 + pairs[0].0.len() as int + pairs[0].1.len() as int,
        ) == pairs[0].1,
        (encode(pairs) + tail).skip(8 + pairs[0].0.len() as int + pairs[0].1.len() as int) == encode(
            pairs.drop_first(),
        ) + tail,
{
    let k = pairs[0].0;
    let v = pairs[0].1;
    let d = encode(pairs) + tail;
    assert(encode(pairs) == encode_record(k, v) + encode(pairs.drop_first()));
    assert(d =~= (u32_le(k.len() as int) + u32_le(v.len() as int) + k + v) + (encode(
        pairs.drop_first(),
    ) + tail));
    lemma_le32_at_of(d, 0, k.len() as int);
    lemma_le32_at_of(d, 4, v.len() as int);
    assert(d.subrange(8, 8 + k.len() as int) =~= k);
    assert(d.subrange(8 + k.len() as int, 8 + k.len() as int + v.len() as int) =~= v);
    assert(d.skip(8 + k.len() as int + v.len() as int) =~= encode(pairs.drop_first()) + tail);
}

/// `lengths_in_range` is inherited by the tail of the sequence.
proof fn lemma_lengths_in_range_drop_first(pairs: Seq<(Seq<u8>, Seq<u8>)>)
    requires
        pairs.len() > 0,
        lengths_in_range(pairs),
    ensures
        lengths_in_range(pairs.drop_first()),
{
    assert forall|i: int| 0 <= i < pairs.drop_first().len() implies (#[trigger] pairs.drop_first()[
        i
    ]).0.len() <= u32::MAX && pairs.drop_first()[i].1.len() <= u32::MAX by {
        assert(pairs.drop_first()[i] == pairs[i + 1]);
    }
}

/// Round-trip fidelity: a buffer produced from any sequence of pairs whose
/// lengths the 32-bit header fields can hold decodes to exactly that
/// sequence, in the same order, with byte-exact contents.
pub proof fn lemma_round_trip(pairs: Seq<(Seq<u8>, Seq<u8>)>)
    requires
        lengths_in_range(pairs),
    ensures
        decode_bytes(encode(pairs)) == Ok::<Seq<(Seq<u8>, Seq<u8>)>, DecodeError>(pairs),
    decreases pairs.len(),
{
    let d = encode(pairs);
    if pairs.len() == 0 {
        assert(d.len() == 0);
        assert(decode_bytes(d) == Ok::<Seq<(Seq<u8>, Seq<u8>)>, DecodeError>(Seq::empty()));
        assert(Seq::<(Seq<u8>, Seq<u8>)>::empty() =~= pairs);
    } else {
        assert(pairs[0].0.len() <= u32::MAX && pairs[0].1.len() <= u32::MAX);
        lemma_encode_head(pairs, Seq::empty());
        assert(d + Seq::<u8>::empty() =~= d);
        lemma_lengths_in_range_drop_first(pairs);
        lemma_round_trip(pairs.drop_first());
        let rest = pairs.drop_first();
        assert(decode_bytes(d) == Ok::<Seq<(Seq<u8>, Seq<u8>)>, DecodeError>(
            rest.insert(0, (pairs[0].0, pairs[0].1)),
        ));
        assert(rest.insert(0, (pairs[0].0, pairs[0].1)) =~= pairs);
    }
}

/// The length invariant: the encoding of `pairs` takes exactly
/// `8 + key_len + value_len` bytes per pair, summed in order.
pub proof fn lemma_encode_len(pairs: Seq<(Seq<u8>, Seq<u8>)>)
    ensures
        encode(pairs).len() == encoded_len(pairs),
    decreases pairs.len(),
{
    if pairs.len() > 0 {
        lemma_encode_len(pairs.drop_first());
    }
}

/// The empty cases: no pairs encode to the empty buffer, the empty buffer
/// decodes to no pairs, and looking any key up in it finds nothing.
pub proof fn lemma_empty_buffer(key: Seq<u8>)
    ensures
        encode(Seq::empty()) == Seq::<u8>::empty(),
        decode_bytes(Seq::empty()) == Ok::<Seq<(Seq<u8>, Seq<u8>)>, DecodeError>(Seq::empty()),
        lookup_bytes(key, Seq::empty()) == Ok::<Option<Seq<u8>>, DecodeError>(None),
{
}

/// First-match-wins: on a buffer encoded from any pair sequence, lookup
/// returns the value of the earliest pair whose key matches, and no match
/// at all exactly when no pair's key matches.
pub proof fn lemma_first_match(key: Seq<u8>, pairs: Seq<(Seq<u8>, Seq<u8>)>)
    requires
        lengths_in_range(pairs),
    ensures
        lookup_bytes(key, encode(pairs)) == Ok::<Option<Seq<u8>>, DecodeError>(
            lookup_pairs(key, pairs),
        ),
    decreases pairs.len(),
{
    let d = encode(pairs);
    if pairs.len() == 0 {
        assert(d.len() == 0);
    } else {
        assert(pairs[0].0.len() <= u32::MAX && pairs[0].1.len() <= u32::MAX);
        lemma_encode_head(pairs, Seq::empty());
        assert(d + Seq::<u8>::empty() =~= d);
        lemma_lengths_in_range_drop_first(pairs);
        lemma_first_match(key, pairs.drop_first());
    }
}

/// Early safety of a found match: once a record with a matching key stands
/// complete in the buffer, lookup returns its value without inspecting what
/// follows, so arbitrary bytes after the encoded pairs — malformed or not —
/// do not change the result.
pub proof fn lemma_match_ignores_tail(key: Seq<u8>, pairs: Seq<(Seq<u8>, Seq<u8>)>, tail: Seq<u8>)
    requires
        lengths_in_range(pairs),
        lookup_pairs(key, pairs) is Some,
    ensures
        lookup_bytes(key, encode(pairs) + tail) == Ok::<Option<Seq<u8>>, DecodeError>(
            lookup_pairs(key, pairs),
        ),
    decreases pairs.len(),
{
    let d = encode(pairs) + tail;
    assert(pairs.len() > 0);
    assert(pairs[0].0.len() <= u32::MAX && pairs[0].1.len() <= u32::MAX);
    lemma_encode_head(pairs, tail);
    if pairs[0].0 == key {
    } else {
        lemma_lengths_in_range_drop_first(pairs);
        lemma_match_ignores_tail(key, pairs.drop_first(), tail);
    }
}

} // verus!
