//! Executable serialization and decoding, verified against the model in
//! [`crate::format`].

use vstd::prelude::*;

use crate::format::byte_views_of;
use crate::format::decode_bytes;
use crate::format::encode;
use crate::format::encode_record;
use crate::format::keys_of;
use crate::format::le32_at;
use crate::format::lengths_in_range;
use crate::format::lookup_bytes;
use crate::format::scan_fault;
use crate::format::values_of;
use crate::format::views_of;
use crate::format::DecodeError;
use vstd::slice::slice_subrange;
use vstd::slice::slice_to_vec;

verus! {

/// Appends every byte of `src` to `dst`, in order.
fn push_all(dst: &mut Vec<u8>, src: &[u8])
    ensures
        final(dst)@ == old(dst)@ + src@,
{
    let mut i: usize = 0;
    while i < src.len()
        invariant
            i <= src@.len(),
            dst@ == old(dst)@ + src@.take(i as int),
        decreases src@.len() - i,
    {
        dst.push(src[i]);
        proof {
            assert(src@.take(i + 1) == src@.take(i as int).push(src@[i as int]));
        }
        i = i + 1;
    }
    proof {
        assert(src@.take(src@.len() as int) == src@);
    }
}

/// Appends the four little-endian bytes of `n` to `dst`.
fn push_u32_le(dst: &mut Vec<u8>, n: u32)
    ensures
        final(dst)@ == old(dst)@ + crate::format::u32_le(n as int),
{
    dst.push((n % 0x100) as u8);
    dst.push(((n / 0x100) % 0x100) as u8);
    dst.push(((n / 0x1_0000) % 0x100) as u8);
    dst.push(((n / 0x100_0000) % 0x100) as u8);
    proof {
        assert(dst@ =~= old(dst)@ + crate::format::u32_le(n as int));
    }
}

/// Encodes `pairs` as one contiguous buffer: for each pair in order, an
/// 8-byte header holding the key and value lengths (32-bit little-endian),
/// then the key bytes, then the value bytes. An empty input produces an
/// empty buffer.
pub fn serialize(pairs: &Vec<(Vec<u8>, Vec<u8>)>) -> (out: Vec<u8>)
    requires
        lengths_in_range(views_of(pairs@)),
    ensures
        out@ == encode(views_of(pairs@)),
{
    let mut out: Vec<u8> = Vec::new();
    let mut i: usize = 0;
    while i < pairs.len()
        invariant
            i <= pairs@.len(),
            lengths_in_range(views_of(pairs@)),
            out@ == encode(views_of(pairs@).take(i as int)),
        decreases pairs@.len() - i,
    {
        let key = &pairs[i].0;
        let value = &pairs[i].1;
        let ghost out0 = out@;
        push_u32_le(&mut out, key.len() as u32);
        push_u32_le(&mut out, value.len() as u32);
        push_all(&mut out, key.as_slice());
        push_all(&mut out, value.as_slice());
        proof {
            let vs = views_of(pairs@);
            assert(vs[i as int] == (key@, value@));
            assert(out@ =~= out0 + encode_record(key@, value@));
            assert(vs.take(i + 1) == vs.take(i as int).push(vs[i as int]));
            crate::format::lemma_encode_push(vs.take(i as int), vs[i as int]);
        }
        i = i + 1;
    }
    proof {
        assert(views_of(pairs@).take(pairs@.len() as int) == views_of(pairs@));
    }
    out
}

/// Reads the 32-bit little-endian value at `data[pos..pos+4]`, widened to
/// `u64` so that later offset arithmetic cannot overflow.
fn read_u32_le(data: &[u8], pos: usize) -> (n: u64)
    requires
        pos + 4 <= data@.len(),
    ensures
        n == le32_at(data@, pos as int),
        n <= u32::MAX,
{
    let b0 = data[pos] as u64;
    let b1 = data[pos + 1] as u64;
    let b2 = data[pos + 2] as u64;
    let b3 = data[pos + 3] as u64;
    b0 + 0x100 * b1 + 0x1_0000 * b2 + 0x100_0000 * b3
}

/// Byte-for-byte equality of two slices: same length and same bytes.
fn slice_eq(a: &[u8], b: &[u8]) -> (r: bool)
    ensures
        r == (a@ == b@),
{
    if a.len() != b.len() {
        return false;
    }
    let mut i: usize = 0;
    while i < a.len()
        invariant
            i <= a@.len(),
            a@.len() == b@.len(),
            forall|j: int| 0 <= j < i ==> a@[j] == b@[j],
        decreases a@.len() - i,
    {
        if a[i] != b[i] {
            return false;
        }
        i = i + 1;
    }
    proof {
        assert(a@ =~= b@);
    }
    true
}

/// Parses the record that starts at offset `pos`: the record-boundary
/// primitive that iteration and lookup share, so that both see identical
/// truncation semantics. Returns `Ok(None)` at the end of the buffer,
/// otherwise views of the key and the value plus the next record boundary,
/// or the fault when the suffix is malformed at its front.
pub fn next_record<'a>(data: &'a [u8], pos: usize) -> (r: Result<
    Option<(&'a [u8], &'a [u8], usize)>,
    DecodeError,
>)
    requires
        pos <= data@.len(),
    ensures
        (match r {
            Ok(None) => pos == data@.len(),
            Ok(Some((k, v, next))) => {
                let d = data@.skip(pos as int);
                &&& d.len() >= 8
                &&& 8 + le32_at(d, 0) + le32_at(d, 4) <= d.len()
                &&& k@ == d.subrange(8, 8 + le32_at(d, 0))
                &&& v@ == d.subrange(8 + le32_at(d, 0), 8 + le32_at(d, 0) + le32_at(d, 4))
                &&& next == pos + 8 + le32_at(d, 0) + le32_at(d, 4)
                &&& pos < next <= data@.len()
            },
            Err(e) => {
                let d = data@.skip(pos as int);
                &&& d.len() > 0
                &&& (if d.len() < 8 {
                    e == DecodeError::TruncatedHeader
                } else {
                    &&& 8 + le32_at(d, 0) + le32_at(d, 4) > d.len()
                    &&& e == DecodeError::TruncatedBody
                })
            },
        }),
{
    let ghost d = data@.skip(pos as int);
    if pos == data.len() {
        return Ok(None);
    }
    let len: usize = data.len();
    if len - pos < 8 {
        return Err(DecodeError::TruncatedHeader);
    }
    let kl = read_u32_le(data, pos);
    let vl = read_u32_le(data, pos + 4);
    proof {
        assert(le32_at(d, 0) == le32_at(data@, pos as int));
        assert(le32_at(d, 4) == le32_at(data@, pos as int + 4));
    }
    let remaining = (len - pos) as u64;
    if 8 + kl + vl > remaining {
        return Err(DecodeError::TruncatedBody);
    }
    let kl_us = kl as usize;
    let vl_us = vl as usize;
    let key = slice_subrange(data, pos + 8, pos + 8 + kl_us);
    let value = slice_subrange(data, pos + 8 + kl_us, pos + 8 + kl_us + vl_us);
    proof {
        assert(key@ =~= d.subrange(8, 8 + le32_at(d, 0)));
        assert(value@ =~= d.subrange(8 + le32_at(d, 0), 8 + le32_at(d, 0) + le32_at(d, 4)));
    }
    Ok(Some((key, value, pos + 8 + kl_us + vl_us)))
}

/// Scans `data` for the first record whose key equals `key`, byte for
/// byte, and returns a view of that record's value. Returns `Ok(None)` when
/// the scan completes without a match, and the fault when the buffer is
/// malformed at or before the point a match would have occurred. Later
/// duplicates of a matching key are never inspected.
pub fn lookup<'a>(key: &[u8], data: &'a [u8]) -> (r: Result<Option<&'a [u8]>, DecodeError>)
    ensures
        (match r {
            Ok(Some(v)) => lookup_bytes(key@, data@) == Ok::<Option<Seq<u8>>, DecodeError>(
                Some(v@),
            ),
            Ok(None) => lookup_bytes(key@, data@) == Ok::<Option<Seq<u8>>, DecodeError>(None),
            Err(e) => lookup_bytes(key@, data@) == Err::<Option<Seq<u8>>, DecodeError>(e),
        }),
{
    let mut pos: usize = 0;
    proof {
        assert(data@.skip(0) =~= data@);
    }
    loop
        invariant
            pos <= data@.len(),
            lookup_bytes(key@, data@) == lookup_bytes(key@, data@.skip(pos as int)),
        decreases data@.len() - pos,
    {
        let ghost d = data@.skip(pos as int);
        match next_record(data, pos) {
            Ok(None) => {
                proof {
                    assert(d.len() == 0);
                    assert(lookup_bytes(key@, d) == Ok::<Option<Seq<u8>>, DecodeError>(None));
                }
                return Ok(None);
            },
            Ok(Some((k, v, next))) => {
                if slice_eq(k, key) {
                    proof {
                        assert(lookup_bytes(key@, d) == Ok::<Option<Seq<u8>>, DecodeError>(
                            Some(v@),
                        ));
                    }
                    return Ok(Some(v));
                }
                proof {
                    let end = 8 + le32_at(d, 0) + le32_at(d, 4);
                    assert(lookup_bytes(key@, d) == lookup_bytes(key@, d.skip(end)));
                    assert(d.skip(end) =~= data@.skip(next as int));
                }
                pos = next;
            },
            Err(e) => {
                proof {
                    assert(lookup_bytes(key@, d) == Err::<Option<Seq<u8>>, DecodeError>(e));
                }
                return Err(e);
            },
        }
    }
}

/// Walks the buffer from offset 0, invoking `visit` on each record's key
/// and value views in order. Iteration stops early, with no fault and
/// without inspecting the remainder of the buffer, as soon as `visit`
/// returns false; reaching the end of the buffer ends iteration normally.
/// Returns the fault when the scan reaches a malformed region: a
/// well-formed buffer always iterates without fault, and a reported fault
/// is exactly the one the model assigns to the buffer. An empty buffer
/// yields zero invocations.
#[verifier::loop_isolation(false)]
pub fn iter<F: FnMut(&[u8], &[u8]) -> bool>(data: &[u8], visit: F) -> (r: Result<
    (),
    DecodeError,
>)
    requires
        forall|k: &[u8], v: &[u8]| call_requires(visit, (k, v)),
    ensures
        scan_fault(data@) is None ==> r is Ok,
        (r matches Err(e) ==> scan_fault(data@) == Some(e)),
        (forall|k: &[u8], v: &[u8], b: bool| call_ensures(visit, (k, v), b) ==> b) ==> r
            == (match scan_fault(data@) {
            Some(e) => Err::<(), DecodeError>(e),
            None => Ok::<(), DecodeError>(()),
        }),
{
    let ghost visit0 = visit;
    let mut visit = visit;
    let mut pos: usize = 0;
    proof {
        assert(data@.skip(0) =~= data@);
    }
    loop
        invariant
            pos <= data@.len(),
            scan_fault(data@) == scan_fault(data@.skip(pos as int)),
            forall|k: &[u8], v: &[u8]| call_requires(visit, (k, v)),
            visit == visit0,
        decreases data@.len() - pos,
    {
        let ghost d = data@.skip(pos as int);
        match next_record(data, pos) {
            Ok(None) => {
                proof {
                    assert(d.len() == 0);
                    assert(scan_fault(d) is None);
                }
                return Ok(());
            },
            Ok(Some((k, v, next))) => {
                if !visit(k, v) {
                    proof {
                        assert(call_ensures(visit0, (k, v), false));
                    }
                    return Ok(());
                }
                proof {
                    let end = 8 + le32_at(d, 0) + le32_at(d, 4);
                    assert(d.skip(end) =~= data@.skip(next as int));
                    assert(scan_fault(d) == scan_fault(data@.skip(next as int)));
                }
                pos = next;
            },
            Err(e) => {
                proof {
                    assert(scan_fault(d) == Some(e));
                }
                return Err(e);
            },
        }
    }
}

/// Decodes the whole buffer into owned (key, value) pairs, in buffer order:
/// iteration in collect-all mode. Returns the fault when the buffer is
/// malformed.
pub fn collect_all_pairs(data: &[u8]) -> (r: Result<Vec<(Vec<u8>, Vec<u8>)>, DecodeError>)
    ensures
        (match r {
            Ok(ps) => decode_bytes(data@) == Ok::<Seq<(Seq<u8>, Seq<u8>)>, DecodeError>(
                views_of(ps@),
            ),
            Err(e) => decode_bytes(data@) == Err::<Seq<(Seq<u8>, Seq<u8>)>, DecodeError>(e),
        }),
{
    let mut acc: Vec<(Vec<u8>, Vec<u8>)> = Vec::new();
    let mut pos: usize = 0;
    proof {
        assert(data@.skip(0) =~= data@);
        assert(views_of(acc@) =~= Seq::<(Seq<u8>, Seq<u8>)>::empty());
    }
    loop
        invariant
            pos <= data@.len(),
            decode_bytes(data@) == (match decode_bytes(data@.skip(pos as int)) {
                Ok(rest) => Ok::<Seq<(Seq<u8>, Seq<u8>)>, DecodeError>(views_of(acc@) + rest),
                Err(e) => Err::<Seq<(Seq<u8>, Seq<u8>)>, DecodeError>(e),
            }),
        decreases data@.len() - pos,
    {
        let ghost d = data@.skip(pos as int);
        match next_record(data, pos) {
            Ok(None) => {
                proof {
                    assert(d.len() == 0);
                    assert(decode_bytes(d) == Ok::<Seq<(Seq<u8>, Seq<u8>)>, DecodeError>(
                        Seq::empty(),
                    ));
                    assert(views_of(acc@) + Seq::<(Seq<u8>, Seq<u8>)>::empty() =~= views_of(
                        acc@,
                    ));
                }
                return Ok(acc);
            },
            Ok(Some((k, v, next))) => {
                let ghost acc0 = acc@;
                let kvec = slice_to_vec(k);
                let vvec = slice_to_vec(v);
                acc.push((kvec, vvec));
                proof {
                    let end = 8 + le32_at(d, 0) + le32_at(d, 4);
                    assert(d.skip(end) =~= data@.skip(next as int));
                    assert(views_of(acc@) =~= views_of(acc0).push((k@, v@)));
                    match decode_bytes(data@.skip(next as int)) {
                        Ok(rest) => {
                            assert(decode_bytes(d) == Ok::<Seq<(Seq<u8>, Seq<u8>)>, DecodeError>(
                                rest.insert(0, (k@, v@)),
                            ));
                            assert(views_of(acc0) + rest.insert(0, (k@, v@)) =~= views_of(acc@)
                                + rest);
                        },
                        Err(e) => {
                            assert(decode_bytes(d) == Err::<Seq<(Seq<u8>, Seq<u8>)>, DecodeError>(
                                e,
                            ));
                        },
                    }
                }
                pos = next;
            },
            Err(e) => {
                proof {
                    assert(decode_bytes(d) == Err::<Seq<(Seq<u8>, Seq<u8>)>, DecodeError>(e));
                }
                return Err(e);
            },
        }
    }
}

/// The keys of all records, in buffer order: the collect-all iteration
/// projected to keys. Returns the fault when the buffer is malformed.
pub fn collect_keys(data: &[u8]) -> (r: Result<Vec<Vec<u8>>, DecodeError>)
    ensures
        (match r {
            Ok(ks) => (match decode_bytes(data@) {
                Ok(ps) => byte_views_of(ks@) == keys_of(ps),
                Err(_) => false,
            }),
            Err(e) => decode_bytes(data@) == Err::<Seq<(Seq<u8>, Seq<u8>)>, DecodeError>(e),
        }),
{
    match collect_all_pairs(data) {
        Ok(ps) => {
            let mut ks: Vec<Vec<u8>> = Vec::new();
            let mut i: usize = 0;
            while i < ps.len()
                invariant
                    i <= ps@.len(),
                    byte_views_of(ks@) == keys_of(views_of(ps@)).take(i as int),
                decreases ps@.len() - i,
            {
                let ghost ks0 = ks@;
                ks.push(slice_to_vec(ps[i].0.as_slice()));
                proof {
                    assert(byte_views_of(ks@) =~= byte_views_of(ks0).push(ps@[i as int].0@));
                    assert(byte_views_of(ks@) =~= keys_of(views_of(ps@)).take(i + 1));
                }
                i = i + 1;
            }
            proof {
                assert(keys_of(views_of(ps@)).take(ps@.len() as int) =~= keys_of(views_of(ps@)));
            }
            Ok(ks)
        },
        Err(e) => Err(e),
    }
}

/// The values of all records, in buffer order: the collect-all iteration
/// projected to values. Returns the fault when the buffer is malformed.
pub fn collect_values(data: &[u8]) -> (r: Result<Vec<Vec<u8>>, DecodeError>)
    ensures
        (match r {
            Ok(vs) => (match decode_bytes(data@) {
                Ok(ps) => byte_views_of(vs@) == values_of(ps),
                Err(_) => false,
            }),
            Err(e) => decode_bytes(data@) == Err::<Seq<(Seq<u8>, Seq<u8>)>, DecodeError>(e),
        }),
{
    match collect_all_pairs(data) {
        Ok(ps) => {
            let mut vs: Vec<Vec<u8>> = Vec::new();
            let mut i: usize = 0;
            while i < ps.len()
                invariant
                    i <= ps@.len(),
                    byte_views_of(vs@) == values_of(views_of(ps@)).take(i as int),
                decreases ps@.len() - i,
            {
                let ghost vs0 = vs@;
                vs.push(slice_to_vec(ps[i].1.as_slice()));
                proof {
                    assert(byte_views_of(vs@) =~= byte_views_of(vs0).push(ps@[i as int].1@));
                    assert(byte_views_of(vs@) =~= values_of(views_of(ps@)).take(i + 1));
                }
                i = i + 1;
            }
            proof {
                assert(values_of(views_of(ps@)).take(ps@.len() as int) =~= values_of(
                    views_of(ps@),
                ));
            }
            Ok(vs)
        },
        Err(e) => Err(e),
    }
}

/// The number of records in the buffer: the collect-all iteration reduced
/// to a count. Returns the fault when the buffer is malformed.
pub fn count_records(data: &[u8]) -> (r: Result<usize, DecodeError>)
    ensures
        (match r {
            Ok(n) => (match decode_bytes(data@) {
                Ok(ps) => n == ps.len(),
                Err(_) => false,
            }),
            Err(e) => decode_bytes(data@) == Err::<Seq<(Seq<u8>, Seq<u8>)>, DecodeError>(e),
        }),
{
    match collect_all_pairs(data) {
        Ok(ps) => Ok(ps.len()),
        Err(e) => Err(e),
    }
}

/// Groups a flat list of byte strings into adjacent (key, value) pairs:
/// element 0 with element 1, element 2 with element 3, and so on. A trailing
/// element without a partner is dropped.
pub fn pair_adjacent(items: &Vec<Vec<u8>>) -> (r: Vec<(Vec<u8>, Vec<u8>)>)
    ensures
        r@.len() == items@.len() / 2,
        forall|i: int|
            0 <= i < r@.len() ==> (#[trigger] r@[i]).0@ == items@[2 * i]@ && r@[i].1@ == items@[
                2 * i + 1
            ]@,
{
    let mut r: Vec<(Vec<u8>, Vec<u8>)> = Vec::new();
    let mut i: usize = 0;
    while i + 1 < items.len()
        invariant
            i == 2 * r@.len(),
            i <= items@.len(),
            forall|j: int|
                0 <= j < r@.len() ==> (#[trigger] r@[j]).0@ == items@[2 * j]@ && r@[j].1@
                    == items@[2 * j + 1]@,
        decreases items@.len() - i,
    {
        let key = slice_to_vec(items[i].as_slice());
        let value = slice_to_vec(items[i + 1].as_slice());
        r.push((key, value));
        i = i + 2;
    }
    r
}

} // verus!
