use lpkv::{
    collect_all_pairs, collect_keys, collect_values, count_records, iter, lookup, next_record,
    pair_adjacent, serialize, DecodeError,
};

#[test]
fn roundtrip_collect_all() {
    let items = vec![
        (b"alpha".to_vec(), b"1".to_vec()),
        (b"beta".to_vec(), vec![0u8, 255, 7]),
        (b"".to_vec(), b"".to_vec()),
    ];
    let data = serialize(&items);
    assert_eq!(collect_all_pairs(&data), Ok(items));
}

#[test]
fn length_invariant_sum() {
    let items = vec![
        (b"ab".to_vec(), b"xyz".to_vec()),
        (b"".to_vec(), b"v".to_vec()),
        (b"longerkey".to_vec(), b"".to_vec()),
    ];
    let data = serialize(&items);
    let expected: usize = items.iter().map(|(k, v)| 8 + k.len() + v.len()).sum();
    assert_eq!(data.len(), expected);
}

#[test]
fn collect_keys_in_order() {
    let items = vec![
        (b"k1".to_vec(), b"v1".to_vec()),
        (b"k2".to_vec(), b"v2".to_vec()),
        (b"k1".to_vec(), b"v3".to_vec()),
    ];
    let data = serialize(&items);
    assert_eq!(
        collect_keys(&data),
        Ok(vec![b"k1".to_vec(), b"k2".to_vec(), b"k1".to_vec()])
    );
}

#[test]
fn collect_values_in_order() {
    let items = vec![
        (b"k1".to_vec(), b"v1".to_vec()),
        (b"k2".to_vec(), b"v2".to_vec()),
    ];
    let data = serialize(&items);
    assert_eq!(collect_values(&data), Ok(vec![b"v1".to_vec(), b"v2".to_vec()]));
}

#[test]
fn count_records_counts() {
    let items = vec![
        (b"a".to_vec(), b"1".to_vec()),
        (b"b".to_vec(), b"2".to_vec()),
        (b"c".to_vec(), b"3".to_vec()),
    ];
    let data = serialize(&items);
    assert_eq!(count_records(&data), Ok(3));
    assert_eq!(count_records(&[]), Ok(0));
}

#[test]
fn projections_propagate_faults() {
    let short = [1u8, 2, 3];
    assert_eq!(collect_all_pairs(&short), Err(DecodeError::TruncatedHeader));
    assert_eq!(collect_keys(&short), Err(DecodeError::TruncatedHeader));
    assert_eq!(collect_values(&short), Err(DecodeError::TruncatedHeader));
    assert_eq!(count_records(&short), Err(DecodeError::TruncatedHeader));
    let bad_body = [2, 0, 0, 0, 9, 0, 0, 0, b'a', b'b'];
    assert_eq!(collect_all_pairs(&bad_body), Err(DecodeError::TruncatedBody));
    assert_eq!(count_records(&bad_body), Err(DecodeError::TruncatedBody));
}

#[test]
fn iter_propagates_faults() {
    let mut seen = 0;
    let r = iter(&[0u8, 0, 0], |_: &[u8], _: &[u8]| {
        seen += 1;
        true
    });
    assert_eq!(r, Err(DecodeError::TruncatedHeader));
    assert_eq!(seen, 0);

    // one good record, then a body that overruns the buffer
    let mut data = serialize(&vec![(b"k".to_vec(), b"v".to_vec())]);
    data.extend_from_slice(&[1, 0, 0, 0, 4, 0, 0, 0, b'x']);
    let mut collected = Vec::new();
    let r = iter(&data, |k: &[u8], _: &[u8]| {
        collected.push(k.to_vec());
        true
    });
    assert_eq!(r, Err(DecodeError::TruncatedBody));
    assert_eq!(collected, vec![b"k".to_vec()]);
}

#[test]
fn early_stop_skips_malformed_remainder() {
    // a visitor that stops early never reaches the corrupt tail
    let mut data = serialize(&vec![(b"k".to_vec(), b"v".to_vec())]);
    data.extend_from_slice(&[9, 9, 9]);
    let r = iter(&data, |_: &[u8], _: &[u8]| false);
    assert_eq!(r, Ok(()));
}

#[test]
fn lookup_match_before_corruption() {
    // the match is returned even though the bytes after it are malformed
    let mut data = serialize(&vec![(b"key".to_vec(), b"val".to_vec())]);
    data.extend_from_slice(&[9, 9, 9]);
    assert_eq!(lookup(b"key", &data), Ok(Some(b"val".as_slice())));
    assert_eq!(lookup(b"other", &data), Err(DecodeError::TruncatedHeader));
}

#[test]
fn empty_query_matches_only_empty_key() {
    let items = vec![
        (b"a".to_vec(), b"x".to_vec()),
        (b"".to_vec(), b"e".to_vec()),
    ];
    let data = serialize(&items);
    assert_eq!(lookup(b"", &data), Ok(Some(b"e".as_slice())));
}

#[test]
fn next_record_walks_boundaries() {
    let items = vec![
        (b"k1".to_vec(), b"v1".to_vec()),
        (b"k2".to_vec(), b"longer".to_vec()),
    ];
    let data = serialize(&items);
    let (k, v, next) = next_record(&data, 0).unwrap().unwrap();
    assert_eq!((k, v), (b"k1".as_slice(), b"v1".as_slice()));
    let (k2, v2, end) = next_record(&data, next).unwrap().unwrap();
    assert_eq!((k2, v2), (b"k2".as_slice(), b"longer".as_slice()));
    assert_eq!(next_record(&data, end).unwrap(), None);
}

#[test]
fn pair_adjacent_groups_and_drops_trailing() {
    let flat = vec![
        b"k1".to_vec(),
        b"v1".to_vec(),
        b"k2".to_vec(),
        b"v2".to_vec(),
        b"odd".to_vec(),
    ];
    let pairs = pair_adjacent(&flat);
    assert_eq!(
        pairs,
        vec![
            (b"k1".to_vec(), b"v1".to_vec()),
            (b"k2".to_vec(), b"v2".to_vec()),
        ]
    );
    let data = serialize(&pairs);
    assert_eq!(lookup(b"k2", &data), Ok(Some(b"v2".as_slice())));
    assert_eq!(lookup(b"odd", &data), Ok(None));
}
