use versioned_kv::interface::StorageError;
use versioned_kv::keys::{decode, encode, prefix_without_timestamp, range_bounds, with_timestamp};

#[test]
fn encode_packs_big_endian_fields() {
    let k = encode(1, 2, 3, 4, 5);
    assert_eq!(
        k.0,
        [1, 0, 0, 0, 0, 0, 0, 0, 2, 3, 0, 0, 0, 0, 0, 0, 0, 4, 0, 0, 0, 0, 0, 0, 0, 5]
    );
}

#[test]
fn codec_round_trip() {
    let fields = (7u8, 0x0102030405060708u64, 9u8, 0x1112131415161718u64, 0x2122232425262728u64);
    let k = encode(fields.0, fields.1, fields.2, fields.3, fields.4);
    let decoded = decode(&k.0.to_vec()).unwrap();
    assert_eq!(decoded, fields);
}

#[test]
fn codec_round_trip_extremes() {
    let k = encode(0, u64::MAX, 255, 0, u64::MAX);
    let decoded = decode(&k.0.to_vec()).unwrap();
    assert_eq!(decoded, (0, u64::MAX, 255, 0, u64::MAX));
}

#[test]
fn decode_rejects_wrong_width() {
    assert!(matches!(decode(&vec![1, 2, 3]), Err(StorageError::MalformedKey)));
    assert!(matches!(decode(&vec![0; 27]), Err(StorageError::MalformedKey)));
    assert!(matches!(decode(&Vec::new()), Err(StorageError::MalformedKey)));
}

#[test]
fn prefix_drops_only_the_timestamp() {
    let k = encode(1, 2, 3, 4, 0x0506070805060708);
    let p = prefix_without_timestamp(&k);
    assert_eq!(p, [1, 0, 0, 0, 0, 0, 0, 0, 2, 3, 0, 0, 0, 0, 0, 0, 0, 4]);
}

#[test]
fn range_bounds_pad_with_extreme_timestamps() {
    let k = encode(1, 2, 3, 4, 5);
    let p = prefix_without_timestamp(&k);
    let (start, end) = range_bounds(&p);
    assert_eq!(
        start.0,
        [1, 0, 0, 0, 0, 0, 0, 0, 2, 3, 0, 0, 0, 0, 0, 0, 0, 4, 0, 0, 0, 0, 0, 0, 0, 0]
    );
    assert_eq!(
        end.0,
        [1, 0, 0, 0, 0, 0, 0, 0, 2, 3, 0, 0, 0, 0, 0, 0, 0, 4, 255, 255, 255, 255, 255, 255, 255, 255]
    );
}

#[test]
fn with_timestamp_keeps_the_whole_prefix() {
    let k = encode(1, 2, 3, 4, 5);
    let v = with_timestamp(&k, 0x1122334455667788);
    assert_eq!(
        v.0,
        [1, 0, 0, 0, 0, 0, 0, 0, 2, 3, 0, 0, 0, 0, 0, 0, 0, 4, 0x11, 0x22, 0x33, 0x44, 0x55,
            0x66, 0x77, 0x88]
    );
}
