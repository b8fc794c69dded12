use bitcask::codec::{checksum_of, decode, decode_at, encode, Decoded, HEADER_LEN};
use bitcask::error::DatastoreError;
use bitcask::naming::{data_file_ids, data_file_name, parse_data_file_name, validate_directory};

#[test]
fn checksum_matches_crc32_check_value() {
    let data = b"123456789".to_vec();
    assert_eq!(checksum_of(&data, 0, data.len()), 0xCBF4_3926);
}

#[test]
fn checksum_of_empty_range_is_zero() {
    let data = b"abc".to_vec();
    assert_eq!(checksum_of(&data, 1, 1), 0);
}

#[test]
fn encode_gives_exact_layout() {
    let bytes = encode(0x0102_0304_0506_0708, &b"key".to_vec(), &b"value".to_vec());
    let expected: Vec<u8> = vec![
        1, 177, 78, 237, 1, 2, 3, 4, 5, 6, 7, 8, 0, 0, 0, 3, 0, 0, 0, 5, 107, 101, 121, 118, 97,
        108, 117, 101,
    ];
    assert_eq!(bytes, expected);
    assert_eq!(bytes.len(), HEADER_LEN + 3 + 5);
}

#[test]
fn round_trip_reproduces_record() {
    for (ts, k, v) in [
        (0u64, b"".to_vec(), b"".to_vec()),
        (42u64, b"x".to_vec(), b"1".to_vec()),
        (u64::MAX, b"some key".to_vec(), vec![0u8, 255, 7, 9]),
    ] {
        let bytes = encode(ts, &k, &v);
        let rec = decode(&bytes).unwrap();
        assert_eq!(rec.timestamp, ts);
        assert_eq!(rec.key, k);
        assert_eq!(rec.value, v);
        match decode_at(&bytes, 0) {
            Decoded::Valid { len, .. } => assert_eq!(len, bytes.len()),
            _ => panic!("expected a valid record"),
        }
    }
}

#[test]
fn flipped_bit_is_corrupt() {
    let mut bytes = encode(7, &b"key".to_vec(), &b"value".to_vec());
    bytes[HEADER_LEN + 4] ^= 0x01;
    assert_eq!(decode(&bytes).err(), Some(DatastoreError::CorruptRecord));
    match decode_at(&bytes, 0) {
        Decoded::Corrupt { len } => assert_eq!(len, bytes.len()),
        _ => panic!("expected a corrupt record"),
    }
}

#[test]
fn truncated_record_is_reported() {
    let bytes = encode(7, &b"key".to_vec(), &b"value".to_vec());
    for n in [0usize, 5, HEADER_LEN - 1, HEADER_LEN, bytes.len() - 1] {
        let part = bytes[..n].to_vec();
        assert!(matches!(decode_at(&part, 0), Decoded::Truncated));
        assert_eq!(decode(&part).err(), Some(DatastoreError::CorruptRecord));
    }
}

#[test]
fn decode_at_reads_second_record() {
    let mut bytes = encode(1, &b"a".to_vec(), &b"1".to_vec());
    let first = bytes.len();
    bytes.extend(encode(2, &b"b".to_vec(), &b"22".to_vec()));
    match decode_at(&bytes, first) {
        Decoded::Valid { record, len } => {
            assert_eq!(record.key, b"b".to_vec());
            assert_eq!(record.value, b"22".to_vec());
            assert_eq!(record.timestamp, 2);
            assert_eq!(len, bytes.len() - first);
        }
        _ => panic!("expected a valid record"),
    }
}

#[test]
fn data_file_name_format() {
    assert_eq!(data_file_name(1_700_000_000), b"data1700000000.dat".to_vec());
    assert_eq!(data_file_name(0), b"data0.dat".to_vec());
}

#[test]
fn parse_data_file_names() {
    assert_eq!(parse_data_file_name(&b"data1700000000.dat".to_vec()), Some(1_700_000_000));
    assert_eq!(parse_data_file_name(&b"data0.dat".to_vec()), Some(0));
    assert_eq!(
        parse_data_file_name(&b"data18446744073709551615.dat".to_vec()),
        Some(u64::MAX)
    );
    assert_eq!(parse_data_file_name(&b"data18446744073709551616.dat".to_vec()), None);
    assert_eq!(parse_data_file_name(&b"data01.dat".to_vec()), None);
    assert_eq!(parse_data_file_name(&b"data.dat".to_vec()), None);
    assert_eq!(parse_data_file_name(&b"data12.txt".to_vec()), None);
    assert_eq!(parse_data_file_name(&b"file12.dat".to_vec()), None);
    assert_eq!(parse_data_file_name(&b"data1x2.dat".to_vec()), None);
}

#[test]
fn name_round_trip() {
    for id in [0u64, 9, 10, 99, 100, 1_700_000_000, u64::MAX] {
        assert_eq!(parse_data_file_name(&data_file_name(id)), Some(id));
    }
}

#[test]
fn data_file_ids_sorted_and_filtered() {
    let names: Vec<Vec<u8>> = vec![
        b"data30.dat".to_vec(),
        b"notes.txt".to_vec(),
        b"data4.dat".to_vec(),
        b"data100.dat".to_vec(),
        b"data04.dat".to_vec(),
        b"data4.dat".to_vec(),
    ];
    assert_eq!(data_file_ids(&names), vec![4, 30, 100]);
    assert_eq!(data_file_ids(&Vec::new()), Vec::<u64>::new());
}

#[test]
fn directory_validation() {
    assert_eq!(validate_directory(false, false), Err(DatastoreError::NonExistentDatastore));
    assert_eq!(validate_directory(true, false), Err(DatastoreError::NonDirectoryDatastore));
    assert_eq!(validate_directory(true, true), Ok(()));
}
