use rediskv::rdb;
use rediskv::rdb::RdbError;
use rediskv::store;
use rediskv::RdbParser;
use rediskv::RedisValue;
use rediskv::Store;

fn store_with(entries: Vec<(&[u8], RedisValue, Option<u64>)>) -> Store {
    let mut s = Store::new();
    for (k, v, dl) in entries {
        s.upsert(k.to_vec(), v, dl);
    }
    s
}

fn save_store(s: &mut Store, now_wall: u64, now_mono: u64) -> Vec<u8> {
    s.purge_expired_keys(now_mono);
    rdb::save(s.export(), now_wall, now_mono).expect("serialisable")
}

#[test]
fn empty_store_roundtrips() {
    let mut s = Store::new();
    let image = save_store(&mut s, 5000, 10);
    let db = RdbParser::load(&image).expect("well-formed image");
    assert!(db.data.is_empty());
}

#[test]
fn image_begins_with_magic_and_version() {
    let mut s = Store::new();
    let image = save_store(&mut s, 5000, 10);
    assert_eq!(&image[..9], b"REDIS0011");
}

#[test]
fn strings_lists_and_sets_roundtrip() {
    let mut s = store_with(vec![
        (b"s", RedisValue::String(b"hello".to_vec()), None),
        (
            b"l",
            RedisValue::List(vec![b"a".to_vec(), b"bb".to_vec(), b"".to_vec()]),
            None,
        ),
        (
            b"set",
            RedisValue::SetVal(vec![b"x".to_vec(), b"y".to_vec()]),
            None,
        ),
    ]);
    let image = save_store(&mut s, 9000, 50);
    let db = RdbParser::load(&image).expect("well-formed image");
    assert_eq!(db.data.len(), 3);
    for (key, entry) in &db.data {
        assert_eq!(entry.expiry, None);
        match (key.as_slice(), &entry.value) {
            (b"s", RedisValue::String(b)) => assert_eq!(b, &b"hello".to_vec()),
            (b"l", RedisValue::List(items)) => {
                assert_eq!(items, &vec![b"a".to_vec(), b"bb".to_vec(), b"".to_vec()])
            }
            (b"set", RedisValue::SetVal(items)) => {
                assert_eq!(items, &vec![b"x".to_vec(), b"y".to_vec()])
            }
            other => panic!("unexpected row for key {:?}", other.0),
        }
    }
}

#[test]
fn opaque_payloads_roundtrip_verbatim() {
    let blob = vec![1u8, 2, 3, 0, 255];
    let mut s = store_with(vec![
        (b"zl", RedisValue::Ziplist(blob.clone()), None),
        (b"zm", RedisValue::Zipmap(blob.clone()), None),
        (b"is", RedisValue::Intset(blob.clone()), None),
        (b"ql", RedisValue::Quicklist(blob.clone()), None),
    ]);
    let image = save_store(&mut s, 9000, 50);
    let db = RdbParser::load(&image).expect("well-formed image");
    assert_eq!(db.data.len(), 4);
    for (key, entry) in &db.data {
        match (key.as_slice(), &entry.value) {
            (b"zl", RedisValue::Ziplist(d)) => assert_eq!(d, &blob),
            (b"zm", RedisValue::Zipmap(d)) => assert_eq!(d, &blob),
            (b"is", RedisValue::Intset(d)) => assert_eq!(d, &blob),
            (b"ql", RedisValue::Quicklist(d)) => assert_eq!(d, &blob),
            other => panic!("unexpected row for key {:?}", other.0),
        }
    }
}

#[test]
fn numbers_and_booleans_come_back_as_their_text() {
    let mut s = store_with(vec![
        (b"i", RedisValue::Integer(-77), None),
        (b"f", RedisValue::Float(b"2.5".to_vec()), None),
        (b"t", RedisValue::Boolean(true), None),
    ]);
    let image = save_store(&mut s, 9000, 50);
    let db = RdbParser::load(&image).expect("well-formed image");
    for (key, entry) in &db.data {
        match (key.as_slice(), &entry.value) {
            (b"i", RedisValue::String(b)) => assert_eq!(b, &b"-77".to_vec()),
            (b"f", RedisValue::String(b)) => assert_eq!(b, &b"2.5".to_vec()),
            (b"t", RedisValue::String(b)) => assert_eq!(b, &b"true".to_vec()),
            other => panic!("unexpected row for key {:?}", other.0),
        }
    }
}

#[test]
fn a_future_deadline_travels_as_a_wall_timestamp() {
    let now_mono: u64 = 1_000;
    let now_wall: u64 = 1_700_000_000_000;
    // Deadline 5 seconds ahead on the monotonic clock.
    let mut s = store_with(vec![(
        b"k",
        RedisValue::String(b"v".to_vec()),
        Some(now_mono + 5_000),
    )]);
    let image = save_store(&mut s, now_wall, now_mono);
    let db = RdbParser::load(&image).expect("well-formed image");
    assert_eq!(db.data.len(), 1);
    assert_eq!(db.data[0].1.expiry, Some(now_wall + 5_000));

    // Loading translates it back onto a fresh monotonic clock, 1 ms later.
    let mut restored = Store::new();
    store::load_from_rdb(&mut restored, db, now_wall + 1, 20);
    let rows = restored.export();
    assert_eq!(rows.len(), 1);
    assert_eq!(rows[0].expires_at, Some(20 + 5_000 - 1));
}

#[test]
fn an_expired_row_is_dropped_on_load() {
    let db = rediskv::RdbDatabase {
        data: vec![(
            b"old".to_vec(),
            rediskv::RedisEntry {
                value: RedisValue::String(b"v".to_vec()),
                expiry: Some(100),
            },
        )],
    };
    let mut restored = Store::new();
    store::load_from_rdb(&mut restored, db, 200, 0);
    assert!(restored.export().is_empty());
}

#[test]
fn flipping_any_body_byte_fails_the_load() {
    let mut s = store_with(vec![
        (b"a", RedisValue::String(b"one".to_vec()), None),
        (b"b", RedisValue::List(vec![b"x".to_vec()]), None),
    ]);
    let image = save_store(&mut s, 9000, 50);
    for i in 0..image.len() - 8 {
        let mut bad = image.clone();
        bad[i] ^= 0x40;
        assert!(
            RdbParser::load(&bad).is_err(),
            "flip at {} was not noticed",
            i
        );
    }
}

#[test]
fn flipping_the_checksum_fails_the_load() {
    let mut s = store_with(vec![(b"a", RedisValue::String(b"one".to_vec()), None)]);
    let image = save_store(&mut s, 9000, 50);
    for i in image.len() - 8..image.len() {
        let mut bad = image.clone();
        bad[i] ^= 0x01;
        assert!(matches!(RdbParser::load(&bad), Err(RdbError::ChecksumMismatch)));
    }
}

#[test]
fn bad_magic_and_version_are_refused() {
    assert!(matches!(RdbParser::load(b"RED"), Err(RdbError::Truncated)));
    assert!(matches!(RdbParser::load(b"WRONG0011"), Err(RdbError::BadMagic)));
    assert!(matches!(RdbParser::load(b"REDIS0009"), Err(RdbError::BadVersion)));
}

fn with_checksum(mut body: Vec<u8>) -> Vec<u8> {
    let crc = crc64::crc64(0, &body);
    body.extend_from_slice(&crc.to_le_bytes());
    body
}

#[test]
fn an_integer_encoded_string_loads_as_its_text() {
    // Header, then one string record whose payload is an 8-bit integer.
    let mut body = b"REDIS0011".to_vec();
    body.push(0x00); // string record
    body.extend_from_slice(&[1, b'k']); // key "k"
    body.push(0xC0); // special encoding: 8-bit integer
    body.push(0xF6); // -10
    body.push(0xFF);
    let image = with_checksum(body);
    let db = RdbParser::load(&image).expect("well-formed image");
    assert_eq!(db.data.len(), 1);
    assert!(matches!(&db.data[0].1.value, RedisValue::String(b) if b == &b"-10".to_vec()));
}

#[test]
fn a_compressed_string_decompresses_on_load() {
    // One string record whose payload is LZF-compressed: a literal run of
    // three bytes, then a back reference that repeats them.
    let compressed: Vec<u8> = vec![
        0x02, b'a', b'b', b'c', // literal run of 3
        0x20, 0x02, // back reference: length 1+2, offset 2+1
    ];
    let mut body = b"REDIS0011".to_vec();
    body.push(0x00);
    body.extend_from_slice(&[1, b'k']);
    body.push(0xC3); // special encoding: LZF
    body.push(compressed.len() as u8);
    body.push(6); // uncompressed length hint
    body.extend_from_slice(&compressed);
    body.push(0xFF);
    let image = with_checksum(body);
    let db = RdbParser::load(&image).expect("well-formed image");
    assert!(matches!(&db.data[0].1.value, RedisValue::String(b) if b == &b"abcabc".to_vec()));
}

#[test]
fn aux_hint_and_selector_records_are_skipped() {
    let mut body = b"REDIS0011".to_vec();
    body.push(0xFE); // selector
    body.push(0);
    body.push(0xFB); // resize hint
    body.push(1);
    body.push(0);
    body.push(0xFA); // aux metadata
    body.extend_from_slice(&[3, b'v', b'e', b'r']);
    body.extend_from_slice(&[1, b'7']);
    body.push(0x00); // the one real record
    body.extend_from_slice(&[1, b'k']);
    body.extend_from_slice(&[2, b'h', b'i']);
    body.push(0xFF);
    let image = with_checksum(body);
    let db = RdbParser::load(&image).expect("well-formed image");
    assert_eq!(db.data.len(), 1);
    assert!(matches!(&db.data[0].1.value, RedisValue::String(b) if b == &b"hi".to_vec()));
}

#[test]
fn an_unknown_opcode_is_refused() {
    let mut body = b"REDIS0011".to_vec();
    body.push(0x42);
    body.push(0xFF);
    let image = with_checksum(body);
    assert!(matches!(RdbParser::load(&image), Err(RdbError::UnknownOpcode)));
}

#[test]
fn hashes_and_sorted_sets_flatten_to_opaque_payloads() {
    let mut s = store_with(vec![
        (
            b"h",
            RedisValue::Hash(vec![(b"f".to_vec(), b"v".to_vec())]),
            None,
        ),
        (
            b"z",
            RedisValue::SortedSet(vec![(b"m".to_vec(), b"1.5".to_vec())]),
            None,
        ),
    ]);
    let image = save_store(&mut s, 9000, 50);
    let db = RdbParser::load(&image).expect("well-formed image");
    for (key, entry) in &db.data {
        match (key.as_slice(), &entry.value) {
            (b"h", RedisValue::Zipmap(d)) => assert_eq!(d, &b"f\0v\0".to_vec()),
            (b"z", RedisValue::Ziplist(d)) => assert_eq!(d, &b"m\x001.5\0".to_vec()),
            other => panic!("unexpected row for key {:?}", other.0),
        }
    }
}
