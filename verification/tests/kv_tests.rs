use std::cmp::Ordering;

use lsm_core::kv::KeyTs;
use lsm_core::kv::KeyTsBorrow;
use lsm_core::kv::Meta;
use lsm_core::kv::PhyTs;
use lsm_core::kv::TxnTs;
use lsm_core::kv::ValueMeta;
use lsm_core::kv::ValuePointer;

#[test]
fn test_bytes_from() {
    let key_ts = KeyTs::new(b"a".to_vec(), TxnTs::new(1));
    let bytes = key_ts.serialize();
    assert_eq!(KeyTs::from_slice(bytes.as_slice()), key_ts);
}

#[test]
fn test_ord() {
    let a = KeyTs::new(b"a".to_vec(), TxnTs::new(1));
    let b = KeyTs::new(b"b".to_vec(), TxnTs::new(0));
    let c = KeyTs::new(b"a".to_vec(), TxnTs::new(2));
    let default = KeyTs::default();
    assert_eq!(a.cmp(&default), Ordering::Greater);
    assert_eq!(a.cmp(&b), Ordering::Less);
    assert_eq!(a.cmp(&c), Ordering::Greater);
    let a = a.serialize();
    let b = b.serialize();
    let c = c.serialize();
    assert_eq!(KeyTsBorrow::cmp(&a, &b), Ordering::Less);
    assert_eq!(KeyTsBorrow::cmp(&a, &c), Ordering::Greater);
}

#[test]
fn test_partial_ord() {
    let p = b"abc";
    let m = KeyTsBorrow(p);
    let mut n = KeyTs::default();
    n.set_key(b"abc".to_vec());
    n.set_txn_ts(TxnTs::new(1));
    println!("{:?}", n.partial_cmp(&KeyTs::from_slice(&m.0)));
    let a: Vec<u8> = vec![];
    let b = KeyTsBorrow(&a);
    println!("{:?}", b.is_empty());
    let c = KeyTs::default().serialize();
    assert!(KeyTsBorrow(&c).is_empty());
}

#[test]
fn test_serialize() {
    let mut v = ValueMeta::default();
    v.set_value(String::from("abc").as_bytes().to_vec());
    v.expires_at = PhyTs::new(123456789);
    v.meta = Meta(1);
    assert_eq!(v.serialized_size(), 9);
    assert_eq!(v, ValueMeta::deserialize(&v.serialize()).unwrap());
}

#[test]
fn test_empty() {
    let mut v = ValueMeta::default();
    v.set_value(b"".to_vec());
    println!("{}", v.serialized_size());
    let k = KeyTs::new(Vec::new(), TxnTs::new(0));
    println!("{}", k.key().len());
}

#[test]
fn test_meta() {
    assert!(Meta(0).is_empty());
    assert!(!Meta(1).is_empty())
}

#[test]
fn test_equal_key() {
    let a = KeyTs::new(b"a".to_vec(), TxnTs::new(1)).serialize();
    let a_clone = KeyTs::new(b"a".to_vec(), TxnTs::new(1)).serialize();
    assert!(KeyTsBorrow::equal_key(&a, &a_clone));

    let b = KeyTs::new(b"ab".to_vec(), TxnTs::new(1)).serialize();
    assert!(!KeyTsBorrow::equal_key(&a, &b));
}

#[test]
fn value_pointer_round_trip() {
    let p = ValuePointer::new(7, 4096, 12345);
    let bytes = p.serialize();
    assert_eq!(bytes.len(), 12);
    let q = ValuePointer::deserialize(&bytes);
    assert_eq!(p, q);
    assert!(ValuePointer::default().is_empty());
    assert!(!p.is_empty());
    assert_eq!(p.fid(), 7);
    assert_eq!(p.len(), 4096);
}

#[test]
fn value_meta_round_trip_empty_value() {
    let v = ValueMeta::default();
    let bytes = v.serialize();
    assert_eq!(bytes.len(), 3);
    assert_eq!(ValueMeta::deserialize(&bytes).unwrap(), v);
    assert_eq!(ValueMeta::deserialize(&bytes[..2]), None);
}

#[test]
fn key_order_versions_descending() {
    // Versions of one key order newest first; distinct keys order by bytes.
    let newer = KeyTs::new(b"k".to_vec(), TxnTs::new(9));
    let older = KeyTs::new(b"k".to_vec(), TxnTs::new(3));
    assert_eq!(newer.cmp(&older), Ordering::Less);
    assert_eq!(older.cmp(&newer), Ordering::Greater);
    let ser_new = newer.serialize();
    let ser_old = older.serialize();
    assert_eq!(KeyTsBorrow::cmp(&ser_new, &ser_old), Ordering::Less);
    assert_eq!(
        KeyTsBorrow::cmp(&ser_new, &ser_new.clone()),
        Ordering::Equal
    );
}

#[test]
fn meta_flags() {
    let mut m = Meta::default();
    m.insert(lsm_core::kv::META_DELETE);
    assert!(m.contains(lsm_core::kv::META_DELETE));
    m.insert(lsm_core::kv::META_TXN);
    m.remove(lsm_core::kv::META_TXN);
    assert!(m.contains(lsm_core::kv::META_DELETE));
    assert!(!m.contains(lsm_core::kv::META_TXN));
}

#[test]
fn expiry_rules() {
    let mut v = ValueMeta::default();
    assert!(!v.is_deleted_or_expired_at(PhyTs::new(100)));
    v.expires_at = PhyTs::new(50);
    assert!(v.is_deleted_or_expired_at(PhyTs::new(100)));
    assert!(!v.is_deleted_or_expired_at(PhyTs::new(49)));
    let mut d = ValueMeta::default();
    d.meta = Meta(lsm_core::kv::META_DELETE);
    assert!(d.is_deleted_or_expired_at(PhyTs::new(0)));
}

#[test]
fn varint_and_decimal_codecs() {
    for v in [0u64, 1, 127, 128, 300, 123456789, u64::MAX] {
        let mut buf: Vec<u8> = Vec::new();
        lsm_core::codec::push_varint(&mut buf, v);
        let (back, n) = lsm_core::codec::read_varint(&buf, 0).unwrap();
        assert_eq!(back, v);
        assert_eq!(n, buf.len());
    }
    assert_eq!(lsm_core::codec::u64_to_decimal(0), b"0".to_vec());
    assert_eq!(lsm_core::codec::u64_to_decimal(12345), b"12345".to_vec());
    let mut be: Vec<u8> = Vec::new();
    lsm_core::codec::push_u64_be(&mut be, 0x0102030405060708);
    assert_eq!(be, vec![1, 2, 3, 4, 5, 6, 7, 8]);
    assert_eq!(lsm_core::codec::read_u64_be(&be, 0), 0x0102030405060708);
}

#[test]
fn serialized_comparator_with_empty_user_keys() {
    // Eight-byte serialized keys carry an empty user key and still order
    // newest version first.
    let newer = KeyTs::new(Vec::new(), TxnTs::new(9)).serialize();
    let older = KeyTs::new(Vec::new(), TxnTs::new(5)).serialize();
    assert_eq!(newer.len(), 8);
    assert_eq!(KeyTsBorrow::cmp(&newer, &older), Ordering::Less);
    assert_eq!(KeyTsBorrow::cmp(&older, &newer), Ordering::Greater);
    assert!(KeyTsBorrow::equal_key(&newer, &older));
    // Against a versioned non-empty key, the empty user key sorts first.
    let keyed = KeyTs::new(b"a".to_vec(), TxnTs::new(1)).serialize();
    assert_eq!(KeyTsBorrow::cmp(&newer, &keyed), Ordering::Less);
}
