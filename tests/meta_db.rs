use std::collections::HashMap;

use meta_db::codec::{
    address_bytes, decode_base, decode_entry, decode_ids, decode_meta, encode_base, encode_entry,
    encode_ids, encode_meta, h256_bytes, id_key, journal_key,
};
use meta_db::{
    decode_canonical, AccountMeta, Address, DBOp, DBTransaction, Error, JournalEntry, Lookup, MetaDB,
    H256, U256,
};

// The durable store as the tests see it: keys to values, batches applied in order.
type Store = HashMap<Vec<u8>, Vec<u8>>;

fn apply(store: &mut Store, batch: DBTransaction) {
    for op in batch.ops {
        match op {
            DBOp::Insert { key, value } => {
                store.insert(key, value);
            }
            DBOp::Delete { key } => {
                store.remove(&key);
            }
        }
    }
}

fn open(store: &Store, genesis: &H256) -> MetaDB {
    let base = store.get(&b"base".to_vec()).map(|v| v.as_slice());
    let mut db = MetaDB::new(base, genesis).unwrap();
    let mut era = db.journal.canon_base.0 + 1;
    while let Some(raw) = store.get(&journal_key(era)) {
        let candidates: Vec<(H256, Vec<u8>)> = decode_ids(raw)
            .unwrap()
            .into_iter()
            .map(|id| {
                let entry = store.get(&id_key(&id)).expect("corrupted database: missing journal data");
                (id, entry.clone())
            })
            .collect();
        db.load_era(era, &candidates).unwrap();
        era += 1;
    }
    db
}

fn h(i: u64) -> H256 {
    H256::from_u64(i)
}

fn meta(n: u64) -> AccountMeta {
    AccountMeta {
        code_size: n as usize,
        code_hash: H256 { hi: n as u128, lo: 7 },
        storage_root: H256 { hi: 3, lo: n as u128 },
        balance: U256::from_u64(n * 1000),
        nonce: U256::from_u64(n),
    }
}

fn canonical(store: &Store, a: &Address) -> Option<AccountMeta> {
    decode_canonical(store.get(&address_bytes(a)).map(|v| v.as_slice())).unwrap()
}

#[test]
fn loads_journal() {
    let mut store = Store::new();
    let mut meta_db = open(&store, &Default::default());

    for i in 0..10u64 {
        let mut batch = DBTransaction::new();
        meta_db.journal_under(&mut batch, i + 1, h(i + 1), h(i));
        apply(&mut store, batch);
    }

    let mut batch = DBTransaction::new();
    meta_db.mark_canonical(&mut batch, 1, h(1));
    apply(&mut store, batch);

    let journal = meta_db.journal;
    let meta_db = open(&store, &Default::default());

    assert_eq!(&journal, &meta_db.journal);
}

#[test]
fn persistence_round_trip_with_changes() {
    let mut store = Store::new();
    let mut db = open(&store, &h(0));
    for i in 0..10u64 {
        db.set(Address::from_u64(2 * i), meta(i));
        db.remove(Address::from_u64(2 * i + 1));
        let mut batch = DBTransaction::new();
        db.journal_under(&mut batch, i + 1, h(i + 1), h(i));
        apply(&mut store, batch);
    }
    let mut batch = DBTransaction::new();
    db.mark_canonical(&mut batch, 1, h(1));
    apply(&mut store, batch);

    let reopened = open(&store, &h(0));
    assert_eq!(db.journal, reopened.journal);
    for a in 0..20u64 {
        let k = Address::from_u64(a);
        assert_eq!(db.journal.modified_blocks(&k), reopened.journal.modified_blocks(&k));
    }
    assert_eq!(reopened.journal.modified_blocks(&Address::from_u64(6)), vec![(4, h(4))]);
    assert!(reopened.journal.modified_blocks(&Address::from_u64(0)).is_empty());
    assert_eq!(reopened.journal.canon_base, (1, h(1)));
    assert_eq!(reopened.journal.entries.len(), 9);
    assert_eq!(canonical(&store, &Address::from_u64(0)), Some(meta(0)));
}

#[test]
fn overlay_precedence() {
    let mut db = MetaDB::new(None, &h(0)).unwrap();
    let k = Address::from_u64(5);
    db.set(k, meta(1));
    db.set(k, meta(2));
    assert_eq!(db.get(&k, (0, h(0))), Ok(Lookup::Found(Some(meta(2)))));
    assert_eq!(db.get(&k, (7, h(99))), Ok(Lookup::Found(Some(meta(2)))));
}

#[test]
fn tombstone_precedence() {
    let mut db = MetaDB::new(None, &h(0)).unwrap();
    let k = Address::from_u64(5);
    db.set(k, meta(1));
    let mut batch = DBTransaction::new();
    db.journal_under(&mut batch, 1, h(1), h(0));
    db.remove(k);
    assert_eq!(db.get(&k, (1, h(1))), Ok(Lookup::Found(None)));
    assert_eq!(db.get(&k, (0, h(0))), Ok(Lookup::Found(None)));
}

#[test]
fn record_round_trip() {
    for m in [meta(0), meta(1), meta(123456), AccountMeta::default()] {
        assert_eq!(decode_meta(&encode_meta(&m)), Some(m));
    }
    let big = AccountMeta {
        code_size: usize::MAX,
        code_hash: H256 { hi: u128::MAX, lo: 1 },
        storage_root: H256 { hi: 0, lo: u128::MAX },
        balance: U256 { hi: u128::MAX, lo: u128::MAX },
        nonce: U256 { hi: 1, lo: 0 },
    };
    assert_eq!(decode_meta(&encode_meta(&big)), Some(big));
}

#[test]
fn entry_round_trip() {
    let e = JournalEntry {
        parent: h(42),
        entries: vec![
            (Address::from_u64(1), Some(meta(1))),
            (Address { hi: u32::MAX, lo: 9 }, None),
            (Address::from_u64(3), Some(meta(3))),
        ],
    };
    assert_eq!(decode_entry(&encode_entry(&e)), Some(e));
    let empty = JournalEntry { parent: h(0), entries: vec![] };
    assert_eq!(decode_entry(&encode_entry(&empty)), Some(empty));
}

#[test]
fn ids_and_base_round_trip() {
    let ids = vec![h(1), H256 { hi: 5, lo: 6 }, h(0)];
    assert_eq!(decode_ids(&encode_ids(&ids)), Some(ids));
    assert_eq!(decode_base(&encode_base(17, &h(3))), Some((17, h(3))));
}

#[test]
fn encodings_have_exact_bytes() {
    let mut expected = vec![0xd4, 0x87];
    expected.extend_from_slice(b"journal");
    expected.push(0x01);
    expected.push(0x8a);
    expected.extend_from_slice(&[0u8; 10]);
    assert_eq!(journal_key(1), expected);
    assert_ne!(journal_key(1), journal_key(2));

    let id = H256 { hi: 1, lo: 2 };
    let mut id_bytes = vec![0u8; 32];
    id_bytes[15] = 1;
    id_bytes[31] = 2;
    assert_eq!(h256_bytes(&id), id_bytes);
    let key = id_key(&id);
    assert_eq!(&key[..10], &[0xf4, 0x87, b'j', b'o', b'u', b'r', b'n', b'a', b'l', 0xa0][..]);
    assert_eq!(&key[10..42], &id_bytes[..]);

    let a = Address { hi: 0x01020304, lo: 5 };
    let mut a_bytes = vec![1u8, 2, 3, 4];
    a_bytes.extend_from_slice(&[0u8; 15]);
    a_bytes.push(5);
    assert_eq!(address_bytes(&a), a_bytes);

    let m = encode_meta(&AccountMeta::default());
    assert_eq!(m.len(), 71);
    assert_eq!(&m[..4], &[0xf8, 0x45, 0x80, 0xa0][..]);
    assert_eq!(&m[69..], &[0x80, 0x80][..]);

    assert_eq!(encode_ids(&vec![]), vec![0xc0]);
    assert_eq!(encode_base(1, &h(0))[..3], [0xe2, 0x01, 0xa0]);
}

#[test]
fn base_fast_path() {
    let mut store = Store::new();
    let mut db = open(&store, &h(0));
    let k = Address::from_u64(1);
    db.set(k, meta(4));
    let mut batch = DBTransaction::new();
    db.journal_under(&mut batch, 1, h(1), h(0));
    apply(&mut store, batch);
    assert_eq!(db.get(&k, (0, h(0))), Ok(Lookup::Canonical));
    assert_eq!(canonical(&store, &k), None);
    let mut batch = DBTransaction::new();
    db.mark_canonical(&mut batch, 1, h(1));
    apply(&mut store, batch);
    assert_eq!(db.get(&k, (1, h(1))), Ok(Lookup::Canonical));
    assert_eq!(canonical(&store, &k), Some(meta(4)));
}

#[test]
fn fork_isolation() {
    let mut db = MetaDB::new(None, &h(0)).unwrap();
    let k = Address::from_u64(1);
    let mut batch = DBTransaction::new();
    db.set(k, meta(10));
    db.journal_under(&mut batch, 1, h(11), h(0));
    db.set(k, meta(20));
    db.journal_under(&mut batch, 1, h(12), h(0));
    db.set(Address::from_u64(2), meta(30));
    db.journal_under(&mut batch, 2, h(21), h(11));
    assert_eq!(db.get(&k, (1, h(11))), Ok(Lookup::Found(Some(meta(10)))));
    assert_eq!(db.get(&k, (1, h(12))), Ok(Lookup::Found(Some(meta(20)))));
    assert_eq!(db.get(&k, (2, h(21))), Ok(Lookup::Found(Some(meta(10)))));
    assert_eq!(db.get(&Address::from_u64(2), (1, h(12))), Ok(Lookup::Canonical));
    assert_eq!(db.get(&Address::from_u64(2), (2, h(21))), Ok(Lookup::Found(Some(meta(30)))));
}

#[test]
fn pruning() {
    let mut db = MetaDB::new(None, &h(0)).unwrap();
    let k = Address::from_u64(1);
    let mut batch = DBTransaction::new();
    db.set(k, meta(10));
    db.journal_under(&mut batch, 1, h(11), h(0));
    db.set(k, meta(20));
    db.journal_under(&mut batch, 1, h(12), h(0));
    db.journal_under(&mut batch, 2, h(22), h(12));
    db.mark_canonical(&mut batch, 1, h(11));
    assert_eq!(db.get(&k, (2, h(22))), Err(Error::StatePruned(1, h(12))));
    assert_eq!(db.get(&k, (1, h(12))), Err(Error::StatePruned(1, h(12))));
    assert_eq!(db.get(&k, (1, h(11))), Ok(Lookup::Canonical));
}

#[test]
fn finalize_applies_canonical_delta() {
    let mut store = Store::new();
    let mut db = open(&store, &h(0));
    let k = Address::from_u64(8);
    let gone = Address::from_u64(9);
    store.insert(address_bytes(&gone), encode_meta(&meta(1)));
    db.set(k, meta(5));
    db.remove(gone);
    let mut batch = DBTransaction::new();
    db.journal_under(&mut batch, 1, h(1), h(0));
    apply(&mut store, batch);
    let mut batch = DBTransaction::new();
    db.mark_canonical(&mut batch, 1, h(1));
    apply(&mut store, batch);
    assert_eq!(canonical(&store, &k), Some(meta(5)));
    assert_eq!(canonical(&store, &gone), None);
    assert!(store.get(&id_key(&h(1))).is_none());
    assert!(store.get(&journal_key(1)).is_none());
    assert_eq!(decode_base(store.get(&b"base".to_vec()).unwrap()), Some((1, h(1))));
}

#[test]
fn missing_journal_entry() {
    let db = MetaDB::new(None, &h(0)).unwrap();
    assert_eq!(db.get(&Address::from_u64(1), (3, h(3))), Err(Error::MissingJournalEntry(3, h(3))));
}

#[test]
fn malformed_stored_values_are_database_errors() {
    assert!(matches!(MetaDB::new(Some(&[1, 2, 3][..]), &h(0)), Err(Error::Database(_))));
    assert!(matches!(decode_canonical(Some(&[0xc0][..])), Err(Error::Database(_))));
    assert_eq!(decode_canonical(None), Ok(None));
    let mut db = MetaDB::new(None, &h(0)).unwrap();
    assert!(matches!(db.load_entry(1, h(1), &[0x80]), Err(Error::Database(_))));
    assert_eq!(db.journal.entries.len(), 0);
}

#[test]
fn reopening_empty_store_uses_genesis() {
    let store = Store::new();
    let db = open(&store, &h(77));
    assert_eq!(db.journal.canon_base, (0, h(77)));
    assert!(db.journal.entries.is_empty());
}

#[test]
fn modification_index() {
    let mut db = MetaDB::new(None, &h(0)).unwrap();
    let k = Address::from_u64(1);
    let mut batch = DBTransaction::new();
    db.set(k, meta(10));
    db.journal_under(&mut batch, 1, h(11), h(0));
    db.set(Address::from_u64(2), meta(1));
    db.journal_under(&mut batch, 1, h(12), h(0));
    db.remove(k);
    db.journal_under(&mut batch, 2, h(21), h(11));
    assert_eq!(db.journal.modified_blocks(&k), vec![(1, h(11)), (2, h(21))]);
    assert_eq!(db.journal.modified_blocks(&Address::from_u64(2)), vec![(1, h(12))]);
    assert!(db.journal.modified_blocks(&Address::from_u64(3)).is_empty());
    db.mark_canonical(&mut batch, 1, h(11));
    assert_eq!(db.journal.modified_blocks(&k), vec![(2, h(21))]);
    assert!(db.journal.modified_blocks(&Address::from_u64(2)).is_empty());
}

#[test]
fn resealing_a_block_replaces_its_delta() {
    let mut db = MetaDB::new(None, &h(0)).unwrap();
    let k = Address::from_u64(1);
    let mut batch = DBTransaction::new();
    db.set(k, meta(1));
    db.journal_under(&mut batch, 1, h(1), h(0));
    db.set(k, meta(2));
    db.journal_under(&mut batch, 1, h(1), h(0));
    assert_eq!(db.journal.entries.len(), 1);
    assert_eq!(db.journal.candidates(1), vec![h(1)]);
    assert_eq!(db.get(&k, (1, h(1))), Ok(Lookup::Found(Some(meta(2)))));
}

#[test]
fn balance_and_nonce_are_minimal_integers() {
    let mut m = AccountMeta::default();
    m.balance = U256::from_u64(1000);
    m.nonce = U256::from_u64(5);
    let enc = encode_meta(&m);
    assert_eq!(&enc[enc.len() - 4..], &[0x82, 0x03, 0xe8, 0x05][..]);
    assert_eq!(decode_meta(&enc), Some(m));

    let mut big = AccountMeta::default();
    big.balance = U256 { hi: 1 << 120, lo: 0 };
    let enc = encode_meta(&big);
    assert_eq!(decode_meta(&enc), Some(big));
}

#[test]
fn candidate_lists_are_ascending() {
    let mut db = MetaDB::new(None, &h(0)).unwrap();
    let mut batch = DBTransaction::new();
    db.journal_under(&mut batch, 1, h(30), h(0));
    db.journal_under(&mut batch, 1, H256 { hi: 1, lo: 0 }, h(0));
    db.journal_under(&mut batch, 1, h(10), h(0));
    db.journal_under(&mut batch, 2, h(5), h(10));
    assert_eq!(db.journal.candidates(1), vec![h(10), h(30), H256 { hi: 1, lo: 0 }]);
    assert_eq!(db.journal.candidates(2), vec![h(5)]);
    assert!(db.journal.candidates(3).is_empty());
    match batch.ops.last().unwrap() {
        DBOp::Insert { key, value } => {
            assert_eq!(key, &journal_key(2));
            assert_eq!(decode_ids(value), Some(vec![h(5)]));
        }
        DBOp::Delete { .. } => panic!("expected the candidate list to be written"),
    }
    match &batch.ops[5] {
        DBOp::Insert { key, value } => {
            assert_eq!(key, &journal_key(1));
            assert_eq!(decode_ids(value), Some(vec![h(10), h(30), H256 { hi: 1, lo: 0 }]));
        }
        DBOp::Delete { .. } => panic!("expected the candidate list to be written"),
    }
}
