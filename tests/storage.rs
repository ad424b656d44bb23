use fuel_core_storage::codec::{
    decode_u128, decode_u16, decode_u32, decode_u64, decode_u8, encode_u128, encode_u16,
    encode_u32, encode_u64, encode_u8, DecodeError, Primitive, Raw, Structured,
};
use fuel_core_storage::column::Column;
use fuel_core_storage::database::Database;
use fuel_core_storage::kv_store::{Changeset, InMemoryStore, IterDirection};
use fuel_core_storage::merkle::{ContractsState, ContractsStateKey};
use fuel_core_storage::producer::BlockProducerAdapter;
use fuel_core_storage::structured::{StorageError, StructuredStorage};
use fuel_core_storage::tables::{
    ConsensusParametersVersions, ContractsInfo, ContractsLatestUtxo, ContractsRawCode, FuelBlocks,
    StateTransitionBytecodeVersions,
};
use fuel_core_storage::types::{utxo_id_to_bytes, BlockHeight, DaBlockHeight, UtxoId};
use sha2::Digest;

fn sha(data: &[u8]) -> Vec<u8> {
    sha2::Sha256::digest(data).to_vec()
}

#[test]
fn block_height_encodes_big_endian() {
    let e = BlockHeight(5).encode();
    assert_eq!(e.as_bytes(), &[0x00, 0x00, 0x00, 0x05]);
    assert_eq!(BlockHeight::decode(e.as_bytes()), Ok(BlockHeight(5)));
    assert_eq!(encode_u32(5).as_bytes(), &[0, 0, 0, 5]);
    assert_eq!(decode_u32(&[0, 0, 0, 5]), Ok(5));
}

#[test]
fn utxo_id_encodes_as_33_bytes() {
    let u = UtxoId { tx_id: [1u8; 32], output_index: 2 };
    let bytes = utxo_id_to_bytes(&u);
    let mut expected = vec![1u8; 32];
    expected.push(2);
    assert_eq!(bytes.to_vec(), expected);
    assert_eq!(u.encode(), expected);
    let back = UtxoId::decode(&bytes).unwrap();
    assert_eq!(back.tx_id, [1u8; 32]);
    assert_eq!(back.output_index, 2);
}

#[test]
fn utxo_id_wrong_length_is_refused() {
    assert_eq!(
        UtxoId::decode(&[1u8; 32]),
        Err(DecodeError::WrongLength { expected: 33, found: 32 })
    );
    assert!(UtxoId::decode(&[1u8; 34]).is_err());
}

#[test]
fn primitive_widths_and_values() {
    assert_eq!(encode_u8(0xab).as_bytes(), &[0xab]);
    assert_eq!(encode_u16(0x0102).as_bytes(), &[1, 2]);
    assert_eq!(encode_u64(0x0102030405060708).as_bytes(), &[1, 2, 3, 4, 5, 6, 7, 8]);
    let big = encode_u128(u128::MAX);
    assert_eq!(big.as_bytes(), &[0xff; 16]);
    assert_eq!(decode_u128(big.as_bytes()), Ok(u128::MAX));
    assert_eq!(decode_u8(&[7]), Ok(7));
    assert_eq!(decode_u16(&[1, 0]), Ok(256));
    assert_eq!(decode_u64(&[0, 0, 0, 0, 0, 0, 1, 0]), Ok(256));
    assert_eq!(DaBlockHeight(9).encode().as_bytes(), &[0, 0, 0, 0, 0, 0, 0, 9]);
    assert_eq!(DaBlockHeight::decode(&[0, 0, 0, 0, 0, 0, 0, 9]), Ok(DaBlockHeight(9)));
    assert_eq!(Primitive::<3>::encode(0x010203).as_bytes(), &[1, 2, 3]);
}

#[test]
fn primitive_wrong_length_is_refused() {
    assert_eq!(decode_u32(&[0, 0, 5]), Err(DecodeError::WrongLength { expected: 4, found: 3 }));
    assert_eq!(decode_u8(&[]), Err(DecodeError::WrongLength { expected: 1, found: 0 }));
    assert!(BlockHeight::decode(&[0, 0, 0, 0, 5]).is_err());
    assert!(DaBlockHeight::decode(&[0; 4]).is_err());
}

#[test]
fn primitive_round_trip_over_many_values() {
    let mut x: u64 = 0x9e3779b97f4a7c15;
    for _ in 0..1000 {
        x = x.wrapping_mul(6364136223846793005).wrapping_add(1442695040888963407);
        assert_eq!(decode_u64(encode_u64(x).as_bytes()), Ok(x));
        let y = (x >> 32) as u32;
        assert_eq!(decode_u32(encode_u32(y).as_bytes()), Ok(y));
        let z = ((x as u128) << 64) | (x.rotate_left(7) as u128);
        assert_eq!(decode_u128(encode_u128(z).as_bytes()), Ok(z));
        assert_eq!(decode_u16(encode_u16(y as u16).as_bytes()), Ok(y as u16));
    }
}

#[test]
fn raw_codec_is_identity() {
    assert_eq!(Raw::encode(&[3, 4, 5]), vec![3, 4, 5]);
    assert_eq!(Raw::decode(&[]), Vec::<u8>::new());
}

#[test]
fn structured_bytes_are_framed() {
    let enc = Structured::encode_bytes(&[9, 8]);
    assert_eq!(enc, vec![0, 0, 0, 0, 0, 0, 0, 2, 9, 8]);
    assert_eq!(Structured::decode_bytes(&enc), Ok(vec![9, 8]));
    assert_eq!(Structured::encode_bytes(&[]), vec![0; 8]);
}

#[test]
fn structured_bad_framing_is_refused() {
    assert_eq!(Structured::decode_bytes(&[0, 0, 0, 0, 0, 0, 0, 3, 1]), Err(DecodeError::BadFraming));
    assert_eq!(Structured::decode_bytes(&[0, 0, 0, 0, 0, 0, 0, 0, 1]), Err(DecodeError::BadFraming));
    assert_eq!(
        Structured::decode_bytes(&[0, 0, 0]),
        Err(DecodeError::WrongLength { expected: 8, found: 3 })
    );
}

#[test]
fn column_ids_are_distinct() {
    let all = [
        Column::Metadata,
        Column::ContractsRawCode,
        Column::ContractsInfo,
        Column::ContractsState,
        Column::ContractsLatestUtxo,
        Column::ContractsAssets,
        Column::Coins,
        Column::Transactions,
        Column::FuelBlocks,
        Column::FuelBlockSecondaryKeyBlockHeights,
        Column::Messages,
        Column::Receipts,
        Column::FuelBlockConsensus,
        Column::OwnedCoins,
        Column::TransactionStatus,
        Column::TransactionsByOwnerBlockIdx,
        Column::SpentMessages,
        Column::FuelBlockMerkleData,
        Column::FuelBlockMerkleMetadata,
        Column::ContractsAssetsMerkleData,
        Column::ContractsAssetsMerkleMetadata,
        Column::ContractsStateMerkleData,
        Column::ContractsStateMerkleMetadata,
        Column::OwnedMessageIds,
        Column::RelayerMetadata,
        Column::ConsensusParametersVersions,
        Column::StateTransitionBytecodeVersions,
    ];
    for (i, c) in all.iter().enumerate() {
        assert_eq!(c.as_u32(), i as u32);
    }
}

#[test]
fn contracts_raw_code_read_alloc() {
    let mut s = StructuredStorage::new();
    let key = [1u8; 32];
    assert_eq!(s.insert::<ContractsRawCode>(&key, &vec![32u8]), Ok(None));
    assert_eq!(s.read_alloc::<ContractsRawCode>(&key), Some(vec![32u8]));
    assert_eq!(s.size_of_value::<ContractsRawCode>(&key), Some(1));
    assert_eq!(s.get::<ContractsRawCode>(&key), Ok(Some(vec![32u8])));
}

#[test]
fn raw_code_has_no_framing_but_blocks_do() {
    let mut s = StructuredStorage::new();
    let code = vec![7u8; 100];
    s.insert::<ContractsRawCode>(&[2u8; 32], &code).unwrap();
    assert_eq!(s.read_alloc::<ContractsRawCode>(&[2u8; 32]), Some(code.clone()));
    assert_eq!(s.size_of_value::<ContractsRawCode>(&[2u8; 32]), Some(100));
    s.insert::<FuelBlocks>(&BlockHeight(1), &code).unwrap();
    assert_eq!(s.size_of_value::<FuelBlocks>(&BlockHeight(1)), Some(108));
    assert_eq!(s.get::<FuelBlocks>(&BlockHeight(1)), Ok(Some(code)));
}

#[test]
fn insert_get_consistency_for_each_table() {
    let mut s = StructuredStorage::new();
    let id = [1u8; 32];
    let info = ([2u8; 32], [3u8; 32]);
    assert_eq!(s.insert::<ContractsInfo>(&id, &info), Ok(None));
    assert_eq!(s.get::<ContractsInfo>(&id), Ok(Some(info)));
    let info2 = ([4u8; 32], [5u8; 32]);
    assert_eq!(s.insert::<ContractsInfo>(&id, &info2), Ok(Some(info)));
    assert_eq!(s.get::<ContractsInfo>(&id), Ok(Some(info2)));

    let u = UtxoId { tx_id: [9u8; 32], output_index: 1 };
    let u2 = UtxoId { tx_id: [8u8; 32], output_index: 0 };
    assert_eq!(s.insert::<ContractsLatestUtxo>(&id, &u), Ok(None));
    assert_eq!(s.insert::<ContractsLatestUtxo>(&id, &u2), Ok(Some(u)));
    assert_eq!(s.get::<ContractsLatestUtxo>(&id), Ok(Some(u2)));

    assert_eq!(s.insert::<FuelBlocks>(&BlockHeight(3), &vec![]), Ok(None));
    assert_eq!(s.insert::<FuelBlocks>(&BlockHeight(3), &vec![1, 2]), Ok(Some(vec![])));
    assert_eq!(s.get::<FuelBlocks>(&BlockHeight(3)), Ok(Some(vec![1, 2])));
    assert_eq!(s.get::<FuelBlocks>(&BlockHeight(4)), Ok(None));

    // one id, two tables: each keeps its own value
    assert_eq!(s.get::<ContractsInfo>(&id), Ok(Some(info2)));
}

#[test]
fn remove_consistency() {
    let mut s = StructuredStorage::new();
    let id = [6u8; 32];
    s.insert::<ContractsRawCode>(&id, &vec![1, 2, 3]).unwrap();
    assert!(s.contains_key::<ContractsRawCode>(&id));
    assert_eq!(s.remove::<ContractsRawCode>(&id), Ok(Some(vec![1, 2, 3])));
    assert_eq!(s.get::<ContractsRawCode>(&id), Ok(None));
    assert!(!s.contains_key::<ContractsRawCode>(&id));
    assert_eq!(s.remove::<ContractsRawCode>(&id), Ok(None));
    assert_eq!(s.read_alloc::<ContractsRawCode>(&id), None);
    assert_eq!(s.size_of_value::<ContractsRawCode>(&id), None);
}

#[test]
fn undecodable_value_is_an_error_not_absence() {
    let mut s = StructuredStorage::new();
    let mut c = Changeset::new();
    c.put(Column::ContractsInfo, vec![1u8; 32], vec![1, 2, 3]);
    s.storage.commit(&c);
    assert!(matches!(
        s.get::<ContractsInfo>(&[1u8; 32]),
        Err(StorageError::Codec(DecodeError::WrongLength { expected: 64, found: 3 }))
    ));
    assert!(s.contains_key::<ContractsInfo>(&[1u8; 32]));
}

#[test]
fn changeset_applies_every_write_in_order() {
    let mut st = InMemoryStore::new();
    let mut c = Changeset::new();
    c.put(Column::Receipts, vec![1], vec![10]);
    c.put(Column::Receipts, vec![2], vec![20]);
    c.put(Column::Transactions, vec![1], vec![30]);
    c.delete(Column::Receipts, vec![2]);
    c.put(Column::Receipts, vec![1], vec![11]);
    st.commit(&c);
    assert_eq!(st.get(Column::Receipts, &[1]), Some(vec![11]));
    assert_eq!(st.get(Column::Receipts, &[2]), None);
    assert_eq!(st.get(Column::Transactions, &[1]), Some(vec![30]));
    assert!(!st.contains_key(Column::Transactions, &[2]));
    assert_eq!(st.size_of_value(Column::Transactions, &[1]), Some(1));
    let copy = st.snapshot();
    assert_eq!(copy.get(Column::Receipts, &[1]), Some(vec![11]));
    let mut scan = st.prefix_scan(Column::Receipts, &[]);
    scan.sort();
    assert_eq!(scan, vec![(vec![1], vec![11])]);
}

fn slot(c: u8, k: u8) -> ContractsStateKey {
    ContractsStateKey { contract_id: [c; 32], state_key: [k; 32] }
}

#[test]
fn empty_tree_root_is_digest_of_nothing() {
    let s = StructuredStorage::new();
    assert_eq!(s.root(&[1u8; 32]), sha(&[]));
}

#[test]
fn single_leaf_root_hashes_key_and_value() {
    let mut s = StructuredStorage::new();
    s.insert_slot(&slot(1, 2), &[3u8; 32]).unwrap();
    let mut leaf = vec![0u8];
    leaf.extend_from_slice(&[2u8; 32]);
    leaf.extend_from_slice(&[3u8; 32]);
    assert_eq!(s.root(&[1u8; 32]), sha(&leaf));
}

#[test]
fn two_leaf_root_orders_by_key() {
    let mut s = StructuredStorage::new();
    s.insert_slot(&slot(1, 9), &[1u8; 32]).unwrap();
    s.insert_slot(&slot(1, 4), &[2u8; 32]).unwrap();
    let leaf = |k: u8, v: u8| {
        let mut b = vec![0u8];
        b.extend_from_slice(&[k; 32]);
        b.extend_from_slice(&[v; 32]);
        sha(&b)
    };
    let mut node = vec![1u8];
    node.extend(leaf(4, 2));
    node.extend(leaf(9, 1));
    assert_eq!(s.root(&[1u8; 32]), sha(&node));
}

#[test]
fn merkle_root_does_not_depend_on_insertion_order() {
    let mut a = StructuredStorage::new();
    let mut b = StructuredStorage::new();
    let keys = [5u8, 1, 9, 3, 7];
    for k in keys {
        a.insert_slot(&slot(1, k), &[k; 32]).unwrap();
    }
    for k in keys.iter().rev() {
        b.insert_slot(&slot(1, *k), &[*k; 32]).unwrap();
    }
    // an unrelated contract's slots do not enter the tree
    b.insert_slot(&slot(2, 1), &[0u8; 32]).unwrap();
    assert_eq!(a.root(&[1u8; 32]), b.root(&[1u8; 32]));
    assert_ne!(a.root(&[1u8; 32]), a.root(&[2u8; 32]));
}

#[test]
fn slot_writes_keep_metadata_with_data() {
    let mut s = StructuredStorage::new();
    assert_eq!(s.insert_slot(&slot(1, 1), &[1u8; 32]), Ok(None));
    assert_eq!(s.insert_slot(&slot(1, 2), &[2u8; 32]), Ok(None));
    assert_eq!(s.insert_slot(&slot(1, 1), &[3u8; 32]), Ok(Some([1u8; 32])));
    let meta = s.storage.get(Column::ContractsStateMerkleMetadata, &[1u8; 32]).unwrap();
    let mut expected = s.root(&[1u8; 32]);
    expected.extend_from_slice(&[0, 0, 0, 0, 0, 0, 0, 2]);
    assert_eq!(meta, expected);
    assert_eq!(s.get::<ContractsState>(&slot(1, 1)), Ok(Some([3u8; 32])));

    let before = s.root(&[1u8; 32]);
    assert_eq!(s.remove_slot(&slot(1, 2)), Ok(Some([2u8; 32])));
    assert_ne!(s.root(&[1u8; 32]), before);
    let meta = s.storage.get(Column::ContractsStateMerkleMetadata, &[1u8; 32]).unwrap();
    let mut expected = s.root(&[1u8; 32]);
    expected.extend_from_slice(&[0, 0, 0, 0, 0, 0, 0, 1]);
    assert_eq!(meta, expected);
    assert_eq!(s.get::<ContractsState>(&slot(1, 2)), Ok(None));
    assert_eq!(s.remove_slot(&slot(1, 2)), Ok(None));
}

#[test]
fn block_producer_adapter_shares_the_producer() {
    let a = BlockProducerAdapter::new(42u32);
    let b = a.block_producer.clone();
    assert_eq!(*b, 42);
    assert_eq!(std::sync::Arc::strong_count(&a.block_producer), 2);
}

#[test]
fn read_into_buffer_of_value_length() {
    let mut s = StructuredStorage::new();
    let key = [1u8; 32];
    s.insert::<ContractsRawCode>(&key, &vec![32u8, 33]).unwrap();
    let mut buf = [0u8; 2];
    assert_eq!(s.read::<ContractsRawCode>(&key, &mut buf), Ok(Some(2)));
    assert_eq!(buf, [32, 33]);
    let mut small = [0u8; 1];
    assert_eq!(
        s.read::<ContractsRawCode>(&key, &mut small),
        Err(StorageError::BufferSize { expected: 2, found: 1 })
    );
    assert_eq!(small, [0]);
    assert_eq!(s.read::<ContractsRawCode>(&[2u8; 32], &mut buf), Ok(None));
}

#[test]
fn latest_versions_are_the_greatest_keys() {
    let mut s = StructuredStorage::new();
    assert_eq!(s.latest_consensus_parameters_version(), Err(StorageError::NotFound));
    for v in [3u32, 300, 7, 0x0100_0000] {
        s.insert::<ConsensusParametersVersions>(&v, &vec![1]).unwrap();
    }
    assert_eq!(s.latest_consensus_parameters_version(), Ok(0x0100_0000));
    assert_eq!(s.latest_state_transition_bytecode_version(), Err(StorageError::NotFound));
    s.insert::<StateTransitionBytecodeVersions>(&2, &vec![]).unwrap();
    assert_eq!(s.latest_state_transition_bytecode_version(), Ok(2));
    assert_eq!(s.get::<StateTransitionBytecodeVersions>(&2), Ok(Some(vec![])));
}

#[test]
fn latest_version_with_a_malformed_key_is_a_decode_error() {
    let mut s = StructuredStorage::new();
    let mut c = Changeset::new();
    c.put(Column::ConsensusParametersVersions, vec![1, 2, 3], vec![]);
    s.storage.commit(&c);
    assert!(matches!(s.latest_consensus_parameters_version(), Err(StorageError::Codec(_))));
}

#[test]
fn get_block_missing_is_not_found() {
    let mut s = StructuredStorage::new();
    assert_eq!(s.get_block(&BlockHeight(1)), Err(StorageError::NotFound));
    s.insert::<FuelBlocks>(&BlockHeight(1), &vec![5, 6]).unwrap();
    assert_eq!(s.get_block(&BlockHeight(1)), Ok(vec![5, 6]));
}

#[test]
fn iteration_is_ordered_by_raw_key_bytes() {
    let mut st = InMemoryStore::new();
    let mut c = Changeset::new();
    for k in [vec![2u8], vec![1, 0], vec![0, 5], vec![1]] {
        c.put(Column::Receipts, k.clone(), k);
    }
    c.put(Column::Coins, vec![0], vec![9]);
    st.commit(&c);
    let forward: Vec<Vec<u8>> = st
        .iter_all(Column::Receipts, IterDirection::Forward)
        .into_iter()
        .map(|(k, _)| k)
        .collect();
    assert_eq!(forward, vec![vec![0, 5], vec![1], vec![1, 0], vec![2]]);
    let reverse = st.iter_all(Column::Receipts, IterDirection::Reverse);
    assert_eq!(reverse.first(), Some(&(vec![2u8], vec![2u8])));
    assert_eq!(reverse.len(), 4);
    assert_eq!(reverse[3].0, vec![0, 5]);
    assert!(st.iter_all(Column::Messages, IterDirection::Forward).is_empty());
}

#[test]
fn database_reaches_tables_through_the_adapter() {
    let mut db = Database::new();
    let key = [1u8; 32];
    assert_eq!(db.insert::<ContractsRawCode>(&key, &vec![32u8]), Ok(None));
    assert_eq!(db.read_alloc::<ContractsRawCode>(&key), Some(vec![32u8]));
    assert_eq!(db.size_of_value::<ContractsRawCode>(&key), Some(1));
    let mut buf = [0u8; 1];
    assert_eq!(db.read::<ContractsRawCode>(&key, &mut buf), Ok(Some(1)));
    assert_eq!(buf, [32]);
    assert!(db.contains_key::<ContractsRawCode>(&key));
    assert_eq!(db.get::<ContractsRawCode>(&key), Ok(Some(vec![32u8])));
    assert_eq!(db.remove::<ContractsRawCode>(&key), Ok(Some(vec![32u8])));
    assert!(!db.contains_key::<ContractsRawCode>(&key));

    assert_eq!(db.insert_slot(&slot(4, 4), &[8u8; 32]), Ok(None));
    assert_eq!(db.get_slot(&slot(4, 4)), Ok(Some([8u8; 32])));
    let root = db.root(&[4u8; 32]);
    assert_eq!(root.len(), 32);
    assert_eq!(db.remove_slot(&slot(4, 4)), Ok(Some([8u8; 32])));
    assert_eq!(db.root(&[4u8; 32]), sha(&[]));
}
