//! The node's view of storage: every table on the allow-list of the generic
//! adapter is reached through it, and no other.

use crate::kv_store::RawKey;
use crate::column::Column;
use crate::merkle::{is_tree_metadata, is_tree_root, ContractsState, ContractsStateKey};
use crate::structured::{
    lookup_result, raw_key, StorageError, StructuredStorage, TableWithStructure,
    UseStructuredImplementation,
};
use vstd::prelude::*;

verus! {

/// The database handle that the node's services hold.
pub struct Database {
    pub data: StructuredStorage,
}

impl View for Database {
    type V = Map<RawKey, Seq<u8>>;

    open spec fn view(&self) -> Map<RawKey, Seq<u8>> {
        self.data@
    }
}

impl Database {
    pub fn new() -> (r: Database)
        ensures
            r@ == Map::<RawKey, Seq<u8>>::empty(),
    {
        Database { data: StructuredStorage::new() }
    }

    /// The value under `key` in table `M`.
    pub fn get<M: TableWithStructure>(&self, key: &M::Key) -> (r: Result<
        Option<M::Value>,
        StorageError,
    >) where StructuredStorage: UseStructuredImplementation<M>
        ensures
            lookup_result::<M>(self@, *key, r),
    {
        self.data.get::<M>(key)
    }

    /// Whether table `M` holds a value under `key`.
    pub fn contains_key<M: TableWithStructure>(&self, key: &M::Key) -> (r: bool) where
        StructuredStorage: UseStructuredImplementation<M>,

        ensures
            r == self@.contains_key(raw_key::<M>(*key)),
    {
        self.data.contains_key::<M>(key)
    }

    /// Stores `value` under `key` in table `M` and returns the value before.
    pub fn insert<M: TableWithStructure>(&mut self, key: &M::Key, value: &M::Value) -> (r: Result<
        Option<M::Value>,
        StorageError,
    >) where StructuredStorage: UseStructuredImplementation<M>
        ensures
            final(self)@ == old(self)@.insert(raw_key::<M>(*key), M::value_bytes(*value)),
            lookup_result::<M>(old(self)@, *key, r),
    {
        self.data.insert::<M>(key, value)
    }

    /// Removes the value under `key` in table `M` and returns it.
    pub fn remove<M: TableWithStructure>(&mut self, key: &M::Key) -> (r: Result<
        Option<M::Value>,
        StorageError,
    >) where StructuredStorage: UseStructuredImplementation<M>
        ensures
            final(self)@ == old(self)@.remove(raw_key::<M>(*key)),
            lookup_result::<M>(old(self)@, *key, r),
    {
        self.data.remove::<M>(key)
    }

    /// The length of the bytes stored under `key` in table `M`.
    pub fn size_of_value<M: TableWithStructure>(&self, key: &M::Key) -> (r: Option<usize>) where
        StructuredStorage: UseStructuredImplementation<M>,

        ensures
            r is Some == self@.contains_key(raw_key::<M>(*key)),
            r matches Some(n) ==> n == self@[raw_key::<M>(*key)].len(),
    {
        self.data.size_of_value::<M>(key)
    }

    /// Copies the stored bytes under `key` in table `M` into `buf`.
    pub fn read<M: TableWithStructure>(&self, key: &M::Key, buf: &mut [u8]) -> (r: Result<
        Option<usize>,
        StorageError,
    >) where StructuredStorage: UseStructuredImplementation<M>
        ensures
            !self@.contains_key(raw_key::<M>(*key)) ==> r == Ok::<Option<usize>, StorageError>(None)
                && final(buf)@ == old(buf)@,
            self@.contains_key(raw_key::<M>(*key)) && self@[raw_key::<M>(*key)].len() == old(
                buf,
            )@.len() ==> r == Ok::<Option<usize>, StorageError>(Some(old(buf)@.len() as usize))
                && final(buf)@ == self@[raw_key::<M>(*key)],
            self@.contains_key(raw_key::<M>(*key)) && self@[raw_key::<M>(*key)].len() != old(
                buf,
            )@.len() ==> r == Err::<Option<usize>, StorageError>(
                StorageError::BufferSize {
                    expected: self@[raw_key::<M>(*key)].len() as usize,
                    found: old(buf)@.len() as usize,
                },
            ) && final(buf)@ == old(buf)@,
    {
        self.data.read::<M>(key, buf)
    }

    /// The stored bytes under `key` in table `M`, as they are.
    pub fn read_alloc<M: TableWithStructure>(&self, key: &M::Key) -> (r: Option<Vec<u8>>) where
        StructuredStorage: UseStructuredImplementation<M>,

        ensures
            r is Some == self@.contains_key(raw_key::<M>(*key)),
            r matches Some(b) ==> b@ == self@[raw_key::<M>(*key)],
    {
        self.data.read_alloc::<M>(key)
    }

    /// The storage slot under `key`. Contract state keeps its tree beside
    /// it, so it has access of its own rather than the generic one.
    pub fn get_slot(&self, key: &ContractsStateKey) -> (r: Result<Option<[u8; 32]>, StorageError>)
        ensures
            lookup_result::<ContractsState>(self@, *key, r),
    {
        self.data.get::<ContractsState>(key)
    }

    /// Writes a storage slot together with its contract's tree metadata.
    pub fn insert_slot(&mut self, key: &ContractsStateKey, value: &[u8; 32]) -> (r: Result<
        Option<[u8; 32]>,
        StorageError,
    >)
        ensures
            lookup_result::<ContractsState>(old(self)@, *key, r),
            ({
                let data = old(self)@.insert(raw_key::<ContractsState>(*key), value@);
                exists|meta: Seq<u8>|
                    is_tree_metadata(data, key.contract_id@, meta) && final(self)@ == data.insert(
                        (Column::ContractsStateMerkleMetadata, key.contract_id@),
                        meta,
                    )
            }),
    {
        self.data.insert_slot(key, value)
    }

    /// Removes a storage slot together with rewriting its contract's tree
    /// metadata.
    pub fn remove_slot(&mut self, key: &ContractsStateKey) -> (r: Result<
        Option<[u8; 32]>,
        StorageError,
    >)
        ensures
            lookup_result::<ContractsState>(old(self)@, *key, r),
            ({
                let data = old(self)@.remove(raw_key::<ContractsState>(*key));
                exists|meta: Seq<u8>|
                    is_tree_metadata(data, key.contract_id@, meta) && final(self)@ == data.insert(
                        (Column::ContractsStateMerkleMetadata, key.contract_id@),
                        meta,
                    )
            }),
    {
        self.data.remove_slot(key)
    }

    /// The Merkle root of a contract's storage slots.
    pub fn root(&self, contract_id: &[u8; 32]) -> (r: Vec<u8>)
        ensures
            is_tree_root(self@, contract_id@, r@),
    {
        self.data.root(contract_id)
    }
}

} // verus!
