use vstd::prelude::*;

use crate::bytesutil::copy_range;
use crate::container::encode_database;
use crate::container::open_database;
use crate::container::spec_open;
use crate::errors::ContainerError;
use crate::kdf::spec_params_check;
use crate::kdf::KdfParams;
use crate::mutate::spec_insert_group;
use crate::mutate::spec_node_id;
use crate::mutate::spec_remove_group;
use crate::tree::node_view;
use crate::tree::Group;
use crate::tree::GroupV;
use crate::tree::Node;

verus! {

/// An in-memory storage volume: one container file and the sibling
/// temporary file that a save writes first, with injectable faults for the
/// write and the rename. It models the only two operations a save needs,
/// so that the atomic replace-on-disk discipline can be stated and checked.
pub struct MemStorage {
    pub main: Option<Vec<u8>>,
    pub temp: Option<Vec<u8>>,
    pub fail_write: bool,
    pub fail_rename: bool,
}

impl MemStorage {
    /// A fresh volume: no file, no leftover temporary, no faults armed.
    pub fn new() -> (s: Self)
        ensures
            s.main is None,
            s.temp is None,
            !s.fail_write,
            !s.fail_rename,
    {
        MemStorage { main: None, temp: None, fail_write: false, fail_rename: false }
    }

    /// The bytes of the container file, if one exists.
    pub fn read_main(&self) -> (r: Option<Vec<u8>>)
        ensures
            match r {
                Some(v) => self.main is Some && v@ == self.main.unwrap()@,
                None => self.main is None,
            },
    {
        match &self.main {
            Some(v) => Some(copy_range(v, 0, v.len())),
            None => None,
        }
    }

    /// Write the temporary file. A simulated interruption leaves the
    /// temporary in an undefined state but never touches the main file.
    pub fn write_temp(&mut self, bytes: &Vec<u8>) -> (r: Result<(), ContainerError>)
        ensures
            final(self).main == old(self).main,
            final(self).fail_rename == old(self).fail_rename,
            match r {
                Ok(_) => final(self).temp is Some && final(self).temp.unwrap()@ == bytes@,
                Err(e) => e == ContainerError::PersistenceError && old(self).fail_write,
            },
    {
        if self.fail_write {
            self.fail_write = false;
            self.temp = None;
            return Err(ContainerError::PersistenceError);
        }
        self.temp = Some(copy_range(bytes, 0, bytes.len()));
        Ok(())
    }

    /// Atomically rename the temporary file over the main file. On failure
    /// the main file keeps its bytes and the temporary is left behind, a
    /// safely discardable artifact.
    pub fn rename_over(&mut self) -> (r: Result<(), ContainerError>)
        ensures
            match r {
                Ok(_) => old(self).temp is Some && final(self).main == old(self).temp && final(self).temp is None,
                Err(e) => e == ContainerError::PersistenceError && final(self).main == old(self).main && final(self).temp == old(self).temp && (old(self).fail_rename || old(
                    self,
                ).temp is None),
            },
    {
        if self.fail_rename {
            self.fail_rename = false;
            proof {
                assert(self.main == old(self).main);
            }
            return Err(ContainerError::PersistenceError);
        }
        match &self.temp {
            Some(_) => {
                let mut t: Option<Vec<u8>> = None;
                core::mem::swap(&mut self.temp, &mut t);
                self.main = t;
                Ok(())
            },
            None => Err(ContainerError::PersistenceError),
        }
    }
}

/// Encode the tree as a fresh container and persist it: write the bytes to
/// the temporary file, then rename it over the main file. On any failure
/// the main file's bytes are exactly what they were before the call - the
/// atomicity the temp-file-then-rename discipline owes.
pub fn save_database(
    root: &Group,
    secret: &Vec<u8>,
    params: &KdfParams,
    storage: &mut MemStorage,
) -> (r: Result<(), ContainerError>)
    ensures
        match r {
            Ok(_) => final(storage).main is Some && spec_open(
                final(storage).main.unwrap()@,
                secret@,
            ) == Ok::<GroupV, ContainerError>(root@) && final(storage).temp is None,
            Err(_) => final(storage).main == old(storage).main && (spec_params_check(
                *params,
            ) is Err || crate::payload::enc_group(root@).len() > crate::container::MAX_PAYLOAD_LEN
                || old(storage).fail_write || old(storage).fail_rename),
        },
{
    let bytes = match encode_database(root, secret, params) {
        Ok(b) => b,
        Err(e) => {
            return Err(e);
        },
    };
    match storage.write_temp(&bytes) {
        Ok(_) => {
        },
        Err(e) => {
            return Err(e);
        },
    }
    match storage.rename_over() {
        Ok(_) => Ok(()),
        Err(e) => Err(e),
    }
}

/// A handle on one open database: the decrypted tree and whether it holds
/// mutations that no save has persisted yet. A successful save is the only
/// step that clears the flag; a failed save never does, so an unsaved
/// mutation is never silently dropped.
pub struct DbHandle {
    pub root: Group,
    pub dirty: bool,
}

impl DbHandle {
    /// Open a container: decode the bytes under the secret material. On
    /// success the handle starts clean; on any error no tree is exposed.
    pub fn open(bytes: &Vec<u8>, secret: &Vec<u8>) -> (r: Result<DbHandle, ContainerError>)
        ensures
            match r {
                Ok(h) => spec_open(bytes@, secret@) == Ok::<GroupV, ContainerError>(h.root@)
                    && !h.dirty,
                Err(e) => spec_open(bytes@, secret@) == Err::<GroupV, ContainerError>(e),
            },
    {
        match open_database(bytes, secret) {
            Ok(root) => Ok(DbHandle { root, dirty: false }),
            Err(e) => Err(e),
        }
    }

    /// Insert a node under the group `parent_id` and mark the handle dirty.
    /// On `NodeNotFound` the tree and the flag are unchanged.
    pub fn insert_child(&mut self, parent_id: u128, node: Node) -> (r: Result<
        u128,
        ContainerError,
    >)
        ensures
            match r {
                Ok(id) => id == spec_node_id(node_view(node)) && spec_insert_group(
                    old(self).root@,
                    parent_id,
                    node_view(node),
                ) == Some(final(self).root@) && final(self).dirty,
                Err(e) => e == ContainerError::NodeNotFound && final(self).root@ == old(self).root@ && final(self).dirty == old(self).dirty && spec_insert_group(
                    old(self).root@,
                    parent_id,
                    node_view(node),
                ) is None,
            },
    {
        match crate::mutate::insert_child(&mut self.root, parent_id, node) {
            Ok(id) => {
                self.dirty = true;
                Ok(id)
            },
            Err(e) => Err(e),
        }
    }

    /// Remove the node `node_id` and mark the handle dirty. On
    /// `NodeNotFound` the tree and the flag are unchanged.
    pub fn remove_node(&mut self, node_id: u128) -> (r: Result<(), ContainerError>)
        ensures
            match r {
                Ok(_) => spec_remove_group(old(self).root@, node_id) == Some(final(self).root@)
                    && final(self).dirty,
                Err(e) => e == ContainerError::NodeNotFound && final(self).root@ == old(self).root@ && final(self).dirty == old(self).dirty && spec_remove_group(
                    old(self).root@,
                    node_id,
                ) is None,
            },
    {
        match crate::mutate::remove_node(&mut self.root, node_id) {
            Ok(_) => {
                self.dirty = true;
                Ok(())
            },
            Err(e) => Err(e),
        }
    }

    /// Persist the whole current tree. On success the handle is clean and
    /// the stored bytes open back to this very tree; on failure the tree,
    /// the dirty flag and the stored bytes are all unchanged, so the caller
    /// must retry or surface the error.
    pub fn save(&mut self, secret: &Vec<u8>, params: &KdfParams, storage: &mut MemStorage) -> (r:
        Result<(), ContainerError>)
        ensures
            final(self).root@ == old(self).root@,
            match r {
                Ok(_) => !final(self).dirty && final(storage).main is Some && spec_open(
                    final(storage).main.unwrap()@,
                    secret@,
                ) == Ok::<GroupV, ContainerError>(old(self).root@) && final(storage).temp is None,
                Err(_) => final(self).dirty == old(self).dirty && final(storage).main == old(storage).main && (spec_params_check(*params) is Err || crate::payload::enc_group(
                    old(self).root@,
                ).len() > crate::container::MAX_PAYLOAD_LEN || old(storage).fail_write || old(
                    storage,
                ).fail_rename),
            },
    {
        match save_database(&self.root, secret, params, storage) {
            Ok(_) => {
                self.dirty = false;
                Ok(())
            },
            Err(e) => Err(e),
        }
    }
}

} // verus!
