//! The content-addressed object store, modelled as a value.
//!
//! Three object directories hold blobs, trees and commits, each keyed by
//! the 40-character hex digest that also names the object's file on
//! disk.  Blob and tree writes are skipped when the object already
//! exists: objects are immutable and deduplicated by content.  The
//! surrounding program loads the directories from disk and persists new
//! entries back.

use vstd::prelude::*;
use crate::bytemap::{ByteMap, set_spec};
use crate::hash::{hex_encode, sha1_of};
use crate::objects::{FileObject, deflate_of, encode_tree_spec, inflate_of};

verus! {

/// The object store: blobs under `files/`, trees under `dirs/` and
/// commits under `commits/`, each a map from hex digest to stored bytes.
pub struct ObjectStore {
    pub files: ByteMap,
    pub dirs: ByteMap,
    pub commits: ByteMap,
}

impl ObjectStore {
    pub open spec fn wf(&self) -> bool {
        self.files.wf() && self.dirs.wf() && self.commits.wf()
    }

    pub fn new() -> (r: ObjectStore)
        ensures
            r.wf(),
            r.files@ == Seq::<(Seq<u8>, Seq<u8>)>::empty(),
            r.dirs@ == Seq::<(Seq<u8>, Seq<u8>)>::empty(),
            r.commits@ == Seq::<(Seq<u8>, Seq<u8>)>::empty(),
    {
        ObjectStore { files: ByteMap::new(), dirs: ByteMap::new(), commits: ByteMap::new() }
    }

    /// Store the given file content as a blob object: the key is the
    /// SHA-1 of the uncompressed content, the stored bytes are the
    /// compressed content, and an existing object is left untouched.
    /// Returns the raw content hash.
    pub fn write_blob(&mut self, content: &Vec<u8>) -> (h: Vec<u8>)
        requires
            old(self).wf(),
        ensures
            final(self).wf(),
            h@ == sha1_of(content@),
            h@.len() == 20,
            final(self).dirs@ == old(self).dirs@,
            final(self).commits@ == old(self).commits@,
            inflate_of(deflate_of(content@)) == content@,
            ({
                let key = hex_encode(sha1_of(content@));
                if old(self).files.as_map().contains_key(key) {
                    final(self).files@ == old(self).files@
                } else {
                    final(self).files@ == old(self).files@.push((key, deflate_of(content@)))
                        && final(self).files.as_map() == old(self).files.as_map().insert(
                        key,
                        deflate_of(content@),
                    )
                }
            }),
    {
        let h = crate::hash::get_sha1_bytes(content);
        let key = crate::hash::to_string(&h);
        let compressed = crate::objects::format_blob_content(content);
        if !self.files.contains(&key) {
            let ghost f0 = self.files@;
            self.files.set(key, compressed);
            proof {
                crate::bytemap::lemma_map_of_contains(f0, hex_encode(sha1_of(content@)));
                crate::bytemap::lemma_set_spec_absent(
                    f0,
                    hex_encode(sha1_of(content@)),
                    deflate_of(content@),
                );
            }
        }
        h
    }

    /// Store the given children as a tree object: the canonical encoding
    /// is hashed and stored under its own digest, and an existing object
    /// is left untouched.  The hash is a pure function of the children.
    /// Returns the raw tree hash.
    pub fn write_tree(&mut self, children: &Vec<FileObject>) -> (h: Vec<u8>)
        requires
            old(self).wf(),
        ensures
            final(self).wf(),
            h@ == sha1_of(encode_tree_spec(children@.map_values(|c: FileObject| c@))),
            h@.len() == 20,
            final(self).files@ == old(self).files@,
            final(self).commits@ == old(self).commits@,
            ({
                let content = encode_tree_spec(children@.map_values(|c: FileObject| c@));
                let key = hex_encode(sha1_of(content));
                if old(self).dirs.as_map().contains_key(key) {
                    final(self).dirs@ == old(self).dirs@
                } else {
                    final(self).dirs@ == old(self).dirs@.push((key, content)) && final(self).dirs.as_map() == old(self).dirs.as_map().insert(key, content)
                }
            }),
    {
        let content = crate::objects::format_tree_content(children);
        let h = crate::hash::get_sha1_bytes(&content);
        let key = crate::hash::to_string(&h);
        if !self.dirs.contains(&key) {
            let ghost d0 = self.dirs@;
            let ghost cbytes = encode_tree_spec(children@.map_values(|c: FileObject| c@));
            self.dirs.set(key, content);
            proof {
                crate::bytemap::lemma_map_of_contains(d0, hex_encode(sha1_of(cbytes)));
                crate::bytemap::lemma_set_spec_absent(d0, hex_encode(sha1_of(cbytes)), cbytes);
            }
        }
        h
    }

    /// Store an encoded commit record under its own digest; commits are
    /// always written.  Returns the commit hash as hex characters, the
    /// form HEAD holds.
    pub fn write_commit(&mut self, content: &Vec<u8>) -> (hhex: Vec<u8>)
        requires
            old(self).wf(),
        ensures
            final(self).wf(),
            hhex@ == hex_encode(sha1_of(content@)),
            final(self).files@ == old(self).files@,
            final(self).dirs@ == old(self).dirs@,
            final(self).commits@ == set_spec(
                old(self).commits@,
                hex_encode(sha1_of(content@)),
                content@,
            ),
            final(self).commits.as_map() == old(self).commits.as_map().insert(
                hex_encode(sha1_of(content@)),
                content@,
            ),
    {
        let hhex = crate::hash::get_sha1_string(content);
        let key = crate::bytes::copy_bytes(&hhex);
        let value = crate::bytes::copy_bytes(content);
        self.commits.set(key, value);
        hhex
    }

    /// Put a blob object read from disk into the store, under the hex
    /// digest that names its file.
    pub fn load_file_object(&mut self, name_hex: Vec<u8>, data: Vec<u8>)
        requires
            old(self).wf(),
        ensures
            final(self).wf(),
            final(self).files@ == set_spec(old(self).files@, name_hex@, data@),
            final(self).files.as_map() == old(self).files.as_map().insert(name_hex@, data@),
            final(self).dirs@ == old(self).dirs@,
            final(self).commits@ == old(self).commits@,
    {
        self.files.set(name_hex, data);
    }

    /// Put a tree object read from disk into the store, under the hex
    /// digest that names its file.
    pub fn load_dir_object(&mut self, name_hex: Vec<u8>, data: Vec<u8>)
        requires
            old(self).wf(),
        ensures
            final(self).wf(),
            final(self).dirs@ == set_spec(old(self).dirs@, name_hex@, data@),
            final(self).dirs.as_map() == old(self).dirs.as_map().insert(name_hex@, data@),
            final(self).files@ == old(self).files@,
            final(self).commits@ == old(self).commits@,
    {
        self.dirs.set(name_hex, data);
    }

    /// Put a commit object read from disk into the store, under the hex
    /// digest that names its file.
    pub fn load_commit_object(&mut self, name_hex: Vec<u8>, data: Vec<u8>)
        requires
            old(self).wf(),
        ensures
            final(self).wf(),
            final(self).commits@ == set_spec(old(self).commits@, name_hex@, data@),
            final(self).commits.as_map() == old(self).commits.as_map().insert(name_hex@, data@),
            final(self).files@ == old(self).files@,
            final(self).dirs@ == old(self).dirs@,
    {
        self.commits.set(name_hex, data);
    }
}


/// Law (content addressing): equal byte contents hash to the same key,
/// so storing a content twice — in the shape `write_blob` promises —
/// leaves exactly one object behind: the second store changes nothing.
pub proof fn lemma_content_addressing(files: Map<Seq<u8>, Seq<u8>>, b1: Seq<u8>, b2: Seq<u8>)
    requires
        b1 == b2,
    ensures
        sha1_of(b1) == sha1_of(b2),
        hex_encode(sha1_of(b1)) == hex_encode(sha1_of(b2)),
        ({
            let key = hex_encode(sha1_of(b1));
            let after1 = if files.contains_key(key) {
                files
            } else {
                files.insert(key, deflate_of(b1))
            };
            let after2 = if after1.contains_key(hex_encode(sha1_of(b2))) {
                after1
            } else {
                after1.insert(hex_encode(sha1_of(b2)), deflate_of(b2))
            };
            after2 == after1
        }),
{
}

/// Law (blob round trip): after a blob write into a store that did not
/// hold the content yet, the blob directory maps the content's key to
/// its compressed form — exactly the stored value from which
/// `read_blob`'s contract promises to return the original content.
pub proof fn lemma_blob_round_trip(files: Map<Seq<u8>, Seq<u8>>, content: Seq<u8>)
    requires
        !files.contains_key(hex_encode(sha1_of(content))),
    ensures
        ({
            let key = hex_encode(sha1_of(content));
            let after = files.insert(key, deflate_of(content));
            after.contains_key(key) && after[key] == deflate_of(content)
        }),
{
}

} // verus!
