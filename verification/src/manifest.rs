//! The manifest of one side of a synchronisation: for each file its path
//! relative to the root, its checksum, and its size where it is known.

use crate::text::{lemma_texts_push, texts};
use vstd::hash_map::StringHashMap;
use vstd::prelude::*;

verus! {

/// What a manifest records of one file.
#[derive(Clone, Copy, Debug)]
pub struct FileInfo {
    /// The checksum of what the file holds.
    pub checksum: u32,
    /// The size of the file in bytes, where the side that built the manifest
    /// recorded it.
    pub size: Option<u64>,
}

/// The files of one side, by their paths relative to the root.
pub struct Manifest {
    keys: Vec<String>,
    table: StringHashMap<FileInfo>,
}

impl View for Manifest {
    type V = Map<Seq<char>, FileInfo>;

    closed spec fn view(&self) -> Map<Seq<char>, FileInfo> {
        self.table@
    }
}

impl Manifest {
    /// Every path is listed once, and the listed paths are those recorded.
    #[verifier::type_invariant]
    spec fn consistent(self) -> bool {
        &&& texts(self.keys@).no_duplicates()
        &&& forall|k: Seq<char>| self.table@.contains_key(k) <==> texts(self.keys@).contains(k)
    }

    /// The recorded paths, in the order in which they were first recorded.
    pub closed spec fn order(&self) -> Seq<Seq<char>> {
        texts(self.keys@)
    }

    /// A manifest without files.
    pub fn new() -> (m: Self)
        ensures
            m@ == Map::<Seq<char>, FileInfo>::empty(),
            m.order() == Seq::<Seq<char>>::empty(),
    {
        let m = Manifest { keys: Vec::new(), table: StringHashMap::new() };
        assert(texts(m.keys@) =~= Seq::empty());
        m
    }

    /// Records the file `key`. A file recorded before is recorded anew.
    pub fn insert(&mut self, key: String, checksum: u32, size: Option<u64>)
        ensures
            final(self)@ == old(self)@.insert(key@, FileInfo { checksum, size }),
            final(self).order() == (if old(self)@.contains_key(key@) {
                old(self).order()
            } else {
                old(self).order().push(key@)
            }),
    {
        proof {
            use_type_invariant(&*self);
        }
        let mut taken = Manifest::new();
        core::mem::swap(self, &mut taken);
        let Manifest { mut keys, mut table } = taken;
        let ghost before = texts(keys@);
        if !table.contains_key(key.as_str()) {
            proof {
                lemma_texts_push(keys@, key);
            }
            keys.push(key.clone());
            assert(forall|k: Seq<char>|
                texts(keys@).contains(k) <==> before.contains(k) || k == key@) by {
                assert forall|k: Seq<char>| texts(keys@).contains(k) implies before.contains(k) || k
                    == key@ by {
                    let i = choose|i: int| 0 <= i < texts(keys@).len() && texts(keys@)[i] == k;
                    if i < before.len() {
                        assert(before[i] == k);
                    }
                }
                assert forall|k: Seq<char>| before.contains(k) || k == key@ implies texts(
                    keys@,
                ).contains(k) by {
                    if before.contains(k) {
                        let i = choose|i: int| 0 <= i < before.len() && before[i] == k;
                        assert(texts(keys@)[i] == k);
                    } else {
                        assert(texts(keys@)[before.len() as int] == k);
                    }
                }
            }
        }
        table.insert(key, FileInfo { checksum, size });
        *self = Manifest { keys, table };
    }

    /// What is recorded of the file `key`, if it is recorded.
    pub fn get(&self, key: &str) -> (info: Option<FileInfo>)
        ensures
            info == (if self@.contains_key(key@) {
                Some(self@[key@])
            } else {
                None
            }),
    {
        match self.table.get(key) {
            Some(found) => Some(*found),
            None => None,
        }
    }

    /// Whether the file `key` is recorded.
    pub fn contains_key(&self, key: &str) -> (b: bool)
        ensures
            b == self@.contains_key(key@),
    {
        self.table.contains_key(key)
    }

    /// The number of files recorded. The order lists each of them once, and
    /// nothing else.
    pub fn len(&self) -> (n: usize)
        ensures
            n == self.order().len(),
            self.order().no_duplicates(),
            forall|k: Seq<char>| self@.contains_key(k) <==> self.order().contains(k),
    {
        proof {
            use_type_invariant(self);
        }
        self.keys.len()
    }

    /// Whether no file is recorded.
    pub fn is_empty(&self) -> (b: bool)
        ensures
            b == (self.order().len() == 0),
    {
        self.keys.len() == 0
    }

    /// The path at place `i` of the order.
    pub fn key_at(&self, i: usize) -> (key: &String)
        requires
            i < self.order().len(),
        ensures
            key@ == self.order()[i as int],
    {
        &self.keys[i]
    }
}

} // verus!
