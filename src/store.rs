//! The content-addressed object store, held in memory: each object under its
//! digest. Reading and writing the files under `objects/` is left to the
//! caller; the store decides what is there and what a digest resolves to.

use crate::object::{Object, ObjectV, Sha1Able, Tree, TreeLineV, object_digest};
use vstd::prelude::*;
use vstd::string::{StrSliceExecFns, StringExecFns};

verus! {

/// Errors of the repository's operations.
#[derive(Clone, Copy, Debug, PartialEq, Eq, Structural)]
pub enum GitError {
    /// The metadata directory is absent.
    NotARepository,
    /// Expected sub-directories are missing.
    BadRepositoryLayout,
    /// A referenced object, branch or path is missing.
    NotFound,
    /// Stored data could not be decoded, or is not of the expected type.
    CorruptObject,
    /// A branch name breaks the naming rule.
    InvalidName,
    /// The branch, or the repository, already exists.
    AlreadyExists,
    /// The operation is not allowed here (deleting the current branch, ...).
    InvalidOperation,
    /// The index matches the head commit: there is nothing to commit.
    NothingToCommit,
    /// A merge left conflicts.
    MergeConflict,
    /// Two commits share no ancestor.
    NoCommonAncestor,
    /// One side of a merge has a file where the other has a directory.
    MergeKindMismatch,
    /// A file-system error.
    Io,
}

/// The first object stored under `key`, searching from position `i`.
pub open spec fn find_object(s: Seq<(Seq<char>, ObjectV)>, key: Seq<char>, i: int) -> Option<ObjectV>
    decreases s.len() - i,
{
    if i < 0 || i >= s.len() {
        None
    } else if s[i].0 == key {
        Some(s[i].1)
    } else {
        find_object(s, key, i + 1)
    }
}

/// What `key` resolves to in a store.
pub open spec fn store_get(s: Seq<(Seq<char>, ObjectV)>, key: Seq<char>) -> Option<ObjectV> {
    find_object(s, key, 0)
}

/// The tree that `key` resolves to: `NotFound` when nothing is stored under
/// it, `CorruptObject` when what is stored is not a tree.
pub open spec fn load_tree(s: Seq<(Seq<char>, ObjectV)>, key: Seq<char>) -> Result<Seq<TreeLineV>, GitError> {
    match store_get(s, key) {
        None => Err(GitError::NotFound),
        Some(ObjectV::Tree(t)) => Ok(t),
        Some(_) => Err(GitError::CorruptObject),
    }
}

/// The store after `put`ting `o`: unchanged when something is stored under
/// its digest already, else with `o` added under it.
pub open spec fn put_object(s: Seq<(Seq<char>, ObjectV)>, o: ObjectV) -> Seq<(Seq<char>, ObjectV)> {
    if store_get(s, object_digest(o)) is Some {
        s
    } else {
        s.push((object_digest(o), o))
    }
}

/// Where the object with digest `d` is kept, relative to the metadata
/// directory: its first two characters name a directory of `objects`, the
/// rest the file.
pub open spec fn object_location(d: Seq<char>) -> Seq<char> {
    "objects/"@ + d.subrange(0, 2) + seq!['/'] + d.subrange(2, d.len() as int)
}

/// Where the object with digest `d` is kept; `None` for a digest shorter
/// than three characters, which leaves no file name.
pub fn object_path(d: &String) -> (r: Option<String>)
    ensures
        d@.len() < 3 ==> r is None,
        d@.len() >= 3 ==> (r matches Some(p) && p@ == object_location(d@)),
{
    let n = d.as_str().unicode_len();
    if n < 3 {
        return None;
    }
    let mut p = "objects/".to_owned();
    p.append(d.as_str().substring_char(0, 2));
    p.append("/");
    p.append(d.as_str().substring_char(2, n));
    proof {
        reveal_strlit("/");
        assert(p@ =~= object_location(d@));
    }
    Some(p)
}

/// The objects of a repository, each under its digest.
pub struct ObjectStore {
    pub entries: Vec<(String, Object)>,
}

impl View for ObjectStore {
    type V = Seq<(Seq<char>, ObjectV)>;

    open spec fn view(&self) -> Seq<(Seq<char>, ObjectV)> {
        self.entries@.map_values(|e: (String, Object)| (e.0@, e.1@))
    }
}

impl ObjectStore {
    /// A store with no objects.
    pub fn new() -> (r: ObjectStore)
        ensures
            r@ == Seq::<(Seq<char>, ObjectV)>::empty(),
    {
        let r = ObjectStore { entries: Vec::new() };
        assert(r@ =~= Seq::<(Seq<char>, ObjectV)>::empty());
        r
    }

    /// Where `key` is stored, if anywhere.
    fn position(&self, key: &String) -> (r: Option<usize>)
        ensures
            match r {
                Some(k) => k < self@.len() && store_get(self@, key@) == Some(self@[k as int].1),
                None => store_get(self@, key@) == None::<ObjectV>,
            },
    {
        let mut i: usize = 0;
        while i < self.entries.len()
            invariant
                i <= self@.len(),
                self@.len() == self.entries@.len(),
                find_object(self@, key@, 0) == find_object(self@, key@, i as int),
            decreases self@.len() - i,
        {
            if self.entries[i].0 == *key {
                return Some(i);
            }
            i += 1;
        }
        None
    }

    /// Whether an object is stored under `key`.
    pub fn has(&self, key: &String) -> (r: bool)
        ensures
            r == store_get(self@, key@) is Some,
    {
        self.position(key).is_some()
    }

    /// The object stored under `key`.
    pub fn get(&self, key: &String) -> (r: Option<&Object>)
        ensures
            match r {
                Some(o) => store_get(self@, key@) == Some(o@),
                None => store_get(self@, key@) == None::<ObjectV>,
            },
    {
        match self.position(key) {
            Some(k) => Some(&self.entries[k].1),
            None => None,
        }
    }

    /// The tree stored under `key`.
    pub fn get_tree(&self, key: &String) -> (r: Result<&Tree, GitError>)
        ensures
            match r {
                Ok(t) => load_tree(self@, key@) == Ok::<Seq<TreeLineV>, GitError>(t@),
                Err(e) => load_tree(self@, key@) == Err::<Seq<TreeLineV>, GitError>(e),
            },
    {
        match self.get(key) {
            None => Err(GitError::NotFound),
            Some(Object::Tree(t)) => Ok(t),
            Some(_) => Err(GitError::CorruptObject),
        }
    }

    /// Stores `o` under its digest and returns the digest. When something is
    /// stored under that digest already it is kept: equal digests are taken
    /// to mean equal content.
    pub fn put(&mut self, o: Object) -> (r: String)
        ensures
            r@ == object_digest(o@),
            final(self)@ == put_object(old(self)@, o@),
    {
        let key = o.sha1();
        if self.has(&key) {
            key
        } else {
            self.entries.push((key.clone(), o));
            assert(self@ =~= old(self)@.push((key@, o@)));
            key
        }
    }
}

proof fn lemma_find_after_push(s: Seq<(Seq<char>, ObjectV)>, x: (Seq<char>, ObjectV), key: Seq<char>, i: int)
    requires
        0 <= i <= s.len(),
        find_object(s, key, i) is None,
        x.0 == key,
    ensures
        find_object(s.push(x), key, i) == Some(x.1),
    decreases s.len() - i,
{
    if i < s.len() {
        assert(s.push(x)[i] == s[i]);
        lemma_find_after_push(s, x, key, i + 1);
    } else {
        assert(s.push(x)[i] == x);
    }
}

/// After `put(o)`, the digest of `o` resolves to `o`, unless a different
/// object was stored under that digest already (which content addressing
/// rules out).
pub proof fn law_put_then_get(s: Seq<(Seq<char>, ObjectV)>, o: ObjectV)
    requires
        store_get(s, object_digest(o)) is None || store_get(s, object_digest(o)) == Some(o),
    ensures
        store_get(put_object(s, o), object_digest(o)) == Some(o),
{
    if store_get(s, object_digest(o)) is None {
        lemma_find_after_push(s, (object_digest(o), o), object_digest(o), 0);
    }
}

} // verus!
