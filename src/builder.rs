//! Building trees from working-directory contents: the ignore set, and the
//! steps that turn a file or a finished directory into an entry of the tree
//! being built, storing the objects they need. Walking the file system is
//! left to the caller, which hands over names and contents.

use crate::lines::{lines_of, split_lines};
use crate::object::{Blob, BlobV, Object, ObjectSha1, ObjectV, Tree, TreeLine, TreeLineKind, TreeLineV, lossy, lossy_text, object_digest};
use crate::store::{ObjectStore, put_object};
use crate::tree::{MutableTree, sort_lines, upsert};
use vstd::prelude::*;
use vstd::utf8::{decode_utf8, valid_utf8};

verus! {

/// The name of the repository's metadata directory.
pub const METADATA_DIR: &'static str = ".kidon-git";

/// The text of a line: its decoding when it is valid UTF-8, else the text
/// with replacement characters.
pub open spec fn line_text(l: Seq<u8>) -> Seq<char> {
    if valid_utf8(l) {
        decode_utf8(l)
    } else {
        lossy_text(l)
    }
}

/// The names in the ignore file's lines, in order: the text of each
/// non-empty line.
pub open spec fn ignore_names(ls: Seq<Seq<u8>>) -> Seq<Seq<char>>
    decreases ls.len(),
{
    if ls.len() == 0 {
        Seq::empty()
    } else if ls.last().len() == 0 {
        ignore_names(ls.drop_last())
    } else {
        ignore_names(ls.drop_last()).push(line_text(ls.last()))
    }
}

/// The names pruned from traversal; matched exactly against a path's last
/// component.
pub struct Ignores {
    pub names: Vec<String>,
}

impl View for Ignores {
    type V = Seq<Seq<char>>;

    open spec fn view(&self) -> Seq<Seq<char>> {
        self.names@.map_values(|n: String| n@)
    }
}

impl Ignores {
    /// The ignore set of an ignore file's contents: the metadata directory,
    /// then the name on each non-empty line.
    pub fn from_bytes(content: &[u8]) -> (r: Ignores)
        ensures
            r@ == seq![METADATA_DIR@] + ignore_names(lines_of(content@)),
    {
        let ls = split_lines(content);
        let ghost lv = ls@.map_values(|l: Vec<u8>| l@);
        let mut names: Vec<String> = Vec::new();
        names.push(METADATA_DIR.to_owned());
        let mut i: usize = 0;
        assert(lv.take(0) =~= Seq::<Seq<u8>>::empty());
        assert(names@.map_values(|n: String| n@) =~= seq![METADATA_DIR@] + ignore_names(lv.take(0)));
        while i < ls.len()
            invariant
                i <= ls@.len(),
                lv == ls@.map_values(|l: Vec<u8>| l@),
                names@.map_values(|n: String| n@) == seq![METADATA_DIR@] + ignore_names(lv.take(i as int)),
            decreases ls@.len() - i,
        {
            assert(lv.take(i + 1).drop_last() =~= lv.take(i as int));
            if ls[i].len() > 0 {
                let ghost before = names@.map_values(|n: String| n@);
                names.push(lossy(ls[i].as_slice()));
                assert(names@.map_values(|n: String| n@) =~= before.push(line_text(lv[i as int])));
            }
            i += 1;
        }
        assert(lv.take(lv.len() as int) =~= lv);
        Ignores { names }
    }

    /// Whether `name` is ignored.
    pub fn contains(&self, name: &String) -> (r: bool)
        ensures
            r == self@.contains(name@),
    {
        let mut i: usize = 0;
        while i < self.names.len()
            invariant
                i <= self.names@.len(),
                forall|j: int| 0 <= j < i ==> self@[j] != name@,
            decreases self.names@.len() - i,
        {
            if self.names[i] == *name {
                assert(self@[i as int] == name@);
                return true;
            }
            i += 1;
        }
        false
    }
}

impl MutableTree {
    /// A builder with no entries.
    pub fn empty() -> (r: MutableTree)
        ensures
            r@ == Seq::<TreeLineV>::empty(),
    {
        let r = MutableTree { data: Vec::new() };
        assert(r@ =~= Seq::<TreeLineV>::empty());
        r
    }

    /// Adds the file `name` with these contents and kind: its blob (text
    /// when the contents are valid UTF-8) is put into the store and an entry
    /// pointing at it replaces any entry of that name.
    pub fn add_file(&mut self, store: &mut ObjectStore, name: &String, content: Vec<u8>, kind: TreeLineKind) -> (r: String)
        ensures
            ({
                let blob = if valid_utf8(content@) {
                    BlobV::Text(decode_utf8(content@))
                } else {
                    BlobV::Binary(content@)
                };
                &&& r@ == object_digest(ObjectV::Blob(blob))
                &&& final(store)@ == put_object(old(store)@, ObjectV::Blob(blob))
                &&& final(self)@ == upsert(old(self)@, TreeLineV { kind: kind, name: name@, sha1: r@ })
            }),
    {
        let blob = Blob::from_bytes(content);
        let digest = store.put(Object::Blob(blob));
        self.insert(TreeLine { kind, name: name.clone(), sha1: ObjectSha1(digest.clone()) });
        digest
    }

    /// Adds the finished directory `name` built in `child`: frozen in name
    /// order and put into the store, it replaces any entry of that name.
    /// An empty directory is left out.
    pub fn add_dir(&mut self, store: &mut ObjectStore, name: &String, child: MutableTree) -> (r: Option<String>)
        ensures
            child@.len() == 0 ==> r is None && final(self)@ == old(self)@ && final(store)@ == old(store)@,
            child@.len() > 0 ==> ({
                let t = sort_lines(child@);
                &&& r matches Some(d) && d@ == object_digest(ObjectV::Tree(t))
                &&& final(store)@ == put_object(old(store)@, ObjectV::Tree(t))
                &&& final(self)@ == upsert(old(self)@, TreeLineV { kind: TreeLineKind::Tree, name: name@, sha1: r->Some_0@ })
            }),
    {
        if child.data.len() == 0 {
            return None;
        }
        let tree = child.freeze();
        let digest = store.put(Object::Tree(tree));
        self.insert(TreeLine { kind: TreeLineKind::Tree, name: name.clone(), sha1: ObjectSha1(digest.clone()) });
        Some(digest)
    }
}

} // verus!
