//! The objects of the store (blobs, trees and commits), their mathematical
//! views and the byte strings their digests are computed over.

use crate::digest::{append_bytes, digest_hex, digest_text};
use vstd::prelude::*;
use vstd::utf8::{decode_utf8, encode_utf8, valid_utf8};

verus! {

/// A digest in its textual form (normally forty lower-case hex digits).
#[derive(Clone, Debug, PartialEq, Eq, Hash)]
pub struct ObjectSha1(pub String);

impl View for ObjectSha1 {
    type V = Seq<char>;

    open spec fn view(&self) -> Seq<char> {
        self.0@
    }
}

impl ObjectSha1 {
    /// A digest holding a copy of `text`.
    pub fn of_str(text: &str) -> (r: ObjectSha1)
        ensures
            r@ == text@,
    {
        ObjectSha1(text.to_owned())
    }

    /// A copy of this digest.
    pub fn copied(&self) -> (r: ObjectSha1)
        ensures
            r@ == self@,
    {
        ObjectSha1(self.0.clone())
    }

    /// Whether two digests have the same text.
    pub fn same_as(&self, other: &ObjectSha1) -> (r: bool)
        ensures
            r == (self@ == other@),
    {
        self.0 == other.0
    }
}

impl From<String> for ObjectSha1 {
    fn from(value: String) -> ObjectSha1 {
        ObjectSha1(value)
    }
}

impl vstd::std_specs::convert::FromSpecImpl<String> for ObjectSha1 {
    open spec fn obeys_from_spec() -> bool {
        true
    }

    open spec fn from_spec(v: String) -> ObjectSha1 {
        ObjectSha1(v)
    }
}

impl From<&str> for ObjectSha1 {
    fn from(value: &str) -> ObjectSha1 {
        ObjectSha1(value.to_owned())
    }
}

impl vstd::std_specs::convert::FromSpecImpl<&str> for ObjectSha1 {
    open spec fn obeys_from_spec() -> bool {
        false
    }

    open spec fn from_spec(v: &str) -> ObjectSha1 {
        arbitrary()
    }
}

/// The little-endian bytes of a 64-bit integer.
pub open spec fn le_bytes_u64(n: u64) -> Seq<u8> {
    seq![
        (n & 0xff) as u8,
        ((n >> 8u64) & 0xff) as u8,
        ((n >> 16u64) & 0xff) as u8,
        ((n >> 24u64) & 0xff) as u8,
        ((n >> 32u64) & 0xff) as u8,
        ((n >> 40u64) & 0xff) as u8,
        ((n >> 48u64) & 0xff) as u8,
        ((n >> 56u64) & 0xff) as u8,
    ]
}

/// The little-endian bytes of a 32-bit integer.
pub open spec fn le_bytes_u32(n: u32) -> Seq<u8> {
    seq![
        (n & 0xff) as u8,
        ((n >> 8u32) & 0xff) as u8,
        ((n >> 16u32) & 0xff) as u8,
        ((n >> 24u32) & 0xff) as u8,
    ]
}

/// Appends the little-endian bytes of `n`.
pub fn push_le_u64(acc: &mut Vec<u8>, n: u64)
    ensures
        final(acc)@ == old(acc)@ + le_bytes_u64(n),
{
    acc.push((n & 0xff) as u8);
    acc.push(((n >> 8u64) & 0xff) as u8);
    acc.push(((n >> 16u64) & 0xff) as u8);
    acc.push(((n >> 24u64) & 0xff) as u8);
    acc.push(((n >> 32u64) & 0xff) as u8);
    acc.push(((n >> 40u64) & 0xff) as u8);
    acc.push(((n >> 48u64) & 0xff) as u8);
    acc.push(((n >> 56u64) & 0xff) as u8);
    assert(acc@ =~= old(acc)@ + le_bytes_u64(n));
}

/// Appends the little-endian bytes of `n`.
pub fn push_le_u32(acc: &mut Vec<u8>, n: u32)
    ensures
        final(acc)@ == old(acc)@ + le_bytes_u32(n),
{
    acc.push((n & 0xff) as u8);
    acc.push(((n >> 8u32) & 0xff) as u8);
    acc.push(((n >> 16u32) & 0xff) as u8);
    acc.push(((n >> 24u32) & 0xff) as u8);
    assert(acc@ =~= old(acc)@ + le_bytes_u32(n));
}

/// File contents: valid UTF-8 text, or arbitrary bytes.
#[derive(Clone, Debug, PartialEq, Eq)]
pub enum Blob {
    Binary(Vec<u8>),
    Text(String),
}

/// The mathematical view of a [`Blob`].
pub enum BlobV {
    Binary(Seq<u8>),
    Text(Seq<char>),
}

impl BlobV {
    /// The raw bytes: text is taken in its UTF-8 encoding.
    pub open spec fn bytes(self) -> Seq<u8> {
        match self {
            BlobV::Binary(b) => b,
            BlobV::Text(t) => encode_utf8(t),
        }
    }
}

impl View for Blob {
    type V = BlobV;

    open spec fn view(&self) -> BlobV {
        match self {
            Blob::Binary(b) => BlobV::Binary(b@),
            Blob::Text(t) => BlobV::Text(t@),
        }
    }
}

impl From<String> for Blob {
    fn from(value: String) -> Blob {
        Blob::Text(value)
    }
}

impl vstd::std_specs::convert::FromSpecImpl<String> for Blob {
    open spec fn obeys_from_spec() -> bool {
        true
    }

    open spec fn from_spec(v: String) -> Blob {
        Blob::Text(v)
    }
}

impl From<&str> for Blob {
    fn from(value: &str) -> Blob {
        Blob::Text(value.to_owned())
    }
}

impl vstd::std_specs::convert::FromSpecImpl<&str> for Blob {
    open spec fn obeys_from_spec() -> bool {
        false
    }

    open spec fn from_spec(v: &str) -> Blob {
        arbitrary()
    }
}

impl From<Vec<u8>> for Blob {
    fn from(value: Vec<u8>) -> Blob {
        Blob::Binary(value)
    }
}

impl vstd::std_specs::convert::FromSpecImpl<Vec<u8>> for Blob {
    open spec fn obeys_from_spec() -> bool {
        true
    }

    open spec fn from_spec(v: Vec<u8>) -> Blob {
        Blob::Binary(v)
    }
}

/// The text `String::from_utf8_lossy` makes of some bytes.
pub uninterp spec fn lossy_text(b: Seq<u8>) -> Seq<char>;

/// Relies on `String::from_utf8`: it succeeds exactly when the bytes are
/// valid UTF-8, with the characters they encode; else it hands the bytes
/// back.
#[verifier::external_body]
pub(crate) fn utf8_text(bytes: Vec<u8>) -> (r: Result<String, Vec<u8>>)
    ensures
        match r {
            Ok(s) => valid_utf8(bytes@) && s@ == decode_utf8(bytes@),
            Err(b) => !valid_utf8(bytes@) && b@ == bytes@,
        },
{
    match String::from_utf8(bytes) {
        Ok(s) => Ok(s),
        Err(e) => Err(e.into_bytes()),
    }
}

/// Relies on `String::from_utf8_lossy`: valid UTF-8 is decoded as it is,
/// anything else with replacement characters; the text depends on the bytes
/// alone.
#[verifier::external_body]
pub(crate) fn lossy(bytes: &[u8]) -> (r: String)
    ensures
        r@ == lossy_text(bytes@),
        valid_utf8(bytes@) ==> r@ == decode_utf8(bytes@),
{
    String::from_utf8_lossy(bytes).into_owned()
}

impl Blob {
    /// The blob of some file contents: text when they are valid UTF-8,
    /// binary otherwise. Either way its bytes are the contents.
    pub fn from_bytes(bytes: Vec<u8>) -> (r: Blob)
        ensures
            valid_utf8(bytes@) ==> r@ == BlobV::Text(decode_utf8(bytes@)),
            !valid_utf8(bytes@) ==> r@ == BlobV::Binary(bytes@),
            r@.bytes() == bytes@,
    {
        let ghost b = bytes@;
        match utf8_text(bytes) {
            Ok(s) => {
                proof {
                    vstd::utf8::decode_utf8_encode_utf8(b);
                }
                Blob::Text(s)
            },
            Err(raw) => Blob::Binary(raw),
        }
    }

    /// The contents as text: as they are for text, decoded with
    /// replacement characters for binary data.
    pub fn as_string(&self) -> (r: String)
        ensures
            match self@ {
                BlobV::Text(t) => r@ == t,
                BlobV::Binary(b) => r@ == lossy_text(b),
            },
    {
        match self {
            Blob::Text(t) => t.clone(),
            Blob::Binary(b) => lossy(b.as_slice()),
        }
    }

    /// The raw bytes of the blob.
    pub fn as_bytes(&self) -> (r: &[u8])
        ensures
            r@ == self@.bytes(),
    {
        match self {
            Blob::Binary(data) => data.as_slice(),
            Blob::Text(text) => text.as_str().as_bytes(),
        }
    }

    /// A copy of this blob.
    pub fn copied(&self) -> (r: Blob)
        ensures
            r@ == self@,
    {
        match self {
            Blob::Binary(data) => Blob::Binary(data.clone()),
            Blob::Text(text) => Blob::Text(text.clone()),
        }
    }
}

/// What a tree entry points at.
#[derive(Clone, Copy, Debug, PartialEq, Eq, Hash, Structural)]
pub enum TreeLineKind {
    File,
    Executable,
    Symlink,
    Tree,
}

impl TreeLineKind {
    /// The mode-and-type label of the kind, as hashed and displayed.
    pub open spec fn label(self) -> Seq<char> {
        match self {
            TreeLineKind::File => "100644 blob"@,
            TreeLineKind::Executable => "100755 blob"@,
            TreeLineKind::Symlink => "120000 blob"@,
            TreeLineKind::Tree => "040000 tree"@,
        }
    }

    /// The mode-and-type label of the kind.
    pub fn kind_label(&self) -> (r: &'static str)
        ensures
            r@ == self.label(),
    {
        match self {
            TreeLineKind::File => "100644 blob",
            TreeLineKind::Executable => "100755 blob",
            TreeLineKind::Symlink => "120000 blob",
            TreeLineKind::Tree => "040000 tree",
        }
    }

    /// Whether the kind names a sub-tree.
    pub fn is_tree(&self) -> (r: bool)
        ensures
            r == (*self == TreeLineKind::Tree),
    {
        match self {
            TreeLineKind::Tree => true,
            _ => false,
        }
    }
}

/// One named entry of a tree.
#[derive(Clone, Debug, PartialEq, Eq, Hash)]
pub struct TreeLine {
    pub kind: TreeLineKind,
    pub name: String,
    pub sha1: ObjectSha1,
}

/// The mathematical view of a [`TreeLine`].
pub struct TreeLineV {
    pub kind: TreeLineKind,
    pub name: Seq<char>,
    pub sha1: Seq<char>,
}

impl View for TreeLine {
    type V = TreeLineV;

    open spec fn view(&self) -> TreeLineV {
        TreeLineV { kind: self.kind, name: self.name@, sha1: self.sha1@ }
    }
}

impl TreeLine {
    /// A copy of this entry.
    pub fn copied(&self) -> (r: TreeLine)
        ensures
            r@ == self@,
    {
        TreeLine { kind: self.kind, name: self.name.clone(), sha1: self.sha1.copied() }
    }
}

/// The bytes one entry contributes to its tree's digest.
pub open spec fn line_input(l: TreeLineV) -> Seq<u8> {
    encode_utf8(l.kind.label()) + encode_utf8(l.name) + encode_utf8(l.sha1)
}

/// The bytes a tree's digest is computed over: the entries in their stored
/// order, each as kind label, name and target.
pub open spec fn tree_input(lines: Seq<TreeLineV>) -> Seq<u8>
    decreases lines.len(),
{
    if lines.len() == 0 {
        Seq::empty()
    } else {
        tree_input(lines.drop_last()) + line_input(lines.last())
    }
}

/// A directory listing: entries in the order they are stored.
#[derive(Clone, Debug)]
pub struct Tree {
    pub objects: Vec<TreeLine>,
}

impl View for Tree {
    type V = Seq<TreeLineV>;

    open spec fn view(&self) -> Seq<TreeLineV> {
        self.objects@.map_values(|l: TreeLine| l@)
    }
}

impl Tree {
    /// The tree with no entries.
    pub fn empty() -> (r: Tree)
        ensures
            r@ == Seq::<TreeLineV>::empty(),
    {
        let r = Tree { objects: Vec::new() };
        assert(r@ =~= Seq::<TreeLineV>::empty());
        r
    }

    /// A copy of this tree.
    pub fn copied(&self) -> (r: Tree)
        ensures
            r@ == self@,
    {
        let mut out: Vec<TreeLine> = Vec::new();
        let mut i: usize = 0;
        while i < self.objects.len()
            invariant
                i <= self.objects@.len(),
                out@.len() == i,
                forall|j: int| 0 <= j < i ==> out@[j]@ == self.objects@[j]@,
            decreases self.objects@.len() - i,
        {
            out.push(self.objects[i].copied());
            i += 1;
        }
        let r = Tree { objects: out };
        assert(r@ =~= self@);
        r
    }
}

/// A snapshot: its tree, its parent (none for a root commit), the time it was
/// made as seconds and nanoseconds since the epoch, and its message.
#[derive(Debug, PartialEq, Eq)]
pub struct Commit {
    pub tree: ObjectSha1,
    pub parent: Option<ObjectSha1>,
    pub timestamp: (i64, u32),
    pub message: String,
}

/// The mathematical view of a [`Commit`].
pub struct CommitV {
    pub tree: Seq<char>,
    pub parent: Option<Seq<char>>,
    pub secs: i64,
    pub nanos: u32,
    pub message: Seq<char>,
}

impl View for Commit {
    type V = CommitV;

    open spec fn view(&self) -> CommitV {
        CommitV {
            tree: self.tree@,
            parent: match self.parent {
                Some(p) => Some(p@),
                None => None,
            },
            secs: self.timestamp.0,
            nanos: self.timestamp.1,
            message: self.message@,
        }
    }
}

/// The bytes a commit's digest is computed over: tree, parent (nothing for a
/// root commit), seconds and nanoseconds little-endian, message.
pub open spec fn commit_input(c: CommitV) -> Seq<u8> {
    encode_utf8(c.tree) + match c.parent {
        Some(p) => encode_utf8(p),
        None => Seq::empty(),
    } + le_bytes_u64(c.secs as u64) + le_bytes_u32(c.nanos) + encode_utf8(c.message)
}

impl Commit {
    /// A copy of this commit.
    pub fn copied(&self) -> (r: Commit)
        ensures
            r@ == self@,
    {
        let parent = match &self.parent {
            Some(p) => Some(p.copied()),
            None => None,
        };
        Commit {
            tree: self.tree.copied(),
            parent,
            timestamp: self.timestamp,
            message: self.message.clone(),
        }
    }
}

impl Clone for Commit {
    fn clone(&self) -> Commit {
        self.copied()
    }
}

/// Any object of the store.
#[derive(Clone, Debug)]
pub enum Object {
    Blob(Blob),
    Tree(Tree),
    Commit(Commit),
}

/// The mathematical view of an [`Object`].
pub enum ObjectV {
    Blob(BlobV),
    Tree(Seq<TreeLineV>),
    Commit(CommitV),
}

impl View for Object {
    type V = ObjectV;

    open spec fn view(&self) -> ObjectV {
        match self {
            Object::Blob(b) => ObjectV::Blob(b@),
            Object::Tree(t) => ObjectV::Tree(t@),
            Object::Commit(c) => ObjectV::Commit(c@),
        }
    }
}

/// The bytes an object's digest is computed over.
pub open spec fn object_input(o: ObjectV) -> Seq<u8> {
    match o {
        ObjectV::Blob(b) => b.bytes(),
        ObjectV::Tree(t) => tree_input(t),
        ObjectV::Commit(c) => commit_input(c),
    }
}

/// The digest of an object, in its textual form.
pub open spec fn object_digest(o: ObjectV) -> Seq<char> {
    digest_text(object_input(o))
}

impl Object {
    /// The name of the object's type.
    pub fn object_type(&self) -> (r: &'static str)
        ensures
            r@ == match self@ {
                ObjectV::Blob(_) => "blob"@,
                ObjectV::Tree(_) => "tree"@,
                ObjectV::Commit(_) => "commit"@,
            },
    {
        match self {
            Object::Blob(_) => "blob",
            Object::Tree(_) => "tree",
            Object::Commit(_) => "commit",
        }
    }

    /// The blob this object is.
    pub fn cast_blob(self) -> (r: Blob)
        requires
            self is Blob,
        ensures
            Object::Blob(r) == self,
    {
        match self {
            Object::Blob(b) => b,
            _ => {
                proof {
                    assert(false);
                }
                Blob::Binary(Vec::new())
            },
        }
    }

    /// The tree this object is.
    pub fn cast_tree(self) -> (r: Tree)
        requires
            self is Tree,
        ensures
            Object::Tree(r) == self,
    {
        match self {
            Object::Tree(t) => t,
            _ => {
                proof {
                    assert(false);
                }
                Tree { objects: Vec::new() }
            },
        }
    }

    /// The commit this object is.
    pub fn cast_commit(self) -> (r: Commit)
        requires
            self is Commit,
        ensures
            Object::Commit(r) == self,
    {
        match self {
            Object::Commit(c) => c,
            _ => {
                proof {
                    assert(false);
                }
                Commit { tree: ObjectSha1(String::new()), parent: None, timestamp: (0, 0), message: String::new() }
            },
        }
    }
}

impl From<Blob> for Object {
    fn from(value: Blob) -> Object {
        Object::Blob(value)
    }
}

impl vstd::std_specs::convert::FromSpecImpl<Blob> for Object {
    open spec fn obeys_from_spec() -> bool {
        true
    }

    open spec fn from_spec(v: Blob) -> Object {
        Object::Blob(v)
    }
}

impl From<Tree> for Object {
    fn from(value: Tree) -> Object {
        Object::Tree(value)
    }
}

impl vstd::std_specs::convert::FromSpecImpl<Tree> for Object {
    open spec fn obeys_from_spec() -> bool {
        true
    }

    open spec fn from_spec(v: Tree) -> Object {
        Object::Tree(v)
    }
}

impl From<Commit> for Object {
    fn from(value: Commit) -> Object {
        Object::Commit(value)
    }
}

impl vstd::std_specs::convert::FromSpecImpl<Commit> for Object {
    open spec fn obeys_from_spec() -> bool {
        true
    }

    open spec fn from_spec(v: Commit) -> Object {
        Object::Commit(v)
    }
}

/// What has a digest.
pub trait Sha1Able {
    /// The bytes the digest is computed over.
    spec fn hash_input(&self) -> Seq<u8>;

    /// The digest: forty lower-case hex digits of the SHA-1 of the input.
    fn sha1(&self) -> (r: String)
        ensures
            r@ == digest_text(self.hash_input()),
            r@.len() == 40,
    ;
}

impl Sha1Able for Blob {
    open spec fn hash_input(&self) -> Seq<u8> {
        self@.bytes()
    }

    fn sha1(&self) -> (r: String) {
        digest_hex(self.as_bytes())
    }
}

impl Sha1Able for Tree {
    open spec fn hash_input(&self) -> Seq<u8> {
        tree_input(self@)
    }

    fn sha1(&self) -> (r: String) {
        let mut acc: Vec<u8> = Vec::new();
        let mut i: usize = 0;
        while i < self.objects.len()
            invariant
                i <= self.objects@.len(),
                acc@ == tree_input(self@.subrange(0, i as int)),
            decreases self.objects@.len() - i,
        {
            let line = &self.objects[i];
            append_bytes(&mut acc, line.kind.kind_label().as_bytes());
            append_bytes(&mut acc, line.name.as_str().as_bytes());
            append_bytes(&mut acc, line.sha1.0.as_str().as_bytes());
            proof {
                let s = self@.subrange(0, i + 1);
                assert(s.drop_last() =~= self@.subrange(0, i as int));
                assert(s.last() == self@[i as int]);
            }
            i += 1;
        }
        assert(self@.subrange(0, self@.len() as int) =~= self@);
        digest_hex(acc.as_slice())
    }
}

impl Sha1Able for Commit {
    open spec fn hash_input(&self) -> Seq<u8> {
        commit_input(self@)
    }

    fn sha1(&self) -> (r: String) {
        let mut acc: Vec<u8> = Vec::new();
        append_bytes(&mut acc, self.tree.0.as_str().as_bytes());
        match &self.parent {
            Some(p) => append_bytes(&mut acc, p.0.as_str().as_bytes()),
            None => {},
        }
        push_le_u64(&mut acc, self.timestamp.0 as u64);
        push_le_u32(&mut acc, self.timestamp.1);
        append_bytes(&mut acc, self.message.as_str().as_bytes());
        assert(acc@ =~= commit_input(self@));
        digest_hex(acc.as_slice())
    }
}

impl Sha1Able for Object {
    open spec fn hash_input(&self) -> Seq<u8> {
        object_input(self@)
    }

    fn sha1(&self) -> (r: String) {
        match self {
            Object::Blob(b) => b.sha1(),
            Object::Tree(t) => t.sha1(),
            Object::Commit(c) => c.sha1(),
        }
    }
}

/// The digest of an object is the digest of the blob, tree or commit it
/// holds.
pub proof fn law_object_digest_is_inner(o: Object)
    ensures
        match o {
            Object::Blob(b) => o.hash_input() == b.hash_input(),
            Object::Tree(t) => o.hash_input() == t.hash_input(),
            Object::Commit(c) => o.hash_input() == c.hash_input(),
        },
{
}

} // verus!
