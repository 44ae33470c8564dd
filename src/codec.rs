//! The binary encoding of objects and of the index: a tag byte, then the
//! variant's fields. Lengths and counts are 8-byte little-endian integers in
//! front of what they count; text is UTF-8.

use crate::digest::append_bytes;
use crate::object::{
    Blob, BlobV, Commit, CommitV, Object, ObjectSha1, ObjectV, Tree, TreeLine, TreeLineKind, TreeLineV,
    le_bytes_u32, le_bytes_u64, push_le_u32, push_le_u64, utf8_text,
};
use crate::store::GitError;
use vstd::prelude::*;
use vstd::utf8::{decode_utf8, encode_utf8, valid_utf8};

verus! {

/// The tag of an entry kind.
pub open spec fn kind_tag(k: TreeLineKind) -> u8 {
    match k {
        TreeLineKind::File => 0u8,
        TreeLineKind::Executable => 1u8,
        TreeLineKind::Symlink => 2u8,
        TreeLineKind::Tree => 3u8,
    }
}

/// Bytes, after their length.
pub open spec fn enc_bytes(b: Seq<u8>) -> Seq<u8> {
    le_bytes_u64(b.len() as u64) + b
}

/// Text, as its UTF-8 bytes after their length.
pub open spec fn enc_str(s: Seq<char>) -> Seq<u8> {
    enc_bytes(encode_utf8(s))
}

/// One tree entry: kind tag, name, target.
pub open spec fn enc_line(l: TreeLineV) -> Seq<u8> {
    seq![kind_tag(l.kind)] + enc_str(l.name) + enc_str(l.sha1)
}

/// Tree entries one after the other.
pub open spec fn enc_lines(s: Seq<TreeLineV>) -> Seq<u8>
    decreases s.len(),
{
    if s.len() == 0 {
        Seq::empty()
    } else {
        enc_lines(s.drop_last()) + enc_line(s.last())
    }
}

/// A tree: the number of entries, then the entries.
pub open spec fn enc_tree(t: Seq<TreeLineV>) -> Seq<u8> {
    le_bytes_u64(t.len() as u64) + enc_lines(t)
}

/// A commit: tree, parent (a 0 byte for none, else a 1 byte and the
/// digest), seconds, nanoseconds, message.
pub open spec fn enc_commit(c: CommitV) -> Seq<u8> {
    enc_str(c.tree) + match c.parent {
        Some(p) => seq![1u8] + enc_str(p),
        None => seq![0u8],
    } + le_bytes_u64(c.secs as u64) + le_bytes_u32(c.nanos) + enc_str(c.message)
}

/// An object: tag 0 text blob, 1 binary blob, 2 tree, 3 commit; then its
/// fields.
pub open spec fn encode_object(o: ObjectV) -> Seq<u8> {
    match o {
        ObjectV::Blob(BlobV::Text(t)) => seq![0u8] + enc_str(t),
        ObjectV::Blob(BlobV::Binary(b)) => seq![1u8] + enc_bytes(b),
        ObjectV::Tree(t) => seq![2u8] + enc_tree(t),
        ObjectV::Commit(c) => seq![3u8] + enc_commit(c),
    }
}

/// Every length in `s`'s encoding fits in 64 bits.
pub open spec fn str_fits(s: Seq<char>) -> bool {
    encode_utf8(s).len() <= u64::MAX
}

/// Every length and count in the tree's encoding fits in 64 bits.
pub open spec fn tree_fits(t: Seq<TreeLineV>) -> bool {
    &&& t.len() <= u64::MAX
    &&& forall|i: int| 0 <= i < t.len() ==> str_fits(#[trigger] t[i].name) && str_fits(t[i].sha1)
}

/// Every length and count in the object's encoding fits in 64 bits.
pub open spec fn object_fits(o: ObjectV) -> bool {
    match o {
        ObjectV::Blob(BlobV::Text(t)) => str_fits(t),
        ObjectV::Blob(BlobV::Binary(b)) => b.len() <= u64::MAX,
        ObjectV::Tree(t) => tree_fits(t),
        ObjectV::Commit(c) => str_fits(c.tree) && str_fits(c.message) && (c.parent matches Some(p) ==> str_fits(p)),
    }
}

/// The integer whose little-endian bytes start at `p`.
pub open spec fn u64_at(b: Seq<u8>, p: int) -> Option<u64> {
    if 0 <= p && p + 8 <= b.len() {
        Some(
            (b[p] as u64) | ((b[p + 1] as u64) << 8u64) | ((b[p + 2] as u64) << 16u64) | ((b[p + 3] as u64) << 24u64)
                | ((b[p + 4] as u64) << 32u64) | ((b[p + 5] as u64) << 40u64) | ((b[p + 6] as u64) << 48u64)
                | ((b[p + 7] as u64) << 56u64),
        )
    } else {
        None
    }
}

/// The integer whose little-endian bytes start at `p`.
pub open spec fn u32_at(b: Seq<u8>, p: int) -> Option<u32> {
    if 0 <= p && p + 4 <= b.len() {
        Some((b[p] as u32) | ((b[p + 1] as u32) << 8u32) | ((b[p + 2] as u32) << 16u32) | ((b[p + 3] as u32) << 24u32))
    } else {
        None
    }
}

/// The length-prefixed bytes at `p`, and where they end.
pub open spec fn bytes_at(b: Seq<u8>, p: int) -> Option<(Seq<u8>, int)> {
    match u64_at(b, p) {
        Some(n) => if p + 8 + n <= b.len() {
            Some((b.subrange(p + 8, p + 8 + n), p + 8 + n))
        } else {
            None
        },
        None => None,
    }
}

/// The length-prefixed text at `p`, and where it ends.
pub open spec fn str_at(b: Seq<u8>, p: int) -> Option<(Seq<char>, int)> {
    match bytes_at(b, p) {
        Some((x, q)) => if valid_utf8(x) {
            Some((decode_utf8(x), q))
        } else {
            None
        },
        None => None,
    }
}

/// The entry kind of a tag.
pub open spec fn kind_of_tag(t: u8) -> Option<TreeLineKind> {
    if t == 0 {
        Some(TreeLineKind::File)
    } else if t == 1 {
        Some(TreeLineKind::Executable)
    } else if t == 2 {
        Some(TreeLineKind::Symlink)
    } else if t == 3 {
        Some(TreeLineKind::Tree)
    } else {
        None
    }
}

/// The tree entry at `p`, and where it ends.
pub open spec fn line_at(b: Seq<u8>, p: int) -> Option<(TreeLineV, int)> {
    if p < 0 || p >= b.len() {
        None
    } else {
        match kind_of_tag(b[p]) {
            None => None,
            Some(k) => match str_at(b, p + 1) {
                None => None,
                Some((name, q)) => match str_at(b, q) {
                    None => None,
                    Some((sha1, r)) => Some((TreeLineV { kind: k, name: name, sha1: sha1 }, r)),
                },
            },
        }
    }
}

/// `n` tree entries from `p` on, and where they end.
pub open spec fn lines_at(b: Seq<u8>, p: int, n: nat) -> Option<(Seq<TreeLineV>, int)>
    decreases n,
{
    if n == 0 {
        Some((Seq::empty(), p))
    } else {
        match lines_at(b, p, (n - 1) as nat) {
            None => None,
            Some((s, q)) => match line_at(b, q) {
                None => None,
                Some((l, r)) => Some((s.push(l), r)),
            },
        }
    }
}

/// The tree at `p`, and where it ends.
pub open spec fn tree_at(b: Seq<u8>, p: int) -> Option<(Seq<TreeLineV>, int)> {
    match u64_at(b, p) {
        None => None,
        Some(n) => lines_at(b, p + 8, n as nat),
    }
}

/// The commit at `p`, and where it ends.
pub open spec fn commit_at(b: Seq<u8>, p: int) -> Option<(CommitV, int)> {
    match str_at(b, p) {
        None => None,
        Some((tree, q)) => {
            let parent: Option<(Option<Seq<char>>, int)> = if q < 0 || q >= b.len() {
                None
            } else if b[q] == 0 {
                Some((None, q + 1))
            } else if b[q] == 1 {
                match str_at(b, q + 1) {
                    None => None,
                    Some((d, r)) => Some((Some(d), r)),
                }
            } else {
                None
            };
            match parent {
                None => None,
                Some((par, r)) => match u64_at(b, r) {
                    None => None,
                    Some(secs) => match u32_at(b, r + 8) {
                        None => None,
                        Some(nanos) => match str_at(b, r + 12) {
                            None => None,
                            Some((message, e)) => Some((
                                CommitV { tree: tree, parent: par, secs: secs as i64, nanos: nanos, message: message },
                                e,
                            )),
                        },
                    },
                },
            }
        },
    }
}

/// The object `b` encodes, if it encodes one and nothing more.
pub open spec fn decode_object(b: Seq<u8>) -> Option<ObjectV> {
    if b.len() == 0 {
        None
    } else {
        let body: Option<(ObjectV, int)> = if b[0] == 0 {
            match str_at(b, 1) {
                Some((t, e)) => Some((ObjectV::Blob(BlobV::Text(t)), e)),
                None => None,
            }
        } else if b[0] == 1 {
            match bytes_at(b, 1) {
                Some((x, e)) => Some((ObjectV::Blob(BlobV::Binary(x)), e)),
                None => None,
            }
        } else if b[0] == 2 {
            match tree_at(b, 1) {
                Some((t, e)) => Some((ObjectV::Tree(t), e)),
                None => None,
            }
        } else if b[0] == 3 {
            match commit_at(b, 1) {
                Some((c, e)) => Some((ObjectV::Commit(c), e)),
                None => None,
            }
        } else {
            None
        };
        match body {
            Some((o, e)) => if e == b.len() {
                Some(o)
            } else {
                None
            },
            None => None,
        }
    }
}

/// The index `b` encodes, if it encodes a tree and nothing more.
pub open spec fn decode_index(b: Seq<u8>) -> Option<Seq<TreeLineV>> {
    match tree_at(b, 0) {
        Some((t, e)) => if e == b.len() {
            Some(t)
        } else {
            None
        },
        None => None,
    }
}

proof fn lemma_u64_at(b: Seq<u8>, p: int, n: u64)
    requires
        0 <= p,
        p + 8 <= b.len(),
        b.subrange(p, p + 8) == le_bytes_u64(n),
    ensures
        u64_at(b, p) == Some(n),
{
    let s = b.subrange(p, p + 8);
    assert(b[p] == s[0] && b[p + 1] == s[1] && b[p + 2] == s[2] && b[p + 3] == s[3]);
    assert(b[p + 4] == s[4] && b[p + 5] == s[5] && b[p + 6] == s[6] && b[p + 7] == s[7]);
    assert(((n & 0xff) as u8 as u64) | ((((n >> 8u64) & 0xff) as u8 as u64) << 8u64)
        | ((((n >> 16u64) & 0xff) as u8 as u64) << 16u64) | ((((n >> 24u64) & 0xff) as u8 as u64) << 24u64)
        | ((((n >> 32u64) & 0xff) as u8 as u64) << 32u64) | ((((n >> 40u64) & 0xff) as u8 as u64) << 40u64)
        | ((((n >> 48u64) & 0xff) as u8 as u64) << 48u64) | ((((n >> 56u64) & 0xff) as u8 as u64) << 56u64) == n)
        by (bit_vector);
}

proof fn lemma_u32_at(b: Seq<u8>, p: int, n: u32)
    requires
        0 <= p,
        p + 4 <= b.len(),
        b.subrange(p, p + 4) == le_bytes_u32(n),
    ensures
        u32_at(b, p) == Some(n),
{
    let s = b.subrange(p, p + 4);
    assert(b[p] == s[0] && b[p + 1] == s[1] && b[p + 2] == s[2] && b[p + 3] == s[3]);
    assert(((n & 0xff) as u8 as u32) | ((((n >> 8u32) & 0xff) as u8 as u32) << 8u32)
        | ((((n >> 16u32) & 0xff) as u8 as u32) << 16u32) | ((((n >> 24u32) & 0xff) as u8 as u32) << 24u32) == n)
        by (bit_vector);
}

proof fn lemma_i64_cast(x: i64)
    ensures
        (x as u64) as i64 == x,
{
    assert((x as u64) as i64 == x) by (bit_vector);
}

proof fn lemma_split(b: Seq<u8>, p: int, x: Seq<u8>, y: Seq<u8>)
    requires
        0 <= p,
        p + x.len() + y.len() <= b.len(),
        b.subrange(p, p + x.len() + y.len()) == x + y,
    ensures
        b.subrange(p, p + x.len()) == x,
        b.subrange(p + x.len(), p + x.len() + y.len()) == y,
{
    assert(b.subrange(p, p + x.len()) =~= (x + y).subrange(0, x.len() as int));
    assert(b.subrange(p + x.len(), p + x.len() + y.len()) =~= (x + y).subrange(x.len() as int, (x.len() + y.len()) as int));
}

proof fn lemma_bytes_at(b: Seq<u8>, p: int, x: Seq<u8>)
    requires
        0 <= p,
        x.len() <= u64::MAX,
        p + enc_bytes(x).len() <= b.len(),
        b.subrange(p, p + enc_bytes(x).len()) == enc_bytes(x),
    ensures
        bytes_at(b, p) == Some((x, p + enc_bytes(x).len())),
{
    lemma_split(b, p, le_bytes_u64(x.len() as u64), x);
    lemma_u64_at(b, p, x.len() as u64);
}

proof fn lemma_str_at(b: Seq<u8>, p: int, t: Seq<char>)
    requires
        0 <= p,
        str_fits(t),
        p + enc_str(t).len() <= b.len(),
        b.subrange(p, p + enc_str(t).len()) == enc_str(t),
    ensures
        str_at(b, p) == Some((t, p + enc_str(t).len())),
{
    lemma_bytes_at(b, p, encode_utf8(t));
    vstd::utf8::encode_utf8_valid_utf8(t);
    vstd::utf8::encode_utf8_decode_utf8(t);
}

proof fn lemma_line_at(b: Seq<u8>, p: int, l: TreeLineV)
    requires
        0 <= p,
        str_fits(l.name),
        str_fits(l.sha1),
        p + enc_line(l).len() <= b.len(),
        b.subrange(p, p + enc_line(l).len()) == enc_line(l),
    ensures
        line_at(b, p) == Some((l, p + enc_line(l).len())),
{
    let t = seq![kind_tag(l.kind)];
    lemma_split(b, p, t + enc_str(l.name), enc_str(l.sha1));
    lemma_split(b, p, t, enc_str(l.name));
    assert(b[p] == b.subrange(p, p + 1)[0]);
    lemma_str_at(b, p + 1, l.name);
    lemma_str_at(b, p + 1 + enc_str(l.name).len(), l.sha1);
}

proof fn lemma_lines_at(b: Seq<u8>, p: int, s: Seq<TreeLineV>)
    requires
        0 <= p,
        forall|i: int| 0 <= i < s.len() ==> str_fits(#[trigger] s[i].name) && str_fits(s[i].sha1),
        p + enc_lines(s).len() <= b.len(),
        b.subrange(p, p + enc_lines(s).len()) == enc_lines(s),
    ensures
        lines_at(b, p, s.len()) == Some((s, p + enc_lines(s).len())),
    decreases s.len(),
{
    if s.len() > 0 {
        let d = s.drop_last();
        lemma_split(b, p, enc_lines(d), enc_line(s.last()));
        assert forall|i: int| 0 <= i < d.len() implies str_fits(#[trigger] d[i].name) && str_fits(d[i].sha1) by {
            assert(d[i] == s[i]);
        }
        lemma_lines_at(b, p, d);
        assert(s.last() == s[s.len() - 1]);
        lemma_line_at(b, p + enc_lines(d).len(), s.last());
        assert(d.push(s.last()) =~= s);
        assert((s.len() - 1) as nat == d.len());
    } else {
        assert(s =~= Seq::<TreeLineV>::empty());
    }
}

proof fn lemma_tree_at(b: Seq<u8>, p: int, t: Seq<TreeLineV>)
    requires
        0 <= p,
        tree_fits(t),
        p + enc_tree(t).len() <= b.len(),
        b.subrange(p, p + enc_tree(t).len()) == enc_tree(t),
    ensures
        tree_at(b, p) == Some((t, p + enc_tree(t).len())),
{
    lemma_split(b, p, le_bytes_u64(t.len() as u64), enc_lines(t));
    lemma_u64_at(b, p, t.len() as u64);
    lemma_lines_at(b, p + 8, t);
}

proof fn lemma_commit_at(b: Seq<u8>, p: int, c: CommitV)
    requires
        0 <= p,
        object_fits(ObjectV::Commit(c)),
        p + enc_commit(c).len() <= b.len(),
        b.subrange(p, p + enc_commit(c).len()) == enc_commit(c),
    ensures
        commit_at(b, p) == Some((c, p + enc_commit(c).len())),
{
    let a = enc_str(c.tree);
    let par = match c.parent {
        Some(d) => seq![1u8] + enc_str(d),
        None => seq![0u8],
    };
    let s8 = le_bytes_u64(c.secs as u64);
    let n4 = le_bytes_u32(c.nanos);
    let m = enc_str(c.message);
    assert(enc_commit(c) == a + par + s8 + n4 + m);
    lemma_split(b, p, a + par + s8 + n4, m);
    lemma_split(b, p, a + par + s8, n4);
    lemma_split(b, p, a + par, s8);
    lemma_split(b, p, a, par);
    lemma_str_at(b, p, c.tree);
    let q = p + a.len();
    assert(b[q] == b.subrange(q, q + par.len())[0]);
    if let Some(d) = c.parent {
        lemma_split(b, q, seq![1u8], enc_str(d));
        lemma_str_at(b, q + 1, d);
    }
    let r = q + par.len();
    lemma_u64_at(b, r, c.secs as u64);
    lemma_u32_at(b, r + 8, c.nanos);
    lemma_i64_cast(c.secs);
    lemma_str_at(b, r + 12, c.message);
}

proof fn lemma_tagged(tag: u8, body: Seq<u8>)
    ensures
        (seq![tag] + body).subrange(0, (seq![tag] + body).len() as int) == seq![tag] + body,
        (seq![tag] + body)[0] == tag,
{
    assert((seq![tag] + body).subrange(0, (seq![tag] + body).len() as int) =~= seq![tag] + body);
}

proof fn lemma_round_text(t: Seq<char>)
    requires
        str_fits(t),
    ensures
        decode_object(seq![0u8] + enc_str(t)) == Some(ObjectV::Blob(BlobV::Text(t))),
{
    let b = seq![0u8] + enc_str(t);
    lemma_tagged(0u8, enc_str(t));
    lemma_split(b, 0, seq![0u8], enc_str(t));
    lemma_str_at(b, 1, t);
}

proof fn lemma_round_binary(x: Seq<u8>)
    requires
        x.len() <= u64::MAX,
    ensures
        decode_object(seq![1u8] + enc_bytes(x)) == Some(ObjectV::Blob(BlobV::Binary(x))),
{
    let b = seq![1u8] + enc_bytes(x);
    lemma_tagged(1u8, enc_bytes(x));
    lemma_split(b, 0, seq![1u8], enc_bytes(x));
    lemma_bytes_at(b, 1, x);
}

proof fn lemma_round_tree(t: Seq<TreeLineV>)
    requires
        tree_fits(t),
    ensures
        decode_object(seq![2u8] + enc_tree(t)) == Some(ObjectV::Tree(t)),
{
    let b = seq![2u8] + enc_tree(t);
    lemma_tagged(2u8, enc_tree(t));
    lemma_split(b, 0, seq![2u8], enc_tree(t));
    lemma_tree_at(b, 1, t);
}

proof fn lemma_round_commit(c: CommitV)
    requires
        object_fits(ObjectV::Commit(c)),
    ensures
        decode_object(seq![3u8] + enc_commit(c)) == Some(ObjectV::Commit(c)),
{
    let b = seq![3u8] + enc_commit(c);
    lemma_tagged(3u8, enc_commit(c));
    lemma_split(b, 0, seq![3u8], enc_commit(c));
    lemma_commit_at(b, 1, c);
}

/// Decoding the encoding of an object gives the object back (when its
/// lengths fit in the 64-bit length fields, as those of any object in
/// memory do).
pub proof fn law_object_round_trip(o: ObjectV)
    requires
        object_fits(o),
    ensures
        decode_object(encode_object(o)) == Some(o),
{
    match o {
        ObjectV::Blob(BlobV::Text(t)) => lemma_round_text(t),
        ObjectV::Blob(BlobV::Binary(x)) => lemma_round_binary(x),
        ObjectV::Tree(t) => lemma_round_tree(t),
        ObjectV::Commit(c) => lemma_round_commit(c),
    }
}

/// Decoding the encoding of an index gives it back (when its lengths fit
/// in the 64-bit length fields).
pub proof fn law_index_round_trip(t: Seq<TreeLineV>)
    requires
        tree_fits(t),
    ensures
        decode_index(enc_tree(t)) == Some(t),
{
    let b = enc_tree(t);
    assert(b.subrange(0, b.len() as int) =~= b);
    lemma_tree_at(b, 0, t);
}

/// Appends bytes after their length.
fn push_bytes(acc: &mut Vec<u8>, b: &[u8])
    ensures
        final(acc)@ == old(acc)@ + enc_bytes(b@),
{
    push_le_u64(acc, b.len() as u64);
    append_bytes(acc, b);
    assert(final(acc)@ =~= old(acc)@ + enc_bytes(b@));
}

/// Appends text as its UTF-8 bytes after their length.
fn push_str(acc: &mut Vec<u8>, s: &String)
    ensures
        final(acc)@ == old(acc)@ + enc_str(s@),
{
    push_bytes(acc, s.as_str().as_bytes());
}

/// The tag of an entry kind.
fn kind_tag_exec(k: TreeLineKind) -> (r: u8)
    ensures
        r == kind_tag(k),
{
    match k {
        TreeLineKind::File => 0,
        TreeLineKind::Executable => 1,
        TreeLineKind::Symlink => 2,
        TreeLineKind::Tree => 3,
    }
}

/// Appends a tree: entry count, then entries.
fn push_tree(acc: &mut Vec<u8>, t: &Tree)
    ensures
        final(acc)@ == old(acc)@ + enc_tree(t@),
{
    let ghost start = acc@;
    push_le_u64(acc, t.objects.len() as u64);
    let ghost mid = acc@;
    let mut i: usize = 0;
    assert(t@.take(0) =~= Seq::<TreeLineV>::empty());
    assert(acc@ =~= mid + enc_lines(t@.take(0)));
    while i < t.objects.len()
        invariant
            i <= t@.len(),
            t@.len() == t.objects@.len(),
            mid == start + le_bytes_u64(t@.len() as u64),
            acc@ == mid + enc_lines(t@.take(i as int)),
        decreases t@.len() - i,
    {
        let l = &t.objects[i];
        let ghost before = acc@;
        acc.push(kind_tag_exec(l.kind));
        push_str(acc, &l.name);
        push_str(acc, &l.sha1.0);
        assert(t@.take(i + 1).drop_last() =~= t@.take(i as int));
        assert(t@.take(i + 1).last() == t@[i as int]);
        assert(acc@ =~= before + enc_line(t@[i as int]));
        i += 1;
    }
    assert(t@.take(t@.len() as int) =~= t@);
    assert(acc@ =~= start + enc_tree(t@));
}

/// The encoding of an object.
pub fn object_to_bytes(o: &Object) -> (r: Vec<u8>)
    ensures
        r@ == encode_object(o@),
{
    let mut acc: Vec<u8> = Vec::new();
    match o {
        Object::Blob(Blob::Text(t)) => {
            acc.push(0);
            push_str(&mut acc, t);
        },
        Object::Blob(Blob::Binary(b)) => {
            acc.push(1);
            push_bytes(&mut acc, b.as_slice());
        },
        Object::Tree(t) => {
            acc.push(2);
            push_tree(&mut acc, t);
        },
        Object::Commit(c) => {
            acc.push(3);
            push_str(&mut acc, &c.tree.0);
            match &c.parent {
                Some(p) => {
                    acc.push(1);
                    push_str(&mut acc, &p.0);
                },
                None => {
                    acc.push(0);
                },
            }
            push_le_u64(&mut acc, c.timestamp.0 as u64);
            push_le_u32(&mut acc, c.timestamp.1);
            push_str(&mut acc, &c.message);
        },
    }
    assert(acc@ =~= encode_object(o@));
    acc
}

/// The encoding of the index tree.
pub fn index_to_bytes(t: &Tree) -> (r: Vec<u8>)
    ensures
        r@ == enc_tree(t@),
{
    let mut acc: Vec<u8> = Vec::new();
    push_tree(&mut acc, t);
    assert(acc@ =~= enc_tree(t@));
    acc
}

/// The integer whose little-endian bytes start at `p`.
fn read_u64(b: &[u8], p: usize) -> (r: Option<u64>)
    ensures
        r == u64_at(b@, p as int),
        r is Some ==> p + 8 <= b@.len() <= usize::MAX,
{
    if p > b.len() || b.len() - p < 8 {
        return None;
    }
    Some(
        (b[p] as u64) | ((b[p + 1] as u64) << 8u64) | ((b[p + 2] as u64) << 16u64) | ((b[p + 3] as u64) << 24u64)
            | ((b[p + 4] as u64) << 32u64) | ((b[p + 5] as u64) << 40u64) | ((b[p + 6] as u64) << 48u64)
            | ((b[p + 7] as u64) << 56u64),
    )
}

/// The integer whose little-endian bytes start at `p`.
fn read_u32(b: &[u8], p: usize) -> (r: Option<u32>)
    ensures
        r == u32_at(b@, p as int),
{
    if p > b.len() || b.len() - p < 4 {
        return None;
    }
    Some((b[p] as u32) | ((b[p + 1] as u32) << 8u32) | ((b[p + 2] as u32) << 16u32) | ((b[p + 3] as u32) << 24u32))
}

/// The length-prefixed bytes at `p`, and where they end.
fn read_bytes(b: &[u8], p: usize) -> (r: Option<(Vec<u8>, usize)>)
    ensures
        match r {
            Some((x, q)) => bytes_at(b@, p as int) == Some((x@, q as int)),
            None => bytes_at(b@, p as int) is None,
        },
{
    let n = match read_u64(b, p) {
        Some(n) => n,
        None => return None,
    };
    let start = p + 8;
    if n > (b.len() - start) as u64 {
        return None;
    }
    let end = start + n as usize;
    let x = crate::lines::copy_range(b, start, end);
    Some((x, end))
}

/// The length-prefixed text at `p`, and where it ends.
fn read_str(b: &[u8], p: usize) -> (r: Option<(String, usize)>)
    ensures
        match r {
            Some((x, q)) => str_at(b@, p as int) == Some((x@, q as int)),
            None => str_at(b@, p as int) is None,
        },
{
    let (x, q) = match read_bytes(b, p) {
        Some(v) => v,
        None => return None,
    };
    match utf8_text(x) {
        Ok(s) => Some((s, q)),
        Err(_) => None,
    }
}

/// The tree entry at `p`, and where it ends.
fn read_line(b: &[u8], p: usize) -> (r: Option<(TreeLine, usize)>)
    ensures
        match r {
            Some((l, q)) => line_at(b@, p as int) == Some((l@, q as int)),
            None => line_at(b@, p as int) is None,
        },
{
    if p >= b.len() {
        return None;
    }
    let tag = b[p];
    let kind = if tag == 0 {
        TreeLineKind::File
    } else if tag == 1 {
        TreeLineKind::Executable
    } else if tag == 2 {
        TreeLineKind::Symlink
    } else if tag == 3 {
        TreeLineKind::Tree
    } else {
        return None;
    };
    let (name, q) = match read_str(b, p + 1) {
        Some(v) => v,
        None => return None,
    };
    let (sha1, r) = match read_str(b, q) {
        Some(v) => v,
        None => return None,
    };
    Some((TreeLine { kind, name, sha1: ObjectSha1(sha1) }, r))
}

/// The tree at `p`, and where it ends.
fn read_tree(b: &[u8], p: usize) -> (r: Option<(Tree, usize)>)
    ensures
        match r {
            Some((t, q)) => tree_at(b@, p as int) == Some((t@, q as int)),
            None => tree_at(b@, p as int) is None,
        },
{
    let n = match read_u64(b, p) {
        Some(n) => n,
        None => return None,
    };
    let mut pos: usize = p + 8;
    let mut lines: Vec<TreeLine> = Vec::new();
    let mut i: u64 = 0;
    assert(lines@.map_values(|l: TreeLine| l@) =~= Seq::<TreeLineV>::empty());
    while i < n
        invariant
            i <= n,
            u64_at(b@, p as int) == Some(n),
            lines_at(b@, p + 8, i as nat) == Some((lines@.map_values(|l: TreeLine| l@), pos as int)),
        decreases n - i,
    {
        let (l, q) = match read_line(b, pos) {
            Some(v) => v,
            None => {
                proof {
                    assert(lines_at(b@, p + 8, (i + 1) as nat) is None);
                    lemma_lines_at_none(b@, p + 8, (i + 1) as nat, n as nat);
                }
                return None;
            },
        };
        let ghost before = lines@.map_values(|l: TreeLine| l@);
        lines.push(l);
        assert(lines@.map_values(|l: TreeLine| l@) =~= before.push(l@));
        pos = q;
        i += 1;
    }
    Some((Tree { objects: lines }, pos))
}

proof fn lemma_lines_at_none(b: Seq<u8>, p: int, k: nat, n: nat)
    requires
        lines_at(b, p, k) is None,
        k <= n,
    ensures
        lines_at(b, p, n) is None,
    decreases n - k,
{
    if k < n {
        lemma_lines_at_none(b, p, k + 1, n);
    }
}

/// The commit at `p`, and where it ends.
fn read_commit(b: &[u8], p: usize) -> (r: Option<(Commit, usize)>)
    ensures
        match r {
            Some((c, q)) => commit_at(b@, p as int) == Some((c@, q as int)),
            None => commit_at(b@, p as int) is None,
        },
{
    let (tree, q) = match read_str(b, p) {
        Some(v) => v,
        None => return None,
    };
    if q >= b.len() {
        return None;
    }
    let (parent, r) = if b[q] == 0 {
        (None, q + 1)
    } else if b[q] == 1 {
        match read_str(b, q + 1) {
            Some((d, r)) => (Some(ObjectSha1(d)), r),
            None => return None,
        }
    } else {
        return None;
    };
    let secs = match read_u64(b, r) {
        Some(v) => v,
        None => return None,
    };
    let nanos = match read_u32(b, r + 8) {
        Some(v) => v,
        None => return None,
    };
    let (message, e) = match read_str(b, r + 12) {
        Some(v) => v,
        None => return None,
    };
    Some((Commit { tree: ObjectSha1(tree), parent, timestamp: (secs as i64, nanos), message }, e))
}

/// The object `b` encodes: `CorruptObject` unless it encodes one and
/// nothing more.
pub fn object_from_bytes(b: &[u8]) -> (r: Result<Object, GitError>)
    ensures
        match r {
            Ok(o) => decode_object(b@) == Some(o@),
            Err(e) => decode_object(b@) is None && e == GitError::CorruptObject,
        },
{
    if b.len() == 0 {
        return Err(GitError::CorruptObject);
    }
    let body = if b[0] == 0 {
        match read_str(b, 1) {
            Some((t, e)) => Some((Object::Blob(Blob::Text(t)), e)),
            None => None,
        }
    } else if b[0] == 1 {
        match read_bytes(b, 1) {
            Some((x, e)) => Some((Object::Blob(Blob::Binary(x)), e)),
            None => None,
        }
    } else if b[0] == 2 {
        match read_tree(b, 1) {
            Some((t, e)) => Some((Object::Tree(t), e)),
            None => None,
        }
    } else if b[0] == 3 {
        match read_commit(b, 1) {
            Some((c, e)) => Some((Object::Commit(c), e)),
            None => None,
        }
    } else {
        None
    };
    match body {
        Some((o, e)) => if e == b.len() {
            Ok(o)
        } else {
            Err(GitError::CorruptObject)
        },
        None => Err(GitError::CorruptObject),
    }
}

/// The index tree `b` encodes: `CorruptObject` unless it encodes a tree
/// and nothing more.
pub fn index_from_bytes(b: &[u8]) -> (r: Result<Tree, GitError>)
    ensures
        match r {
            Ok(t) => decode_index(b@) == Some(t@),
            Err(e) => decode_index(b@) is None && e == GitError::CorruptObject,
        },
{
    match read_tree(b, 0) {
        Some((t, e)) => if e == b.len() {
            Ok(t)
        } else {
            Err(GitError::CorruptObject)
        },
        None => Err(GitError::CorruptObject),
    }
}

} // verus!
