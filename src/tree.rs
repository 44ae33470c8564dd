//! Canonical ordering of tree entries, and the mutable builder whose freeze
//! step produces a tree in that order.

use crate::diff::{find_line_index, name_position};
use crate::object::{Tree, TreeLine, TreeLineV};
use crate::store::GitError;
use vstd::prelude::*;
use vstd::utf8::encode_utf8;

verus! {

/// Byte-wise lexicographic order: `a` sorts strictly before `b`.
pub open spec fn bytes_lt(a: Seq<u8>, b: Seq<u8>) -> bool
    decreases a.len(),
{
    if a.len() == 0 {
        b.len() > 0
    } else if b.len() == 0 {
        false
    } else if a[0] != b[0] {
        a[0] < b[0]
    } else {
        bytes_lt(a.drop_first(), b.drop_first())
    }
}

/// Names are ordered by their UTF-8 bytes.
pub open spec fn name_lt(a: Seq<char>, b: Seq<char>) -> bool {
    bytes_lt(encode_utf8(a), encode_utf8(b))
}

/// Whether `a` sorts strictly before `b`, byte by byte.
pub fn bytes_less(a: &[u8], b: &[u8]) -> (r: bool)
    ensures
        r == bytes_lt(a@, b@),
{
    let mut i: usize = 0;
    assert(a@.skip(0) =~= a@);
    assert(b@.skip(0) =~= b@);
    while i < a.len() && i < b.len()
        invariant
            i <= a@.len(),
            i <= b@.len(),
            bytes_lt(a@, b@) == bytes_lt(a@.skip(i as int), b@.skip(i as int)),
        decreases a@.len() - i,
    {
        if a[i] != b[i] {
            return a[i] < b[i];
        }
        assert(a@.skip(i as int).drop_first() =~= a@.skip(i + 1));
        assert(b@.skip(i as int).drop_first() =~= b@.skip(i + 1));
        i += 1;
    }
    i < b.len()
}

/// Whether entry name `a` sorts strictly before `b`.
pub fn name_less(a: &String, b: &String) -> (r: bool)
    ensures
        r == name_lt(a@, b@),
{
    bytes_less(a.as_str().as_bytes(), b.as_str().as_bytes())
}

/// `x` placed into `s` after every entry that does not sort after it.
pub open spec fn insert_line(s: Seq<TreeLineV>, x: TreeLineV) -> Seq<TreeLineV>
    decreases s.len(),
{
    if s.len() == 0 {
        seq![x]
    } else if name_lt(x.name, s[0].name) {
        seq![x] + s
    } else {
        seq![s[0]] + insert_line(s.drop_first(), x)
    }
}

/// The entries of `s` in ascending order of name, by insertion; entries with
/// equal names keep their relative order.
pub open spec fn sort_lines(s: Seq<TreeLineV>) -> Seq<TreeLineV>
    decreases s.len(),
{
    if s.len() == 0 {
        Seq::empty()
    } else {
        insert_line(sort_lines(s.drop_last()), s.last())
    }
}

proof fn lemma_insert_at(s: Seq<TreeLineV>, x: TreeLineV, p: int)
    requires
        0 <= p <= s.len(),
        forall|j: int| 0 <= j < p ==> !name_lt(x.name, #[trigger] s[j].name),
        p < s.len() ==> name_lt(x.name, s[p].name),
    ensures
        insert_line(s, x) == s.take(p).push(x) + s.skip(p),
    decreases s.len(),
{
    if s.len() == 0 {
        assert(s.take(p).push(x) + s.skip(p) =~= seq![x]);
    } else if p == 0 {
        assert(s.take(p).push(x) + s.skip(p) =~= seq![x] + s);
    } else {
        let t = s.drop_first();
        assert forall|j: int| 0 <= j < p - 1 implies !name_lt(x.name, #[trigger] t[j].name) by {
            assert(t[j] == s[j + 1]);
        }
        lemma_insert_at(t, x, p - 1);
        assert(s.take(p).push(x) + s.skip(p) =~= seq![s[0]] + (t.take(p - 1).push(x) + t.skip(p - 1)));
    }
}

/// Inserts `x` into `v` at its place in name order.
fn insert_sorted(v: &mut Vec<TreeLine>, x: TreeLine)
    ensures
        final(v)@.map_values(|l: TreeLine| l@) == insert_line(old(v)@.map_values(|l: TreeLine| l@), x@),
{
    let ghost s = v@.map_values(|l: TreeLine| l@);
    let mut p: usize = 0;
    while p < v.len() && !name_less(&x.name, &v[p].name)
        invariant
            p <= v@.len(),
            s == v@.map_values(|l: TreeLine| l@),
            forall|j: int| 0 <= j < p ==> !name_lt(x@.name, #[trigger] s[j].name),
        decreases v@.len() - p,
    {
        p += 1;
    }
    proof {
        lemma_insert_at(s, x@, p as int);
    }
    v.insert(p, x);
    assert(v@.map_values(|l: TreeLine| l@) =~= s.take(p as int).push(x@) + s.skip(p as int));
}

/// The entries of `lines`, in ascending order of name.
pub fn sorted_tree(lines: Vec<TreeLine>) -> (r: Tree)
    ensures
        r@ == sort_lines(lines@.map_values(|l: TreeLine| l@)),
{
    let ghost s = lines@.map_values(|l: TreeLine| l@);
    let mut out: Vec<TreeLine> = Vec::new();
    let mut rest = lines;
    let mut i: usize = 0;
    assert(out@.map_values(|l: TreeLine| l@) =~= sort_lines(s.take(0)));
    while i < rest.len()
        invariant
            i <= rest@.len(),
            s == rest@.map_values(|l: TreeLine| l@),
            out@.map_values(|l: TreeLine| l@) == sort_lines(s.take(i as int)),
        decreases rest@.len() - i,
    {
        let x = rest[i].copied();
        assert(s.take(i + 1).drop_last() =~= s.take(i as int));
        insert_sorted(&mut out, x);
        i += 1;
    }
    assert(s.take(s.len() as int) =~= s);
    Tree { objects: out }
}

/// Entries in strictly ascending order of name.
pub open spec fn sorted_lines(s: Seq<TreeLineV>) -> bool {
    forall|i: int, j: int| 0 <= i < j < s.len() ==> name_lt(#[trigger] s[i].name, #[trigger] s[j].name)
}

proof fn lemma_bytes_lt_irrefl(a: Seq<u8>)
    ensures
        !bytes_lt(a, a),
    decreases a.len(),
{
    if a.len() > 0 {
        lemma_bytes_lt_irrefl(a.drop_first());
    }
}

proof fn lemma_bytes_lt_trans(a: Seq<u8>, b: Seq<u8>, c: Seq<u8>)
    requires
        bytes_lt(a, b),
        bytes_lt(b, c),
    ensures
        bytes_lt(a, c),
    decreases a.len(),
{
    if a.len() > 0 && b.len() > 0 && c.len() > 0 && a[0] == b[0] && b[0] == c[0] {
        lemma_bytes_lt_trans(a.drop_first(), b.drop_first(), c.drop_first());
    }
}

proof fn lemma_bytes_lt_total(a: Seq<u8>, b: Seq<u8>)
    requires
        a != b,
    ensures
        bytes_lt(a, b) || bytes_lt(b, a),
    decreases a.len(),
{
    if a.len() > 0 && b.len() > 0 && a[0] == b[0] {
        if a.drop_first() == b.drop_first() {
            assert(a =~= seq![a[0]] + a.drop_first());
            assert(b =~= seq![b[0]] + b.drop_first());
        }
        lemma_bytes_lt_total(a.drop_first(), b.drop_first());
    } else if a.len() == 0 && b.len() == 0 {
        assert(a =~= b);
    }
}

/// The order on names is irreflexive.
pub proof fn lemma_name_lt_irrefl(a: Seq<char>)
    ensures
        !name_lt(a, a),
{
    lemma_bytes_lt_irrefl(encode_utf8(a));
}

/// The order on names is transitive.
pub proof fn lemma_name_lt_trans(a: Seq<char>, b: Seq<char>, c: Seq<char>)
    requires
        name_lt(a, b),
        name_lt(b, c),
    ensures
        name_lt(a, c),
{
    lemma_bytes_lt_trans(encode_utf8(a), encode_utf8(b), encode_utf8(c));
}

/// Distinct names are ordered one way or the other.
pub proof fn lemma_name_lt_total(a: Seq<char>, b: Seq<char>)
    requires
        a != b,
    ensures
        name_lt(a, b) || name_lt(b, a),
{
    vstd::utf8::encode_utf8_decode_utf8(a);
    vstd::utf8::encode_utf8_decode_utf8(b);
    lemma_bytes_lt_total(encode_utf8(a), encode_utf8(b));
}

proof fn lemma_insert_contents(s: Seq<TreeLineV>, x: TreeLineV)
    ensures
        insert_line(s, x).len() == s.len() + 1,
        forall|y: TreeLineV|
            #![trigger insert_line(s, x).contains(y)]
            #![trigger s.contains(y)]
            insert_line(s, x).contains(y) <==> (s.contains(y) || y == x),
    decreases s.len(),
{
    if s.len() == 0 {
        assert(insert_line(s, x) =~= seq![x]);
        assert forall|y: TreeLineV| insert_line(s, x).contains(y) <==> (s.contains(y) || y == x) by {
            if insert_line(s, x).contains(y) {
                assert(insert_line(s, x)[0] == x);
            }
            if y == x {
                assert(insert_line(s, x)[0] == y);
            }
        }
    } else if name_lt(x.name, s[0].name) {
        let r = seq![x] + s;
        assert forall|y: TreeLineV| r.contains(y) <==> (s.contains(y) || y == x) by {
            if r.contains(y) {
                let k = choose|k: int| 0 <= k < r.len() && r[k] == y;
                if k > 0 {
                    assert(s[k - 1] == y);
                }
            }
            if s.contains(y) {
                let k = choose|k: int| 0 <= k < s.len() && s[k] == y;
                assert(r[k + 1] == y);
            }
            if y == x {
                assert(r[0] == y);
            }
        }
    } else {
        let t = s.drop_first();
        lemma_insert_contents(t, x);
        let r = seq![s[0]] + insert_line(t, x);
        assert forall|y: TreeLineV| r.contains(y) <==> (s.contains(y) || y == x) by {
            if r.contains(y) {
                let k = choose|k: int| 0 <= k < r.len() && r[k] == y;
                if k > 0 {
                    assert(insert_line(t, x)[k - 1] == y);
                    if t.contains(y) {
                        let m = choose|m: int| 0 <= m < t.len() && t[m] == y;
                        assert(s[m + 1] == y);
                    }
                } else {
                    assert(s[0] == y);
                }
            }
            if s.contains(y) {
                let k = choose|k: int| 0 <= k < s.len() && s[k] == y;
                if k > 0 {
                    assert(t[k - 1] == y);
                    assert(insert_line(t, x).contains(y));
                    let m = choose|m: int| 0 <= m < insert_line(t, x).len() && insert_line(t, x)[m] == y;
                    assert(r[m + 1] == y);
                } else {
                    assert(r[0] == y);
                }
            }
            if y == x {
                assert(insert_line(t, x).contains(y));
                let m = choose|m: int| 0 <= m < insert_line(t, x).len() && insert_line(t, x)[m] == y;
                assert(r[m + 1] == y);
            }
        }
    }
}

proof fn lemma_insert_sorted(s: Seq<TreeLineV>, x: TreeLineV)
    requires
        sorted_lines(s),
        forall|k: int| 0 <= k < s.len() ==> s[k].name != x.name,
    ensures
        sorted_lines(insert_line(s, x)),
    decreases s.len(),
{
    lemma_insert_contents(s, x);
    if s.len() == 0 {
    } else if name_lt(x.name, s[0].name) {
        let r = seq![x] + s;
        assert forall|i: int, j: int| 0 <= i < j < r.len() implies name_lt(#[trigger] r[i].name, #[trigger] r[j].name) by {
            if i == 0 {
                if j > 1 {
                    lemma_name_lt_trans(x.name, s[0].name, s[j - 1].name);
                }
            } else {
                assert(r[i] == s[i - 1] && r[j] == s[j - 1]);
            }
        }
    } else {
        let t = s.drop_first();
        assert(sorted_lines(t)) by {
            assert forall|i: int, j: int| 0 <= i < j < t.len() implies name_lt(#[trigger] t[i].name, #[trigger] t[j].name) by {
                assert(t[i] == s[i + 1] && t[j] == s[j + 1]);
            }
        }
        lemma_insert_sorted(t, x);
        lemma_insert_contents(t, x);
        lemma_name_lt_total(x.name, s[0].name);
        let it = insert_line(t, x);
        let r = seq![s[0]] + it;
        assert forall|i: int, j: int| 0 <= i < j < r.len() implies name_lt(#[trigger] r[i].name, #[trigger] r[j].name) by {
            if i == 0 {
                let y = it[j - 1];
                assert(it.contains(y));
                assert(t.contains(y) || y == x);
                if y != x {
                    let m = choose|m: int| 0 <= m < t.len() && t[m] == y;
                    assert(s[m + 1] == y);
                }
            } else {
                assert(r[i] == it[i - 1] && r[j] == it[j - 1]);
            }
        }
    }
}

/// Sorting keeps the entries: same length, same members.
pub proof fn lemma_sort_contents(s: Seq<TreeLineV>)
    ensures
        sort_lines(s).len() == s.len(),
        forall|y: TreeLineV|
            #![trigger sort_lines(s).contains(y)]
            #![trigger s.contains(y)]
            sort_lines(s).contains(y) <==> s.contains(y),
    decreases s.len(),
{
    if s.len() > 0 {
        let d = s.drop_last();
        lemma_sort_contents(d);
        lemma_insert_contents(sort_lines(d), s.last());
        assert forall|y: TreeLineV| sort_lines(s).contains(y) <==> s.contains(y) by {
            if d.contains(y) {
                let k = choose|k: int| 0 <= k < d.len() && d[k] == y;
                assert(s[k] == y);
            }
            if s.contains(y) {
                let k = choose|k: int| 0 <= k < s.len() && s[k] == y;
                if k < s.len() - 1 {
                    assert(d[k] == y);
                }
            }
        }
    }
}

/// Sorting entries whose names are distinct gives entries in strictly
/// ascending order of name.
pub proof fn lemma_sort_sorted(s: Seq<TreeLineV>)
    requires
        forall|i: int, j: int| 0 <= i < j < s.len() ==> s[i].name != s[j].name,
    ensures
        sorted_lines(sort_lines(s)),
    decreases s.len(),
{
    if s.len() > 0 {
        let d = s.drop_last();
        lemma_sort_sorted(d);
        lemma_sort_contents(d);
        assert forall|k: int| 0 <= k < sort_lines(d).len() implies sort_lines(d)[k].name != s.last().name by {
            let y = sort_lines(d)[k];
            assert(sort_lines(d).contains(y));
            assert(d.contains(y));
            let m = choose|m: int| 0 <= m < d.len() && d[m] == y;
            assert(s[m] == y);
        }
        lemma_insert_sorted(sort_lines(d), s.last());
    }
}

/// Two sequences of entries in strictly ascending order of name with the
/// same members are equal.
pub proof fn lemma_sorted_unique(p: Seq<TreeLineV>, q: Seq<TreeLineV>)
    requires
        sorted_lines(p),
        sorted_lines(q),
        forall|y: TreeLineV| p.contains(y) <==> q.contains(y),
    ensures
        p == q,
    decreases p.len(),
{
    if p.len() == 0 {
        if q.len() > 0 {
            assert(q.contains(q[0]));
        }
        assert(p =~= q);
    } else {
        assert(p.contains(p[0]));
        assert(q.len() > 0);
        assert(q.contains(q[0]));
        let i = choose|i: int| 0 <= i < p.len() && p[i] == q[0];
        let j = choose|j: int| 0 <= j < q.len() && q[j] == p[0];
        if i > 0 && j > 0 {
            assert(name_lt(p[0].name, p[i].name));
            assert(name_lt(q[0].name, q[j].name));
            lemma_name_lt_trans(p[0].name, q[0].name, p[0].name);
            lemma_name_lt_irrefl(p[0].name);
        } else if i == 0 {
        } else {
            assert(q[0] == p[0]);
        }
        assert(p[0] == q[0]);
        let p_rest = p.drop_first();
        let q_rest = q.drop_first();
        assert(sorted_lines(p_rest)) by {
            assert forall|a: int, b: int| 0 <= a < b < p_rest.len() implies name_lt(#[trigger] p_rest[a].name, #[trigger] p_rest[b].name) by {
                assert(p_rest[a] == p[a + 1] && p_rest[b] == p[b + 1]);
            }
        }
        assert(sorted_lines(q_rest)) by {
            assert forall|a: int, b: int| 0 <= a < b < q_rest.len() implies name_lt(#[trigger] q_rest[a].name, #[trigger] q_rest[b].name) by {
                assert(q_rest[a] == q[a + 1] && q_rest[b] == q[b + 1]);
            }
        }
        assert forall|y: TreeLineV| p_rest.contains(y) <==> q_rest.contains(y) by {
            if p_rest.contains(y) {
                let a = choose|a: int| 0 <= a < p_rest.len() && p_rest[a] == y;
                assert(p[a + 1] == y);
                assert(q.contains(y));
                let b = choose|b: int| 0 <= b < q.len() && q[b] == y;
                if b == 0 {
                    assert(name_lt(p[0].name, p[a + 1].name));
                    lemma_name_lt_irrefl(y.name);
                }
                assert(q_rest[b - 1] == y);
            }
            if q_rest.contains(y) {
                let a = choose|a: int| 0 <= a < q_rest.len() && q_rest[a] == y;
                assert(q[a + 1] == y);
                assert(p.contains(y));
                let b = choose|b: int| 0 <= b < p.len() && p[b] == y;
                if b == 0 {
                    assert(name_lt(q[0].name, q[a + 1].name));
                    lemma_name_lt_irrefl(y.name);
                }
                assert(p_rest[b - 1] == y);
            }
        }
        lemma_sorted_unique(p_rest, q_rest);
        assert(p =~= seq![p[0]] + p_rest);
        assert(q =~= seq![q[0]] + q_rest);
    }
}

/// Sorting entries with distinct names gives the one arrangement of them in
/// strictly ascending order of name: a sorted `x` with the same members.
pub proof fn lemma_sort_is(s: Seq<TreeLineV>, x: Seq<TreeLineV>)
    requires
        forall|i: int, j: int| 0 <= i < j < s.len() ==> s[i].name != s[j].name,
        sorted_lines(x),
        forall|y: TreeLineV| s.contains(y) <==> x.contains(y),
    ensures
        sort_lines(s) == x,
{
    lemma_sort_sorted(s);
    lemma_sort_contents(s);
    lemma_sorted_unique(sort_lines(s), x);
}

/// `s` with `l` in place of the entry of the same name, or added at the end.
pub open spec fn upsert(s: Seq<TreeLineV>, l: TreeLineV) -> Seq<TreeLineV> {
    match name_position(s, l.name, 0) {
        Some(k) => s.update(k, l),
        None => s.push(l),
    }
}

/// `s` without its entry named `name`.
pub open spec fn without(s: Seq<TreeLineV>, name: Seq<char>) -> Seq<TreeLineV> {
    match name_position(s, name, 0) {
        Some(k) => s.remove(k),
        None => s,
    }
}

impl Tree {
    /// A builder holding the entries of this tree, to be changed by name.
    pub fn into_map(self) -> (r: MutableTree)
        ensures
            r@ == self@,
    {
        MutableTree { data: self.objects }
    }
}

/// A tree under construction: entries that can be added, replaced and
/// removed by name before the tree is frozen.
pub struct MutableTree {
    pub data: Vec<TreeLine>,
}

impl View for MutableTree {
    type V = Seq<TreeLineV>;

    open spec fn view(&self) -> Seq<TreeLineV> {
        self.data@.map_values(|l: TreeLine| l@)
    }
}

impl MutableTree {
    /// A builder holding the entries of `t`.
    pub fn from_tree(t: Tree) -> (r: MutableTree)
        ensures
            r@ == t@,
    {
        MutableTree { data: t.objects }
    }

    /// Adds `line`, replacing the entry of the same name if there is one.
    pub fn insert(&mut self, line: TreeLine)
        ensures
            final(self)@ == upsert(old(self)@, line@),
    {
        match find_line_index(&self.data, &line.name) {
            Some(k) => {
                let ghost l = line@;
                self.data.set(k, line);
                assert(self@ =~= old(self)@.update(k as int, l));
            },
            None => {
                let ghost l = line@;
                self.data.push(line);
                assert(self@ =~= old(self)@.push(l));
            },
        }
    }

    /// Removes the entry named `name`; `false` when there is none.
    pub fn remove(&mut self, name: &String) -> (r: bool)
        ensures
            r == name_position(old(self)@, name@, 0) is Some,
            final(self)@ == without(old(self)@, name@),
    {
        match find_line_index(&self.data, name) {
            Some(k) => {
                self.data.remove(k);
                assert(self@ =~= old(self)@.remove(k as int));
                true
            },
            None => false,
        }
    }

    /// Removes the file entry `name`; `NotFound` when there is none.
    pub fn remove_file(&mut self, name: &String) -> (r: Result<(), GitError>)
        ensures
            final(self)@ == without(old(self)@, name@),
            r is Ok == name_position(old(self)@, name@, 0) is Some,
            r matches Err(e) ==> e == GitError::NotFound,
    {
        if self.remove(name) {
            Ok(())
        } else {
            Err(GitError::NotFound)
        }
    }

    /// Removes the directory entry `name`; `NotFound` when there is none.
    pub fn remove_dir(&mut self, name: &String) -> (r: Result<(), GitError>)
        ensures
            final(self)@ == without(old(self)@, name@),
            r is Ok == name_position(old(self)@, name@, 0) is Some,
            r matches Err(e) ==> e == GitError::NotFound,
    {
        self.remove_file(name)
    }

    /// The tree of the entries, in ascending order of name.
    pub fn freeze(self) -> (r: Tree)
        ensures
            r@ == sort_lines(self@),
    {
        sorted_tree(self.data)
    }
}

} // verus!
