//! Three-way merge of trees: each name of the base, ours and theirs is
//! decided by the rule table; sub-trees changed on both sides are merged
//! recursively and files changed on both sides are reported as conflicts.

use crate::diff::{find_line_index, join_path, join_path_exec, lemma_line_named, lemma_line_named_member, line_named, names_unique};
use crate::lines::{conflict_runs, disagreeing_runs, lines_of, split_lines};
use crate::object::{
    Blob, BlobV, Object, ObjectV, Sha1Able, Tree, TreeLine, TreeLineKind, TreeLineV, object_digest,
};
use crate::store::{GitError, ObjectStore, load_tree, put_object, store_get};
use crate::tree::{lemma_name_lt_irrefl, lemma_sort_contents, lemma_sort_is, lemma_sort_sorted, sort_lines, sorted_lines, sorted_tree};
use vstd::prelude::*;

verus! {

/// A range of consecutive lines (counted from one, inclusive) of a file on
/// which the two sides of a merge disagree.
#[derive(Debug)]
pub struct Conflict {
    pub file: String,
    pub line_start: usize,
    pub line_end: usize,
}

/// The mathematical view of a [`Conflict`].
pub struct ConflictV {
    pub file: Seq<char>,
    pub start: int,
    pub end: int,
}

impl View for Conflict {
    type V = ConflictV;

    open spec fn view(&self) -> ConflictV {
        ConflictV { file: self.file@, start: self.line_start as int, end: self.line_end as int }
    }
}

impl Conflict {
    /// A copy of this conflict.
    pub fn copied(&self) -> (r: Conflict)
        ensures
            r@ == self@,
    {
        Conflict { file: self.file.clone(), line_start: self.line_start, line_end: self.line_end }
    }
}

/// The views of a list of conflicts.
pub open spec fn conflicts_view(v: Seq<Conflict>) -> Seq<ConflictV> {
    v.map_values(|c: Conflict| c@)
}

/// What a merge of one level yields: the merged entries (not yet in name
/// order), the conflicts, and the merged sub-trees that were made.
pub struct MergeV {
    pub entries: Seq<TreeLineV>,
    pub conflicts: Seq<ConflictV>,
    pub subtrees: Seq<Seq<TreeLineV>>,
}

/// Nothing merged.
pub open spec fn no_merge() -> MergeV {
    MergeV { entries: Seq::empty(), conflicts: Seq::empty(), subtrees: Seq::empty() }
}

/// `a` followed by `b`, part by part.
pub open spec fn merge_concat(a: MergeV, b: MergeV) -> MergeV {
    MergeV {
        entries: a.entries + b.entries,
        conflicts: a.conflicts + b.conflicts,
        subtrees: a.subtrees + b.subtrees,
    }
}

/// `h` followed by `rest`, or the first error of the two.
pub open spec fn merge_then(h: Result<MergeV, GitError>, rest: Result<MergeV, GitError>) -> Result<MergeV, GitError> {
    match h {
        Err(x) => Err(x),
        Ok(a) => match rest {
            Err(x) => Err(x),
            Ok(b) => Ok(merge_concat(a, b)),
        },
    }
}

/// The outcome the rule table gives one name.
pub enum Decision {
    /// The name is left out of the merged tree.
    Skip,
    /// The merged tree takes this entry.
    Take(TreeLineV),
    /// Both sides changed the entry differently: ours, then theirs.
    Conflict(TreeLineV, TreeLineV),
    /// One side deleted what the other changed.
    DeleteModify,
}

/// The rule table: the entries of one name in the base, ours and theirs.
pub open spec fn decide(b: Option<TreeLineV>, o: Option<TreeLineV>, t: Option<TreeLineV>) -> Decision {
    match (o, t) {
        (None, None) => Decision::Skip,
        (Some(x), None) => match b {
            None => Decision::Take(x),
            Some(bb) => if bb.sha1 == x.sha1 {
                Decision::Skip
            } else {
                Decision::DeleteModify
            },
        },
        (None, Some(x)) => match b {
            None => Decision::Take(x),
            Some(bb) => if bb.sha1 == x.sha1 {
                Decision::Skip
            } else {
                Decision::DeleteModify
            },
        },
        (Some(x), Some(y)) => if x.sha1 == y.sha1 {
            Decision::Take(x)
        } else {
            match b {
                Some(bb) => if bb.sha1 == x.sha1 {
                    Decision::Take(y)
                } else if bb.sha1 == y.sha1 {
                    Decision::Take(x)
                } else {
                    Decision::Conflict(x, y)
                },
                None => Decision::Conflict(x, y),
            }
        },
    }
}

/// The blob that `key` resolves to.
pub open spec fn load_blob(s: Seq<(Seq<char>, ObjectV)>, key: Seq<char>) -> Result<BlobV, GitError> {
    match store_get(s, key) {
        None => Err(GitError::NotFound),
        Some(ObjectV::Blob(b)) => Ok(b),
        Some(_) => Err(GitError::CorruptObject),
    }
}

/// The base side of a sub-tree merge: the base's sub-tree, or the empty
/// tree where the base has no sub-tree of that name.
pub open spec fn base_subtree(s: Seq<(Seq<char>, ObjectV)>, b: Option<TreeLineV>) -> Result<Seq<TreeLineV>, GitError> {
    match b {
        Some(bb) => if bb.kind == TreeLineKind::Tree {
            load_tree(s, bb.sha1)
        } else {
            Ok(Seq::empty())
        },
        None => Ok(Seq::empty()),
    }
}

/// The conflicts of file `path` between the contents `a` and `b`.
pub open spec fn file_conflicts(path: Seq<char>, a: BlobV, b: BlobV) -> Seq<ConflictV> {
    conflict_runs(lines_of(a.bytes()), lines_of(b.bytes())).map_values(
        |r: (int, int)| ConflictV { file: path, start: r.0, end: r.1 },
    )
}

/// What merging name `name` under `prefix` yields.
pub open spec fn merge_entry(
    store: Seq<(Seq<char>, ObjectV)>,
    name: Seq<char>,
    b: Option<TreeLineV>,
    o: Option<TreeLineV>,
    t: Option<TreeLineV>,
    prefix: Seq<char>,
    fuel: nat,
) -> Result<MergeV, GitError>
    decreases fuel, 0int,
{
    match decide(b, o, t) {
        Decision::Skip => Ok(no_merge()),
        Decision::Take(x) => Ok(MergeV { entries: seq![x], ..no_merge() }),
        Decision::DeleteModify => Err(GitError::MergeConflict),
        Decision::Conflict(x, y) => if x.kind != y.kind {
            Err(GitError::MergeKindMismatch)
        } else if x.kind == TreeLineKind::Tree {
            match base_subtree(store, b) {
                Err(e) => Err(e),
                Ok(bt) => match load_tree(store, x.sha1) {
                    Err(e) => Err(e),
                    Ok(ot) => match load_tree(store, y.sha1) {
                        Err(e) => Err(e),
                        Ok(tt) => if fuel == 0 {
                            Err(GitError::CorruptObject)
                        } else {
                            match merge_level(store, bt, ot, tt, join_path(prefix, name), (fuel - 1) as nat) {
                                Err(e) => Err(e),
                                Ok(m) => {
                                    let sub = sort_lines(m.entries);
                                    Ok(MergeV {
                                        entries: seq![TreeLineV {
                                            kind: TreeLineKind::Tree,
                                            name: name,
                                            sha1: object_digest(ObjectV::Tree(sub)),
                                        }],
                                        conflicts: m.conflicts,
                                        subtrees: m.subtrees.push(sub),
                                    })
                                },
                            }
                        },
                    },
                },
            }
        } else {
            match load_blob(store, x.sha1) {
                Err(e) => Err(e),
                Ok(xb) => match load_blob(store, y.sha1) {
                    Err(e) => Err(e),
                    Ok(yb) => Ok(MergeV { conflicts: file_conflicts(join_path(prefix, name), xb, yb), ..no_merge() }),
                },
            }
        },
    }
}

/// The names of `t` from position `j` on that neither `u` nor `w` has.
pub open spec fn fresh_names(t: Seq<TreeLineV>, u: Seq<TreeLineV>, w: Seq<TreeLineV>, j: int) -> Seq<Seq<char>>
    decreases t.len() - j,
{
    if j < 0 || j >= t.len() {
        Seq::empty()
    } else if line_named(u, t[j].name) is None && line_named(w, t[j].name) is None {
        seq![t[j].name] + fresh_names(t, u, w, j + 1)
    } else {
        fresh_names(t, u, w, j + 1)
    }
}

/// Every name of the three trees, once: the base's, then those only ours
/// adds, then those only theirs adds.
pub open spec fn merge_names(b: Seq<TreeLineV>, o: Seq<TreeLineV>, t: Seq<TreeLineV>) -> Seq<Seq<char>> {
    names_of(b) + fresh_names(o, b, b, 0) + fresh_names(t, b, o, 0)
}

/// The names of the entries, in order.
pub open spec fn names_of(b: Seq<TreeLineV>) -> Seq<Seq<char>> {
    b.map_values(|l: TreeLineV| l.name)
}

/// What merging the names from position `k` on yields.
pub open spec fn merge_from(
    store: Seq<(Seq<char>, ObjectV)>,
    b: Seq<TreeLineV>,
    o: Seq<TreeLineV>,
    t: Seq<TreeLineV>,
    prefix: Seq<char>,
    fuel: nat,
    names: Seq<Seq<char>>,
    k: int,
) -> Result<MergeV, GitError>
    decreases fuel, 1int, names.len() - k,
{
    if k < 0 || k >= names.len() {
        Ok(no_merge())
    } else {
        merge_then(
            merge_entry(store, names[k], line_named(b, names[k]), line_named(o, names[k]), line_named(t, names[k]), prefix, fuel),
            merge_from(store, b, o, t, prefix, fuel, names, k + 1),
        )
    }
}

/// What merging the trees `b`, `o`, `t` under `prefix` yields, recursing at
/// most `fuel` levels into sub-trees.
pub open spec fn merge_level(
    store: Seq<(Seq<char>, ObjectV)>,
    b: Seq<TreeLineV>,
    o: Seq<TreeLineV>,
    t: Seq<TreeLineV>,
    prefix: Seq<char>,
    fuel: nat,
) -> Result<MergeV, GitError>
    decreases fuel, 2int,
{
    merge_from(store, b, o, t, prefix, fuel, merge_names(b, o, t), 0)
}

/// The parts of a merge of one level, as built.
pub struct MergeParts {
    pub entries: Vec<TreeLine>,
    pub conflicts: Vec<Conflict>,
    pub subtrees: Vec<Tree>,
}

impl View for MergeParts {
    type V = MergeV;

    open spec fn view(&self) -> MergeV {
        MergeV {
            entries: self.entries@.map_values(|l: TreeLine| l@),
            conflicts: conflicts_view(self.conflicts@),
            subtrees: self.subtrees@.map_values(|t: Tree| t@),
        }
    }
}

/// The view of an optional entry.
pub open spec fn opt_view(l: Option<&TreeLine>) -> Option<TreeLineV> {
    match l {
        Some(x) => Some(x@),
        None => None,
    }
}

/// `r` with `acc` in front of each of its parts.
pub open spec fn merge_prepend(acc: MergeV, r: Result<MergeV, GitError>) -> Result<MergeV, GitError> {
    match r {
        Ok(x) => Ok(merge_concat(acc, x)),
        Err(e) => Err(e),
    }
}

proof fn lemma_merge_prepend_twice(a: MergeV, h: MergeV, r: Result<MergeV, GitError>)
    ensures
        merge_prepend(a, merge_prepend(h, r)) == merge_prepend(merge_concat(a, h), r),
{
    if let Ok(x) = r {
        assert(a.entries + (h.entries + x.entries) =~= (a.entries + h.entries) + x.entries);
        assert(a.conflicts + (h.conflicts + x.conflicts) =~= (a.conflicts + h.conflicts) + x.conflicts);
        assert(a.subtrees + (h.subtrees + x.subtrees) =~= (a.subtrees + h.subtrees) + x.subtrees);
    }
}

proof fn lemma_merge_concat_empty(a: MergeV)
    ensures
        merge_concat(no_merge(), a) == a,
        merge_concat(a, no_merge()) == a,
{
    assert(Seq::<TreeLineV>::empty() + a.entries =~= a.entries);
    assert(Seq::<ConflictV>::empty() + a.conflicts =~= a.conflicts);
    assert(Seq::<Seq<TreeLineV>>::empty() + a.subtrees =~= a.subtrees);
    assert(a.entries + Seq::<TreeLineV>::empty() =~= a.entries);
    assert(a.conflicts + Seq::<ConflictV>::empty() =~= a.conflicts);
    assert(a.subtrees + Seq::<Seq<TreeLineV>>::empty() =~= a.subtrees);
}

/// Nothing merged yet.
fn empty_parts() -> (r: MergeParts)
    ensures
        r@ == no_merge(),
{
    let r = MergeParts { entries: Vec::new(), conflicts: Vec::new(), subtrees: Vec::new() };
    assert(r@.entries =~= Seq::<TreeLineV>::empty());
    assert(r@.conflicts =~= Seq::<ConflictV>::empty());
    assert(r@.subtrees =~= Seq::<Seq<TreeLineV>>::empty());
    r
}

/// Appends the parts of `h` to those of `acc`.
fn append_parts(acc: &mut MergeParts, h: MergeParts)
    ensures
        final(acc)@ == merge_concat(old(acc)@, h@),
{
    let mut h = h;
    let ghost a = acc@;
    let ghost hv = h@;
    acc.entries.append(&mut h.entries);
    acc.conflicts.append(&mut h.conflicts);
    acc.subtrees.append(&mut h.subtrees);
    assert(acc@.entries =~= a.entries + hv.entries);
    assert(acc@.conflicts =~= a.conflicts + hv.conflicts);
    assert(acc@.subtrees =~= a.subtrees + hv.subtrees);
}

/// The entry named `name` in `t`.
fn line_ref<'a>(t: &'a Tree, name: &String) -> (r: Option<&'a TreeLine>)
    ensures
        opt_view(r) == line_named(t@, name@),
{
    match find_line_index(&t.objects, name) {
        Some(k) => Some(&t.objects[k]),
        None => None,
    }
}

/// The blob stored under `key`.
fn blob_at<'a>(store: &'a ObjectStore, key: &String) -> (r: Result<&'a Blob, GitError>)
    ensures
        match r {
            Ok(b) => load_blob(store@, key@) == Ok::<BlobV, GitError>(b@),
            Err(e) => load_blob(store@, key@) == Err::<BlobV, GitError>(e),
        },
{
    match store.get(key) {
        None => Err(GitError::NotFound),
        Some(Object::Blob(b)) => Ok(b),
        Some(_) => Err(GitError::CorruptObject),
    }
}

/// The conflicts of file `path` between the blobs `a` and `b`.
fn conflicts_of_files(path: &String, a: &Blob, b: &Blob) -> (r: Vec<Conflict>)
    ensures
        conflicts_view(r@) == file_conflicts(path@, a@, b@),
{
    let la = split_lines(a.as_bytes());
    let lb = split_lines(b.as_bytes());
    let runs = disagreeing_runs(&la, &lb);
    let ghost rv = runs@.map_values(|p: (usize, usize)| (p.0 as int, p.1 as int));
    let mut out: Vec<Conflict> = Vec::new();
    let mut i: usize = 0;
    while i < runs.len()
        invariant
            i <= runs@.len(),
            rv == runs@.map_values(|p: (usize, usize)| (p.0 as int, p.1 as int)),
            conflicts_view(out@) =~= rv.take(i as int).map_values(
                |q: (int, int)| ConflictV { file: path@, start: q.0, end: q.1 },
            ),
        decreases runs@.len() - i,
    {
        let (s, e) = runs[i];
        let ghost before = conflicts_view(out@);
        out.push(Conflict { file: path.clone(), line_start: s, line_end: e });
        assert(conflicts_view(out@) =~= before.push(ConflictV { file: path@, start: s as int, end: e as int }));
        assert(rv.take(i + 1) =~= rv.take(i as int).push(rv[i as int]));
        i += 1;
        assert(conflicts_view(out@) =~= rv.take(i as int).map_values(
            |q: (int, int)| ConflictV { file: path@, start: q.0, end: q.1 },
        ));
    }
    assert(rv.take(rv.len() as int) =~= rv);
    out
}

/// The sub-tree side `b` of a merge where the base may have no sub-tree.
fn base_subtree_exec<'a>(store: &'a ObjectStore, b: Option<&TreeLine>, empty: &'a Tree) -> (r: Result<&'a Tree, GitError>)
    requires
        empty@ == Seq::<TreeLineV>::empty(),
    ensures
        match r {
            Ok(t) => base_subtree(store@, opt_view(b)) == Ok::<Seq<TreeLineV>, GitError>(t@),
            Err(e) => base_subtree(store@, opt_view(b)) == Err::<Seq<TreeLineV>, GitError>(e),
        },
{
    match b {
        Some(bb) => if bb.kind.is_tree() {
            store.get_tree(&bb.sha1.0)
        } else {
            Ok(empty)
        },
        None => Ok(empty),
    }
}

/// What merging name `name` under `prefix` yields.
fn merge_entry_exec(
    store: &ObjectStore,
    name: &String,
    b: Option<&TreeLine>,
    o: Option<&TreeLine>,
    t: Option<&TreeLine>,
    prefix: &String,
    fuel: usize,
) -> (r: Result<MergeParts, GitError>)
    ensures
        match r {
            Ok(m) => merge_entry(store@, name@, opt_view(b), opt_view(o), opt_view(t), prefix@, fuel as nat)
                == Ok::<MergeV, GitError>(m@),
            Err(e) => merge_entry(store@, name@, opt_view(b), opt_view(o), opt_view(t), prefix@, fuel as nat)
                == Err::<MergeV, GitError>(e),
        },
    decreases fuel, 0int,
{
    let mut out = empty_parts();
    let (x, y) = match (o, t) {
        (None, None) => return Ok(out),
        (Some(x), None) | (None, Some(x)) => {
            match b {
                None => {
                    out.entries.push(x.copied());
                    assert(out@.entries =~= seq![x@]);
                    return Ok(out);
                },
                Some(bb) => {
                    if bb.sha1.same_as(&x.sha1) {
                        return Ok(out);
                    } else {
                        return Err(GitError::MergeConflict);
                    }
                },
            }
        },
        (Some(x), Some(y)) => {
            if x.sha1.same_as(&y.sha1) {
                out.entries.push(x.copied());
                assert(out@.entries =~= seq![x@]);
                return Ok(out);
            }
            match b {
                Some(bb) => {
                    if bb.sha1.same_as(&x.sha1) {
                        out.entries.push(y.copied());
                        assert(out@.entries =~= seq![y@]);
                        return Ok(out);
                    } else if bb.sha1.same_as(&y.sha1) {
                        out.entries.push(x.copied());
                        assert(out@.entries =~= seq![x@]);
                        return Ok(out);
                    }
                },
                None => {},
            }
            (x, y)
        },
    };
    assert(decide(opt_view(b), opt_view(o), opt_view(t)) == Decision::Conflict(x@, y@));
    if x.kind != y.kind {
        return Err(GitError::MergeKindMismatch);
    }
    let path = join_path_exec(prefix, name);
    if x.kind.is_tree() {
        let empty = Tree::empty();
        let bt = base_subtree_exec(store, b, &empty)?;
        let ot = store.get_tree(&x.sha1.0)?;
        let tt = store.get_tree(&y.sha1.0)?;
        if fuel == 0 {
            return Err(GitError::CorruptObject);
        }
        let m = merge_level_exec(store, bt, ot, tt, &path, fuel - 1)?;
        let ghost mv = m@;
        let MergeParts { entries, conflicts, subtrees } = m;
        let sub = sorted_tree(entries);
        let digest = sub.sha1();
        let mut subtrees = subtrees;
        let ghost before = subtrees@.map_values(|t: Tree| t@);
        subtrees.push(sub);
        assert(subtrees@.map_values(|t: Tree| t@) =~= before.push(sort_lines(mv.entries)));
        let mut entries: Vec<TreeLine> = Vec::new();
        entries.push(TreeLine { kind: TreeLineKind::Tree, name: name.clone(), sha1: crate::object::ObjectSha1(digest) });
        let r = MergeParts { entries, conflicts, subtrees };
        assert(r@.entries =~= seq![TreeLineV {
            kind: TreeLineKind::Tree,
            name: name@,
            sha1: object_digest(ObjectV::Tree(sort_lines(mv.entries))),
        }]);
        Ok(r)
    } else {
        let xb = blob_at(store, &x.sha1.0)?;
        let yb = blob_at(store, &y.sha1.0)?;
        out.conflicts = conflicts_of_files(&path, xb, yb);
        Ok(out)
    }
}

/// Appends the names of `t` that neither `u` nor `w` has.
fn push_fresh_names(t: &Tree, u: &Tree, w: &Tree, out: &mut Vec<String>)
    ensures
        final(out)@.map_values(|s: String| s@) == old(out)@.map_values(|s: String| s@) + fresh_names(t@, u@, w@, 0),
{
    let ghost start = out@.map_values(|s: String| s@);
    let mut j: usize = 0;
    while j < t.objects.len()
        invariant
            j <= t@.len(),
            t@.len() == t.objects@.len(),
            start + fresh_names(t@, u@, w@, 0) == out@.map_values(|s: String| s@) + fresh_names(t@, u@, w@, j as int),
        decreases t@.len() - j,
    {
        let name = &t.objects[j].name;
        let ghost before = out@.map_values(|s: String| s@);
        if find_line_index(&u.objects, name).is_none() && find_line_index(&w.objects, name).is_none() {
            out.push(name.clone());
            assert(out@.map_values(|s: String| s@) + fresh_names(t@, u@, w@, j + 1)
                =~= before + (seq![t@[j as int].name] + fresh_names(t@, u@, w@, j + 1)));
        }
        j += 1;
    }
    assert(out@.map_values(|s: String| s@) + Seq::<Seq<char>>::empty() =~= out@.map_values(|s: String| s@));
}

/// Every name of the three trees, once.
fn merge_names_exec(b: &Tree, o: &Tree, t: &Tree) -> (r: Vec<String>)
    ensures
        r@.map_values(|s: String| s@) == merge_names(b@, o@, t@),
{
    let mut out: Vec<String> = Vec::new();
    let mut i: usize = 0;
    while i < b.objects.len()
        invariant
            i <= b@.len(),
            b@.len() == b.objects@.len(),
            out@.map_values(|s: String| s@) =~= names_of(b@.take(i as int)),
        decreases b@.len() - i,
    {
        let ghost before = out@.map_values(|s: String| s@);
        out.push(b.objects[i].name.clone());
        assert(out@.map_values(|s: String| s@) =~= before.push(b@[i as int].name));
        assert(b@.take(i + 1) =~= b@.take(i as int).push(b@[i as int]));
        i += 1;
        assert(out@.map_values(|s: String| s@) =~= names_of(b@.take(i as int)));
    }
    assert(b@.take(b@.len() as int) =~= b@);
    push_fresh_names(o, b, b, &mut out);
    push_fresh_names(t, b, o, &mut out);
    out
}

/// Merges the trees `b`, `o`, `t`, naming conflicts by their path under
/// `prefix`, and recursing at most `fuel` levels into sub-trees.
pub fn merge_level_exec(
    store: &ObjectStore,
    b: &Tree,
    o: &Tree,
    t: &Tree,
    prefix: &String,
    fuel: usize,
) -> (r: Result<MergeParts, GitError>)
    ensures
        match r {
            Ok(m) => merge_level(store@, b@, o@, t@, prefix@, fuel as nat) == Ok::<MergeV, GitError>(m@),
            Err(e) => merge_level(store@, b@, o@, t@, prefix@, fuel as nat) == Err::<MergeV, GitError>(e),
        },
    decreases fuel, 2int,
{
    let names = merge_names_exec(b, o, t);
    let ghost nv = names@.map_values(|s: String| s@);
    let ghost full = merge_from(store@, b@, o@, t@, prefix@, fuel as nat, nv, 0);
    let mut acc = empty_parts();
    proof {
        if let Ok(x) = full {
            lemma_merge_concat_empty(x);
        }
    }
    let mut k: usize = 0;
    while k < names.len()
        invariant
            k <= nv.len(),
            nv.len() == names@.len(),
            nv == names@.map_values(|s: String| s@),
            nv == merge_names(b@, o@, t@),
            full == merge_from(store@, b@, o@, t@, prefix@, fuel as nat, nv, 0),
            full == merge_prepend(acc@, merge_from(store@, b@, o@, t@, prefix@, fuel as nat, nv, k as int)),
        decreases nv.len() - k,
    {
        let name = &names[k];
        let h = merge_entry_exec(store, name, line_ref(b, name), line_ref(o, name), line_ref(t, name), prefix, fuel)?;
        proof {
            lemma_merge_prepend_twice(acc@, h@, merge_from(store@, b@, o@, t@, prefix@, fuel as nat, nv, k + 1));
        }
        append_parts(&mut acc, h);
        k += 1;
    }
    proof {
        lemma_merge_concat_empty(acc@);
    }
    Ok(acc)
}

/// Merges `ours` and `theirs` against their common `base`: the merged tree
/// in name order, the conflicts, and the merged sub-trees that were made.
pub fn merge_trees(store: &ObjectStore, base: &Tree, ours: &Tree, theirs: &Tree) -> (r: Result<
    (Tree, Vec<Conflict>, Vec<Tree>),
    GitError,
>)
    ensures
        match r {
            Ok((tree, conflicts, subtrees)) => exists|m: MergeV|
                merge_level(store@, base@, ours@, theirs@, Seq::empty(), store@.len())
                    == Ok::<MergeV, GitError>(m) && tree@ == sort_lines(m.entries)
                    && conflicts_view(conflicts@) == m.conflicts
                    && subtrees@.map_values(|t: Tree| t@) == m.subtrees,
            Err(e) => merge_level(store@, base@, ours@, theirs@, Seq::empty(), store@.len())
                == Err::<MergeV, GitError>(e),
        },
{
    let root = String::new();
    let m = merge_level_exec(store, base, ours, theirs, &root, store.entries.len())?;
    let ghost mv = m@;
    let MergeParts { entries, conflicts, subtrees } = m;
    let tree = sorted_tree(entries);
    assert(tree@ == sort_lines(mv.entries));
    Ok((tree, conflicts, subtrees))
}

/// The store after putting each of `trees` in turn.
pub open spec fn put_trees(s: Seq<(Seq<char>, ObjectV)>, trees: Seq<Seq<TreeLineV>>) -> Seq<(Seq<char>, ObjectV)>
    decreases trees.len(),
{
    if trees.len() == 0 {
        s
    } else {
        put_object(put_trees(s, trees.drop_last()), ObjectV::Tree(trees.last()))
    }
}

/// Merges `ours` and `theirs` against their common `base`, giving the
/// merged tree in name order and the conflicts. When there is no conflict
/// the merged sub-trees are put into the store (the merged tree itself is
/// left to the caller); otherwise the store is left as it was.
pub fn auto_merge_trees(store: &mut ObjectStore, base: &Tree, ours: &Tree, theirs: &Tree) -> (r: Result<
    (Tree, Vec<Conflict>),
    GitError,
>)
    ensures
        match r {
            Ok((tree, conflicts)) => exists|m: MergeV|
                merge_level(old(store)@, base@, ours@, theirs@, Seq::empty(), old(store)@.len())
                    == Ok::<MergeV, GitError>(m) && tree@ == sort_lines(m.entries)
                    && conflicts_view(conflicts@) == m.conflicts
                    && final(store)@ == (if m.conflicts.len() == 0 {
                        put_trees(old(store)@, m.subtrees)
                    } else {
                        old(store)@
                    }),
            Err(e) => merge_level(old(store)@, base@, ours@, theirs@, Seq::empty(), old(store)@.len())
                == Err::<MergeV, GitError>(e) && final(store)@ == old(store)@,
        },
{
    let (tree, conflicts, subtrees) = merge_trees(store, base, ours, theirs)?;
    if conflicts.len() == 0 {
        let ghost sv = subtrees@.map_values(|t: Tree| t@);
        let ghost s0 = store@;
        let mut rest = subtrees;
        let mut i: usize = 0;
        assert(sv.take(0) =~= Seq::<Seq<TreeLineV>>::empty());
        while i < rest.len()
            invariant
                i <= rest@.len(),
                sv == rest@.map_values(|t: Tree| t@),
                store@ == put_trees(s0, sv.take(i as int)),
            decreases rest@.len() - i,
        {
            let t = rest[i].copied();
            store.put(Object::Tree(t));
            assert(sv.take(i + 1).drop_last() =~= sv.take(i as int));
            i += 1;
        }
        assert(sv.take(sv.len() as int) =~= sv);
    }
    Ok((tree, conflicts))
}

/// The parent of the commit stored under `c`.
pub open spec fn commit_parent(s: Seq<(Seq<char>, ObjectV)>, c: Seq<char>) -> Result<Option<Seq<char>>, GitError> {
    match store_get(s, c) {
        None => Err(GitError::NotFound),
        Some(ObjectV::Commit(cm)) => Ok(cm.parent),
        Some(_) => Err(GitError::CorruptObject),
    }
}

/// `r` with the commits `acc` in front.
pub open spec fn history_prepend(acc: Seq<Seq<char>>, r: Result<Seq<Seq<char>>, GitError>) -> Result<Seq<Seq<char>>, GitError> {
    match r {
        Ok(x) => Ok(acc + x),
        Err(e) => Err(e),
    }
}

/// The first `n` commits of the history that ends at `c`: `c`, its parent,
/// and so on back to a root commit.
pub open spec fn history(s: Seq<(Seq<char>, ObjectV)>, c: Seq<char>, n: nat) -> Result<Seq<Seq<char>>, GitError>
    decreases n,
{
    if n == 0 {
        Ok(Seq::empty())
    } else {
        match commit_parent(s, c) {
            Err(e) => Err(e),
            Ok(None) => Ok(seq![c]),
            Ok(Some(p)) => history_prepend(seq![c], history(s, p, (n - 1) as nat)),
        }
    }
}

/// The first commit of `hb`, from position `i` on, that `ha` holds.
pub open spec fn first_shared(hb: Seq<Seq<char>>, ha: Seq<Seq<char>>, i: int) -> Option<Seq<char>>
    decreases hb.len() - i,
{
    if i < 0 || i >= hb.len() {
        None
    } else if ha.contains(hb[i]) {
        Some(hb[i])
    } else {
        first_shared(hb, ha, i + 1)
    }
}

/// The merge base of the commits `a` and `b`: the most recent commit of
/// `b`'s history that is also in `a`'s, looking `n` commits back.
pub open spec fn merge_base(s: Seq<(Seq<char>, ObjectV)>, a: Seq<char>, b: Seq<char>, n: nat) -> Result<Seq<char>, GitError> {
    match history(s, a, n) {
        Err(e) => Err(e),
        Ok(ha) => match history(s, b, n) {
            Err(e) => Err(e),
            Ok(hb) => match first_shared(hb, ha, 0) {
                None => Err(GitError::NoCommonAncestor),
                Some(c) => Ok(c),
            },
        },
    }
}

/// The first `n` commits of the history that ends at `c`.
pub fn commit_history(store: &ObjectStore, c: &String, n: usize) -> (r: Result<Vec<String>, GitError>)
    ensures
        match r {
            Ok(v) => history(store@, c@, n as nat) == Ok::<Seq<Seq<char>>, GitError>(v@.map_values(|x: String| x@)),
            Err(e) => history(store@, c@, n as nat) == Err::<Seq<Seq<char>>, GitError>(e),
        },
{
    let ghost full = history(store@, c@, n as nat);
    let mut acc: Vec<String> = Vec::new();
    let mut cur = c.clone();
    let mut m: usize = n;
    assert(history_prepend(Seq::empty(), full) == full) by {
        if let Ok(x) = full {
            assert(Seq::<Seq<char>>::empty() + x =~= x);
        }
    }
    while m > 0
        invariant
            m <= n,
            full == history(store@, c@, n as nat),
            full == history_prepend(acc@.map_values(|x: String| x@), history(store@, cur@, m as nat)),
        decreases m,
    {
        let ghost before = acc@.map_values(|x: String| x@);
        let parent = match store.get(&cur) {
            None => return Err(GitError::NotFound),
            Some(Object::Commit(cm)) => match &cm.parent {
                Some(p) => Some(p.0.clone()),
                None => None,
            },
            Some(_) => return Err(GitError::CorruptObject),
        };
        let ghost curv = cur@;
        acc.push(cur);
        assert(acc@.map_values(|x: String| x@) =~= before + seq![curv]);
        match parent {
            None => {
                return Ok(acc);
            },
            Some(p) => {
                proof {
                    let rest = history(store@, p@, (m - 1) as nat);
                    if let Ok(x) = rest {
                        assert(before + (seq![curv] + x) =~= (before + seq![curv]) + x);
                    }
                }
                cur = p;
                m = m - 1;
            },
        }
    }
    assert(acc@.map_values(|x: String| x@) + Seq::<Seq<char>>::empty() =~= acc@.map_values(|x: String| x@));
    Ok(acc)
}

/// Whether `v` holds `x`.
fn holds(v: &Vec<String>, x: &String) -> (r: bool)
    ensures
        r == v@.map_values(|s: String| s@).contains(x@),
{
    let ghost vv = v@.map_values(|s: String| s@);
    let mut i: usize = 0;
    while i < v.len()
        invariant
            i <= v@.len(),
            vv == v@.map_values(|s: String| s@),
            forall|j: int| 0 <= j < i ==> vv[j] != x@,
        decreases v@.len() - i,
    {
        if v[i] == *x {
            assert(vv[i as int] == x@);
            return true;
        }
        i += 1;
    }
    false
}

/// The merge base of the commits stored under `a` and `b`.
pub fn get_merge_base(store: &ObjectStore, a: &String, b: &String) -> (r: Result<String, GitError>)
    ensures
        match r {
            Ok(c) => merge_base(store@, a@, b@, store@.len()) == Ok::<Seq<char>, GitError>(c@),
            Err(e) => merge_base(store@, a@, b@, store@.len()) == Err::<Seq<char>, GitError>(e),
        },
{
    let n = store.entries.len();
    assert(store@.len() == n as nat);
    let ha = commit_history(store, a, n)?;
    let hb = commit_history(store, b, n)?;
    let ghost hav = ha@.map_values(|s: String| s@);
    let ghost hbv = hb@.map_values(|s: String| s@);
    let mut i: usize = 0;
    while i < hb.len()
        invariant
            i <= hb@.len(),
            hbv == hb@.map_values(|s: String| s@),
            hav == ha@.map_values(|s: String| s@),
            first_shared(hbv, hav, 0) == first_shared(hbv, hav, i as int),
            history(store@, a@, store@.len()) == Ok::<Seq<Seq<char>>, GitError>(hav),
            history(store@, b@, store@.len()) == Ok::<Seq<Seq<char>>, GitError>(hbv),
        decreases hb@.len() - i,
    {
        if holds(&ha, &hb[i]) {
            assert(hbv[i as int] == hb@[i as int]@);
            assert(hav.contains(hbv[i as int]));
            return Ok(hb[i].clone());
        }
        i += 1;
    }
    Err(GitError::NoCommonAncestor)
}

/// No name occurs twice.
pub open spec fn distinct_names(s: Seq<Seq<char>>) -> bool {
    forall|a: int, b: int| 0 <= a < b < s.len() ==> s[a] != s[b]
}

proof fn lemma_concat_contains<A>(x: Seq<A>, y: Seq<A>)
    ensures
        forall|n: A| #![trigger (x + y).contains(n)] (x + y).contains(n) <==> (x.contains(n) || y.contains(n)),
{
    assert forall|n: A| #![trigger (x + y).contains(n)] (x + y).contains(n) <==> (x.contains(n) || y.contains(n)) by {
        if (x + y).contains(n) {
            let k = choose|k: int| 0 <= k < (x + y).len() && (x + y)[k] == n;
            if k < x.len() {
                assert(x[k] == n);
            } else {
                assert(y[k - x.len()] == n);
            }
        }
        if x.contains(n) {
            let k = choose|k: int| 0 <= k < x.len() && x[k] == n;
            assert((x + y)[k] == n);
        }
        if y.contains(n) {
            let k = choose|k: int| 0 <= k < y.len() && y[k] == n;
            assert((x + y)[k + x.len()] == n);
        }
    }
}

proof fn lemma_concat_distinct(x: Seq<Seq<char>>, y: Seq<Seq<char>>)
    requires
        distinct_names(x),
        distinct_names(y),
        forall|n: Seq<char>| x.contains(n) ==> !y.contains(n),
    ensures
        distinct_names(x + y),
{
    assert forall|a: int, b: int| 0 <= a < b < (x + y).len() implies (x + y)[a] != (x + y)[b] by {
        if a < x.len() && b >= x.len() {
            assert(x.contains(x[a]));
            assert(y[b - x.len()] == (x + y)[b]);
            assert(y.contains(y[b - x.len()]));
        } else if b < x.len() {
        } else {
            assert((x + y)[a] == y[a - x.len()]);
            assert((x + y)[b] == y[b - x.len()]);
        }
    }
}

proof fn lemma_fresh_names(t: Seq<TreeLineV>, u: Seq<TreeLineV>, w: Seq<TreeLineV>, j: int)
    requires
        0 <= j,
    ensures
        forall|k: int| 0 <= k < fresh_names(t, u, w, j).len() ==>
            line_named(t, #[trigger] fresh_names(t, u, w, j)[k]) is Some
            && line_named(u, fresh_names(t, u, w, j)[k]) is None
            && line_named(w, fresh_names(t, u, w, j)[k]) is None,
        forall|n: Seq<char>| (forall|i: int| j <= i < t.len() ==> t[i].name != n)
            ==> !(#[trigger] fresh_names(t, u, w, j).contains(n)),
        forall|i: int| j <= i < t.len() && line_named(u, t[i].name) is None && line_named(w, t[i].name) is None
            ==> fresh_names(t, u, w, j).contains(#[trigger] t[i].name),
        names_unique(t) ==> distinct_names(fresh_names(t, u, w, j)),
    decreases t.len() - j,
{
    if j < t.len() {
        lemma_fresh_names(t, u, w, j + 1);
        let rest = fresh_names(t, u, w, j + 1);
        let n = t[j].name;
        lemma_line_named(t, n);
        assert(t[j].name == n);
        if line_named(u, n) is None && line_named(w, n) is None {
            let f = seq![n] + rest;
            lemma_concat_contains(seq![n], rest);
            assert forall|k: int| 0 <= k < f.len() implies
                line_named(t, #[trigger] f[k]) is Some && line_named(u, f[k]) is None && line_named(w, f[k]) is None by {
                if k > 0 {
                    assert(f[k] == rest[k - 1]);
                }
            }
            assert forall|m: Seq<char>| (forall|i: int| j <= i < t.len() ==> t[i].name != m) implies !(#[trigger] f.contains(m)) by {
                assert(t[j].name != m);
                assert forall|i: int| j + 1 <= i < t.len() implies t[i].name != m by {}
                if seq![n].contains(m) {
                    assert(seq![n][0] == n);
                }
            }
            assert forall|i: int| j <= i < t.len() && line_named(u, t[i].name) is None && line_named(w, t[i].name) is None
                implies f.contains(#[trigger] t[i].name) by {
                if i == j {
                    assert(f[0] == n);
                } else {
                    assert(rest.contains(t[i].name));
                }
            }
            if names_unique(t) {
                assert(!rest.contains(n)) by {
                    assert forall|i: int| j + 1 <= i < t.len() implies t[i].name != n by {}
                }
                assert forall|a: int, b: int| 0 <= a < b < f.len() implies f[a] != f[b] by {
                    if a == 0 {
                        assert(f[b] == rest[b - 1]);
                        assert(rest.contains(rest[b - 1]));
                    } else {
                        assert(f[a] == rest[a - 1] && f[b] == rest[b - 1]);
                    }
                }
            }
        } else {
            assert forall|m: Seq<char>| (forall|i: int| j <= i < t.len() ==> t[i].name != m) implies !(#[trigger] rest.contains(m)) by {
                assert forall|i: int| j + 1 <= i < t.len() implies t[i].name != m by {}
            }
        }
    }
}

proof fn lemma_names_of(b: Seq<TreeLineV>)
    ensures
        forall|n: Seq<char>| #[trigger] names_of(b).contains(n) <==> line_named(b, n) is Some,
        names_unique(b) ==> distinct_names(names_of(b)),
{
    let ns = names_of(b);
    assert forall|n: Seq<char>| #[trigger] ns.contains(n) <==> line_named(b, n) is Some by {
        lemma_line_named(b, n);
        if ns.contains(n) {
            let k = choose|k: int| 0 <= k < ns.len() && ns[k] == n;
            assert(b[k].name == n);
        }
        if line_named(b, n) is Some {
            let e = line_named(b, n)->Some_0;
            let k = choose|k: int| 0 <= k < b.len() && b[k] == e;
            assert(ns[k] == n);
        }
    }
}

/// The names merged are exactly the names of the three trees, and none is
/// taken twice when no tree has a name twice.
pub proof fn lemma_merge_names(b: Seq<TreeLineV>, o: Seq<TreeLineV>, t: Seq<TreeLineV>)
    ensures
        forall|n: Seq<char>| #[trigger] merge_names(b, o, t).contains(n)
            <==> (line_named(b, n) is Some || line_named(o, n) is Some || line_named(t, n) is Some),
        names_unique(b) && names_unique(o) && names_unique(t) ==> distinct_names(merge_names(b, o, t)),
{
    let nb = names_of(b);
    let fo = fresh_names(o, b, b, 0);
    let ft = fresh_names(t, b, o, 0);
    lemma_names_of(b);
    lemma_fresh_names(o, b, b, 0);
    lemma_fresh_names(t, b, o, 0);
    lemma_concat_contains(nb, fo);
    lemma_concat_contains(nb + fo, ft);
    assert forall|n: Seq<char>| #[trigger] merge_names(b, o, t).contains(n)
        <==> (line_named(b, n) is Some || line_named(o, n) is Some || line_named(t, n) is Some) by {
        lemma_line_named(o, n);
        lemma_line_named(t, n);
        if fo.contains(n) {
            let k = choose|k: int| 0 <= k < fo.len() && fo[k] == n;
        }
        if ft.contains(n) {
            let k = choose|k: int| 0 <= k < ft.len() && ft[k] == n;
        }
        if line_named(o, n) is Some && line_named(b, n) is None {
            let e = line_named(o, n)->Some_0;
            let i = choose|i: int| 0 <= i < o.len() && o[i] == e;
            assert(fo.contains(o[i].name));
        }
        if line_named(t, n) is Some && line_named(b, n) is None && line_named(o, n) is None {
            let e = line_named(t, n)->Some_0;
            let i = choose|i: int| 0 <= i < t.len() && t[i] == e;
            assert(ft.contains(t[i].name));
        }
    }
    if names_unique(b) && names_unique(o) && names_unique(t) {
        assert forall|n: Seq<char>| nb.contains(n) implies !fo.contains(n) by {
            if fo.contains(n) {
                let k = choose|k: int| 0 <= k < fo.len() && fo[k] == n;
            }
        }
        lemma_concat_distinct(nb, fo);
        assert forall|n: Seq<char>| (nb + fo).contains(n) implies !ft.contains(n) by {
            if ft.contains(n) {
                let k = choose|k: int| 0 <= k < ft.len() && ft[k] == n;
                if fo.contains(n) {
                    let m = choose|m: int| 0 <= m < fo.len() && fo[m] == n;
                }
            }
        }
        lemma_concat_distinct(nb + fo, ft);
    }
}

/// Taking `r`'s entry of the name, or skipping it when `r` has none.
pub open spec fn take_of(r: Seq<TreeLineV>, n: Seq<char>) -> Decision {
    match line_named(r, n) {
        Some(x) => Decision::Take(x),
        None => Decision::Skip,
    }
}

/// `r`'s entries for the names from position `k` on.
pub open spec fn takes(r: Seq<TreeLineV>, names: Seq<Seq<char>>, k: int) -> Seq<TreeLineV>
    decreases names.len() - k,
{
    if k < 0 || k >= names.len() {
        Seq::empty()
    } else {
        match line_named(r, names[k]) {
            Some(x) => seq![x] + takes(r, names, k + 1),
            None => takes(r, names, k + 1),
        }
    }
}

proof fn lemma_merge_takes(
    store: Seq<(Seq<char>, ObjectV)>,
    b: Seq<TreeLineV>,
    o: Seq<TreeLineV>,
    t: Seq<TreeLineV>,
    r: Seq<TreeLineV>,
    prefix: Seq<char>,
    fuel: nat,
    names: Seq<Seq<char>>,
    k: int,
)
    requires
        0 <= k,
        forall|j: int| k <= j < names.len() ==> decide(
            line_named(b, #[trigger] names[j]),
            line_named(o, names[j]),
            line_named(t, names[j]),
        ) == take_of(r, names[j]),
    ensures
        merge_from(store, b, o, t, prefix, fuel, names, k) == Ok::<MergeV, GitError>(
            MergeV { entries: takes(r, names, k), conflicts: Seq::empty(), subtrees: Seq::empty() },
        ),
    decreases names.len() - k,
{
    if k < names.len() {
        lemma_merge_takes(store, b, o, t, r, prefix, fuel, names, k + 1);
        let n = names[k];
        let rest = takes(r, names, k + 1);
        assert(decide(line_named(b, n), line_named(o, n), line_named(t, n)) == take_of(r, n));
        match line_named(r, n) {
            Some(x) => {
                assert(merge_entry(store, n, line_named(b, n), line_named(o, n), line_named(t, n), prefix, fuel)
                    == Ok::<MergeV, GitError>(MergeV { entries: seq![x], ..no_merge() }));
            },
            None => {
                assert(merge_entry(store, n, line_named(b, n), line_named(o, n), line_named(t, n), prefix, fuel)
                    == Ok::<MergeV, GitError>(no_merge()));
                assert(Seq::<TreeLineV>::empty() + rest =~= rest);
            },
        }
        assert(Seq::<ConflictV>::empty() + Seq::<ConflictV>::empty() =~= Seq::<ConflictV>::empty());
        assert(Seq::<Seq<TreeLineV>>::empty() + Seq::<Seq<TreeLineV>>::empty() =~= Seq::<Seq<TreeLineV>>::empty());
    }
}

proof fn lemma_takes(r: Seq<TreeLineV>, names: Seq<Seq<char>>, k: int)
    requires
        0 <= k,
        distinct_names(names),
    ensures
        forall|y: TreeLineV| #[trigger] takes(r, names, k).contains(y) ==> r.contains(y),
        forall|j: int| k <= j < names.len() && line_named(r, #[trigger] names[j]) is Some
            ==> takes(r, names, k).contains(line_named(r, names[j])->Some_0),
        forall|y: TreeLineV| #[trigger] takes(r, names, k).contains(y)
            ==> exists|j: int| k <= j < names.len() && names[j] == y.name,
        forall|a: int, c: int| 0 <= a < c < takes(r, names, k).len()
            ==> takes(r, names, k)[a].name != takes(r, names, k)[c].name,
    decreases names.len() - k,
{
    if k < names.len() {
        lemma_takes(r, names, k + 1);
        let rest = takes(r, names, k + 1);
        let n = names[k];
        lemma_line_named(r, n);
        if let Some(x) = line_named(r, n) {
            let f = seq![x] + rest;
            lemma_concat_contains(seq![x], rest);
            assert forall|y: TreeLineV| #[trigger] f.contains(y) implies r.contains(y) by {
                if seq![x].contains(y) {
                    assert(seq![x][0] == x);
                }
            }
            assert forall|j: int| k <= j < names.len() && line_named(r, #[trigger] names[j]) is Some
                implies f.contains(line_named(r, names[j])->Some_0) by {
                if j == k {
                    assert(f[0] == x);
                } else {
                    assert(rest.contains(line_named(r, names[j])->Some_0));
                }
            }
            assert forall|y: TreeLineV| #[trigger] f.contains(y)
                implies exists|j: int| k <= j < names.len() && names[j] == y.name by {
                if seq![x].contains(y) {
                    assert(seq![x][0] == x);
                    assert(names[k] == y.name);
                } else {
                    assert(rest.contains(y));
                }
            }
            assert forall|a: int, c: int| 0 <= a < c < f.len() implies f[a].name != f[c].name by {
                if a == 0 {
                    assert(f[c] == rest[c - 1]);
                    assert(rest.contains(rest[c - 1]));
                    let j = choose|j: int| k + 1 <= j < names.len() && names[j] == rest[c - 1].name;
                    assert(names[k] != names[j]);
                } else {
                    assert(f[a] == rest[a - 1] && f[c] == rest[c - 1]);
                }
            }
        } else {
            assert forall|y: TreeLineV| #[trigger] rest.contains(y)
                implies exists|j: int| k <= j < names.len() && names[j] == y.name by {
                let j = choose|j: int| k + 1 <= j < names.len() && names[j] == y.name;
            }
        }
    }
}

proof fn lemma_sorted_unique_names(r: Seq<TreeLineV>)
    requires
        sorted_lines(r),
    ensures
        names_unique(r),
{
    assert forall|i: int, j: int| 0 <= i < r.len() && 0 <= j < r.len() && i != j implies r[i].name != r[j].name by {
        if i < j {
            assert(crate::tree::name_lt(r[i].name, r[j].name));
            lemma_name_lt_irrefl(r[i].name);
        } else {
            assert(crate::tree::name_lt(r[j].name, r[i].name));
            lemma_name_lt_irrefl(r[j].name);
        }
    }
}

/// When every name is decided by taking the entry `r` has of it (or
/// skipping it where `r` has none), the merge gives `r`'s entries, without
/// conflict.
proof fn lemma_merge_as(
    store: Seq<(Seq<char>, ObjectV)>,
    b: Seq<TreeLineV>,
    o: Seq<TreeLineV>,
    t: Seq<TreeLineV>,
    r: Seq<TreeLineV>,
    prefix: Seq<char>,
    fuel: nat,
)
    requires
        names_unique(b),
        names_unique(o),
        names_unique(t),
        names_unique(r),
        forall|n: Seq<char>| #[trigger] merge_names(b, o, t).contains(n) ==> decide(
            line_named(b, n),
            line_named(o, n),
            line_named(t, n),
        ) == take_of(r, n),
        forall|n: Seq<char>| line_named(r, n) is Some ==> #[trigger] merge_names(b, o, t).contains(n),
    ensures
        merge_level(store, b, o, t, prefix, fuel) matches Ok(m) && sort_lines(m.entries) == sort_lines(r)
            && m.conflicts.len() == 0 && m.subtrees.len() == 0,
{
    let names = merge_names(b, o, t);
    lemma_merge_names(b, o, t);
    assert forall|j: int| 0 <= j < names.len() implies decide(
        line_named(b, #[trigger] names[j]),
        line_named(o, names[j]),
        line_named(t, names[j]),
    ) == take_of(r, names[j]) by {
        assert(names.contains(names[j]));
    }
    lemma_merge_takes(store, b, o, t, r, prefix, fuel, names, 0);
    lemma_takes(r, names, 0);
    let s = takes(r, names, 0);
    assert forall|y: TreeLineV| s.contains(y) <==> r.contains(y) by {
        if r.contains(y) {
            lemma_line_named_member(r, y);
            assert(names.contains(y.name));
            let j = choose|j: int| 0 <= j < names.len() && names[j] == y.name;
            assert(line_named(r, names[j]) is Some);
        }
    }
    lemma_sort_sorted(r);
    lemma_sort_contents(r);
    lemma_sort_is(s, sort_lines(r));
}

proof fn lemma_named_in_names(b: Seq<TreeLineV>, o: Seq<TreeLineV>, t: Seq<TreeLineV>, r: Seq<TreeLineV>)
    requires
        r == b || r == o || r == t,
    ensures
        forall|n: Seq<char>| line_named(r, n) is Some ==> #[trigger] merge_names(b, o, t).contains(n),
{
    lemma_merge_names(b, o, t);
}

/// Entries with distinct names in name order are their own sorting.
proof fn lemma_in_order(x: Seq<TreeLineV>)
    requires
        names_unique(x),
    ensures
        sorted_lines(x) ==> sort_lines(x) == x,
{
    if sorted_lines(x) {
        lemma_sort_is(x, x);
    }
}

/// Merging a tree (with distinct names) with itself on both sides gives
/// its entries back in name order, without conflict; a tree in name order
/// comes back as it is.
pub proof fn law_merge_unchanged(store: Seq<(Seq<char>, ObjectV)>, b: Seq<TreeLineV>, prefix: Seq<char>, fuel: nat)
    requires
        names_unique(b),
    ensures
        merge_level(store, b, b, b, prefix, fuel) matches Ok(m) && sort_lines(m.entries) == sort_lines(b)
            && m.conflicts.len() == 0 && m.subtrees.len() == 0,
        sorted_lines(b) ==> sort_lines(b) == b,
{
    lemma_in_order(b);
    lemma_merge_names(b, b, b);
    lemma_named_in_names(b, b, b, b);
    lemma_merge_as(store, b, b, b, b, prefix, fuel);
}

/// When only our side changed the base, the merge gives our side's entries
/// in name order, without conflict (trees with distinct names); for a side
/// in name order, exactly that side.
pub proof fn law_merge_ours_only(store: Seq<(Seq<char>, ObjectV)>, b: Seq<TreeLineV>, x: Seq<TreeLineV>, prefix: Seq<char>, fuel: nat)
    requires
        names_unique(b),
        names_unique(x),
    ensures
        merge_level(store, b, x, b, prefix, fuel) matches Ok(m) && sort_lines(m.entries) == sort_lines(x)
            && m.conflicts.len() == 0 && m.subtrees.len() == 0,
        sorted_lines(x) ==> sort_lines(x) == x,
{
    lemma_in_order(x);
    lemma_merge_names(b, x, b);
    lemma_named_in_names(b, x, b, x);
    lemma_merge_as(store, b, x, b, x, prefix, fuel);
}

/// When only their side changed the base, the merge gives their side's
/// entries in name order, without conflict (trees with distinct names); for
/// a side in name order, exactly that side. An entry their side keeps with
/// the same target must keep its kind too: the rule table takes our entry
/// when both targets agree.
pub proof fn law_merge_theirs_only(store: Seq<(Seq<char>, ObjectV)>, b: Seq<TreeLineV>, y: Seq<TreeLineV>, prefix: Seq<char>, fuel: nat)
    requires
        names_unique(b),
        names_unique(y),
        forall|i: int, j: int| 0 <= i < b.len() && 0 <= j < y.len() && b[i].name == y[j].name
            && b[i].sha1 == y[j].sha1 ==> b[i].kind == y[j].kind,
    ensures
        merge_level(store, b, b, y, prefix, fuel) matches Ok(m) && sort_lines(m.entries) == sort_lines(y)
            && m.conflicts.len() == 0 && m.subtrees.len() == 0,
        sorted_lines(y) ==> sort_lines(y) == y,
{
    lemma_in_order(y);
    lemma_merge_names(b, b, y);
    lemma_named_in_names(b, b, y, y);
    assert forall|n: Seq<char>| #[trigger] merge_names(b, b, y).contains(n) implies decide(
        line_named(b, n),
        line_named(b, n),
        line_named(y, n),
    ) == take_of(y, n) by {
        lemma_line_named(b, n);
        lemma_line_named(y, n);
        if let (Some(e), Some(f)) = (line_named(b, n), line_named(y, n)) {
            if e.sha1 == f.sha1 {
                let i = choose|i: int| 0 <= i < b.len() && b[i] == e;
                let j = choose|j: int| 0 <= j < y.len() && y[j] == f;
            }
        }
    }
    lemma_merge_as(store, b, b, y, y, prefix, fuel);
}

/// When both sides made the same change, the merge gives its entries in
/// name order, whatever the base, without conflict (trees with distinct
/// names); for a change in name order, exactly that tree.
pub proof fn law_merge_same_change(store: Seq<(Seq<char>, ObjectV)>, b: Seq<TreeLineV>, x: Seq<TreeLineV>, prefix: Seq<char>, fuel: nat)
    requires
        names_unique(b),
        names_unique(x),
    ensures
        merge_level(store, b, x, x, prefix, fuel) matches Ok(m) && sort_lines(m.entries) == sort_lines(x)
            && m.conflicts.len() == 0 && m.subtrees.len() == 0,
        sorted_lines(x) ==> sort_lines(x) == x,
{
    lemma_in_order(x);
    lemma_merge_names(b, x, x);
    lemma_named_in_names(b, x, x, x);
    lemma_merge_as(store, b, x, x, x, prefix, fuel);
}

proof fn lemma_history_starts(s: Seq<(Seq<char>, ObjectV)>, c: Seq<char>, n: nat)
    requires
        n > 0,
        history(s, c, n) is Ok,
    ensures
        history(s, c, n)->Ok_0.len() > 0,
        history(s, c, n)->Ok_0[0] == c,
{
    match commit_parent(s, c) {
        Ok(Some(p)) => {
            let x = history(s, p, (n - 1) as nat)->Ok_0;
            assert((seq![c] + x)[0] == c);
        },
        _ => {},
    }
}

proof fn lemma_first_shared_at(hb: Seq<Seq<char>>, ha: Seq<Seq<char>>, i: int, k: int)
    requires
        0 <= i <= k < hb.len(),
        ha.contains(hb[k]),
        forall|j: int| i <= j < k ==> !ha.contains(#[trigger] hb[j]),
    ensures
        first_shared(hb, ha, i) == Some(hb[k]),
    decreases k - i,
{
    if i < k {
        lemma_first_shared_at(hb, ha, i + 1, k);
    }
}

/// The merge base of a commit with itself is that commit.
pub proof fn law_merge_base_self(s: Seq<(Seq<char>, ObjectV)>, c: Seq<char>, n: nat)
    requires
        n > 0,
        history(s, c, n) is Ok,
    ensures
        merge_base(s, c, c, n) == Ok::<Seq<char>, GitError>(c),
{
    lemma_history_starts(s, c, n);
    let h = history(s, c, n)->Ok_0;
    assert(h.contains(h[0]));
    lemma_first_shared_at(h, h, 0, 0);
}

/// When `a` lies in the history of `b`, and the commits that follow it
/// there are not in `a`'s own history (the history has no cycle), the merge
/// base of `a` and `b` is `a`, the older of the two.
pub proof fn law_merge_base_ancestor(s: Seq<(Seq<char>, ObjectV)>, a: Seq<char>, b: Seq<char>, n: nat, k: int)
    requires
        n > 0,
        history(s, a, n) is Ok,
        history(s, b, n) is Ok,
        0 <= k < history(s, b, n)->Ok_0.len(),
        history(s, b, n)->Ok_0[k] == a,
        forall|j: int| 0 <= j < k ==> !history(s, a, n)->Ok_0.contains(#[trigger] history(s, b, n)->Ok_0[j]),
    ensures
        merge_base(s, a, b, n) == Ok::<Seq<char>, GitError>(a),
{
    lemma_history_starts(s, a, n);
    let ha = history(s, a, n)->Ok_0;
    let hb = history(s, b, n)->Ok_0;
    assert(ha.contains(ha[0]));
    lemma_first_shared_at(hb, ha, 0, k);
}

} // verus!
