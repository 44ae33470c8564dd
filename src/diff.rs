//! Structural comparison of two trees: which entries were added, deleted or
//! modified, each under its full slash-joined path.

use crate::object::{Tree, TreeLine, TreeLineKind, TreeLineV};
use crate::object::ObjectV;
use crate::store::{GitError, ObjectStore, load_tree};
use vstd::prelude::*;
use vstd::string::StringExecFns;

verus! {

/// How an entry changed.
#[derive(Clone, Copy, Debug, PartialEq, Eq, Structural)]
pub enum ComparedKind {
    Added,
    Deleted,
    Modified,
}

/// One change: its kind, and the entry concerned, named by its full path
/// (the new entry for `Added` and `Modified`, the old one for `Deleted`).
#[derive(Debug)]
pub struct ComparedLine {
    pub kind: ComparedKind,
    pub line: TreeLine,
}

/// The mathematical view of a [`ComparedLine`].
pub struct ChangeV {
    pub kind: ComparedKind,
    pub line: TreeLineV,
}

impl View for ComparedLine {
    type V = ChangeV;

    open spec fn view(&self) -> ChangeV {
        ChangeV { kind: self.kind, line: self.line@ }
    }
}

/// The views of a list of changes.
pub open spec fn changes_view(v: Seq<ComparedLine>) -> Seq<ChangeV> {
    v.map_values(|c: ComparedLine| c@)
}

impl ComparedLine {
    /// A copy of this change.
    pub fn copied(&self) -> (r: ComparedLine)
        ensures
            r@ == self@,
    {
        ComparedLine { kind: self.kind, line: self.line.copied() }
    }
}

/// The changes of `s` that are additions (`added`), or those that are not,
/// in order.
pub open spec fn changes_where(s: Seq<ChangeV>, added: bool) -> Seq<ChangeV>
    decreases s.len(),
{
    if s.len() == 0 {
        Seq::empty()
    } else if (s.last().kind == ComparedKind::Added) == added {
        changes_where(s.drop_last(), added).push(s.last())
    } else {
        changes_where(s.drop_last(), added)
    }
}

/// The changes from the index to the working directory, parted into those
/// to files the index tracks (modified or deleted) and the untracked
/// (added) ones, each in order.
pub fn split_untracked(changes: &Vec<ComparedLine>) -> (r: (Vec<ComparedLine>, Vec<ComparedLine>))
    ensures
        changes_view(r.0@) == changes_where(changes_view(changes@), false),
        changes_view(r.1@) == changes_where(changes_view(changes@), true),
{
    let ghost v = changes_view(changes@);
    let mut known: Vec<ComparedLine> = Vec::new();
    let mut untracked: Vec<ComparedLine> = Vec::new();
    let mut i: usize = 0;
    assert(v.take(0) =~= Seq::<ChangeV>::empty());
    assert(changes_view(known@) =~= Seq::<ChangeV>::empty());
    assert(changes_view(untracked@) =~= Seq::<ChangeV>::empty());
    while i < changes.len()
        invariant
            i <= changes@.len(),
            v == changes_view(changes@),
            changes_view(known@) == changes_where(v.take(i as int), false),
            changes_view(untracked@) == changes_where(v.take(i as int), true),
        decreases changes@.len() - i,
    {
        let c = changes[i].copied();
        assert(v.take(i + 1).drop_last() =~= v.take(i as int));
        assert(v.take(i + 1).last() == v[i as int]);
        let ghost t0 = changes_view(known@);
        let ghost u0 = changes_view(untracked@);
        let ghost cv = c@;
        match c.kind {
            ComparedKind::Added => {
                untracked.push(c);
                assert(changes_view(untracked@) =~= u0.push(cv));
            },
            _ => {
                known.push(c);
                assert(changes_view(known@) =~= t0.push(cv));
            },
        }
        i += 1;
    }
    assert(v.take(v.len() as int) =~= v);
    (known, untracked)
}

/// The first entry named `name`, searching from position `i`.
pub open spec fn find_line(lines: Seq<TreeLineV>, name: Seq<char>, i: int) -> Option<TreeLineV>
    decreases lines.len() - i,
{
    if i < 0 || i >= lines.len() {
        None
    } else if lines[i].name == name {
        Some(lines[i])
    } else {
        find_line(lines, name, i + 1)
    }
}

/// The entry named `name`.
pub open spec fn line_named(lines: Seq<TreeLineV>, name: Seq<char>) -> Option<TreeLineV> {
    find_line(lines, name, 0)
}

/// `name` under the directory `prefix`; the empty prefix is the root.
pub open spec fn join_path(prefix: Seq<char>, name: Seq<char>) -> Seq<char> {
    if prefix.len() == 0 {
        name
    } else {
        prefix + seq!['/'] + name
    }
}

/// The entry `l`, renamed to its full path under `prefix`.
pub open spec fn at_path(l: TreeLineV, prefix: Seq<char>) -> TreeLineV {
    TreeLineV { kind: l.kind, name: join_path(prefix, l.name), sha1: l.sha1 }
}

/// `r` with `acc` in front of its changes.
pub open spec fn prepend(acc: Seq<ChangeV>, r: Result<Seq<ChangeV>, GitError>) -> Result<Seq<ChangeV>, GitError> {
    match r {
        Ok(x) => Ok(acc + x),
        Err(e) => Err(e),
    }
}

/// The entries of `to`, from position `j` on, whose names `from` lacks,
/// reported as added.
pub open spec fn added_entries(from: Seq<TreeLineV>, to: Seq<TreeLineV>, prefix: Seq<char>, j: int) -> Seq<ChangeV>
    decreases to.len() - j,
{
    if j < 0 || j >= to.len() {
        Seq::empty()
    } else if line_named(from, to[j].name) is None {
        seq![ChangeV { kind: ComparedKind::Added, line: at_path(to[j], prefix) }]
            + added_entries(from, to, prefix, j + 1)
    } else {
        added_entries(from, to, prefix, j + 1)
    }
}

/// The changes that the entry `e` of the old tree contributes.
pub open spec fn entry_changes(
    store: Seq<(Seq<char>, ObjectV)>,
    e: TreeLineV,
    to: Seq<TreeLineV>,
    prefix: Seq<char>,
    fuel: nat,
) -> Result<Seq<ChangeV>, GitError>
    decreases fuel, 0int,
{
    match line_named(to, e.name) {
        None => Ok(seq![ChangeV { kind: ComparedKind::Deleted, line: at_path(e, prefix) }]),
        Some(t) => if t.sha1 == e.sha1 {
            Ok(Seq::empty())
        } else if e.kind == TreeLineKind::Tree && t.kind == TreeLineKind::Tree {
            match load_tree(store, e.sha1) {
                Err(x) => Err(x),
                Ok(a) => match load_tree(store, t.sha1) {
                    Err(x) => Err(x),
                    Ok(b) => if fuel == 0 {
                        Err(GitError::CorruptObject)
                    } else {
                        diff_from(store, a, b, join_path(prefix, e.name), (fuel - 1) as nat, 0)
                    },
                },
            }
        } else {
            Ok(seq![ChangeV { kind: ComparedKind::Modified, line: at_path(t, prefix) }])
        },
    }
}

/// The changes from `from` to `to` under `prefix`: those of the old entries
/// from position `i` on, in order, then the added entries. Sub-trees are
/// compared at most `fuel` levels deep; deeper nesting only occurs in a
/// store whose trees contain themselves, and is reported as corrupt.
pub open spec fn diff_from(
    store: Seq<(Seq<char>, ObjectV)>,
    from: Seq<TreeLineV>,
    to: Seq<TreeLineV>,
    prefix: Seq<char>,
    fuel: nat,
    i: int,
) -> Result<Seq<ChangeV>, GitError>
    decreases fuel, 1int, from.len() - i,
{
    if i < 0 || i >= from.len() {
        Ok(added_entries(from, to, prefix, 0))
    } else {
        match entry_changes(store, from[i], to, prefix, fuel) {
            Err(x) => Err(x),
            Ok(h) => prepend(h, diff_from(store, from, to, prefix, fuel, i + 1)),
        }
    }
}

/// The changes from `from` to `to`.
pub open spec fn diff_trees(
    store: Seq<(Seq<char>, ObjectV)>,
    from: Seq<TreeLineV>,
    to: Seq<TreeLineV>,
    prefix: Seq<char>,
    fuel: nat,
) -> Result<Seq<ChangeV>, GitError> {
    diff_from(store, from, to, prefix, fuel, 0)
}

proof fn lemma_prepend_twice(a: Seq<ChangeV>, b: Seq<ChangeV>, r: Result<Seq<ChangeV>, GitError>)
    ensures
        prepend(a, prepend(b, r)) == prepend(a + b, r),
{
    match r {
        Ok(x) => {
            assert(a + (b + x) =~= (a + b) + x);
        },
        Err(_) => {},
    }
}

/// The position of the first entry named `name`, searching from `i`.
pub open spec fn name_position(lines: Seq<TreeLineV>, name: Seq<char>, i: int) -> Option<int>
    decreases lines.len() - i,
{
    if i < 0 || i >= lines.len() {
        None
    } else if lines[i].name == name {
        Some(i)
    } else {
        name_position(lines, name, i + 1)
    }
}

/// Where the first entry named `name` stands.
pub fn find_line_index(lines: &Vec<TreeLine>, name: &String) -> (r: Option<usize>)
    ensures
        match r {
            Some(k) => name_position(lines@.map_values(|l: TreeLine| l@), name@, 0) == Some(k as int),
            None => name_position(lines@.map_values(|l: TreeLine| l@), name@, 0) is None,
        },
        match r {
            Some(k) => k < lines@.len() && line_named(lines@.map_values(|l: TreeLine| l@), name@)
                == Some(lines@[k as int]@),
            None => line_named(lines@.map_values(|l: TreeLine| l@), name@) is None,
        },
{
    let ghost v = lines@.map_values(|l: TreeLine| l@);
    let mut i: usize = 0;
    while i < lines.len()
        invariant
            i <= lines@.len(),
            v.len() == lines@.len(),
            v == lines@.map_values(|l: TreeLine| l@),
            find_line(v, name@, 0) == find_line(v, name@, i as int),
            name_position(v, name@, 0) == name_position(v, name@, i as int),
        decreases lines@.len() - i,
    {
        if lines[i].name == *name {
            return Some(i);
        }
        i += 1;
    }
    None
}

/// `name` under the directory `prefix`.
pub fn join_path_exec(prefix: &String, name: &String) -> (r: String)
    ensures
        r@ == join_path(prefix@, name@),
{
    if prefix.as_str().is_empty() {
        name.clone()
    } else {
        let mut s = prefix.clone();
        s.append("/");
        s.append(name.as_str());
        proof {
            reveal_strlit("/");
            assert(s@ =~= join_path(prefix@, name@));
        }
        s
    }
}

/// The entry `l` renamed to its full path under `prefix`.
fn line_at_path(l: &TreeLine, prefix: &String) -> (r: TreeLine)
    ensures
        r@ == at_path(l@, prefix@),
{
    TreeLine { kind: l.kind, name: join_path_exec(prefix, &l.name), sha1: l.sha1.copied() }
}

/// The changes that the entry `e` of the old tree contributes.
fn entry_changes_exec(
    store: &ObjectStore,
    e: &TreeLine,
    to: &Tree,
    prefix: &String,
    fuel: usize,
) -> (r: Result<Vec<ComparedLine>, GitError>)
    ensures
        match r {
            Ok(v) => entry_changes(store@, e@, to@, prefix@, fuel as nat) == Ok::<Seq<ChangeV>, GitError>(changes_view(v@)),
            Err(x) => entry_changes(store@, e@, to@, prefix@, fuel as nat) == Err::<Seq<ChangeV>, GitError>(x),
        },
    decreases fuel, 0int,
{
    let mut out: Vec<ComparedLine> = Vec::new();
    match find_line_index(&to.objects, &e.name) {
        None => {
            out.push(ComparedLine { kind: ComparedKind::Deleted, line: line_at_path(e, prefix) });
            assert(changes_view(out@) =~= seq![ChangeV { kind: ComparedKind::Deleted, line: at_path(e@, prefix@) }]);
            Ok(out)
        },
        Some(k) => {
            let t = &to.objects[k];
            if t.sha1.same_as(&e.sha1) {
                assert(changes_view(out@) =~= Seq::<ChangeV>::empty());
                Ok(out)
            } else if e.kind.is_tree() && t.kind.is_tree() {
                let a = store.get_tree(&e.sha1.0)?;
                let b = store.get_tree(&t.sha1.0)?;
                if fuel == 0 {
                    return Err(GitError::CorruptObject);
                }
                let sub = join_path_exec(prefix, &e.name);
                compare_tree_with_path(store, &sub, a, b, fuel - 1)
            } else {
                out.push(ComparedLine { kind: ComparedKind::Modified, line: line_at_path(t, prefix) });
                assert(changes_view(out@) =~= seq![ChangeV { kind: ComparedKind::Modified, line: at_path(t@, prefix@) }]);
                Ok(out)
            }
        },
    }
}

/// Compares `from` with `to`, naming entries by their path under `prefix`,
/// and descending at most `fuel` levels into sub-trees that differ.
pub fn compare_tree_with_path(
    store: &ObjectStore,
    prefix: &String,
    from: &Tree,
    to: &Tree,
    fuel: usize,
) -> (r: Result<Vec<ComparedLine>, GitError>)
    ensures
        match r {
            Ok(v) => diff_trees(store@, from@, to@, prefix@, fuel as nat) == Ok::<Seq<ChangeV>, GitError>(changes_view(v@)),
            Err(x) => diff_trees(store@, from@, to@, prefix@, fuel as nat) == Err::<Seq<ChangeV>, GitError>(x),
        },
    decreases fuel, 1int,
{
    let ghost full = diff_from(store@, from@, to@, prefix@, fuel as nat, 0);
    let mut acc: Vec<ComparedLine> = Vec::new();
    let mut i: usize = 0;
    assert(changes_view(acc@) =~= Seq::<ChangeV>::empty());
    assert(prepend(Seq::<ChangeV>::empty(), full) == full) by {
        match full {
            Ok(x) => { assert(Seq::<ChangeV>::empty() + x =~= x); },
            Err(_) => {},
        }
    }
    while i < from.objects.len()
        invariant
            i <= from@.len(),
            from@.len() == from.objects@.len(),
            full == diff_from(store@, from@, to@, prefix@, fuel as nat, 0),
            full == prepend(changes_view(acc@), diff_from(store@, from@, to@, prefix@, fuel as nat, i as int)),
        decreases from@.len() - i,
    {
        let mut here = entry_changes_exec(store, &from.objects[i], to, prefix, fuel)?;
        proof {
            lemma_prepend_twice(changes_view(acc@), changes_view(here@),
                diff_from(store@, from@, to@, prefix@, fuel as nat, i + 1));
        }
        let ghost before = acc@;
        let ghost h = here@;
        acc.append(&mut here);
        assert(changes_view(acc@) =~= changes_view(before) + changes_view(h));
        i += 1;
    }
    assert(full == Ok::<Seq<ChangeV>, GitError>(changes_view(acc@) + added_entries(from@, to@, prefix@, 0)));
    let mut j: usize = 0;
    while j < to.objects.len()
        invariant
            j <= to@.len(),
            to@.len() == to.objects@.len(),
            full == Ok::<Seq<ChangeV>, GitError>(changes_view(acc@) + added_entries(from@, to@, prefix@, j as int)),
        decreases to@.len() - j,
    {
        let t = &to.objects[j];
        let ghost before = acc@;
        match find_line_index(&from.objects, &t.name) {
            None => {
                acc.push(ComparedLine { kind: ComparedKind::Added, line: line_at_path(t, prefix) });
                assert(changes_view(acc@) =~= changes_view(before) + seq![ChangeV { kind: ComparedKind::Added, line: at_path(to@[j as int], prefix@) }]);
                assert(changes_view(acc@) + added_entries(from@, to@, prefix@, j + 1) =~= changes_view(before) + (
                    seq![ChangeV { kind: ComparedKind::Added, line: at_path(to@[j as int], prefix@) }]
                    + added_entries(from@, to@, prefix@, j + 1)));
            },
            Some(_) => {},
        }
        j += 1;
    }
    assert(changes_view(acc@) + Seq::<ChangeV>::empty() =~= changes_view(acc@));
    Ok(acc)
}

/// The changes from `from` to `to`, named by their paths from the root.
/// Sub-trees are compared as deep as the store could nest them.
pub fn compare_trees(store: &ObjectStore, from: &Tree, to: &Tree) -> (r: Result<Vec<ComparedLine>, GitError>)
    ensures
        match r {
            Ok(v) => diff_trees(store@, from@, to@, Seq::empty(), store@.len()) == Ok::<Seq<ChangeV>, GitError>(changes_view(v@)),
            Err(x) => diff_trees(store@, from@, to@, Seq::empty(), store@.len()) == Err::<Seq<ChangeV>, GitError>(x),
        },
{
    let root = String::new();
    compare_tree_with_path(store, &root, from, to, store.entries.len())
}

/// No two entries share a name.
pub open spec fn names_unique(t: Seq<TreeLineV>) -> bool {
    forall|i: int, j: int| 0 <= i < t.len() && 0 <= j < t.len() && i != j ==> t[i].name != t[j].name
}

/// `path` lies inside the directory `dir`.
pub open spec fn is_under(path: Seq<char>, dir: Seq<char>) -> bool {
    path.len() > dir.len() && path.subrange(0, dir.len() as int) == dir && path[dir.len() as int] == '/'
}

/// Every change of `v` lies inside the directory `dir`.
pub open spec fn all_under(v: Seq<ChangeV>, dir: Seq<char>) -> bool {
    forall|k: int| 0 <= k < v.len() ==> is_under(#[trigger] v[k].line.name, dir)
}

/// Each entry of `t`, as a change of the given kind under `prefix`.
pub open spec fn every_entry(t: Seq<TreeLineV>, kind: ComparedKind, prefix: Seq<char>) -> Seq<ChangeV> {
    t.map_values(|l: TreeLineV| ChangeV { kind: kind, line: at_path(l, prefix) })
}

proof fn lemma_find_at(t: Seq<TreeLineV>, name: Seq<char>, k: int, i: int)
    requires
        0 <= k <= i < t.len(),
        t[i].name == name,
        forall|j: int| k <= j < i ==> t[j].name != name,
    ensures
        find_line(t, name, k) == Some(t[i]),
    decreases i - k,
{
    if k < i {
        lemma_find_at(t, name, k + 1, i);
    }
}

proof fn lemma_find_unique(t: Seq<TreeLineV>, i: int)
    requires
        names_unique(t),
        0 <= i < t.len(),
    ensures
        line_named(t, t[i].name) == Some(t[i]),
{
    lemma_find_at(t, t[i].name, 0, i);
}

proof fn lemma_added_none(from: Seq<TreeLineV>, to: Seq<TreeLineV>, prefix: Seq<char>, j: int)
    requires
        0 <= j,
        forall|k: int| j <= k < to.len() ==> line_named(from, #[trigger] to[k].name) is Some,
    ensures
        added_entries(from, to, prefix, j) == Seq::<ChangeV>::empty(),
    decreases to.len() - j,
{
    if j < to.len() {
        lemma_added_none(from, to, prefix, j + 1);
    }
}

proof fn lemma_diff_self_from(store: Seq<(Seq<char>, ObjectV)>, t: Seq<TreeLineV>, prefix: Seq<char>, fuel: nat, i: int)
    requires
        names_unique(t),
        0 <= i <= t.len(),
    ensures
        diff_from(store, t, t, prefix, fuel, i) == Ok::<Seq<ChangeV>, GitError>(Seq::empty()),
    decreases t.len() - i,
{
    if i < t.len() {
        lemma_find_unique(t, i);
        lemma_diff_self_from(store, t, prefix, fuel, i + 1);
        assert(entry_changes(store, t[i], t, prefix, fuel) == Ok::<Seq<ChangeV>, GitError>(Seq::empty()));
        assert(Seq::<ChangeV>::empty() + Seq::<ChangeV>::empty() =~= Seq::<ChangeV>::empty());
        assert(prepend(Seq::<ChangeV>::empty(), Ok::<Seq<ChangeV>, GitError>(Seq::empty()))
            == Ok::<Seq<ChangeV>, GitError>(Seq::empty()));
    } else {
        assert forall|k: int| 0 <= k < t.len() implies line_named(t, #[trigger] t[k].name) is Some by {
            lemma_find_unique(t, k);
        }
        lemma_added_none(t, t, prefix, 0);
    }
}

/// Comparing a tree (whose entry names are distinct) with itself reports no
/// change.
pub proof fn law_diff_self(store: Seq<(Seq<char>, ObjectV)>, t: Seq<TreeLineV>, prefix: Seq<char>, fuel: nat)
    requires
        names_unique(t),
    ensures
        diff_trees(store, t, t, prefix, fuel) == Ok::<Seq<ChangeV>, GitError>(Seq::empty()),
{
    lemma_diff_self_from(store, t, prefix, fuel, 0);
}

proof fn lemma_added_from_empty(t: Seq<TreeLineV>, prefix: Seq<char>, j: int)
    requires
        0 <= j <= t.len(),
    ensures
        added_entries(Seq::empty(), t, prefix, j) == every_entry(t.subrange(j, t.len() as int), ComparedKind::Added, prefix),
    decreases t.len() - j,
{
    if j < t.len() {
        lemma_added_from_empty(t, prefix, j + 1);
        assert(every_entry(t.subrange(j, t.len() as int), ComparedKind::Added, prefix) =~= seq![
            ChangeV { kind: ComparedKind::Added, line: at_path(t[j], prefix) }]
            + every_entry(t.subrange(j + 1, t.len() as int), ComparedKind::Added, prefix));
    } else {
        assert(every_entry(t.subrange(j, t.len() as int), ComparedKind::Added, prefix) =~= Seq::<ChangeV>::empty());
    }
}

/// Comparing the empty tree with `t` reports each entry of `t` as added,
/// under its full path, in the order of `t`.
pub proof fn law_diff_from_empty(store: Seq<(Seq<char>, ObjectV)>, t: Seq<TreeLineV>, prefix: Seq<char>, fuel: nat)
    ensures
        diff_trees(store, Seq::empty(), t, prefix, fuel)
            == Ok::<Seq<ChangeV>, GitError>(every_entry(t, ComparedKind::Added, prefix)),
{
    lemma_added_from_empty(t, prefix, 0);
    assert(t.subrange(0, t.len() as int) =~= t);
}

proof fn lemma_diff_to_empty_from(store: Seq<(Seq<char>, ObjectV)>, t: Seq<TreeLineV>, prefix: Seq<char>, fuel: nat, i: int)
    requires
        0 <= i <= t.len(),
    ensures
        diff_from(store, t, Seq::empty(), prefix, fuel, i)
            == Ok::<Seq<ChangeV>, GitError>(every_entry(t.subrange(i, t.len() as int), ComparedKind::Deleted, prefix)),
    decreases t.len() - i,
{
    if i < t.len() {
        lemma_diff_to_empty_from(store, t, prefix, fuel, i + 1);
        assert(line_named(Seq::<TreeLineV>::empty(), t[i].name) is None);
        assert(entry_changes(store, t[i], Seq::empty(), prefix, fuel) == Ok::<Seq<ChangeV>, GitError>(
            seq![ChangeV { kind: ComparedKind::Deleted, line: at_path(t[i], prefix) }]));
        assert(every_entry(t.subrange(i, t.len() as int), ComparedKind::Deleted, prefix) =~= seq![
            ChangeV { kind: ComparedKind::Deleted, line: at_path(t[i], prefix) }]
            + every_entry(t.subrange(i + 1, t.len() as int), ComparedKind::Deleted, prefix));
    } else {
        assert(every_entry(t.subrange(i, t.len() as int), ComparedKind::Deleted, prefix) =~= Seq::<ChangeV>::empty());
    }
}

/// Comparing `t` with the empty tree reports each entry of `t` as deleted,
/// under its full path, in the order of `t`.
pub proof fn law_diff_to_empty(store: Seq<(Seq<char>, ObjectV)>, t: Seq<TreeLineV>, prefix: Seq<char>, fuel: nat)
    ensures
        diff_trees(store, t, Seq::empty(), prefix, fuel)
            == Ok::<Seq<ChangeV>, GitError>(every_entry(t, ComparedKind::Deleted, prefix)),
{
    lemma_diff_to_empty_from(store, t, prefix, fuel, 0);
    assert(t.subrange(0, t.len() as int) =~= t);
}

proof fn lemma_at_path_under(l: TreeLineV, prefix: Seq<char>)
    requires
        prefix.len() > 0,
    ensures
        is_under(at_path(l, prefix).name, prefix),
{
    let p = at_path(l, prefix).name;
    assert(p =~= prefix + seq!['/'] + l.name);
    assert(p.subrange(0, prefix.len() as int) =~= prefix);
}

proof fn lemma_under_trans(path: Seq<char>, prefix: Seq<char>, name: Seq<char>)
    requires
        prefix.len() > 0,
        is_under(path, join_path(prefix, name)),
    ensures
        is_under(path, prefix),
{
    let d = join_path(prefix, name);
    assert(d =~= prefix + seq!['/'] + name);
    assert(path.subrange(0, prefix.len() as int) =~= path.subrange(0, d.len() as int).subrange(0, prefix.len() as int));
    assert(d.subrange(0, prefix.len() as int) =~= prefix);
    assert(path[prefix.len() as int] == path.subrange(0, d.len() as int)[prefix.len() as int]);
    assert(d[prefix.len() as int] == '/');
}

proof fn lemma_entry_under(
    store: Seq<(Seq<char>, ObjectV)>,
    e: TreeLineV,
    to: Seq<TreeLineV>,
    prefix: Seq<char>,
    fuel: nat,
)
    requires
        prefix.len() > 0,
    ensures
        entry_changes(store, e, to, prefix, fuel) matches Ok(v) ==> all_under(v, prefix),
    decreases fuel, 0int,
{
    match line_named(to, e.name) {
        None => {
            lemma_at_path_under(e, prefix);
        },
        Some(t) => {
            if t.sha1 == e.sha1 {
            } else if e.kind == TreeLineKind::Tree && t.kind == TreeLineKind::Tree {
                match load_tree(store, e.sha1) {
                    Err(_) => {},
                    Ok(a) => match load_tree(store, t.sha1) {
                        Err(_) => {},
                        Ok(b) => if fuel > 0 {
                            let sub = join_path(prefix, e.name);
                            lemma_diff_under(store, a, b, sub, (fuel - 1) as nat, 0);
                            if let Ok(v) = diff_from(store, a, b, sub, (fuel - 1) as nat, 0) {
                                assert forall|k: int| 0 <= k < v.len() implies is_under(#[trigger] v[k].line.name, prefix) by {
                                    lemma_under_trans(v[k].line.name, prefix, e.name);
                                }
                            }
                        },
                    },
                }
            } else {
                lemma_at_path_under(t, prefix);
            }
        },
    }
}

proof fn lemma_added_under(from: Seq<TreeLineV>, to: Seq<TreeLineV>, prefix: Seq<char>, j: int)
    requires
        prefix.len() > 0,
    ensures
        all_under(added_entries(from, to, prefix, j), prefix),
    decreases to.len() - j,
{
    if 0 <= j < to.len() {
        lemma_added_under(from, to, prefix, j + 1);
        lemma_at_path_under(to[j], prefix);
        let rest = added_entries(from, to, prefix, j + 1);
        let x = seq![ChangeV { kind: ComparedKind::Added, line: at_path(to[j], prefix) }];
        assert forall|k: int| 0 <= k < (x + rest).len() implies is_under(#[trigger] (x + rest)[k].line.name, prefix) by {
            if k > 0 {
                assert((x + rest)[k] == rest[k - 1]);
            }
        }
    }
}

proof fn lemma_diff_under(
    store: Seq<(Seq<char>, ObjectV)>,
    from: Seq<TreeLineV>,
    to: Seq<TreeLineV>,
    prefix: Seq<char>,
    fuel: nat,
    i: int,
)
    requires
        prefix.len() > 0,
    ensures
        diff_from(store, from, to, prefix, fuel, i) matches Ok(v) ==> all_under(v, prefix),
    decreases fuel, 1int, from.len() - i,
{
    if i < 0 || i >= from.len() {
        lemma_added_under(from, to, prefix, 0);
    } else {
        lemma_entry_under(store, from[i], to, prefix, fuel);
        lemma_diff_under(store, from, to, prefix, fuel, i + 1);
        if let Ok(h) = entry_changes(store, from[i], to, prefix, fuel) {
            if let Ok(r) = diff_from(store, from, to, prefix, fuel, i + 1) {
                assert forall|k: int| 0 <= k < (h + r).len() implies is_under(#[trigger] (h + r)[k].line.name, prefix) by {
                    if k >= h.len() {
                        assert((h + r)[k] == r[k - h.len()]);
                    }
                }
            }
        }
    }
}

proof fn lemma_position_facts(t: Seq<TreeLineV>, name: Seq<char>, i: int)
    requires
        0 <= i,
    ensures
        name_position(t, name, i) matches Some(k) ==> i <= k < t.len() && t[k].name == name,
    decreases t.len() - i,
{
    if i < t.len() {
        lemma_position_facts(t, name, i + 1);
    }
}

/// When two trees (with distinct names) agree on every entry but the one at
/// position `k`, which keeps its name, comparing them from position `i` on
/// gives what that entry gives, or nothing once past it.
proof fn lemma_diff_single(
    store: Seq<(Seq<char>, ObjectV)>,
    from: Seq<TreeLineV>,
    to: Seq<TreeLineV>,
    k: int,
    prefix: Seq<char>,
    fuel: nat,
    i: int,
)
    requires
        0 <= k < from.len(),
        from.len() == to.len(),
        names_unique(from),
        names_unique(to),
        forall|j: int| 0 <= j < from.len() && j != k ==> to[j] == from[j],
        to[k].name == from[k].name,
        0 <= i <= from.len(),
    ensures
        diff_from(store, from, to, prefix, fuel, i) == if i <= k {
            entry_changes(store, from[k], to, prefix, fuel)
        } else {
            Ok::<Seq<ChangeV>, GitError>(Seq::empty())
        },
    decreases from.len() - i,
{
    if i < from.len() {
        lemma_diff_single(store, from, to, k, prefix, fuel, i + 1);
        lemma_find_unique(to, i);
        assert(to[i].name == from[i].name);
        if i != k {
            assert(entry_changes(store, from[i], to, prefix, fuel) == Ok::<Seq<ChangeV>, GitError>(Seq::empty()));
            if let Ok(x) = diff_from(store, from, to, prefix, fuel, i + 1) {
                assert(Seq::<ChangeV>::empty() + x =~= x);
            }
        } else {
            if let Ok(h) = entry_changes(store, from[k], to, prefix, fuel) {
                assert(h + Seq::<ChangeV>::empty() =~= h);
            }
        }
    } else {
        assert forall|j: int| 0 <= j < to.len() implies line_named(from, #[trigger] to[j].name) is Some by {
            lemma_find_unique(from, j);
        }
        lemma_added_none(from, to, prefix, 0);
    }
}

/// Two trees (with distinct names) that differ only along the path `path`:
/// the entry named by its first segment is a sub-tree on both sides, every
/// other entry is the same, and, where the sub-trees differ and the path
/// goes on, they differ only along the rest of it.
pub open spec fn differs_only_along(
    store: Seq<(Seq<char>, ObjectV)>,
    from: Seq<TreeLineV>,
    to: Seq<TreeLineV>,
    path: Seq<Seq<char>>,
) -> bool
    decreases path.len(),
{
    &&& path.len() > 0
    &&& path[0].len() > 0
    &&& from.len() == to.len()
    &&& names_unique(from)
    &&& names_unique(to)
    &&& match name_position(from, path[0], 0) {
        None => false,
        Some(k) => {
            &&& to[k].name == path[0]
            &&& from[k].kind == TreeLineKind::Tree
            &&& to[k].kind == TreeLineKind::Tree
            &&& forall|j: int| 0 <= j < from.len() && j != k ==> to[j] == from[j]
            &&& (path.len() > 1 && from[k].sha1 != to[k].sha1) ==> match load_tree(store, from[k].sha1) {
                Ok(a) => match load_tree(store, to[k].sha1) {
                    Ok(b) => differs_only_along(store, a, b, path.drop_first()),
                    Err(_) => true,
                },
                Err(_) => true,
            }
        },
    }
}

/// The directory that the path `path` names under `prefix`.
pub open spec fn path_under(prefix: Seq<char>, path: Seq<Seq<char>>) -> Seq<char>
    decreases path.len(),
{
    if path.len() <= 1 {
        join_path(prefix, path[0])
    } else {
        path_under(join_path(prefix, path[0]), path.drop_first())
    }
}

/// When two trees differ only inside the sub-tree at path `path` (segment
/// by segment), every change reported between them, named from `prefix`,
/// lies inside that sub-tree.
pub proof fn law_diff_inside_subtree(
    store: Seq<(Seq<char>, ObjectV)>,
    from: Seq<TreeLineV>,
    to: Seq<TreeLineV>,
    prefix: Seq<char>,
    path: Seq<Seq<char>>,
    fuel: nat,
)
    requires
        differs_only_along(store, from, to, path),
    ensures
        diff_trees(store, from, to, prefix, fuel) matches Ok(v) ==> all_under(v, path_under(prefix, path)),
    decreases path.len(),
{
    let first = path[0];
    lemma_position_facts(from, first, 0);
    let k = name_position(from, first, 0)->Some_0;
    lemma_diff_single(store, from, to, k, prefix, fuel, 0);
    lemma_find_unique(to, k);
    let sub = join_path(prefix, first);
    assert(sub.len() > 0);
    if to[k].sha1 != from[k].sha1 && fuel > 0 {
        if let Ok(a) = load_tree(store, from[k].sha1) {
            if let Ok(b) = load_tree(store, to[k].sha1) {
                if path.len() == 1 {
                    lemma_diff_under(store, a, b, sub, (fuel - 1) as nat, 0);
                } else {
                    law_diff_inside_subtree(store, a, b, sub, path.drop_first(), (fuel - 1) as nat);
                }
            }
        }
    }
}

proof fn lemma_find_facts(t: Seq<TreeLineV>, name: Seq<char>, i: int)
    requires
        0 <= i,
    ensures
        find_line(t, name, i) matches Some(e) ==> e.name == name && t.contains(e),
        find_line(t, name, i) is None <==> (forall|j: int| i <= j < t.len() ==> #[trigger] t[j].name != name),
    decreases t.len() - i,
{
    if i < t.len() {
        lemma_find_facts(t, name, i + 1);
        if t[i].name == name {
            assert(t.contains(t[i]));
        }
    }
}

/// What a lookup by name finds is an entry of the tree with that name, and
/// it finds nothing exactly when no entry has the name.
pub proof fn lemma_line_named(t: Seq<TreeLineV>, name: Seq<char>)
    ensures
        line_named(t, name) matches Some(e) ==> e.name == name && t.contains(e),
        line_named(t, name) is None <==> (forall|j: int| 0 <= j < t.len() ==> #[trigger] t[j].name != name),
{
    lemma_find_facts(t, name, 0);
}

/// In a tree with distinct names, looking up an entry's name finds it.
pub proof fn lemma_line_named_member(t: Seq<TreeLineV>, e: TreeLineV)
    requires
        names_unique(t),
        t.contains(e),
    ensures
        line_named(t, e.name) == Some(e),
{
    let i = choose|i: int| 0 <= i < t.len() && t[i] == e;
    lemma_find_unique(t, i);
}

} // verus!
