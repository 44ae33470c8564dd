//! The repository: its object store, branches, HEAD and index, and the
//! operations that move data between them. Reading and writing the files
//! that hold this state is left to the caller.

use crate::diff::{ChangeV, ComparedLine, changes_view, compare_trees, diff_trees};
use crate::merge::{Conflict, MergeV, auto_merge_trees, commit_history, conflicts_view, get_merge_base, history, merge_base, merge_level, put_trees};
use crate::diff::name_position;
use crate::tree::{MutableTree, sort_lines, without};
use vstd::string::StringExecFns;
use crate::object::{
    Commit, CommitV, Object, ObjectSha1, ObjectV, Sha1Able, Tree, TreeLineV, object_digest,
};
use crate::refs::{
    Branch, BranchV, EMPTY_BRANCH_HEAD_PLACEHOLDER, Head, HeadKind, full_name_of, parse_full_name,
    valid_branch_name,
};
use crate::store::{GitError, ObjectStore, load_tree, put_object, store_get};
use vstd::prelude::*;

verus! {

/// Relies on `chrono::Utc::now` with `timestamp` and
/// `timestamp_subsec_nanos`: the current time as seconds and nanoseconds
/// since the epoch. Nothing is promised of the value.
#[verifier::external_body]
fn now() -> (r: (i64, u32)) {
    let t = chrono::Utc::now();
    (t.timestamp(), t.timestamp_subsec_nanos())
}

/// What a new commit records besides its time.
pub struct CommitBuilder {
    pub tree: ObjectSha1,
    pub parent: Option<ObjectSha1>,
    pub message: String,
}

impl Commit {
    /// A commit of the given contents made at `timestamp`.
    pub fn at(by: CommitBuilder, timestamp: (i64, u32)) -> (r: Commit)
        ensures
            r.tree == by.tree,
            r.parent == by.parent,
            r.message == by.message,
            r.timestamp == timestamp,
    {
        Commit { tree: by.tree, parent: by.parent, timestamp, message: by.message }
    }

    /// A commit of the given contents made now.
    pub fn new(by: CommitBuilder) -> (r: Commit)
        ensures
            r.tree == by.tree,
            r.parent == by.parent,
            r.message == by.message,
    {
        Commit::at(by, now())
    }
}

/// The staging area: the tree the next commit will record.
pub struct Stage(pub Tree);

impl Stage {
    /// The empty staging area.
    pub fn empty() -> (r: Stage)
        ensures
            r.0@ == Seq::<TreeLineV>::empty(),
    {
        Stage(Tree::empty())
    }
}

/// The branch at position `bi`, if any.
pub open spec fn opt_branch(bs: Seq<BranchV>, bi: Option<int>) -> Option<BranchV> {
    match bi {
        Some(k) => Some(bs[k]),
        None => None,
    }
}

/// A position, as an integer.
pub open spec fn opt_index(bi: Option<usize>) -> Option<int> {
    match bi {
        Some(k) => Some(k as int),
        None => None,
    }
}

/// The views of a list of branches.
pub open spec fn branches_view(v: Seq<Branch>) -> Seq<BranchV> {
    v.map_values(|b: Branch| b@)
}

/// The position of the first branch with full name `full` from `i` on.
pub open spec fn branch_from(bs: Seq<BranchV>, full: Seq<char>, i: int) -> Option<int>
    decreases bs.len() - i,
{
    if i < 0 || i >= bs.len() {
        None
    } else if full_name_of(bs[i].remote, bs[i].name) == full {
        Some(i)
    } else {
        branch_from(bs, full, i + 1)
    }
}

/// The position of the branch with full name `full`.
pub open spec fn branch_index(bs: Seq<BranchV>, full: Seq<char>) -> Option<int> {
    branch_from(bs, full, 0)
}

/// Whether the branch points at a commit.
pub open spec fn has_commit(b: BranchV) -> bool {
    b.head != EMPTY_BRANCH_HEAD_PLACEHOLDER@
}

/// The commit that `key` resolves to.
pub open spec fn load_commit(s: Seq<(Seq<char>, ObjectV)>, key: Seq<char>) -> Result<CommitV, GitError> {
    match store_get(s, key) {
        None => Err(GitError::NotFound),
        Some(ObjectV::Commit(c)) => Ok(c),
        Some(_) => Err(GitError::CorruptObject),
    }
}

/// The tree of the commit at the head of branch `b`: the empty tree for a
/// branch without commits.
pub open spec fn head_tree(s: Seq<(Seq<char>, ObjectV)>, b: Option<BranchV>) -> Result<Seq<TreeLineV>, GitError> {
    match b {
        Some(br) => if has_commit(br) {
            match load_commit(s, br.head) {
                Err(e) => Err(e),
                Ok(c) => load_tree(s, c.tree),
            }
        } else {
            Ok(Seq::empty())
        },
        None => Ok(Seq::empty()),
    }
}

/// What a successful commit reports.
pub struct CommitCreationInfo {
    /// The changes against the previous commit (none for a root commit).
    pub compared: Option<Vec<ComparedLine>>,
    pub commit_sha1: String,
    pub is_root: bool,
    pub branch_name: String,
}

/// The outcome of a commit: made, or nothing to commit.
pub enum CommitCreateResult {
    Success(CommitCreationInfo),
    NothingToCommit,
}

/// What a merge did: stopped on conflicts, or made a merge commit.
pub enum MergeReport {
    /// The conflicts; nothing was changed.
    Conflicts(Vec<Conflict>),
    /// The merge commit, and the changes that bring the working directory
    /// from the old head's tree to the merged tree.
    Merged { commit_sha1: String, changes: Vec<ComparedLine> },
}

/// Why a branch could not be created.
#[derive(Clone, Copy, Debug, PartialEq, Eq, Structural)]
pub enum BranchCreationError {
    AlreadyExists,
    InvalidName,
}

/// Why a repository could not be opened or created.
#[derive(Clone, Copy, Debug, PartialEq, Eq, Structural)]
pub enum RepositoryInitError {
    /// There is no repository here.
    NotInitialized,
    /// The metadata directory is broken.
    BadGitRepositoryDir,
    /// A file stands where a directory belongs.
    NotADirectory,
    /// A directory to be created exists already.
    AlreadyExists,
    /// Another file-system error.
    UnknownError,
}

impl RepositoryInitError {
    /// The repository error this amounts to.
    pub fn to_git_error(self) -> (r: GitError)
        ensures
            r == match self {
                RepositoryInitError::NotInitialized => GitError::NotARepository,
                RepositoryInitError::BadGitRepositoryDir => GitError::BadRepositoryLayout,
                RepositoryInitError::NotADirectory => GitError::BadRepositoryLayout,
                RepositoryInitError::AlreadyExists => GitError::AlreadyExists,
                RepositoryInitError::UnknownError => GitError::Io,
            },
    {
        match self {
            RepositoryInitError::NotInitialized => GitError::NotARepository,
            RepositoryInitError::BadGitRepositoryDir => GitError::BadRepositoryLayout,
            RepositoryInitError::NotADirectory => GitError::BadRepositoryLayout,
            RepositoryInitError::AlreadyExists => GitError::AlreadyExists,
            RepositoryInitError::UnknownError => GitError::Io,
        }
    }
}

/// `a` and `b` hold the same state.
pub open spec fn same_state(a: &Repository, b: &Repository) -> bool {
    &&& a.objects@ == b.objects@
    &&& branches_view(a.branches@) == branches_view(b.branches@)
    &&& a.head == b.head
    &&& a.index.0@ == b.index.0@
}

/// The message of the commit that merges branch `name`.
pub open spec fn merge_message(name: Seq<char>) -> Seq<char> {
    "Merge branch '"@ + name + "'"@
}

proof fn lemma_history_commits(s: Seq<(Seq<char>, ObjectV)>, c: Seq<char>, n: nat)
    ensures
        history(s, c, n) matches Ok(h) ==> forall|j: int| 0 <= j < h.len() ==> load_commit(s, #[trigger] h[j]) is Ok,
    decreases n,
{
    if n > 0 {
        match crate::merge::commit_parent(s, c) {
            Ok(Some(p)) => {
                lemma_history_commits(s, p, (n - 1) as nat);
                if let Ok(x) = history(s, p, (n - 1) as nat) {
                    let h = seq![c] + x;
                    assert forall|j: int| 0 <= j < h.len() implies load_commit(s, #[trigger] h[j]) is Ok by {
                        if j > 0 {
                            assert(h[j] == x[j - 1]);
                        }
                    }
                }
            },
            _ => {},
        }
    }
}

/// What recording the index as a commit made at `ts` does, from the state
/// `old` to the state `new`, with result `r`: an error from reading the
/// head commit's tree or comparing it with the index leaves everything as it
/// was; an index with no change against that tree (the empty tree for a
/// branch without commits) is nothing to commit; otherwise the index tree
/// and the commit are put and the branch (created when missing) moves to
/// the commit.
pub open spec fn commit_outcome(
    old: &Repository,
    new: &Repository,
    message: Seq<char>,
    ts: (i64, u32),
    r: Result<CommitCreateResult, GitError>,
) -> bool {
    &&& new.head == old.head
    &&& new.index.0@ == old.index.0@
    &&& ({
        let bs = branches_view(old.branches@);
        let bi = branch_index(bs, old.head.branch_name@);
        let cur = opt_branch(bs, bi);
        let had_commit = cur matches Some(b) && has_commit(b);
        let t_new = old.index.0@;
        match r {
            Err(e) => new.objects@ == old.objects@
                && branches_view(new.branches@) == bs
                && (head_tree(old.objects@, cur) == Err::<Seq<TreeLineV>, GitError>(e)
                || (head_tree(old.objects@, cur) is Ok && diff_trees(old.objects@,
                    head_tree(old.objects@, cur)->Ok_0, t_new, Seq::empty(), old.objects@.len())
                    == Err::<Seq<ChangeV>, GitError>(e))),
            Ok(CommitCreateResult::NothingToCommit) => new.objects@ == old.objects@
                && branches_view(new.branches@) == bs
                && head_tree(old.objects@, cur) is Ok
                && diff_trees(old.objects@, head_tree(old.objects@, cur)->Ok_0, t_new,
                    Seq::empty(), old.objects@.len()) == Ok::<Seq<ChangeV>, GitError>(Seq::empty()),
            Ok(CommitCreateResult::Success(info)) => {
                let cv = CommitV {
                    tree: object_digest(ObjectV::Tree(t_new)),
                    parent: if had_commit { Some(cur->Some_0.head) } else { None },
                    secs: ts.0,
                    nanos: ts.1,
                    message: message,
                };
                let digest = object_digest(ObjectV::Commit(cv));
                let moved = match bi {
                    Some(k) => BranchV { head: digest, ..bs[k] },
                    None => BranchV {
                        remote: parse_full_name(old.head.branch_name@).0,
                        name: parse_full_name(old.head.branch_name@).1,
                        head: digest,
                    },
                };
                &&& head_tree(old.objects@, cur) is Ok
                &&& diff_trees(old.objects@, head_tree(old.objects@, cur)->Ok_0, t_new,
                    Seq::empty(), old.objects@.len()) matches Ok(ch) && ch.len() > 0
                    && (info.compared matches Some(v) ==> changes_view(v@) == ch)
                &&& info.compared is Some == had_commit
                &&& new.objects@ == put_object(
                    put_object(old.objects@, ObjectV::Tree(t_new)),
                    ObjectV::Commit(cv),
                )
                &&& branches_view(new.branches@) == match bi {
                    Some(k) => bs.update(k, moved),
                    None => bs.push(moved),
                }
                &&& info.commit_sha1@ == digest
                &&& info.is_root == !had_commit
                &&& info.branch_name@ == full_name_of(moved.remote, moved.name)
            },
        }
    })
}

/// The tree of the commit stored under `key`.
pub open spec fn commit_tree_of(s: Seq<(Seq<char>, ObjectV)>, key: Seq<char>) -> Result<Seq<TreeLineV>, GitError> {
    match load_commit(s, key) {
        Err(e) => Err(e),
        Ok(c) => load_tree(s, c.tree),
    }
}

/// What a merge of branch `theirs` into the current branch `head` works on:
/// the positions of our and their branches, and the trees of the merge
/// base, of our head and of their head; or the first failure in finding
/// them, in that order.
pub open spec fn merge_inputs(
    s: Seq<(Seq<char>, ObjectV)>,
    bs: Seq<BranchV>,
    head: Seq<char>,
    theirs: Seq<char>,
) -> Result<(int, int, Seq<TreeLineV>, Seq<TreeLineV>, Seq<TreeLineV>), GitError> {
    match branch_index(bs, theirs) {
        None => Err(GitError::NotFound),
        Some(ti) => match branch_index(bs, head) {
            None => Err(GitError::NotFound),
            Some(oi) => match merge_base(s, bs[oi].head, bs[ti].head, s.len()) {
                Err(e) => Err(e),
                Ok(base) => match commit_tree_of(s, base) {
                    Err(e) => Err(e),
                    Ok(bt) => match commit_tree_of(s, bs[oi].head) {
                        Err(e) => Err(e),
                        Ok(ot) => match commit_tree_of(s, bs[ti].head) {
                            Err(e) => Err(e),
                            Ok(tt) => Ok((oi, ti, bt, ot, tt)),
                        },
                    },
                },
            },
        },
    }
}

/// What merging branch `theirs` into the current branch at `ts` does, from
/// state `old` to state `new`, with result `r`. A failure in finding the
/// inputs or in merging the trees is returned and changes nothing. When the
/// merge of the three trees has conflicts they are returned, exactly, and
/// nothing changes. Otherwise the merged sub-trees are put; comparing our
/// tree with the merged tree gives the changes for the working directory (a
/// failure there is returned, with only the sub-trees put); then the merged
/// tree and a commit of it (parent: our head; message `Merge branch
/// '<name>'`) are put, our branch moves to the commit and the index becomes
/// the merged tree.
pub open spec fn merge_outcome(
    old: &Repository,
    new: &Repository,
    theirs: Seq<char>,
    ts: (i64, u32),
    r: Result<MergeReport, GitError>,
) -> bool {
    let s0 = old.objects@;
    let bs = branches_view(old.branches@);
    &&& new.head == old.head
    &&& match merge_inputs(s0, bs, old.head.branch_name@, theirs) {
        Err(e) => r == Err::<MergeReport, GitError>(e) && same_state(new, old),
        Ok((oi, ti, bt, ot, tt)) => match merge_level(s0, bt, ot, tt, Seq::empty(), s0.len()) {
            Err(e) => r == Err::<MergeReport, GitError>(e) && same_state(new, old),
            Ok(m) => if m.conflicts.len() > 0 {
                same_state(new, old) && match r {
                    Ok(MergeReport::Conflicts(c)) => conflicts_view(c@) == m.conflicts,
                    _ => false,
                }
            } else {
                let s1 = put_trees(s0, m.subtrees);
                let merged = sort_lines(m.entries);
                let cv = CommitV {
                    tree: object_digest(ObjectV::Tree(merged)),
                    parent: Some(bs[oi].head),
                    secs: ts.0,
                    nanos: ts.1,
                    message: merge_message(bs[ti].name),
                };
                let digest = object_digest(ObjectV::Commit(cv));
                match diff_trees(s1, ot, merged, Seq::empty(), s1.len()) {
                    Err(e) => r == Err::<MergeReport, GitError>(e) && new.objects@ == s1
                        && branches_view(new.branches@) == bs && new.index.0@ == old.index.0@,
                    Ok(ch) => match r {
                        Ok(MergeReport::Merged { commit_sha1, changes }) => {
                            &&& changes_view(changes@) == ch
                            &&& commit_sha1@ == digest
                            &&& new.objects@ == put_object(put_object(s1, ObjectV::Tree(merged)), ObjectV::Commit(cv))
                            &&& branches_view(new.branches@) == bs.update(oi, BranchV { head: digest, ..bs[oi] })
                            &&& new.index.0@ == merged
                        },
                        _ => false,
                    },
                }
            },
        },
    }
}

/// No two branches share a full name.
pub open spec fn branches_distinct(bs: Seq<BranchV>) -> bool {
    forall|i: int, j: int|
        0 <= i < j < bs.len() ==> full_name_of(bs[i].remote, bs[i].name) != full_name_of(bs[j].remote, bs[j].name)
}

proof fn lemma_branch_from_none(bs: Seq<BranchV>, full: Seq<char>, i: int)
    requires
        0 <= i,
        branch_from(bs, full, i) is None,
    ensures
        forall|j: int| i <= j < bs.len() ==> full_name_of(bs[j].remote, bs[j].name) != full,
    decreases bs.len() - i,
{
    if i < bs.len() {
        lemma_branch_from_none(bs, full, i + 1);
    }
}

/// Adding a branch whose full name no branch has keeps full names distinct.
proof fn lemma_distinct_push(bs: Seq<BranchV>, b: BranchV)
    requires
        branches_distinct(bs),
        branch_index(bs, full_name_of(b.remote, b.name)) is None,
    ensures
        branches_distinct(bs.push(b)),
{
    lemma_branch_from_none(bs, full_name_of(b.remote, b.name), 0);
    let t = bs.push(b);
    assert forall|i: int, j: int| 0 <= i < j < t.len() implies
        full_name_of(t[i].remote, t[i].name) != full_name_of(t[j].remote, t[j].name) by {
        assert(t[i] == bs[i]);
        if j < bs.len() {
            assert(t[j] == bs[j]);
        }
    }
}

/// Moving a branch's head keeps full names distinct.
proof fn lemma_distinct_update(bs: Seq<BranchV>, k: int, b: BranchV)
    requires
        branches_distinct(bs),
        0 <= k < bs.len(),
        b.remote == bs[k].remote,
        b.name == bs[k].name,
    ensures
        branches_distinct(bs.update(k, b)),
{
    let t = bs.update(k, b);
    assert forall|i: int, j: int| 0 <= i < j < t.len() implies
        full_name_of(t[i].remote, t[i].name) != full_name_of(t[j].remote, t[j].name) by {
        assert(full_name_of(t[i].remote, t[i].name) == full_name_of(bs[i].remote, bs[i].name));
        assert(full_name_of(t[j].remote, t[j].name) == full_name_of(bs[j].remote, bs[j].name));
    }
}

/// Removing a branch keeps full names distinct.
proof fn lemma_distinct_remove(bs: Seq<BranchV>, k: int)
    requires
        branches_distinct(bs),
        0 <= k < bs.len(),
    ensures
        branches_distinct(bs.remove(k)),
{
    let t = bs.remove(k);
    assert forall|i: int, j: int| 0 <= i < j < t.len() implies
        full_name_of(t[i].remote, t[i].name) != full_name_of(t[j].remote, t[j].name) by {
        let a = if i < k { i } else { i + 1 };
        let c = if j < k { j } else { j + 1 };
        assert(t[i] == bs[a] && t[j] == bs[c]);
    }
}

/// Whether a full branch name reads back as itself once taken apart.
pub open spec fn name_round_trips(h: Seq<char>) -> bool {
    full_name_of(parse_full_name(h).0, parse_full_name(h).1) == h
}

/// A repository's state.
pub struct Repository {
    pub objects: ObjectStore,
    pub head: Head,
    pub branches: Vec<Branch>,
    pub index: Stage,
}

impl Repository {
    /// A fresh repository: no objects, an empty index, and a local branch
    /// `main` without commits that HEAD follows.
    pub fn init() -> (r: Repository)
        ensures
            r.objects@ == Seq::<(Seq<char>, ObjectV)>::empty(),
            r.head.kind == HeadKind::Local,
            r.head.branch_name@ == "main"@,
            branches_view(r.branches@) == seq![BranchV { remote: None, name: "main"@, head: EMPTY_BRANCH_HEAD_PLACEHOLDER@ }],
            r.index.0@ == Seq::<TreeLineV>::empty(),
            branches_distinct(branches_view(r.branches@)),
    {
        let main = Branch::new("main");
        proof {
            reveal_strlit("main");
            assert("main"@ =~= seq!['m', 'a', 'i', 'n']);
            crate::refs::law_full_name_round_trip(None, "main"@);
        }
        let mut branches: Vec<Branch> = Vec::new();
        let ghost mv = main@;
        branches.push(main);
        assert(branches_view(branches@) =~= seq![mv]);
        Repository {
            objects: ObjectStore::new(),
            head: Head { kind: HeadKind::Local, branch_name: "main".to_owned() },
            branches,
            index: Stage::empty(),
        }
    }

    /// The repository's HEAD.
    pub fn head(&self) -> (r: &Head)
        ensures
            r == &self.head,
    {
        &self.head
    }

    /// The staging area.
    pub fn stage(&self) -> (r: &Stage)
        ensures
            r == &self.index,
    {
        &self.index
    }

    /// The tree at the head of the branch at position `bi` (the empty tree
    /// for none, or for a branch without commits).
    fn head_tree_exec(&self, bi: Option<usize>) -> (r: Result<Tree, GitError>)
        requires
            bi matches Some(k) ==> k < self.branches@.len(),
        ensures
            match r {
                Ok(t) => head_tree(self.objects@, opt_branch(branches_view(self.branches@), opt_index(bi))) == Ok::<Seq<TreeLineV>, GitError>(t@),
                Err(e) => head_tree(self.objects@, opt_branch(branches_view(self.branches@), opt_index(bi))) == Err::<Seq<TreeLineV>, GitError>(e),
            },
    {
        match bi {
            None => Ok(Tree::empty()),
            Some(k) => {
                let b = &self.branches[k];
                if !self.has_commit_exec(b) {
                    return Ok(Tree::empty());
                }
                let tree_key = match self.objects.get(&b.head.0) {
                    None => return Err(GitError::NotFound),
                    Some(Object::Commit(c)) => c.tree.0.clone(),
                    Some(_) => return Err(GitError::CorruptObject),
                };
                let t = self.objects.get_tree(&tree_key)?;
                Ok(t.copied())
            },
        }
    }

    /// Whether branch `b` points at a commit.
    fn has_commit_exec(&self, b: &Branch) -> (r: bool)
        ensures
            r == has_commit(b@),
    {
        let placeholder = ObjectSha1::of_str(EMPTY_BRANCH_HEAD_PLACEHOLDER);
        !b.head.same_as(&placeholder)
    }

    /// Records the index as a commit on the current branch made at
    /// `timestamp`. When the index has no change against the branch's head
    /// commit (or, for a branch without commits, when it is empty) there is
    /// nothing to commit and nothing changes. Otherwise the index tree and
    /// the commit are put, and the branch (created when missing) moves to the
    /// new commit.
    pub fn create_commit_at(&mut self, message: &String, timestamp: (i64, u32)) -> (r: Result<CommitCreateResult, GitError>)
        ensures
            commit_outcome(old(self), final(self), message@, timestamp, r),
            branches_distinct(branches_view(old(self).branches@)) && name_round_trips(old(self).head.branch_name@)
                ==> branches_distinct(branches_view(final(self).branches@)),
    {
        let bi = self.find_branch(&self.head.branch_name);
        let had_commit = match bi {
            Some(k) => self.has_commit_exec(&self.branches[k]),
            None => false,
        };
        let old_tree = self.head_tree_exec(bi)?;
        let changes = compare_trees(&self.objects, &old_tree, &self.index.0)?;
        if changes.len() == 0 {
            assert(changes_view(changes@) =~= Seq::<ChangeV>::empty());
            return Ok(CommitCreateResult::NothingToCommit);
        }
        let tree_sha = self.objects.put(Object::Tree(self.index.0.copied()));
        let parent = match bi {
            Some(k) => if had_commit {
                Some(self.branches[k].head.copied())
            } else {
                None
            },
            None => None,
        };
        let commit = Commit::at(
            CommitBuilder { tree: ObjectSha1(tree_sha), parent, message: message.clone() },
            timestamp,
        );
        let commit_sha = self.objects.put(Object::Commit(commit));
        let ghost bs = branches_view(self.branches@);
        let branch_name = match bi {
            Some(k) => {
                let mut b = self.branches[k].copied();
                b.head = ObjectSha1(commit_sha.clone());
                let name = b.full_name();
                let ghost bv = b@;
                self.branches.set(k, b);
                assert(branches_view(self.branches@) =~= bs.update(k as int, bv));
                proof {
                    if branches_distinct(bs) {
                        lemma_distinct_update(bs, k as int, bv);
                    }
                }
                name
            },
            None => {
                let mut b = Branch::new(self.head.branch_name.as_str());
                b.head = ObjectSha1(commit_sha.clone());
                let name = b.full_name();
                let ghost bv = b@;
                self.branches.push(b);
                assert(branches_view(self.branches@) =~= bs.push(bv));
                proof {
                    if branches_distinct(bs) && name_round_trips(self.head.branch_name@) {
                        lemma_distinct_push(bs, bv);
                    }
                }
                name
            },
        };
        let compared = if had_commit {
            Some(changes)
        } else {
            None
        };
        Ok(CommitCreateResult::Success(CommitCreationInfo {
            compared,
            commit_sha1: commit_sha,
            is_root: !had_commit,
            branch_name,
        }))
    }

    /// Records the index as a commit on the current branch, made now.
    pub fn create_commit(&mut self, message: &String) -> (r: Result<CommitCreateResult, GitError>)
        ensures
            exists|ts: (i64, u32)| #[trigger] commit_outcome(old(self), final(self), message@, ts, r),
            branches_distinct(branches_view(old(self).branches@)) && name_round_trips(old(self).head.branch_name@)
                ==> branches_distinct(branches_view(final(self).branches@)),
    {
        let t = now();
        self.create_commit_at(message, t)
    }

    /// Where the branch with full name `full` stands among the branches.
    pub fn find_branch(&self, full: &String) -> (r: Option<usize>)
        ensures
            match r {
                Some(k) => branch_index(branches_view(self.branches@), full@) == Some(k as int)
                    && k < self.branches@.len(),
                None => branch_index(branches_view(self.branches@), full@) is None,
            },
    {
        let ghost bs = branches_view(self.branches@);
        let mut i: usize = 0;
        while i < self.branches.len()
            invariant
                i <= self.branches@.len(),
                bs == branches_view(self.branches@),
                branch_from(bs, full@, 0) == branch_from(bs, full@, i as int),
            decreases self.branches@.len() - i,
        {
            if self.branches[i].full_name() == *full {
                return Some(i);
            }
            i += 1;
        }
        None
    }

    /// The branch with full name `full`; `NotFound` when there is none.
    pub fn load_branch(&self, full: &String) -> (r: Result<&Branch, GitError>)
        ensures
            match r {
                Ok(b) => branch_index(branches_view(self.branches@), full@) matches Some(k)
                    && b@ == branches_view(self.branches@)[k],
                Err(e) => branch_index(branches_view(self.branches@), full@) is None && e == GitError::NotFound,
            },
    {
        match self.find_branch(full) {
            Some(k) => Ok(&self.branches[k]),
            None => Err(GitError::NotFound),
        }
    }

    /// The tree that `commit` records.
    pub fn get_tree(&self, commit: &Commit) -> (r: Result<Tree, GitError>)
        ensures
            match r {
                Ok(t) => load_tree(self.objects@, commit.tree@) == Ok::<Seq<TreeLineV>, GitError>(t@),
                Err(e) => load_tree(self.objects@, commit.tree@) == Err::<Seq<TreeLineV>, GitError>(e),
            },
    {
        let t = self.objects.get_tree(&commit.tree.0)?;
        Ok(t.copied())
    }

    /// Whether a branch has the full name `full`.
    pub fn branch_exists(&self, full: &String) -> (r: bool)
        ensures
            r == branch_index(branches_view(self.branches@), full@) is Some,
    {
        self.find_branch(full).is_some()
    }

    /// The full names of the branches, in the order they are held.
    pub fn list_branch(&self) -> (r: Vec<String>)
        ensures
            r@.len() == self.branches@.len(),
            forall|i: int| 0 <= i < r@.len() ==> #[trigger] r@[i]@ == full_name_of(
                self.branches@[i]@.remote,
                self.branches@[i]@.name,
            ),
    {
        let mut out: Vec<String> = Vec::new();
        let mut i: usize = 0;
        while i < self.branches.len()
            invariant
                i <= self.branches@.len(),
                out@.len() == i,
                forall|j: int| 0 <= j < i ==> #[trigger] out@[j]@ == full_name_of(
                    self.branches@[j]@.remote,
                    self.branches@[j]@.name,
                ),
            decreases self.branches@.len() - i,
        {
            out.push(self.branches[i].full_name());
            i += 1;
        }
        out
    }
}
impl Repository {
    /// Creates the local branch `name` at the current branch's head commit
    /// (without commits when the current branch has none). Fails with
    /// `InvalidName` when the name breaks the naming rule and with
    /// `AlreadyExists` when a branch of that name exists; then nothing
    /// changes.
    pub fn create_branch(&mut self, name: &str) -> (r: Result<(), BranchCreationError>)
        ensures
            branches_distinct(branches_view(old(self).branches@)) ==> branches_distinct(branches_view(final(self).branches@)),
            final(self).head == old(self).head,
            final(self).objects@ == old(self).objects@,
            final(self).index.0@ == old(self).index.0@,
            ({
                let bs = branches_view(old(self).branches@);
                let cur = opt_branch(bs, branch_index(bs, old(self).head.branch_name@));
                match r {
                    Err(BranchCreationError::InvalidName) => !valid_branch_name(name@)
                        && branches_view(final(self).branches@) == bs,
                    Err(BranchCreationError::AlreadyExists) => valid_branch_name(name@)
                        && branch_index(bs, name@) is Some && branches_view(final(self).branches@) == bs,
                    Ok(()) => valid_branch_name(name@) && branch_index(bs, name@) is None
                        && branches_view(final(self).branches@) == bs.push(BranchV {
                            remote: None,
                            name: name@,
                            head: match cur {
                                Some(b) => b.head,
                                None => EMPTY_BRANCH_HEAD_PLACEHOLDER@,
                            },
                        }),
                }
            }),
    {
        if !Branch::validate_name(name) {
            return Err(BranchCreationError::InvalidName);
        }
        let full = name.to_owned();
        if self.find_branch(&full).is_some() {
            return Err(BranchCreationError::AlreadyExists);
        }
        let head = match self.find_branch(&self.head.branch_name) {
            Some(k) => self.branches[k].head.copied(),
            None => ObjectSha1::of_str(EMPTY_BRANCH_HEAD_PLACEHOLDER),
        };
        let ghost bs = branches_view(self.branches@);
        let b = Branch { remote: None, name: full, head };
        let ghost bv = b@;
        self.branches.push(b);
        assert(branches_view(self.branches@) =~= bs.push(bv));
        proof {
            if branches_distinct(bs) {
                lemma_distinct_push(bs, bv);
            }
        }
        Ok(())
    }

    /// Deletes the branch with full name `name`: `NotFound` when there is
    /// none, `InvalidOperation` when it is the current branch; then nothing
    /// changes.
    pub fn delete_branch(&mut self, name: &String) -> (r: Result<(), GitError>)
        ensures
            branches_distinct(branches_view(old(self).branches@)) ==> branches_distinct(branches_view(final(self).branches@)),
            final(self).head == old(self).head,
            final(self).objects@ == old(self).objects@,
            final(self).index.0@ == old(self).index.0@,
            ({
                let bs = branches_view(old(self).branches@);
                match r {
                    Err(GitError::NotFound) => branch_index(bs, name@) is None
                        && branches_view(final(self).branches@) == bs,
                    Err(GitError::InvalidOperation) => branch_index(bs, name@) is Some
                        && name@ == old(self).head.branch_name@ && branches_view(final(self).branches@) == bs,
                    Ok(()) => branch_index(bs, name@) is Some && name@ != old(self).head.branch_name@
                        && branches_view(final(self).branches@) == bs.remove(branch_index(bs, name@)->Some_0),
                    Err(_) => false,
                }
            }),
    {
        let k = match self.find_branch(name) {
            Some(k) => k,
            None => return Err(GitError::NotFound),
        };
        if *name == self.head.branch_name {
            return Err(GitError::InvalidOperation);
        }
        let ghost bs = branches_view(self.branches@);
        self.branches.remove(k);
        assert(branches_view(self.branches@) =~= bs.remove(k as int));
        proof {
            if branches_distinct(bs) {
                lemma_distinct_remove(bs, k as int);
            }
        }
        Ok(())
    }

    /// Switches to the branch `name`. The changes returned bring the
    /// working directory from the current head commit's tree to the target
    /// branch's; the index becomes the target tree. With `dry` and no branch
    /// at all, or when the current branch has no commit, only HEAD moves.
    /// `NotFound` when the branch does not exist.
    pub fn checkout_branch(&mut self, name: &String, dry: bool) -> (r: Result<Vec<ComparedLine>, GitError>)
        ensures
            final(self).objects@ == old(self).objects@,
            branches_view(final(self).branches@) == branches_view(old(self).branches@),
            ({
                let bs = branches_view(old(self).branches@);
                let cur = opt_branch(bs, branch_index(bs, old(self).head.branch_name@));
                let target = opt_branch(bs, branch_index(bs, name@));
                let only_head = (dry && bs.len() == 0) || (target is Some && !(cur matches Some(c) && has_commit(c)));
                match r {
                    Ok(v) => final(self).head.branch_name@ == name@ && final(self).head.kind == old(self).head.kind
                        && if only_head {
                            v@.len() == 0 && final(self).index.0@ == old(self).index.0@
                        } else {
                            target is Some && head_tree(old(self).objects@, cur) is Ok
                                && head_tree(old(self).objects@, target) is Ok
                                && diff_trees(old(self).objects@, head_tree(old(self).objects@, cur)->Ok_0,
                                    head_tree(old(self).objects@, target)->Ok_0, Seq::empty(),
                                    old(self).objects@.len()) == Ok::<Seq<ChangeV>, GitError>(changes_view(v@))
                                && final(self).index.0@ == head_tree(old(self).objects@, target)->Ok_0
                        },
                    Err(e) => same_state(final(self), old(self)) && !only_head
                        && (target is None ==> e == GitError::NotFound)
                        && (target is Some ==> (head_tree(old(self).objects@, cur) == Err::<Seq<TreeLineV>, GitError>(e)
                            || head_tree(old(self).objects@, target) == Err::<Seq<TreeLineV>, GitError>(e)
                            || (head_tree(old(self).objects@, cur) is Ok && head_tree(old(self).objects@, target) is Ok
                                && diff_trees(old(self).objects@, head_tree(old(self).objects@, cur)->Ok_0,
                                    head_tree(old(self).objects@, target)->Ok_0, Seq::empty(),
                                    old(self).objects@.len()) == Err::<Seq<ChangeV>, GitError>(e)))),
                }
            }),
    {
        if dry && self.branches.len() == 0 {
            self.head.branch_name = name.clone();
            return Ok(Vec::new());
        }
        let ti = match self.find_branch(name) {
            Some(k) => k,
            None => return Err(GitError::NotFound),
        };
        let ci = self.find_branch(&self.head.branch_name);
        let current_has_commit = match ci {
            Some(k) => self.has_commit_exec(&self.branches[k]),
            None => false,
        };
        if !current_has_commit {
            self.head.branch_name = name.clone();
            return Ok(Vec::new());
        }
        let current = self.head_tree_exec(ci)?;
        let target = self.head_tree_exec(Some(ti))?;
        let changes = compare_trees(&self.objects, &current, &target)?;
        self.index = Stage(target);
        self.head.branch_name = name.clone();
        Ok(changes)
    }

    /// The tree of the commit stored under `key`.
    fn commit_tree(&self, key: &String) -> (r: Result<Tree, GitError>)
        ensures
            match r {
                Ok(t) => load_commit(self.objects@, key@) is Ok
                    && load_tree(self.objects@, load_commit(self.objects@, key@)->Ok_0.tree) == Ok::<Seq<TreeLineV>, GitError>(t@),
                Err(e) => load_commit(self.objects@, key@) == Err::<CommitV, GitError>(e)
                    || (load_commit(self.objects@, key@) is Ok
                    && load_tree(self.objects@, load_commit(self.objects@, key@)->Ok_0.tree) == Err::<Seq<TreeLineV>, GitError>(e)),
            },
    {
        let tree_key = match self.objects.get(key) {
            None => return Err(GitError::NotFound),
            Some(Object::Commit(c)) => c.tree.0.clone(),
            Some(_) => return Err(GitError::CorruptObject),
        };
        let t = self.objects.get_tree(&tree_key)?;
        Ok(t.copied())
    }

    /// Merges the branch `theirs` into the current branch at `timestamp`:
    /// see [`merge_outcome`].
    pub fn merge_at(&mut self, theirs: &String, timestamp: (i64, u32)) -> (r: Result<MergeReport, GitError>)
        ensures
            merge_outcome(old(self), final(self), theirs@, timestamp, r),
            branches_distinct(branches_view(old(self).branches@)) ==> branches_distinct(branches_view(final(self).branches@)),
    {
        let ti = match self.find_branch(theirs) {
            Some(k) => k,
            None => return Err(GitError::NotFound),
        };
        let oi = match self.find_branch(&self.head.branch_name) {
            Some(k) => k,
            None => return Err(GitError::NotFound),
        };
        let ours_head = self.branches[oi].head.0.clone();
        let theirs_head = self.branches[ti].head.0.clone();
        let base = get_merge_base(&self.objects, &ours_head, &theirs_head)?;
        let bt = self.commit_tree(&base)?;
        let ot = self.commit_tree(&ours_head)?;
        let tt = self.commit_tree(&theirs_head)?;
        let (merged, conflicts) = auto_merge_trees(&mut self.objects, &bt, &ot, &tt)?;
        if conflicts.len() > 0 {
            return Ok(MergeReport::Conflicts(conflicts));
        }
        let changes = compare_trees(&self.objects, &ot, &merged)?;
        let tree_sha = self.objects.put(Object::Tree(merged.copied()));
        let mut message = "Merge branch '".to_owned();
        message.append(self.branches[ti].name.as_str());
        message.append("'");
        let commit = Commit::at(
            CommitBuilder { tree: ObjectSha1(tree_sha), parent: Some(ObjectSha1(ours_head.clone())), message },
            timestamp,
        );
        let commit_sha = self.objects.put(Object::Commit(commit));
        let ghost bs = branches_view(self.branches@);
        let mut b = self.branches[oi].copied();
        b.head = ObjectSha1(commit_sha.clone());
        let ghost bv = b@;
        self.branches.set(oi, b);
        assert(branches_view(self.branches@) =~= bs.update(oi as int, bv));
        proof {
            if branches_distinct(bs) {
                lemma_distinct_update(bs, oi as int, bv);
            }
        }
        self.index = Stage(merged);
        Ok(MergeReport::Merged { commit_sha1: commit_sha, changes })
    }

    /// Merges the branch `theirs` into the current branch, now: see
    /// [`merge_outcome`].
    pub fn merge(&mut self, theirs: &String) -> (r: Result<MergeReport, GitError>)
        ensures
            exists|ts: (i64, u32)| #[trigger] merge_outcome(old(self), final(self), theirs@, ts, r),
            branches_distinct(branches_view(old(self).branches@)) ==> branches_distinct(branches_view(final(self).branches@)),
    {
        let t = now();
        self.merge_at(theirs, t)
    }

    /// The merge base of two commits, by digest.
    pub fn get_merge_base(&self, a: &String, b: &String) -> (r: Result<String, GitError>)
        ensures
            match r {
                Ok(c) => merge_base(self.objects@, a@, b@, self.objects@.len()) == Ok::<Seq<char>, GitError>(c@),
                Err(e) => merge_base(self.objects@, a@, b@, self.objects@.len()) == Err::<Seq<char>, GitError>(e),
            },
    {
        get_merge_base(&self.objects, a, b)
    }

    /// Up to `n` commits of the current branch, newest first, each with its
    /// digest. `NotFound` when the current branch does not exist or has no
    /// commit.
    pub fn log(&self, n: usize) -> (r: Result<Vec<(String, Commit)>, GitError>)
        ensures
            match r {
                Ok(v) => ({
                    let bs = branches_view(self.branches@);
                    branch_index(bs, self.head.branch_name@) matches Some(k) && (has_commit(bs[k])
                        && (history(self.objects@, bs[k].head, n as nat) matches Ok(h) && (h.len() == v@.len()
                        && forall|i: int| 0 <= i < v@.len() ==> #[trigger] v@[i].0@ == h[i]
                            && load_commit(self.objects@, h[i]) == Ok::<CommitV, GitError>(v@[i].1@))))
                }),
                Err(e) => ({
                    let bs = branches_view(self.branches@);
                    match branch_index(bs, self.head.branch_name@) {
                        None => e == GitError::NotFound,
                        Some(k) => if has_commit(bs[k]) {
                            history(self.objects@, bs[k].head, n as nat) == Err::<Seq<Seq<char>>, GitError>(e)
                        } else {
                            e == GitError::NotFound
                        },
                    }
                }),
            },
    {
        let k = match self.find_branch(&self.head.branch_name) {
            Some(k) => k,
            None => return Err(GitError::NotFound),
        };
        if !self.has_commit_exec(&self.branches[k]) {
            return Err(GitError::NotFound);
        }
        let digests = commit_history(&self.objects, &self.branches[k].head.0, n)?;
        let ghost h = digests@.map_values(|x: String| x@);
        proof {
            lemma_history_commits(self.objects@, self.branches@[k as int]@.head, n as nat);
        }
        let mut out: Vec<(String, Commit)> = Vec::new();
        let mut i: usize = 0;
        while i < digests.len()
            invariant
                i <= digests@.len(),
                h == digests@.map_values(|x: String| x@),
                out@.len() == i,
                k < self.branches@.len(),
                branch_index(branches_view(self.branches@), self.head.branch_name@) == Some(k as int),
                has_commit(branches_view(self.branches@)[k as int]),
                history(self.objects@, branches_view(self.branches@)[k as int].head, n as nat)
                    == Ok::<Seq<Seq<char>>, GitError>(h),
                forall|j: int| 0 <= j < h.len() ==> load_commit(self.objects@, #[trigger] h[j]) is Ok,
                forall|j: int| 0 <= j < i ==> #[trigger] out@[j].0@ == h[j]
                    && load_commit(self.objects@, h[j]) == Ok::<CommitV, GitError>(out@[j].1@),
            decreases digests@.len() - i,
        {
            assert(h[i as int] == digests@[i as int]@);
            let c = match self.objects.get(&digests[i]) {
                Some(Object::Commit(c)) => c.copied(),
                _ => {
                    proof {
                        assert(load_commit(self.objects@, h[i as int]) is Ok);
                    }
                    return Err(GitError::CorruptObject);
                },
            };
            out.push((digests[i].clone(), c));
            i += 1;
        }
        assert(h.len() == out@.len());
        Ok(out)
    }

    /// The changes staged for the next commit (from the current head
    /// commit's tree to the index) and those not staged (from the index to
    /// `working`, the tree of the working directory).
    pub fn status(&self, working: &Tree) -> (r: Result<(Vec<ComparedLine>, Vec<ComparedLine>), GitError>)
        ensures
            ({
                let bs = branches_view(self.branches@);
                let cur = opt_branch(bs, branch_index(bs, self.head.branch_name@));
                let s0 = self.objects@;
                match r {
                    Ok((staged, unstaged)) => head_tree(s0, cur) is Ok
                        && diff_trees(s0, head_tree(s0, cur)->Ok_0, self.index.0@, Seq::empty(), s0.len())
                            == Ok::<Seq<ChangeV>, GitError>(changes_view(staged@))
                        && diff_trees(s0, self.index.0@, working@, Seq::empty(), s0.len())
                            == Ok::<Seq<ChangeV>, GitError>(changes_view(unstaged@)),
                    Err(e) => head_tree(s0, cur) == Err::<Seq<TreeLineV>, GitError>(e)
                        || (head_tree(s0, cur) is Ok && diff_trees(s0, head_tree(s0, cur)->Ok_0, self.index.0@,
                            Seq::empty(), s0.len()) == Err::<Seq<ChangeV>, GitError>(e))
                        || diff_trees(s0, self.index.0@, working@, Seq::empty(), s0.len())
                            == Err::<Seq<ChangeV>, GitError>(e),
                }
            }),
    {
        let ci = self.find_branch(&self.head.branch_name);
        let head = self.head_tree_exec(ci)?;
        let staged = compare_trees(&self.objects, &head, &self.index.0)?;
        let unstaged = compare_trees(&self.objects, &self.index.0, working)?;
        Ok((staged, unstaged))
    }
}

/// A value together with the repository it belongs to.
pub struct WithRepo<'r, T> {
    pub repo: &'r Repository,
    pub inner: T,
}

impl<'r, T> WithRepo<'r, T> {
    /// `inner`, with the repository it belongs to.
    pub fn new(repo: &'r Repository, inner: T) -> (r: WithRepo<'r, T>)
        ensures
            r.repo == repo,
            r.inner == inner,
    {
        WithRepo { repo, inner }
    }

    /// Another value, with the same repository.
    pub fn wrap<U>(&self, inner: U) -> (r: WithRepo<'r, U>)
        ensures
            r.repo == self.repo,
            r.inner == inner,
    {
        WithRepo { repo: self.repo, inner }
    }

    /// The value without its repository.
    pub fn unwrap(self) -> (r: T)
        ensures
            r == self.inner,
    {
        self.inner
    }
}

impl Repository {
    /// `inner`, with this repository.
    pub fn wrap<T>(&self, inner: T) -> (r: WithRepo<'_, T>)
        ensures
            r.repo == self,
            r.inner == inner,
    {
        WithRepo { repo: self, inner }
    }
}

impl<'r> WithRepo<'r, &'r Head> {
    /// The branch this HEAD names; `NotFound` when it does not exist.
    pub fn load_branch(&self) -> (r: Result<&'r Branch, GitError>)
        ensures
            match r {
                Ok(b) => branch_index(branches_view(self.repo.branches@), self.inner.branch_name@) matches Some(k)
                    && b@ == branches_view(self.repo.branches@)[k],
                Err(e) => branch_index(branches_view(self.repo.branches@), self.inner.branch_name@) is None
                    && e == GitError::NotFound,
            },
    {
        self.repo.load_branch(&self.inner.branch_name)
    }

    /// The branch this HEAD names, and `false`; or, when it does not exist
    /// yet, a new branch of that name without commits, and `true`.
    pub fn load_branch_or_create(&self) -> (r: (Branch, bool))
        ensures
            match branch_index(branches_view(self.repo.branches@), self.inner.branch_name@) {
                Some(k) => r.0@ == branches_view(self.repo.branches@)[k] && !r.1,
                None => (r.0@.remote, r.0@.name) == parse_full_name(self.inner.branch_name@)
                    && r.0@.head == EMPTY_BRANCH_HEAD_PLACEHOLDER@ && r.1,
            },
    {
        match self.repo.load_branch(&self.inner.branch_name) {
            Ok(b) => (b.copied(), false),
            Err(_) => (Branch::new(self.inner.branch_name.as_str()), true),
        }
    }
}

impl<'r> WithRepo<'r, Commit> {
    /// The tree this commit records.
    pub fn get_tree(&self) -> (r: Result<Tree, GitError>)
        ensures
            match r {
                Ok(t) => load_tree(self.repo.objects@, self.inner.tree@) == Ok::<Seq<TreeLineV>, GitError>(t@),
                Err(e) => load_tree(self.repo.objects@, self.inner.tree@) == Err::<Seq<TreeLineV>, GitError>(e),
            },
    {
        self.repo.get_tree(&self.inner)
    }
}

impl<'r> WithRepo<'r, MutableTree> {
    /// The tree of the entries, in ascending order of name.
    pub fn freeze(self) -> (r: Tree)
        ensures
            r@ == sort_lines(self.inner@),
    {
        self.inner.freeze()
    }

    /// Removes the file entry `name`; `NotFound` when there is none.
    pub fn remove_file(&mut self, name: &String) -> (r: Result<(), GitError>)
        ensures
            final(self).inner@ == without(old(self).inner@, name@),
            final(self).repo == old(self).repo,
            r is Ok == name_position(old(self).inner@, name@, 0) is Some,
            r matches Err(e) ==> e == GitError::NotFound,
    {
        self.inner.remove_file(name)
    }

    /// Removes the directory entry `name`; `NotFound` when there is none.
    pub fn remove_dir(&mut self, name: &String) -> (r: Result<(), GitError>)
        ensures
            final(self).inner@ == without(old(self).inner@, name@),
            final(self).repo == old(self).repo,
            r is Ok == name_position(old(self).inner@, name@, 0) is Some,
            r matches Err(e) ==> e == GitError::NotFound,
    {
        self.inner.remove_dir(name)
    }
}

} // verus!
