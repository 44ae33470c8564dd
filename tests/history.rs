use kidon_git::builder::Ignores;
use kidon_git::diff::{compare_trees, split_untracked, ComparedKind, ComparedLine};
use kidon_git::lines::{disagreeing_runs, split_lines};
use kidon_git::merge::{auto_merge_trees, get_merge_base};
use kidon_git::object::{Blob, Object, Sha1Able, Tree, TreeLine, TreeLineKind};
use kidon_git::refs::{path_of, Branch, EMPTY_BRANCH_HEAD_PLACEHOLDER};
use kidon_git::repo::{BranchCreationError, CommitCreateResult, MergeReport, Repository, Stage};
use kidon_git::store::{GitError, ObjectStore};
use kidon_git::tree::{name_less, sorted_tree, MutableTree};

fn file(store: &mut ObjectStore, name: &str, content: &str) -> TreeLine {
    let d = store.put(Object::Blob(Blob::from(content)));
    TreeLine { kind: TreeLineKind::File, name: name.to_string(), sha1: d.into() }
}

fn dir(store: &mut ObjectStore, name: &str, lines: Vec<TreeLine>) -> TreeLine {
    let d = store.put(Object::Tree(sorted_tree(lines)));
    TreeLine { kind: TreeLineKind::Tree, name: name.to_string(), sha1: d.into() }
}

fn summary(changes: &[ComparedLine]) -> Vec<(ComparedKind, String)> {
    let mut v: Vec<(ComparedKind, String)> = changes.iter().map(|c| (c.kind, c.line.name.clone())).collect();
    v.sort_by(|a, b| a.1.cmp(&b.1));
    v
}

#[test]
fn names_sort_bytewise() {
    assert!(name_less(&"a".to_string(), &"b".to_string()));
    assert!(name_less(&"B".to_string(), &"a".to_string()));
    assert!(name_less(&"ab".to_string(), &"abc".to_string()));
    assert!(!name_less(&"abc".to_string(), &"abc".to_string()));
    let t = sorted_tree(vec![
        TreeLine { kind: TreeLineKind::File, name: "file.txt".into(), sha1: "abc123".into() },
        TreeLine { kind: TreeLineKind::File, name: "dir".into(), sha1: "def456".into() },
    ]);
    let names: Vec<&str> = t.objects.iter().map(|l| l.name.as_str()).collect();
    assert_eq!(names, vec!["dir", "file.txt"]);
}

#[test]
fn diff_of_a_tree_with_itself_is_empty() {
    let mut s = ObjectStore::new();
    let a = file(&mut s, "a", "1");
    let sub = file(&mut s, "b", "2");
    let d = dir(&mut s, "d", vec![sub]);
    let t = sorted_tree(vec![a, d]);
    assert!(compare_trees(&s, &t, &t).unwrap().is_empty());
}

#[test]
fn diff_from_empty_adds_every_entry() {
    let mut s = ObjectStore::new();
    let a = file(&mut s, "a", "1");
    let sub = file(&mut s, "b", "2");
    let d = dir(&mut s, "d", vec![sub]);
    let t = sorted_tree(vec![a, d]);
    let ch = compare_trees(&s, &Tree::empty(), &t).unwrap();
    assert_eq!(summary(&ch), vec![(ComparedKind::Added, "a".to_string()), (ComparedKind::Added, "d".to_string())]);
    let ch = compare_trees(&s, &t, &Tree::empty()).unwrap();
    assert_eq!(summary(&ch), vec![(ComparedKind::Deleted, "a".to_string()), (ComparedKind::Deleted, "d".to_string())]);
}

#[test]
fn diff_inside_a_subtree_names_full_paths() {
    let mut s = ObjectStore::new();
    let a = file(&mut s, "a", "1");
    let b1 = file(&mut s, "b", "2");
    let b2 = file(&mut s, "b", "3");
    let c = file(&mut s, "c", "4");
    let inner1 = dir(&mut s, "in", vec![b1]);
    let inner2 = dir(&mut s, "in", vec![b2, c]);
    let outer_old = dir(&mut s, "p", vec![inner1]);
    let outer_new = dir(&mut s, "p", vec![inner2]);
    let from = sorted_tree(vec![a.clone(), outer_old]);
    let to = sorted_tree(vec![a, outer_new]);
    let ch = compare_trees(&s, &from, &to).unwrap();
    assert_eq!(
        summary(&ch),
        vec![(ComparedKind::Modified, "p/in/b".to_string()), (ComparedKind::Added, "p/in/c".to_string())]
    );
    assert!(ch.iter().all(|c| c.line.name.starts_with("p/")));
}

#[test]
fn diff_with_missing_subtree_fails() {
    let mut s = ObjectStore::new();
    let from = Tree { objects: vec![TreeLine { kind: TreeLineKind::Tree, name: "d".into(), sha1: "x".into() }] };
    let to = Tree { objects: vec![TreeLine { kind: TreeLineKind::Tree, name: "d".into(), sha1: "y".into() }] };
    assert_eq!(compare_trees(&s, &from, &to).err(), Some(GitError::NotFound));
    let f = file(&mut s, "d", "z");
    let to2 = Tree { objects: vec![TreeLine { kind: TreeLineKind::Tree, name: "d".into(), sha1: f.sha1 }] };
    let from2 = to2.clone();
    assert!(compare_trees(&s, &from2, &to2).unwrap().is_empty());
}

#[test]
fn merge_laws_on_concrete_trees() {
    let mut s = ObjectStore::new();
    let x1 = file(&mut s, "x", "1");
    let x2 = file(&mut s, "x", "2");
    let y1 = file(&mut s, "y", "1");
    let y2 = file(&mut s, "y", "2");
    let z = file(&mut s, "z", "new");
    let base = sorted_tree(vec![x1.clone(), y1.clone()]);
    let ours = sorted_tree(vec![x2.clone(), y1.clone(), z.clone()]);
    let theirs = sorted_tree(vec![x1.clone(), y2.clone()]);

    let (m, c) = auto_merge_trees(&mut s, &base, &base, &base).unwrap();
    assert_eq!(m.objects, base.objects);
    assert!(c.is_empty());

    let (m, c) = auto_merge_trees(&mut s, &base, &ours, &base).unwrap();
    assert_eq!(m.objects, ours.objects);
    assert!(c.is_empty());

    let (m, c) = auto_merge_trees(&mut s, &base, &base, &theirs).unwrap();
    assert_eq!(m.objects, theirs.objects);
    assert!(c.is_empty());

    let (m, c) = auto_merge_trees(&mut s, &theirs, &ours, &ours).unwrap();
    assert_eq!(m.objects, ours.objects);
    assert!(c.is_empty());

    let (m, c) = auto_merge_trees(&mut s, &base, &ours, &theirs).unwrap();
    assert_eq!(m.objects, sorted_tree(vec![x2, y2, z]).objects);
    assert!(c.is_empty());
}

#[test]
fn merge_conflict_reports_line_range() {
    let mut s = ObjectStore::new();
    let b = sorted_tree(vec![file(&mut s, "x", "A\nB\nC\n")]);
    let o = sorted_tree(vec![file(&mut s, "x", "A\nB2\nC\n")]);
    let t = sorted_tree(vec![file(&mut s, "x", "A\nB3\nC\n")]);
    let (m, c) = auto_merge_trees(&mut s, &b, &o, &t).unwrap();
    assert!(m.objects.is_empty());
    assert_eq!(c.len(), 1);
    assert_eq!((c[0].file.as_str(), c[0].line_start, c[0].line_end), ("x", 2, 2));
}

#[test]
fn merge_conflict_inside_directory_and_kind_mismatch() {
    let mut s = ObjectStore::new();
    let fb = file(&mut s, "f", "1\n2\n");
    let fo = file(&mut s, "f", "1\nX\nY\n");
    let ft = file(&mut s, "f", "1\nZ\n");
    let b = sorted_tree(vec![dir(&mut s, "d", vec![fb])]);
    let o = sorted_tree(vec![dir(&mut s, "d", vec![fo])]);
    let t = sorted_tree(vec![dir(&mut s, "d", vec![ft])]);
    let (_, c) = auto_merge_trees(&mut s, &b, &o, &t).unwrap();
    assert_eq!(c.len(), 1);
    assert_eq!((c[0].file.as_str(), c[0].line_start, c[0].line_end), ("d/f", 2, 3));

    let as_file = sorted_tree(vec![file(&mut s, "d", "plain")]);
    let g = file(&mut s, "g", "1");
    let as_dir = sorted_tree(vec![dir(&mut s, "d", vec![g])]);
    assert_eq!(auto_merge_trees(&mut s, &Tree::empty(), &as_file, &as_dir).err(), Some(GitError::MergeKindMismatch));
    let changed = sorted_tree(vec![file(&mut s, "d", "changed")]);
    assert_eq!(auto_merge_trees(&mut s, &as_file, &changed, &Tree::empty()).err(), Some(GitError::MergeConflict));
}

#[test]
fn clean_nested_merge_stores_subtrees() {
    let mut s = ObjectStore::new();
    let a1 = file(&mut s, "a", "1");
    let a2 = file(&mut s, "a", "2");
    let b1 = file(&mut s, "b", "1");
    let b2 = file(&mut s, "b", "2");
    let base = sorted_tree(vec![dir(&mut s, "d", vec![a1.clone(), b1.clone()])]);
    let ours = sorted_tree(vec![dir(&mut s, "d", vec![a2.clone(), b1])]);
    let theirs = sorted_tree(vec![dir(&mut s, "d", vec![a1, b2.clone()])]);
    let (m, c) = auto_merge_trees(&mut s, &base, &ours, &theirs).unwrap();
    assert!(c.is_empty());
    let sub = sorted_tree(vec![a2, b2]);
    assert_eq!(m.objects[0].sha1.0, sub.sha1());
    assert!(s.has(&sub.sha1()));
}

#[test]
fn lines_and_runs() {
    let l = split_lines(b"a\r\nb\n\nc");
    assert_eq!(l, vec![b"a".to_vec(), b"b".to_vec(), b"".to_vec(), b"c".to_vec()]);
    assert!(split_lines(b"").is_empty());
    let a = split_lines(b"1\n2\n3\n4\n");
    let b = split_lines(b"1\nx\n3\n");
    assert_eq!(disagreeing_runs(&a, &b), vec![(2, 2), (4, 4)]);
    let c = split_lines(b"1\nx\ny\n");
    assert_eq!(disagreeing_runs(&a, &c), vec![(2, 4)]);
    assert!(disagreeing_runs(&a, &a).is_empty());
}

#[test]
fn ignore_set_from_file() {
    let ig = Ignores::from_bytes(b"target\n\nnode_modules\n");
    assert_eq!(ig.names, vec![".kidon-git".to_string(), "target".to_string(), "node_modules".to_string()]);
    assert!(ig.contains(&"target".to_string()));
    assert!(!ig.contains(&"src".to_string()));
}

#[test]
fn builder_omits_empty_directories() {
    let mut s = ObjectStore::new();
    let mut root = MutableTree::empty();
    let d = root.add_file(&mut s, &"a.txt".to_string(), b"hi\n".to_vec(), TreeLineKind::File);
    assert_eq!(d, "55ca6286e3e4f4fba5d0448333fa99fc5a404a73");
    assert!(root.add_dir(&mut s, &"empty".to_string(), MutableTree::empty()).is_none());
    let mut child = MutableTree::empty();
    child.add_file(&mut s, &"z".to_string(), vec![0xff], TreeLineKind::Executable);
    child.add_file(&mut s, &"b".to_string(), b"x".to_vec(), TreeLineKind::File);
    let sub = root.add_dir(&mut s, &"src".to_string(), child).unwrap();
    match s.get(&sub) {
        Some(Object::Tree(t)) => {
            let names: Vec<&str> = t.objects.iter().map(|l| l.name.as_str()).collect();
            assert_eq!(names, vec!["b", "z"]);
        },
        _ => panic!("sub-tree not stored"),
    }
    root.add_file(&mut s, &"a.txt".to_string(), b"new".to_vec(), TreeLineKind::File);
    let t = root.freeze();
    assert_eq!(t.objects.len(), 2);
    assert_eq!(t.objects[0].sha1.0, Blob::from("new").sha1());
}

#[test]
fn builder_remove_entries() {
    let mut m = Tree { objects: vec![TreeLine { kind: TreeLineKind::File, name: "a".into(), sha1: "1".into() }] }.into_map();
    assert_eq!(m.remove_file(&"b".to_string()), Err(GitError::NotFound));
    assert_eq!(m.remove_file(&"a".to_string()), Ok(()));
    assert!(m.freeze().objects.is_empty());
}

#[test]
fn branch_names_round_trip() {
    let b = Branch::new("origin/hotfix");
    assert_eq!(b.remote.as_deref(), Some("origin"));
    assert_eq!(b.name, "hotfix");
    assert_eq!(b.full_name(), "origin/hotfix");
    assert_eq!(b.head.0, EMPTY_BRANCH_HEAD_PLACEHOLDER);
    assert_eq!(b.location(), "refs/remotes/origin/hotfix");
    assert_eq!(path_of("origin/hotfix"), "refs/remotes/origin/hotfix");
    let m = Branch::new("main");
    assert_eq!(m.remote, None);
    assert_eq!(m.full_name(), "main");
    assert_eq!(path_of("main"), "refs/heads/main");
    assert!(Branch::validate_name("feature-1.x_y"));
    assert!(!Branch::validate_name("bad name"));
    assert!(!Branch::validate_name("a/b"));
    assert!(!Branch::validate_name(""));
}

fn stage_files(repo: &mut Repository, files: &[(&str, &str)]) {
    let mut m = MutableTree::empty();
    for (name, content) in files {
        m.add_file(&mut repo.objects, &name.to_string(), content.as_bytes().to_vec(), TreeLineKind::File);
    }
    repo.index = Stage(m.freeze());
}

fn commit(repo: &mut Repository, msg: &str, t: i64) -> String {
    match repo.create_commit_at(&msg.to_string(), (t, 0)).unwrap() {
        CommitCreateResult::Success(info) => info.commit_sha1,
        CommitCreateResult::NothingToCommit => panic!("nothing to commit"),
    }
}

#[test]
fn init_then_empty_commit_is_nothing_to_commit() {
    let mut repo = Repository::init();
    assert_eq!(repo.head().branch_name, "main");
    assert_eq!(repo.list_branch(), vec!["main".to_string()]);
    assert!(matches!(repo.create_commit_at(&"x".to_string(), (0, 0)), Ok(CommitCreateResult::NothingToCommit)));
    assert!(repo.objects.entries.is_empty());
}

#[test]
fn add_commit_log() {
    let mut repo = Repository::init();
    stage_files(&mut repo, &[("a.txt", "hi\n")]);
    let info = match repo.create_commit_at(&"first".to_string(), (10, 0)).unwrap() {
        CommitCreateResult::Success(info) => info,
        _ => panic!("expected a commit"),
    };
    assert!(info.is_root);
    assert!(info.compared.is_none());
    assert_eq!(info.branch_name, "main");
    let log = repo.log(1).unwrap();
    assert_eq!(log.len(), 1);
    assert_eq!(log[0].0, info.commit_sha1);
    let tree = repo.get_tree(&log[0].1).unwrap();
    assert_eq!(tree.objects.len(), 1);
    assert_eq!(tree.objects[0].kind, TreeLineKind::File);
    assert_eq!(tree.objects[0].name, "a.txt");
    assert_eq!(tree.objects[0].sha1.0, "55ca6286e3e4f4fba5d0448333fa99fc5a404a73");
    assert!(matches!(repo.create_commit_at(&"again".to_string(), (11, 0)), Ok(CommitCreateResult::NothingToCommit)));
    stage_files(&mut repo, &[("a.txt", "hi\n"), ("b", "2")]);
    let second = commit(&mut repo, "second", 12);
    let log = repo.log(10).unwrap();
    assert_eq!(log.len(), 2);
    assert_eq!(log[0].0, second);
    assert_eq!(log[1].1.message, "first");
}

#[test]
fn branch_checkout_isolation() {
    let mut repo = Repository::init();
    stage_files(&mut repo, &[("a", "v1\n")]);
    commit(&mut repo, "c1", 1);
    repo.create_branch("feature").unwrap();
    stage_files(&mut repo, &[("a", "v2\n")]);
    commit(&mut repo, "on main", 2);
    let ch = repo.checkout_branch(&"feature".to_string(), false).unwrap();
    assert_eq!(summary(&ch), vec![(ComparedKind::Modified, "a".to_string())]);
    assert_eq!(ch[0].line.sha1.0, Blob::from("v1\n").sha1());
    assert_eq!(repo.head().branch_name, "feature");
    assert_eq!(repo.stage().0.objects[0].sha1.0, Blob::from("v1\n").sha1());
    let ch = repo.checkout_branch(&"main".to_string(), false).unwrap();
    assert_eq!(ch[0].line.sha1.0, Blob::from("v2\n").sha1());
    assert_eq!(repo.checkout_branch(&"nope".to_string(), false).err(), Some(GitError::NotFound));
}

#[test]
fn rename_is_delete_plus_add() {
    let mut repo = Repository::init();
    stage_files(&mut repo, &[("a", "same\n")]);
    commit(&mut repo, "c1", 1);
    let mut m = repo.index.0.clone().into_map();
    m.remove_file(&"a".to_string()).unwrap();
    m.add_file(&mut repo.objects, &"b".to_string(), b"same\n".to_vec(), TreeLineKind::File);
    repo.index = Stage(m.freeze());
    match repo.create_commit_at(&"mv".to_string(), (2, 0)).unwrap() {
        CommitCreateResult::Success(info) => {
            let ch = info.compared.unwrap();
            assert_eq!(summary(&ch), vec![(ComparedKind::Deleted, "a".to_string()), (ComparedKind::Added, "b".to_string())]);
        },
        _ => panic!("expected a commit"),
    }
}

#[test]
fn three_way_merge_clean_and_conflicting() {
    let mut repo = Repository::init();
    stage_files(&mut repo, &[("x", "x0\n"), ("y", "y0\n")]);
    let base = commit(&mut repo, "base", 1);
    repo.create_branch("theirs").unwrap();
    stage_files(&mut repo, &[("x", "x1\n"), ("y", "y0\n")]);
    let ours = commit(&mut repo, "ours", 2);
    repo.checkout_branch(&"theirs".to_string(), false).unwrap();
    stage_files(&mut repo, &[("x", "x0\n"), ("y", "y1\n")]);
    let theirs = commit(&mut repo, "theirs", 3);
    assert_eq!(get_merge_base(&repo.objects, &ours, &theirs).unwrap(), base);
    assert_eq!(get_merge_base(&repo.objects, &ours, &ours).unwrap(), ours);
    assert_eq!(get_merge_base(&repo.objects, &base, &ours).unwrap(), base);
    repo.checkout_branch(&"main".to_string(), false).unwrap();
    match repo.merge_at(&"theirs".to_string(), (4, 0)).unwrap() {
        MergeReport::Merged { commit_sha1, changes } => {
            assert_eq!(summary(&changes), vec![(ComparedKind::Modified, "y".to_string())]);
            assert_eq!(repo.load_branch(&"main".to_string()).unwrap().head.0, commit_sha1);
            let log = repo.log(1).unwrap();
            assert_eq!(log[0].1.message, "Merge branch 'theirs'");
            assert_eq!(log[0].1.parent.as_ref().unwrap().0, ours);
            let t = repo.get_tree(&log[0].1).unwrap();
            assert_eq!(t.objects[0].sha1.0, Blob::from("x1\n").sha1());
            assert_eq!(t.objects[1].sha1.0, Blob::from("y1\n").sha1());
        },
        MergeReport::Conflicts(_) => panic!("unexpected conflict"),
    }

    let mut repo = Repository::init();
    stage_files(&mut repo, &[("x", "A\nB\nC\n")]);
    commit(&mut repo, "base", 1);
    repo.create_branch("theirs").unwrap();
    stage_files(&mut repo, &[("x", "A\nB2\nC\n")]);
    commit(&mut repo, "ours", 2);
    repo.checkout_branch(&"theirs".to_string(), false).unwrap();
    stage_files(&mut repo, &[("x", "A\nB3\nC\n")]);
    commit(&mut repo, "theirs", 3);
    repo.checkout_branch(&"main".to_string(), false).unwrap();
    let before = repo.load_branch(&"main".to_string()).unwrap().head.0.clone();
    match repo.merge_at(&"theirs".to_string(), (4, 0)).unwrap() {
        MergeReport::Conflicts(c) => {
            assert_eq!(c.len(), 1);
            assert_eq!((c[0].file.as_str(), c[0].line_start, c[0].line_end), ("x", 2, 2));
        },
        _ => panic!("expected a conflict"),
    }
    assert_eq!(repo.load_branch(&"main".to_string()).unwrap().head.0, before);
}

#[test]
fn unrelated_histories_have_no_merge_base() {
    let mut repo = Repository::init();
    stage_files(&mut repo, &[("a", "1")]);
    let first = commit(&mut repo, "one", 1);
    repo.checkout_branch(&"other".to_string(), true).unwrap_err();
    repo.head.branch_name = "other".to_string();
    stage_files(&mut repo, &[("b", "2")]);
    let second = commit(&mut repo, "two", 2);
    assert_eq!(get_merge_base(&repo.objects, &first, &second).err(), Some(GitError::NoCommonAncestor));
}

#[test]
fn branch_errors() {
    let mut repo = Repository::init();
    assert_eq!(repo.create_branch("bad name"), Err(BranchCreationError::InvalidName));
    assert_eq!(repo.create_branch("main"), Err(BranchCreationError::AlreadyExists));
    assert_eq!(repo.delete_branch(&"main".to_string()), Err(GitError::InvalidOperation));
    assert_eq!(repo.delete_branch(&"nope".to_string()), Err(GitError::NotFound));
    repo.create_branch("dev").unwrap();
    assert!(repo.branch_exists(&"dev".to_string()));
    assert_eq!(repo.load_branch(&"dev".to_string()).unwrap().head.0, EMPTY_BRANCH_HEAD_PLACEHOLDER);
    repo.delete_branch(&"dev".to_string()).unwrap();
    assert!(!repo.branch_exists(&"dev".to_string()));
    assert_eq!(repo.log(5).err(), Some(GitError::NotFound));
}

#[test]
fn status_reports_staged_and_unstaged() {
    let mut repo = Repository::init();
    stage_files(&mut repo, &[("a", "1")]);
    commit(&mut repo, "c", 1);
    stage_files(&mut repo, &[("a", "1"), ("b", "2")]);
    let mut w = MutableTree::empty();
    w.add_file(&mut repo.objects, &"a".to_string(), b"changed".to_vec(), TreeLineKind::File);
    w.add_file(&mut repo.objects, &"b".to_string(), b"2".to_vec(), TreeLineKind::File);
    let working = w.freeze();
    let (staged, unstaged) = repo.status(&working).unwrap();
    assert_eq!(summary(&staged), vec![(ComparedKind::Added, "b".to_string())]);
    assert_eq!(summary(&unstaged), vec![(ComparedKind::Modified, "a".to_string())]);
}

#[test]
fn dry_checkout_on_empty_repository_moves_head() {
    let mut repo = Repository::init();
    repo.branches.clear();
    assert!(repo.checkout_branch(&"new".to_string(), true).unwrap().is_empty());
    assert_eq!(repo.head().branch_name, "new");
    let mut repo = Repository::init();
    repo.create_branch("dev").unwrap();
    assert!(repo.checkout_branch(&"dev".to_string(), false).unwrap().is_empty());
    assert_eq!(repo.head().branch_name, "dev");
}

#[test]
fn branch_names_are_ascii_only() {
    assert!(!Branch::validate_name("caf\u{e9}"));
    assert!(!Branch::validate_name("\u{663}"));
    assert!(Branch::validate_name("v1.2-rc_3"));
}

#[test]
fn ignore_lines_are_decoded_text() {
    let ig = Ignores::from_bytes("caf\u{e9}\n".as_bytes());
    assert!(ig.contains(&"caf\u{e9}".to_string()));
}

#[test]
fn status_split_parts_untracked_files() {
    let mut repo = Repository::init();
    stage_files(&mut repo, &[("a", "1"), ("gone", "2")]);
    let mut w = MutableTree::empty();
    w.add_file(&mut repo.objects, &"a".to_string(), b"changed".to_vec(), TreeLineKind::File);
    w.add_file(&mut repo.objects, &"new".to_string(), b"3".to_vec(), TreeLineKind::File);
    let (_, unstaged) = repo.status(&w.freeze()).unwrap();
    let (known, untracked) = split_untracked(&unstaged);
    assert_eq!(summary(&known), vec![(ComparedKind::Modified, "a".to_string()), (ComparedKind::Deleted, "gone".to_string())]);
    assert_eq!(summary(&untracked), vec![(ComparedKind::Added, "new".to_string())]);
}

#[test]
fn merge_now_with_conflicts_changes_nothing() {
    let mut repo = Repository::init();
    stage_files(&mut repo, &[("x", "A\nB\nC\n")]);
    commit(&mut repo, "base", 1);
    repo.create_branch("theirs").unwrap();
    stage_files(&mut repo, &[("x", "A\nB2\nC\n")]);
    assert!(matches!(repo.create_commit(&"ours".to_string()), Ok(CommitCreateResult::Success(_))));
    repo.checkout_branch(&"theirs".to_string(), false).unwrap();
    stage_files(&mut repo, &[("x", "A\nB3\nC\n")]);
    commit(&mut repo, "theirs", 3);
    repo.checkout_branch(&"main".to_string(), false).unwrap();
    let count = repo.objects.entries.len();
    match repo.merge(&"theirs".to_string()).unwrap() {
        MergeReport::Conflicts(c) => assert_eq!((c[0].file.as_str(), c[0].line_start), ("x", 2)),
        _ => panic!("expected a conflict"),
    }
    assert_eq!(repo.objects.entries.len(), count);
    assert_eq!(repo.merge(&"nope".to_string()).err(), Some(GitError::NotFound));
}
