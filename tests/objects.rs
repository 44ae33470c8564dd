use kidon_git::codec::{index_from_bytes, index_to_bytes, object_from_bytes, object_to_bytes};
use kidon_git::digest::digest_hex;
use kidon_git::object::{Blob, Commit, Object, ObjectSha1, Sha1Able, Tree, TreeLine, TreeLineKind};
use kidon_git::store::{object_path, GitError, ObjectStore};

fn line(kind: TreeLineKind, name: &str, sha1: &str) -> TreeLine {
    TreeLine { kind, name: name.to_string(), sha1: sha1.into() }
}

#[test]
fn test_blob_sha1() {
    let blob = Blob::from("hello world");
    assert_eq!(blob.sha1(), "2aae6c35c94fcfb415dbe95f408b9ce91ee846ed");
    let blob = Blob::from("hello world!");
    assert_eq!(blob.sha1(), "430ce34d020724ed75a196dfc2ad67c77772d169");
    let blob = Blob::from(vec![1, 2, 3, 4, 5]);
    assert_eq!(blob.sha1(), "11966ab9c099f8fabefac54c08d5be2bd8c903af");
}

#[test]
fn test_commit_sha1() {
    let mut commit = Commit {
        tree: "tree_hash".into(),
        parent: Some("parent_hash".into()),
        timestamp: (0, 0),
        message: "commit message".into(),
    };

    let sha1 = commit.sha1();
    assert_eq!(sha1, "9fdae82bc2f37cc414b82bb7255c48461ee8c096");
    commit.tree = "new_tree_hash".into();
    assert_ne!(sha1, commit.sha1());
}

#[test]
fn test_tree_sha1() {
    let mut tree = Tree {
        objects: vec![
            TreeLine {
                kind: TreeLineKind::File,
                name: "file.txt".to_string(),
                sha1: "abc123".into(),
            },
            TreeLine {
                kind: TreeLineKind::File,
                name: "dir".to_string(),
                sha1: "def456".into(),
            },
        ],
    };

    let sha1 = tree.sha1();
    assert_eq!(sha1, "00bfe760502a870dff983987f29dcf6e8dd76495");
    tree.objects.push(TreeLine {
        kind: TreeLineKind::Executable,
        name: "new_file.exe".to_string(),
        sha1: "xyz789".into(),
    });

    assert_ne!(sha1, tree.sha1());
}

#[test]
fn object_sha1_should_eq_inner_sha1() {
    let blob = Blob::from("hello world");
    assert_eq!(blob.sha1(), Object::from(blob).sha1());

    let commit = Commit {
        tree: "tree_hash".into(),
        parent: Some("parent_hash".into()),
        timestamp: (0, 0),
        message: "commit message".to_string(),
    };
    assert_eq!(commit.sha1(), Object::from(commit).sha1());

    let tree = Tree {
        objects: vec![TreeLine {
            kind: TreeLineKind::File,
            name: "file.txt".to_string(),
            sha1: "file_sha1".into(),
        }],
    };
    assert_eq!(tree.sha1(), Object::from(tree).sha1());
}

#[test]
fn hex_digest_of_bytes() {
    assert_eq!(digest_hex(b"hi\n"), "55ca6286e3e4f4fba5d0448333fa99fc5a404a73");
    assert_eq!(digest_hex(b""), "da39a3ee5e6b4b0d3255bfef95601890afd80709");
}

#[test]
fn text_and_binary_blobs_share_digests() {
    assert_eq!(Blob::from("abc").sha1(), Blob::from(vec![97u8, 98, 99]).sha1());
    assert_eq!(Blob::from_bytes(vec![0xff, 0xfe]), Blob::Binary(vec![0xff, 0xfe]));
    assert_eq!(Blob::from_bytes(b"ok".to_vec()), Blob::Text("ok".to_string()));
    assert_eq!(Blob::Binary(b"ok".to_vec()).as_string(), "ok");
    assert_eq!(Blob::Binary(vec![b'a', 0xff]).as_string(), "a\u{fffd}");
}

#[test]
fn changing_any_field_changes_the_digest() {
    let base = Commit {
        tree: "tree_hash".into(),
        parent: Some("parent_hash".into()),
        timestamp: (0, 0),
        message: "commit message".into(),
    };
    let d = base.sha1();
    let mut c = base.clone();
    c.parent = None;
    assert_ne!(d, c.sha1());
    let mut c = base.clone();
    c.timestamp = (1, 0);
    assert_ne!(d, c.sha1());
    let mut c = base.clone();
    c.timestamp = (0, 1);
    assert_ne!(d, c.sha1());
    let mut c = base.clone();
    c.message = "other".into();
    assert_ne!(d, c.sha1());

    let t = Tree { objects: vec![line(TreeLineKind::File, "a", "x")] };
    assert_ne!(t.sha1(), Tree { objects: vec![line(TreeLineKind::Executable, "a", "x")] }.sha1());
    assert_ne!(t.sha1(), Tree { objects: vec![line(TreeLineKind::File, "b", "x")] }.sha1());
    assert_ne!(t.sha1(), Tree { objects: vec![line(TreeLineKind::File, "a", "y")] }.sha1());
    assert_ne!(Blob::from("a").sha1(), Blob::from("b").sha1());
}

#[test]
fn object_type_names() {
    assert_eq!(Object::Blob(Blob::from("x")).object_type(), "blob");
    assert_eq!(Object::Tree(Tree::empty()).object_type(), "tree");
    let c = Commit { tree: "t".into(), parent: None, timestamp: (0, 0), message: String::new() };
    assert_eq!(Object::Commit(c).object_type(), "commit");
}

#[test]
fn put_then_get_returns_the_object() {
    let mut store = ObjectStore::new();
    let blob = Blob::from("content");
    let d = store.put(Object::Blob(blob.clone()));
    assert_eq!(d, blob.sha1());
    match store.get(&d) {
        Some(Object::Blob(b)) => assert_eq!(*b, blob),
        _ => panic!("blob not found"),
    }
    assert!(store.has(&d));
    let again = store.put(Object::Blob(blob));
    assert_eq!(again, d);
    assert_eq!(store.entries.len(), 1);
    assert!(store.get(&"missing".to_string()).is_none());
    assert_eq!(store.get_tree(&d).err(), Some(GitError::CorruptObject));
    assert_eq!(store.get_tree(&"missing".to_string()).err(), Some(GitError::NotFound));
}

#[test]
fn encoding_round_trips() {
    let objects = vec![
        Object::Blob(Blob::from("text ü")),
        Object::Blob(Blob::from(vec![0u8, 255, 7])),
        Object::Tree(Tree {
            objects: vec![line(TreeLineKind::Tree, "dir", "d1"), line(TreeLineKind::Symlink, "ln", "s2")],
        }),
        Object::Commit(Commit {
            tree: "tree".into(),
            parent: Some("parent".into()),
            timestamp: (-5, 7),
            message: "msg\nbody".into(),
        }),
        Object::Commit(Commit { tree: "tree".into(), parent: None, timestamp: (1, 2), message: String::new() }),
    ];
    for o in objects {
        let bytes = object_to_bytes(&o);
        let back = object_from_bytes(&bytes).expect("decodes");
        assert_eq!(format!("{:?}", back), format!("{:?}", o));
        assert_eq!(back.sha1(), o.sha1());
    }
}

#[test]
fn encoding_layout() {
    let bytes = object_to_bytes(&Object::Blob(Blob::from("hi")));
    assert_eq!(bytes, vec![0u8, 2, 0, 0, 0, 0, 0, 0, 0, b'h', b'i']);
    let bytes = object_to_bytes(&Object::Blob(Blob::from(vec![9u8])));
    assert_eq!(bytes, vec![1u8, 1, 0, 0, 0, 0, 0, 0, 0, 9]);
}

#[test]
fn corrupt_bytes_are_refused() {
    assert_eq!(object_from_bytes(&[]).err(), Some(GitError::CorruptObject));
    assert_eq!(object_from_bytes(&[9]).err(), Some(GitError::CorruptObject));
    assert_eq!(object_from_bytes(&[0, 5, 0, 0, 0, 0, 0, 0, 0, b'a']).err(), Some(GitError::CorruptObject));
    let mut ok = object_to_bytes(&Object::Blob(Blob::from("a")));
    ok.push(0);
    assert_eq!(object_from_bytes(&ok).err(), Some(GitError::CorruptObject));
    assert_eq!(index_from_bytes(&[1, 0]).err(), Some(GitError::CorruptObject));
}

#[test]
fn index_round_trips() {
    let t = Tree { objects: vec![line(TreeLineKind::File, "a.txt", "aa"), line(TreeLineKind::Executable, "run", "bb")] };
    let bytes = index_to_bytes(&t);
    let back = index_from_bytes(&bytes).expect("decodes");
    assert_eq!(back.objects, t.objects);
    let empty = index_from_bytes(&index_to_bytes(&Tree::empty())).expect("decodes");
    assert!(empty.objects.is_empty());
}

#[test]
fn digest_wrapper_is_used_for_sha1_text() {
    let d: ObjectSha1 = Blob::from("hello world").sha1().into();
    assert_eq!(d.0.len(), 40);
}

#[test]
fn objects_are_placed_by_digest() {
    let d = Blob::from("hello world").sha1();
    assert_eq!(object_path(&d).unwrap(), "objects/2a/ae6c35c94fcfb415dbe95f408b9ce91ee846ed");
    assert_eq!(object_path(&"ab".to_string()), None);
}
