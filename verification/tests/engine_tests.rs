use antig::engine::copy_single;
use antig::engine::copy_tree;
use antig::paths::FsPath;
use antig::progress::Progress;
use antig::store::DirStore;
use antig::tree::Node;

fn path(parts: &[&str]) -> FsPath {
    FsPath::from_parts(parts.iter().map(|s| s.to_string()).collect())
}

/// The tree of the worked scenario: `a` holds `x.txt` (3 bytes) and
/// `sub/y.txt` (5 bytes).
fn sample_tree() -> Node {
    Node::Dir {
        name: "a".to_string(),
        canon: 1,
        children: vec![
            Node::File { name: "x.txt".to_string(), canon: 2, bytes: b"abc".to_vec() },
            Node::Dir {
                name: "sub".to_string(),
                canon: 3,
                children: vec![Node::File {
                    name: "y.txt".to_string(),
                    canon: 4,
                    bytes: b"hello".to_vec(),
                }],
            },
        ],
    }
}

const NO_EXCLUDE: u64 = 999;

#[test]
fn mirror_tree_copy() {
    let mut store = DirStore::new();
    store.create_dir(&path(&["out"]));
    let mut progress = Progress::new(100);
    let tree = sample_tree();
    let copied = copy_tree(&mut store, &tree, &path(&["out"]), NO_EXCLUDE, &mut progress, 2, true);
    assert_eq!(copied, 2);
    assert!(store.has_dir(&path(&["out", "a"])));
    assert!(store.has_dir(&path(&["out", "a", "sub"])));
    let x = store.file_bytes(&path(&["out", "a", "x.txt"])).expect("x.txt copied");
    assert_eq!(x.as_slice(), b"abc");
    let y = store.file_bytes(&path(&["out", "a", "sub", "y.txt"])).expect("y.txt copied");
    assert_eq!(y.as_slice(), b"hello");
    assert_eq!(store.file_size(&path(&["out", "a", "x.txt"])), Some(3));
    assert_eq!(store.file_size(&path(&["out", "a", "sub", "y.txt"])), Some(5));
}

#[test]
fn empty_directory_is_created() {
    let mut store = DirStore::new();
    store.create_dir(&path(&["out"]));
    let mut progress = Progress::new(100);
    let tree = Node::Dir {
        name: "a".to_string(),
        canon: 1,
        children: vec![Node::Dir { name: "sub".to_string(), canon: 3, children: vec![] }],
    };
    let copied = copy_tree(&mut store, &tree, &path(&["out"]), NO_EXCLUDE, &mut progress, 0, true);
    assert_eq!(copied, 0);
    assert!(store.has_dir(&path(&["out", "a", "sub"])));
    assert_eq!(store.file_size(&path(&["out", "a", "sub"])), None);
}

#[test]
fn second_run_skips_all() {
    let mut store = DirStore::new();
    store.create_dir(&path(&["out"]));
    let mut progress = Progress::new(100);
    let first = copy_tree(
        &mut store,
        &sample_tree(),
        &path(&["out"]),
        NO_EXCLUDE,
        &mut progress,
        2,
        true,
    );
    assert_eq!(first, 2);
    let second = copy_tree(
        &mut store,
        &sample_tree(),
        &path(&["out"]),
        NO_EXCLUDE,
        &mut progress,
        2,
        true,
    );
    assert_eq!(second, 0);
    let x = store.file_bytes(&path(&["out", "a", "x.txt"])).expect("x.txt kept");
    assert_eq!(x.as_slice(), b"abc");
    let y = store.file_bytes(&path(&["out", "a", "sub", "y.txt"])).expect("y.txt kept");
    assert_eq!(y.as_slice(), b"hello");
}

#[test]
fn stale_file_replaced() {
    let mut store = DirStore::new();
    store.create_dir(&path(&["out"]));
    // A stale two-byte leftover where the three-byte x.txt belongs.
    copy_single(&mut store, &path(&["a", "x.txt"]), &b"zz".to_vec(), &path(&["out"]), true);
    assert_eq!(store.file_size(&path(&["out", "a", "x.txt"])), Some(2));
    let mut progress = Progress::new(100);
    let copied = copy_tree(
        &mut store,
        &sample_tree(),
        &path(&["out"]),
        NO_EXCLUDE,
        &mut progress,
        2,
        true,
    );
    assert_eq!(copied, 2);
    let x = store.file_bytes(&path(&["out", "a", "x.txt"])).expect("x.txt rewritten");
    assert_eq!(x.as_slice(), b"abc");
}

#[test]
fn same_size_file_skipped_and_kept() {
    let mut store = DirStore::new();
    store.create_dir(&path(&["out"]));
    // Same size as x.txt: the size-based policy treats it as already copied.
    copy_single(&mut store, &path(&["a", "x.txt"]), &b"zzz".to_vec(), &path(&["out"]), true);
    let mut progress = Progress::new(100);
    let copied = copy_tree(
        &mut store,
        &sample_tree(),
        &path(&["out"]),
        NO_EXCLUDE,
        &mut progress,
        2,
        true,
    );
    assert_eq!(copied, 1);
    let x = store.file_bytes(&path(&["out", "a", "x.txt"])).expect("x.txt present");
    assert_eq!(x.as_slice(), b"zzz");
}

#[test]
fn excluded_subtree_not_copied() {
    let mut store = DirStore::new();
    store.create_dir(&path(&["out"]));
    let mut progress = Progress::new(100);
    // `a/d` is the destination itself, nested inside the source.
    let tree = Node::Dir {
        name: "a".to_string(),
        canon: 1,
        children: vec![
            Node::File { name: "x.txt".to_string(), canon: 2, bytes: b"abc".to_vec() },
            Node::Dir {
                name: "d".to_string(),
                canon: 77,
                children: vec![Node::File {
                    name: "y.txt".to_string(),
                    canon: 5,
                    bytes: b"hello".to_vec(),
                }],
            },
        ],
    };
    let copied = copy_tree(&mut store, &tree, &path(&["out"]), 77, &mut progress, 1, true);
    assert_eq!(copied, 1);
    assert!(store.file_bytes(&path(&["out", "a", "x.txt"])).is_some());
    assert!(!store.has_dir(&path(&["out", "a", "d"])));
    assert_eq!(store.file_size(&path(&["out", "a", "d", "y.txt"])), None);
}

#[test]
fn progress_tracks_copies() {
    let mut store = DirStore::new();
    store.create_dir(&path(&["out"]));
    let mut progress = Progress::new(100);
    copy_tree(&mut store, &sample_tree(), &path(&["out"]), NO_EXCLUDE, &mut progress, 7, true);
    assert_eq!(progress.position, 2);
    assert_eq!(progress.length, 7);
}

#[test]
fn progress_untouched_when_disabled() {
    let mut store = DirStore::new();
    store.create_dir(&path(&["out"]));
    let mut progress = Progress::new(100);
    copy_tree(&mut store, &sample_tree(), &path(&["out"]), NO_EXCLUDE, &mut progress, 7, false);
    assert_eq!(progress.position, 0);
    assert_eq!(progress.length, 100);
}

#[test]
fn single_copy_into_directory() {
    let mut store = DirStore::new();
    store.create_dir(&path(&["out"]));
    copy_single(&mut store, &path(&["notes.txt"]), &b"hi".to_vec(), &path(&["out"]), true);
    let b = store.file_bytes(&path(&["out", "notes.txt"])).expect("copied inside");
    assert_eq!(b.as_slice(), b"hi");
}

#[test]
fn single_copy_to_plain_target() {
    let mut store = DirStore::new();
    copy_single(&mut store, &path(&["notes.txt"]), &b"hi".to_vec(), &path(&["target.txt"]), false);
    let b = store.file_bytes(&path(&["target.txt"])).expect("copied to the path itself");
    assert_eq!(b.as_slice(), b"hi");
}

#[test]
fn single_copy_overwrites() {
    let mut store = DirStore::new();
    copy_single(&mut store, &path(&["n.txt"]), &b"one".to_vec(), &path(&["t.txt"]), false);
    copy_single(&mut store, &path(&["n.txt"]), &b"second".to_vec(), &path(&["t.txt"]), false);
    let b = store.file_bytes(&path(&["t.txt"])).expect("still there");
    assert_eq!(b.as_slice(), b"second");
}
