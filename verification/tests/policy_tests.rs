use antig::paths::FsPath;
use antig::policy::default_destination;
use antig::policy::plan_file;
use antig::policy::plan_source;
use antig::policy::ConfigError;
use antig::policy::Dispatch;
use antig::policy::FileAction;
use antig::progress::Progress;
use antig::store::DirStore;
use antig::tree::count_files;
use antig::tree::walk_into;
use antig::tree::Entry;
use antig::tree::Node;

fn path(parts: &[&str]) -> FsPath {
    FsPath::from_parts(parts.iter().map(|s| s.to_string()).collect())
}

#[test]
fn plan_file_actions() {
    assert_eq!(plan_file(3, None), FileAction::Fresh);
    assert_eq!(plan_file(3, Some(3)), FileAction::Skip);
    assert_eq!(plan_file(3, Some(2)), FileAction::Replace);
    assert_eq!(plan_file(0, Some(0)), FileAction::Skip);
}

#[test]
fn plan_source_dispatch() {
    assert_eq!(plan_source(1, 1, true, true, true), Ok(Dispatch::SkipSelf));
    assert_eq!(plan_source(1, 2, true, true, true), Ok(Dispatch::CopyDirectory));
    assert_eq!(plan_source(1, 2, false, false, true), Ok(Dispatch::CopyFileInto));
    assert_eq!(plan_source(1, 2, false, false, false), Ok(Dispatch::CopyFileTo));
    assert_eq!(plan_source(1, 2, true, true, false), Err(ConfigError::DestinationNotDirectory));
}

#[test]
fn recursive_flag_required_without_writes() {
    // A directory source without the recursive flag is refused before the
    // engine runs: the orchestrator gets a configuration error and the
    // destination stays untouched.
    let store = DirStore::new();
    match plan_source(1, 2, true, false, true) {
        Err(e) => assert_eq!(e, ConfigError::NeedsRecursiveFlag),
        Ok(_) => panic!("a directory source must require the recursive flag"),
    }
    assert_eq!(store.file_size(&path(&["out", "a", "x.txt"])), None);
    assert!(!store.has_dir(&path(&["out", "a"])));
}

#[test]
fn counter_counts_files() {
    let forest = vec![
        Node::File { name: "x.txt".to_string(), canon: 2, bytes: b"abc".to_vec() },
        Node::Dir {
            name: "sub".to_string(),
            canon: 3,
            children: vec![
                Node::File { name: "y.txt".to_string(), canon: 4, bytes: b"hello".to_vec() },
                Node::File { name: "z.txt".to_string(), canon: 5, bytes: vec![] },
            ],
        },
    ];
    assert_eq!(count_files(&forest, &path(&["out", "a"]), 999), 3);
    // The excluded subtree's files are not counted.
    assert_eq!(count_files(&forest, &path(&["out", "a"]), 3), 1);
}

#[test]
fn walk_lists_entries_in_order() {
    let forest = vec![
        Node::File { name: "x.txt".to_string(), canon: 2, bytes: b"abc".to_vec() },
        Node::Dir {
            name: "sub".to_string(),
            canon: 3,
            children: vec![Node::File {
                name: "y.txt".to_string(),
                canon: 4,
                bytes: b"hello".to_vec(),
            }],
        },
    ];
    let mut entries: Vec<Entry> = Vec::new();
    walk_into(&forest, &path(&["out", "a"]), 999, &mut entries);
    assert_eq!(entries.len(), 3);
    match &entries[0] {
        Entry::File { path: p, canon, bytes } => {
            assert!(p.same_path(&path(&["out", "a", "x.txt"])));
            assert_eq!(*canon, 2);
            assert_eq!(bytes.as_slice(), b"abc");
        },
        Entry::Dir { .. } => panic!("first entry should be x.txt"),
    }
    match &entries[1] {
        Entry::Dir { path: p, canon } => {
            assert!(p.same_path(&path(&["out", "a", "sub"])));
            assert_eq!(*canon, 3);
        },
        Entry::File { .. } => panic!("second entry should be sub"),
    }
    match &entries[2] {
        Entry::File { path: p, canon, bytes } => {
            assert!(p.same_path(&path(&["out", "a", "sub", "y.txt"])));
            assert_eq!(*canon, 4);
            assert_eq!(bytes.as_slice(), b"hello");
        },
        Entry::Dir { .. } => panic!("third entry should be y.txt"),
    }
}

#[test]
fn paths_compare_and_extend() {
    let a = path(&["out", "a"]);
    let b = a.child(&"x.txt".to_string());
    assert!(b.same_path(&path(&["out", "a", "x.txt"])));
    assert!(!b.same_path(&a));
    assert_eq!(b.depth(), 3);
    let c = a.concat(&path(&["sub", "y.txt"]));
    assert!(c.same_path(&path(&["out", "a", "sub", "y.txt"])));
    assert!(a.same_path(&a.copy_of()));
    let parts = b.into_parts();
    assert_eq!(parts, vec!["out".to_string(), "a".to_string(), "x.txt".to_string()]);
}

#[test]
fn default_destination_resolution() {
    let cwd = path(&["home", "user"]);
    let dest = path(&["."]);
    let named = default_destination(&dest, true, true, &cwd, &"a".to_string());
    assert!(named.same_path(&path(&["home", "user", "a"])));
    let kept = default_destination(&path(&["out"]), false, true, &cwd, &"a".to_string());
    assert!(kept.same_path(&path(&["out"])));
    let two_sources = default_destination(&dest, true, false, &cwd, &"a".to_string());
    assert!(two_sources.same_path(&dest));
}

#[test]
fn progress_state_changes() {
    let mut p = Progress::new(100);
    assert_eq!(p.position, 0);
    assert_eq!(p.length, 100);
    p.set_length(5);
    assert_eq!(p.length, 5);
    p.advance();
    p.advance();
    assert_eq!(p.position, 2);
    assert_eq!(p.length, 5);
}
