use fstree::fstree::change::{Change, ChangeKind};
use fstree::fstree::{lower32, Node, NodeMetadata, RawMetadata, Tree};

fn raw(inode: u64, size: u64, mtime_sec: i64) -> RawMetadata {
    RawMetadata {
        ctime_sec: mtime_sec,
        ctime_nsec: 500,
        mtime_sec,
        mtime_nsec: 600,
        dev: 7,
        inode,
        size,
    }
}

fn meta(inode: u64, size: u64, mtime_sec: i64) -> NodeMetadata {
    NodeMetadata::new(&raw(inode, size, mtime_sec))
}

fn file(name: &str, inode: u64, size: u64, mtime_sec: i64) -> Node {
    Node::new_file(String::from(name), meta(inode, size, mtime_sec))
}

fn dir(name: &str, inode: u64, mtime_sec: i64, children: Vec<Node>) -> Node {
    let mut d = Node::new_dir(String::from(name), meta(inode, 4096, mtime_sec));
    for child in children {
        assert!(d.add_child(child));
    }
    d
}

fn parent() -> Option<Vec<String>> {
    Some(vec![String::from("/"), String::from("data")])
}

fn path_of(components: &[&str]) -> Vec<String> {
    components.iter().map(|c| String::from(*c)).collect()
}

#[derive(PartialEq, Eq, Debug)]
struct TestChange {
    name: String,
    kind: ChangeKind,
    is_dir: bool,
}

impl TestChange {
    fn new(name: &str, kind: ChangeKind, is_dir: bool) -> Self {
        Self { name: String::from(name), kind, is_dir }
    }
}

impl From<Change> for TestChange {
    fn from(change: Change) -> TestChange {
        TestChange::new(change.path().last().unwrap().as_str(), change.kind(), change.is_dir())
    }
}

#[test]
fn test_lower32() {
    assert_eq!(lower32(0), 0);
    assert_eq!(lower32(5), 5);
    assert_eq!(lower32(-1), 0xFFFF_FFFF);
    assert_eq!(lower32(0x1_2345_6789), 0x2345_6789);
    assert_eq!(lower32(i64::MAX), 0xFFFF_FFFF);
}

#[test]
fn test_metadata_fields() {
    let m = meta(42, 1000, 0x9_0000_0005);
    assert_eq!(m.ctime.sec, 5);
    assert_eq!(m.ctime.nsec, 500);
    assert_eq!(m.mtime.sec, 5);
    assert_eq!(m.mtime.nsec, 600);
    assert_eq!(m.dev, 7);
    assert_eq!(m.inode, 42);
    assert_eq!(m.size, 1000);
}

#[test]
fn test_metadata_equality() {
    assert_eq!(meta(1, 10, 100), meta(1, 10, 100));
    assert_ne!(meta(1, 10, 100), meta(2, 10, 100));
    assert_ne!(meta(1, 10, 100), meta(1, 11, 100));
    assert_ne!(meta(1, 10, 100), meta(1, 10, 101));
    // timestamps agreeing in their low 32 bits are indistinguishable
    assert_eq!(meta(1, 10, 100), meta(1, 10, 100 + (1i64 << 32)));
}

#[test]
fn test_change_accessors() {
    let c = Change::new(path_of(&["/", "data", "a.dat"]), ChangeKind::Modify, false);
    assert_eq!(*c.path(), path_of(&["/", "data", "a.dat"]));
    assert_eq!(c.kind(), ChangeKind::Modify);
    assert!(!c.is_dir());
}

#[test]
fn test_add_child_keeps_names_unique() {
    let mut d = Node::new_dir(String::from("c"), meta(1, 4096, 1));
    assert!(!d.contains_child(&String::from("e.dat")));
    assert!(d.add_child(file("e.dat", 2, 10, 2)));
    assert!(d.contains_child(&String::from("e.dat")));
    assert!(!d.add_child(file("e.dat", 3, 20, 3)));
    assert!(d.add_child(file("f.dat", 4, 30, 4)));
}

#[test]
fn test_tree_construction() {
    let root = dir(
        "tree_dir",
        1,
        1,
        vec![
            file("a.dat", 2, 10, 2),
            file("b.dat", 3, 20, 3),
            dir("c", 4, 4, vec![file("e.dat", 5, 30, 5), file("f.dat", 6, 40, 6)]),
        ],
    );
    let tree = Tree::new(parent(), root);
    let mut files = tree.files();
    files.sort();

    let mut expected_files = vec![
        path_of(&["/", "data", "tree_dir", "a.dat"]),
        path_of(&["/", "data", "tree_dir", "b.dat"]),
        path_of(&["/", "data", "tree_dir", "c", "e.dat"]),
        path_of(&["/", "data", "tree_dir", "c", "f.dat"]),
    ];
    expected_files.sort();

    assert_eq!(files, expected_files);
}

#[test]
fn test_files_without_parent_start_at_root() {
    let root = dir("top", 1, 1, vec![file("a.dat", 2, 10, 2)]);
    let tree = Tree::new(None, root);
    assert_eq!(tree.files(), vec![path_of(&["/", "top", "a.dat"])]);
}

#[test]
fn test_tree_difference() {
    let older = Tree::new(
        parent(),
        dir(
            "diff_dir",
            1,
            1,
            vec![
                file("a.dat", 2, 10, 2),
                dir("c", 3, 3, vec![file("e.dat", 4, 20, 4)]),
                file("f.dat", 5, 30, 5),
                dir("d", 6, 6, vec![]),
            ],
        ),
    );
    let newer = Tree::new(
        parent(),
        dir(
            "diff_dir",
            1,
            100,
            vec![
                file("a.dat", 2, 11, 50),
                dir("c", 3, 60, vec![]),
                file("g.dat", 7, 40, 7),
                file("h.dat", 8, 50, 8),
                file("d", 9, 60, 9),
            ],
        ),
    );

    let changes = older.difference(&newer);
    let changes: Vec<_> = changes.into_iter().map(TestChange::from).collect();

    let expected_changes = vec![
        TestChange::new("a.dat", ChangeKind::Modify, false),
        TestChange::new("e.dat", ChangeKind::Delete, false),
        TestChange::new("f.dat", ChangeKind::Delete, false),
        TestChange::new("g.dat", ChangeKind::Add, false),
        TestChange::new("h.dat", ChangeKind::Add, false),
        TestChange::new("d", ChangeKind::Add, false),
        TestChange::new("d", ChangeKind::Delete, true),
    ];

    assert_eq!(changes.len(), expected_changes.len());
    for exp_change in &expected_changes {
        assert!(changes.contains(exp_change));
    }
}

#[test]
fn test_diff_of_identical_snapshots_is_empty() {
    let build = || {
        Tree::new(
            parent(),
            dir(
                "same_dir",
                1,
                1,
                vec![file("a.dat", 2, 10, 2), dir("c", 3, 3, vec![file("e.dat", 4, 20, 4)])],
            ),
        )
    };
    let first = build();
    let second = build();
    assert!(first.difference(&second).is_empty());
}

#[test]
fn test_add_delete_symmetry() {
    let a = Tree::new(parent(), dir("root", 1, 1, vec![file("kept.dat", 2, 10, 2)]));
    let b = Tree::new(
        parent(),
        dir("root", 1, 50, vec![file("kept.dat", 2, 10, 2), dir("x", 3, 3, vec![])]),
    );

    let forward = a.difference(&b);
    assert_eq!(forward.len(), 1);
    assert_eq!(*forward[0].path(), path_of(&["/", "data", "x"]));
    assert_eq!(forward[0].kind(), ChangeKind::Add);
    assert!(forward[0].is_dir());

    let backward = b.difference(&a);
    assert_eq!(backward.len(), 1);
    assert_eq!(*backward[0].path(), path_of(&["/", "data", "x"]));
    assert_eq!(backward[0].kind(), ChangeKind::Delete);
    assert!(backward[0].is_dir());
}

#[test]
fn test_type_change_expands_to_delete_and_add() {
    let older = Tree::new(parent(), dir("root", 1, 1, vec![file("p", 2, 10, 2)]));
    let newer = Tree::new(parent(), dir("root", 1, 50, vec![dir("p", 3, 3, vec![])]));

    let changes = older.difference(&newer);
    let at_p: Vec<_> = changes
        .iter()
        .filter(|c| *c.path() == path_of(&["/", "data", "p"]))
        .collect();
    assert_eq!(at_p.len(), 2);
    assert_eq!(at_p[0].kind(), ChangeKind::Delete);
    assert!(!at_p[0].is_dir());
    assert_eq!(at_p[1].kind(), ChangeKind::Add);
    assert!(at_p[1].is_dir());
    assert!(changes.iter().all(|c| c.kind() != ChangeKind::Modify));
}

#[test]
fn test_modify_is_file_only() {
    let older = Tree::new(
        parent(),
        dir(
            "root",
            1,
            1,
            vec![
                dir("nested", 2, 2, vec![file("changed.dat", 3, 10, 3)]),
                file("sibling.dat", 4, 20, 4),
            ],
        ),
    );
    let newer = Tree::new(
        parent(),
        dir(
            "root",
            1,
            50,
            vec![
                dir("nested", 2, 60, vec![file("changed.dat", 3, 11, 70)]),
                file("sibling.dat", 4, 20, 4),
            ],
        ),
    );

    let changes = older.difference(&newer);
    assert_eq!(changes.len(), 1);
    assert_eq!(*changes[0].path(), path_of(&["/", "data", "nested", "changed.dat"]));
    assert_eq!(changes[0].kind(), ChangeKind::Modify);
    assert!(!changes[0].is_dir());
}

#[test]
fn test_unchanged_subtree_is_short_circuited() {
    // the subtree's own fingerprint decides: equal root fingerprints hide
    // differing children, by design
    let older = Tree::new(
        parent(),
        dir("root", 1, 1, vec![dir("quiet", 2, 2, vec![file("a.dat", 3, 10, 3)])]),
    );
    let newer = Tree::new(
        parent(),
        dir("root", 1, 50, vec![dir("quiet", 2, 2, vec![file("b.dat", 4, 20, 4)])]),
    );
    let changes = older.difference(&newer);
    // the roots differ, but "quiet" carries one fingerprint on both sides
    assert!(changes.is_empty());
}
