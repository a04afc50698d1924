use merged_trees::backend::{BackendError, ConflictId, FileId, SymlinkId, TreeId, TreeValue};
use merged_trees::files::{merge_contents, split_lines};
use merged_trees::matchers::Matcher;
use merged_trees::merge::Merge;
use merged_trees::names::union_names;
use merged_trees::order::{compare_names, Order};
use merged_trees::repo_path::{RepoPath, RepoPathComponent};
use merged_trees::store::Store;
use merged_trees::tree::Tree;
use merged_trees::tree_builder::set_path;

fn name(text: &str) -> RepoPathComponent {
    RepoPathComponent::from(text)
}

fn path(text: &str) -> RepoPath {
    RepoPath::from_internal_string(text)
}

fn file(id: FileId) -> TreeValue {
    TreeValue::File {
        id,
        executable: false,
    }
}

#[test]
fn equal_contents_get_one_identifier() {
    let mut store = Store::new();
    let a = store.write_file(&b"one".to_vec());
    let b = store.write_file(&b"two".to_vec());
    let c = store.write_file(&b"one".to_vec());
    assert_eq!(a, c);
    assert_ne!(a, b);
    assert_eq!(store.read_file(a).unwrap(), &b"one".to_vec());
    assert_eq!(store.read_file(b).unwrap(), &b"two".to_vec());
    let s = store.write_symlink(&b"target".to_vec());
    assert_eq!(store.write_symlink(&b"target".to_vec()), s);
    assert_eq!(store.read_symlink(s).unwrap(), &b"target".to_vec());

    let mut tree = Tree::new();
    tree.set(&name("f"), file(a));
    let t1 = store.write_tree(&tree).unwrap();
    let t2 = store.write_tree(&tree.clone()).unwrap();
    assert_eq!(t1, t2);
    assert_eq!(store.get_tree(t1).unwrap(), &tree);
    assert_eq!(store.write_tree(&Tree::new()).unwrap(), store.empty_tree_id());
    assert_eq!(store.empty_tree_id(), TreeId(0));

    let record = Merge::new(vec![Some(file(a))], vec![Some(file(b)), None]);
    let c1 = store.write_conflict(&record).unwrap();
    assert_eq!(store.write_conflict(&record.clone()).unwrap(), c1);
    assert_eq!(store.read_conflict(c1).unwrap(), &record);
}

#[test]
fn missing_objects_are_reported() {
    let store = Store::new();
    assert_eq!(store.read_file(FileId(0)), Err(BackendError::ObjectNotFound));
    assert_eq!(
        store.read_symlink(SymlinkId(3)),
        Err(BackendError::ObjectNotFound)
    );
    assert_eq!(
        store.get_tree(TreeId(1)).err(),
        Some(BackendError::ObjectNotFound)
    );
    assert_eq!(
        store.read_conflict(ConflictId(0)).err(),
        Some(BackendError::ObjectNotFound)
    );
    assert!(store.get_tree(TreeId(0)).unwrap().is_empty());
}

#[test]
fn dangling_references_are_refused() {
    let mut store = Store::new();
    let mut tree = Tree::new();
    tree.set(&name("f"), file(FileId(7)));
    assert_eq!(
        store.write_tree(&tree),
        Err(BackendError::DanglingReference)
    );
    // An empty directory is no entry.
    let mut tree = Tree::new();
    tree.set(&name("d"), TreeValue::Tree(TreeId(0)));
    assert_eq!(
        store.write_tree(&tree),
        Err(BackendError::DanglingReference)
    );
    let id = store.write_file(&b"x".to_vec());
    assert!(store.holds_value(&file(id)));
    assert!(!store.holds_value(&file(FileId(9))));
    assert!(!store.holds_value(&TreeValue::Conflict(ConflictId(0))));
    let record = Merge::new(vec![None], vec![Some(file(id)), Some(file(FileId(9)))]);
    assert!(!store.holds_record(&record));
    assert_eq!(
        store.write_conflict(&record),
        Err(BackendError::DanglingReference)
    );
    let good = Merge::new(vec![None], vec![Some(file(id)), None]);
    assert!(store.holds_record(&good));
    let c = store.write_conflict(&good).unwrap();
    // A record holds no record.
    let nested = Merge::new(vec![None], vec![Some(TreeValue::Conflict(c)), None]);
    assert_eq!(
        store.write_conflict(&nested),
        Err(BackendError::DanglingReference)
    );
}

#[test]
fn tree_keeps_names_in_order() {
    let mut tree = Tree::new();
    let v = |n: usize| TreeValue::Symlink(SymlinkId(n));
    tree.set(&name("b"), v(1));
    tree.set(&name("a"), v(2));
    tree.set(&name("c"), v(3));
    tree.set(&name("ab"), v(4));
    assert_eq!(tree.len(), 4);
    assert_eq!(tree.names(), vec![name("a"), name("ab"), name("b"), name("c")]);
    assert_eq!(tree.value(&name("ab")), Some(v(4)));
    assert_eq!(tree.value(&name("x")), None);
    assert_eq!(tree.name_at(2), &name("b"));
    assert_eq!(tree.value_at(2), v(1));
    tree.set(&name("b"), v(9));
    assert_eq!(tree.value(&name("b")), Some(v(9)));
    assert_eq!(tree.len(), 4);
    tree.remove(&name("a"));
    tree.remove(&name("nothing"));
    tree.set_or_remove(&name("c"), None);
    assert_eq!(tree.names(), vec![name("ab"), name("b")]);
    let mut other = Tree::new();
    other.set(&name("b"), v(9));
    other.set(&name("ab"), v(4));
    assert!(tree.same(&other));
    other.set(&name("b"), v(1));
    assert!(!tree.same(&other));
}

#[test]
fn names_compare_byte_by_byte() {
    let order = |a: &str, b: &str| compare_names(&a.as_bytes().to_vec(), &b.as_bytes().to_vec());
    assert_eq!(order("a", "b"), Order::Before);
    assert_eq!(order("b", "a"), Order::After);
    assert_eq!(order("a", "a"), Order::Same);
    assert_eq!(order("", "a"), Order::Before);
    assert_eq!(order("a", "ab"), Order::Before);
    assert_eq!(order("ab", "a"), Order::After);
    assert_eq!(order("Z", "a"), Order::Before);
    assert_eq!(order("a-b", "a/b"), Order::Before);
    assert_eq!(name("x").compare(&name("y")), Order::Before);
    assert!(name("x").same(&name("x")));
    assert!(!name("x").same(&name("xx")));
    assert_eq!(name("xy").as_bytes(), &b"xy".to_vec());
    assert_eq!(RepoPathComponent::from_bytes(b"xy".to_vec()), name("xy"));
}

#[test]
fn union_of_names_is_ordered_without_repeats() {
    let a = vec![name("a"), name("c"), name("d")];
    let b = vec![name("b"), name("c"), name("e")];
    assert_eq!(
        union_names(&a, &b),
        vec![name("a"), name("b"), name("c"), name("d"), name("e")]
    );
    assert_eq!(union_names(&a, &vec![]), a);
    assert_eq!(union_names(&vec![], &b), b);
}

#[test]
fn paths_from_text() {
    assert_eq!(path(""), RepoPath::root());
    assert!(path("").is_root());
    assert_eq!(path("a").components(), &vec![name("a")]);
    assert_eq!(
        path("dir/sub/file").components(),
        &vec![name("dir"), name("sub"), name("file")]
    );
    assert_eq!(path("a//b").components(), &vec![name("a"), name(""), name("b")]);
    assert_eq!(path("a/").components(), &vec![name("a"), name("")]);
    assert_eq!(path("a/b").len(), 2);
    assert_eq!(
        RepoPath::from_components(vec![name("a"), name("b")]),
        path("a/b")
    );
}

#[test]
fn paths_parent_split_join() {
    assert_eq!(RepoPath::root().parent(), None);
    assert_eq!(RepoPath::root().split(), None);
    assert_eq!(path("a").parent(), Some(RepoPath::root()));
    assert_eq!(path("a/b/c").parent(), Some(path("a/b")));
    assert_eq!(path("a/b/c").split(), Some((path("a/b"), name("c"))));
    assert_eq!(path("a").join(&name("b")), path("a/b"));
    assert!(path("a/b").same(&path("a/b")));
    assert!(!path("a/b").same(&path("a")));
    assert!(!path("a/b").same(&path("a/c")));
}

#[test]
fn paths_compare_name_by_name() {
    let order = |a: &str, b: &str| path(a).compare(&path(b));
    assert_eq!(order("a", "a"), Order::Same);
    assert_eq!(order("", "a"), Order::Before);
    // A directory comes before what it holds, and that before the next name.
    assert_eq!(order("a", "a/b"), Order::Before);
    assert_eq!(order("a/b", "a"), Order::After);
    assert_eq!(order("a/b", "a-b"), Order::Before);
    assert_eq!(order("a/z", "b"), Order::Before);
    assert_eq!(order("b", "a/z"), Order::After);
    assert_eq!(order("a/b/c", "a/b/d"), Order::Before);
}

#[test]
fn matcher_lets_listed_paths_through() {
    assert!(Matcher::everything().matches(&path("any/where")));
    let files = Matcher::files(vec![path("a"), path("b/c")]);
    assert!(files.matches(&path("a")));
    assert!(files.matches(&path("b/c")));
    assert!(!files.matches(&path("b")));
    assert!(!files.matches(&path("b/c/d")));
    assert!(!Matcher::files(vec![]).matches(&path("a")));
}

#[test]
fn set_path_makes_and_drops_directories() {
    let mut store = Store::new();
    let f1 = file(store.write_file(&b"1".to_vec()));
    let f2 = file(store.write_file(&b"2".to_vec()));
    let empty = store.empty_tree_id();
    let t = set_path(&mut store, empty, &path("a/b/c"), Some(f1)).unwrap();
    let value_at = |store: &Store, t: TreeId, p: &str| {
        let names = path(p);
        let mut cur = t;
        let mut found = None;
        for (i, n) in names.components().iter().enumerate() {
            found = store.get_tree(cur).unwrap().value(n);
            match found {
                Some(TreeValue::Tree(sub)) if i + 1 < names.len() => cur = sub,
                _ if i + 1 < names.len() => return None,
                _ => {}
            }
        }
        found
    };
    assert_eq!(value_at(&store, t, "a/b/c"), Some(f1));
    assert!(matches!(value_at(&store, t, "a/b"), Some(TreeValue::Tree(_))));
    // The same content in another order of writes is the same tree.
    let t2 = set_path(&mut store, t, &path("x"), Some(f2)).unwrap();
    let u = set_path(&mut store, empty, &path("x"), Some(f2)).unwrap();
    let u2 = set_path(&mut store, u, &path("a/b/c"), Some(f1)).unwrap();
    assert_eq!(t2, u2);
    // A file in the place of a directory is dropped.
    let t3 = set_path(&mut store, t2, &path("x/y"), Some(f1)).unwrap();
    assert_eq!(value_at(&store, t3, "x/y"), Some(f1));
    // A directory in the place of a file is replaced with what it held.
    let t4 = set_path(&mut store, t3, &path("a"), Some(f2)).unwrap();
    assert_eq!(value_at(&store, t4, "a"), Some(f2));
    assert_eq!(value_at(&store, t4, "a/b/c"), None);
    // Deleting the last entry of directories drops them.
    let t5 = set_path(&mut store, t, &path("a/b/c"), None).unwrap();
    assert_eq!(t5, empty);
    // Deleting what is not there changes nothing.
    assert_eq!(set_path(&mut store, t, &path("q/r"), None).unwrap(), t);
    // The tree given stays as it was.
    assert_eq!(value_at(&store, t, "a/b/c"), Some(f1));
}

#[test]
fn set_path_refuses_what_the_store_lacks() {
    let mut store = Store::new();
    let empty = store.empty_tree_id();
    assert_eq!(
        set_path(&mut store, TreeId(5), &path("a"), None),
        Err(BackendError::ObjectNotFound)
    );
    assert_eq!(
        set_path(&mut store, empty, &path("a"), Some(file(FileId(0)))),
        Err(BackendError::DanglingReference)
    );
    assert_eq!(
        set_path(&mut store, empty, &path("a"), Some(TreeValue::Tree(TreeId(0)))),
        Err(BackendError::DanglingReference)
    );
}

#[test]
fn lines_keep_their_newline() {
    let lines = |text: &str| split_lines(&text.as_bytes().to_vec());
    assert_eq!(lines(""), Vec::<Vec<u8>>::new());
    assert_eq!(lines("a"), vec![b"a".to_vec()]);
    assert_eq!(lines("a\n"), vec![b"a\n".to_vec()]);
    assert_eq!(lines("a\nb"), vec![b"a\n".to_vec(), b"b".to_vec()]);
    assert_eq!(
        lines("\n\nx\n"),
        vec![b"\n".to_vec(), b"\n".to_vec(), b"x\n".to_vec()]
    );
}

#[test]
fn contents_merge_line_by_line() {
    let merge = |removes: &[&str], adds: &[&str]| {
        merge_contents(
            &removes.iter().map(|t| t.as_bytes().to_vec()).collect(),
            &adds.iter().map(|t| t.as_bytes().to_vec()).collect(),
        )
        .map(|bytes| String::from_utf8(bytes).unwrap())
    };
    assert_eq!(merge(&[], &["a\nb\n"]), Some("a\nb\n".to_string()));
    assert_eq!(
        merge(&["1\n2\n3\n"], &["1 x\n2\n3\n", "1\n2\n3 y\n"]),
        Some("1 x\n2\n3 y\n".to_string())
    );
    // Both sides change a line in the same way.
    assert_eq!(
        merge(&["1\n2\n"], &["1\nB\n", "1\nB\n"]),
        Some("1\nB\n".to_string())
    );
    // Both sides change a line in different ways.
    assert_eq!(merge(&["1\n2\n"], &["1\nA\n", "1\nB\n"]), None);
    assert_eq!(merge(&["base"], &["side1", "side2"]), None);
    // The numbers of lines differ.
    assert_eq!(merge(&["1\n"], &["1\n2\n", "1\n"]), None);
    // Five terms.
    assert_eq!(
        merge(&["a\nb\n", "a\nc\n"], &["a\nc\n", "x\nb\n", "a\nb\n"]),
        Some("x\nb\n".to_string())
    );
}

#[test]
fn matcher_visits_directories_that_lead_to_listed_paths() {
    let files = Matcher::files(vec![path("a/b/c"), path("d")]);
    assert!(files.visits(&RepoPath::root()));
    assert!(files.visits(&path("a")));
    assert!(files.visits(&path("a/b")));
    assert!(!files.visits(&path("a/b/c")));
    assert!(!files.visits(&path("d")));
    assert!(!files.visits(&path("a/x")));
    assert!(Matcher::everything().visits(&path("any")));
    assert!(path("a/b").is_below(&path("a")));
    assert!(path("a/b").is_below(&RepoPath::root()));
    assert!(!path("a").is_below(&path("a")));
    assert!(!path("a").is_below(&path("a/b")));
    assert!(!path("ab/c").is_below(&path("a")));
}
