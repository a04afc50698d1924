use merged_trees::backend::{BackendError, FileId, TreeId, TreeValue};
use merged_trees::matchers::Matcher;
use merged_trees::merge::Merge;
use merged_trees::merged_tree::{
    has_present_term, is_tree, to_tree_terms, MergedTree, MergedTreeId, MergedTreeValue,
};
use merged_trees::merged_tree_builder::MergedTreeBuilder;
use merged_trees::repo_path::{RepoPath, RepoPathComponent};
use merged_trees::store::Store;
use merged_trees::tree_builder::set_path;

fn path(text: &str) -> RepoPath {
    RepoPath::from_internal_string(text)
}

fn write(store: &mut Store, contents: &str) -> TreeValue {
    TreeValue::File {
        id: store.write_file(&contents.as_bytes().to_vec()),
        executable: false,
    }
}

fn tree_of(store: &mut Store, entries: &[(&str, &str)]) -> TreeId {
    let mut tree = store.empty_tree_id();
    for (p, contents) in entries {
        let value = write(store, contents);
        tree = set_path(store, tree, &path(p), Some(value)).unwrap();
    }
    tree
}

#[test]
fn resolving_twice_changes_nothing() {
    let mut store = Store::new();
    let base = tree_of(&mut store, &[("a", "1"), ("d/x", "1"), ("d/y", "1\n2\n")]);
    let side1 = tree_of(&mut store, &[("a", "2"), ("d/x", "2"), ("d/y", "1 s\n2\n")]);
    let side2 = tree_of(&mut store, &[("a", "1"), ("d/x", "3"), ("d/y", "1\n2 t\n")]);
    let tree = MergedTree::new(Merge::new(vec![base], vec![side1, side2]));
    let once = tree.resolve(&mut store).unwrap();
    assert_eq!(once.num_sides(), 2);
    let twice = MergedTree::new(once.clone()).resolve(&mut store).unwrap();
    assert_eq!(twice, once);
    // A tree without conflicts stays as it is.
    let single = MergedTree::resolved(side1).resolve(&mut store).unwrap();
    assert_eq!(single, Merge::resolved(side1));
    // Conflicts that cancel resolve to a single tree.
    let trivial = MergedTree::new(Merge::new(vec![base], vec![base, side2]));
    assert_eq!(trivial.resolve(&mut store).unwrap(), Merge::resolved(side2));
}

#[test]
fn resolving_merges_executable_flags() {
    let mut store = Store::new();
    let id = store.write_file(&b"same".to_vec());
    let other = store.write_file(&b"other".to_vec());
    let entry = |id: FileId, executable: bool| Some(TreeValue::File { id, executable });
    let empty = store.empty_tree_id();
    let make = |store: &mut Store, value: Option<TreeValue>| {
        set_path(store, empty, &path("f"), value).unwrap()
    };
    let base = make(&mut store, entry(id, false));
    let side1 = make(&mut store, entry(id, true));
    let side2 = make(&mut store, entry(other, false));
    let expected = make(&mut store, entry(other, true));
    let tree = MergedTree::new(Merge::new(vec![base], vec![side1, side2]));
    assert_eq!(tree.resolve(&mut store).unwrap(), Merge::resolved(expected));
}

#[test]
fn builder_does_not_depend_on_the_order_of_paths() {
    let mut store = Store::new();
    let v1 = write(&mut store, "1");
    let v2 = write(&mut store, "2");
    let v3 = write(&mut store, "3");
    let conflict = Merge::new(vec![Some(v1)], vec![Some(v2), Some(v3)]);
    let wide = Merge::new(vec![Some(v1), None], vec![Some(v2), Some(v3), Some(v1)]);
    let sets: Vec<(RepoPath, Merge<Option<TreeValue>>)> = vec![
        (path("a"), Merge::normal(v1)),
        (path("d/c"), conflict.clone()),
        (path("d/w"), wide.clone()),
        (path("z"), conflict.clone()),
    ];
    let empty = store.empty_tree_id();
    let build = |store: &mut Store, order: &[usize]| {
        let mut builder = MergedTreeBuilder::new(MergedTreeId::Merge(Merge::resolved(empty)));
        for &i in order {
            builder.set_or_remove(sets[i].0.clone(), sets[i].1.clone());
        }
        builder.write_tree(store).unwrap()
    };
    let first = build(&mut store, &[0, 1, 2, 3]);
    assert_eq!(build(&mut store, &[3, 2, 1, 0]), first);
    assert_eq!(build(&mut store, &[2, 0, 3, 1]), first);
    match &first {
        MergedTreeId::Merge(trees) => assert_eq!(trees.num_sides(), 3),
        MergedTreeId::Legacy(_) => panic!("the conflicts stay"),
    }
    // The last value given for a path counts.
    let mut builder = MergedTreeBuilder::new(MergedTreeId::Merge(Merge::resolved(empty)));
    builder.set_or_remove(path("a"), conflict.clone());
    builder.set_or_remove(path("a"), Merge::normal(v2));
    let id = builder.write_tree(&mut store).unwrap();
    let expected = set_path(&mut store, empty, &path("a"), Some(v2)).unwrap();
    // A single tree is recorded as a plain tree.
    assert_eq!(id, MergedTreeId::Legacy(expected));
}

#[test]
fn builder_on_a_plain_tree_writes_conflict_records() {
    let mut store = Store::new();
    let v1 = write(&mut store, "1");
    let v2 = write(&mut store, "2");
    let v3 = write(&mut store, "3");
    let base = tree_of(&mut store, &[("keep", "k"), ("drop", "d")]);
    let mut builder = MergedTreeBuilder::new(MergedTreeId::Legacy(base));
    builder.set_or_remove(path("drop"), Merge::absent());
    // Equal pairs cancel before the record is written.
    builder.set_or_remove(
        path("c"),
        Merge::new(vec![Some(v1), Some(v2)], vec![Some(v2), Some(v3), None]),
    );
    builder.set_or_remove(path("r"), Merge::new(vec![Some(v1)], vec![Some(v1), Some(v3)]));
    let id = builder.write_tree(&mut store).unwrap();
    let tree = MergedTree::legacy(match id {
        MergedTreeId::Legacy(id) => id,
        MergedTreeId::Merge(_) => panic!("a plain base gives a plain tree"),
    });
    assert_eq!(
        tree.path_value(&store, &path("drop")).unwrap(),
        Merge::absent()
    );
    assert_eq!(
        tree.path_value(&store, &path("r")).unwrap(),
        Merge::normal(v3)
    );
    assert_eq!(
        tree.value(&store, &RepoPathComponent::from("c")).unwrap(),
        MergedTreeValue::Conflict(Merge::new(vec![Some(v1)], vec![Some(v3), None]))
    );
    assert_eq!(tree.conflicts(&store).unwrap().len(), 1);
}

#[test]
fn builder_refuses_what_the_store_lacks() {
    let mut store = Store::new();
    let empty = store.empty_tree_id();
    let mut builder = MergedTreeBuilder::new(MergedTreeId::Legacy(TreeId(9)));
    builder.set_or_remove(path("a"), Merge::absent());
    assert_eq!(
        builder.write_tree(&mut store),
        Err(BackendError::ObjectNotFound)
    );
    let dangling = Some(TreeValue::File {
        id: FileId(3),
        executable: false,
    });
    for base in [
        MergedTreeId::Legacy(empty),
        MergedTreeId::Merge(Merge::resolved(empty)),
    ] {
        let mut builder = MergedTreeBuilder::new(base);
        builder.set_or_remove(path("a"), Merge::new(vec![None], vec![dangling, None]));
        assert_eq!(
            builder.write_tree(&mut store),
            Err(BackendError::DanglingReference)
        );
    }
    // Nothing given: the base is the result.
    let builder = MergedTreeBuilder::new(MergedTreeId::Merge(Merge::resolved(empty)));
    assert_eq!(
        builder.write_tree(&mut store),
        Ok(MergedTreeId::Legacy(empty))
    );
}

#[test]
fn views_of_trees_the_store_lacks_fail() {
    let mut store = Store::new();
    let t = tree_of(&mut store, &[("a", "1")]);
    let missing = MergedTree::new(Merge::new(vec![t], vec![t, TreeId(99)]));
    let name = RepoPathComponent::from("a");
    assert_eq!(
        missing.value(&store, &name),
        Err(BackendError::ObjectNotFound)
    );
    assert_eq!(
        missing.path_value(&store, &path("a")),
        Err(BackendError::ObjectNotFound)
    );
    assert_eq!(
        missing.sub_tree(&store, &name),
        Err(BackendError::ObjectNotFound)
    );
    assert_eq!(missing.entries(&store), Err(BackendError::ObjectNotFound));
    assert_eq!(missing.conflicts(&store), Err(BackendError::ObjectNotFound));
    assert_eq!(
        missing.entries_matching(&store, &Matcher::everything()),
        Err(BackendError::ObjectNotFound)
    );
    let good = MergedTree::resolved(t);
    assert_eq!(
        good.diff(&store, &missing, &Matcher::everything()),
        Err(BackendError::ObjectNotFound)
    );
    assert_eq!(
        missing.resolve(&mut store),
        Err(BackendError::ObjectNotFound)
    );
    assert_eq!(
        good.merge(&mut store, &missing, &good),
        Err(BackendError::ObjectNotFound)
    );
    assert_eq!(
        MergedTree::from_legacy_tree(&mut store, TreeId(99)),
        Err(BackendError::ObjectNotFound)
    );
    assert!(!missing.is_in(&store));
    assert!(good.is_in(&store));
    assert!(good.same(&good.id()));
    assert!(!good.same(&MergedTree::legacy(t)));
}

#[test]
fn sub_trees_and_values() {
    let mut store = Store::new();
    let one = tree_of(&mut store, &[("d/f", "1"), ("x", "1")]);
    let two = tree_of(&mut store, &[("d/f", "2"), ("x", "1")]);
    let three = tree_of(&mut store, &[("d", "3")]);
    let tree = MergedTree::new(Merge::new(vec![one], vec![two, three]));
    let d = RepoPathComponent::from("d");
    let sub = tree.sub_tree(&store, &d).unwrap().unwrap();
    let value = |store: &Store, t: TreeId, p: &str| {
        *MergedTree::legacy(t)
            .path_value(store, &path(p))
            .unwrap()
            .as_resolved()
            .unwrap()
    };
    // The side that holds a file counts as an empty directory.
    assert_eq!(
        sub.path_value(&store, &path("f")).unwrap(),
        Merge::new(
            vec![value(&store, one, "d/f")],
            vec![value(&store, two, "d/f"), None]
        )
    );
    assert_eq!(
        tree.sub_tree(&store, &RepoPathComponent::from("x")).unwrap(),
        None
    );
    assert_eq!(
        tree.sub_tree(&store, &RepoPathComponent::from("nothing"))
            .unwrap(),
        None
    );
    // A plain tree follows plain subtrees.
    let plain = MergedTree::legacy(one);
    assert_eq!(
        plain.sub_tree(&store, &d).unwrap(),
        match value(&store, one, "d") {
            Some(TreeValue::Tree(id)) => Some(MergedTree::legacy(id)),
            _ => None,
        }
    );
    let v = tree.value(&store, &d).unwrap().to_merge();
    assert!(!is_tree(&v));
    assert!(has_present_term(&v));
    assert!(!has_present_term(&Merge::new(vec![None], vec![None, None])));
    let dirs = MergedTree::new(Merge::new(vec![one], vec![two, two]))
        .path_value(&store, &RepoPath::root())
        .unwrap();
    assert!(is_tree(&dirs));
    assert_eq!(to_tree_terms(&dirs), Merge::new(vec![one], vec![two, two]));
    assert_eq!(
        to_tree_terms(&v).removes(),
        &vec![match value(&store, one, "d") {
            Some(TreeValue::Tree(id)) => id,
            _ => TreeId(0),
        }]
    );
}

#[test]
fn diff_lets_through_what_the_filter_lets_through() {
    let mut store = Store::new();
    let left = tree_of(&mut store, &[("a", "1"), ("b/c", "1"), ("b/d", "1"), ("e", "1")]);
    let right = tree_of(&mut store, &[("a", "2"), ("b/c", "2"), ("b/d", "1"), ("f", "1")]);
    let (l, r) = (MergedTree::resolved(left), MergedTree::resolved(right));
    let paths = |diff: Vec<(RepoPath, Merge<Option<TreeValue>>, Merge<Option<TreeValue>>)>| {
        diff.into_iter().map(|(p, _, _)| p).collect::<Vec<_>>()
    };
    assert_eq!(
        paths(l.diff(&store, &r, &Matcher::everything()).unwrap()),
        vec![path("a"), path("b/c"), path("e"), path("f")]
    );
    let some = Matcher::files(vec![path("f"), path("b/c"), path("b/d"), path("zz")]);
    assert_eq!(
        paths(l.diff(&store, &r, &some).unwrap()),
        vec![path("b/c"), path("f")]
    );
    assert_eq!(paths(l.diff(&store, &l, &Matcher::everything()).unwrap()), vec![]);
    // The other way round: the same paths, the sides exchanged.
    let forward = l.diff(&store, &r, &some).unwrap();
    let backward = r.diff(&store, &l, &some).unwrap();
    let mirrored: Vec<_> = forward.into_iter().map(|(p, a, b)| (p, b, a)).collect();
    assert_eq!(backward, mirrored);
}
