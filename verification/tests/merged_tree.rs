use merged_trees::backend::{FileId, TreeId, TreeValue};
use merged_trees::matchers::Matcher;
use merged_trees::merge::Merge;
use merged_trees::merged_tree::{MergedTree, MergedTreeId, MergedTreeValue};
use merged_trees::merged_tree_builder::MergedTreeBuilder;
use merged_trees::repo_path::{RepoPath, RepoPathComponent};
use merged_trees::store::Store;
use merged_trees::tree_builder::set_path;

fn file_value(file_id: &FileId) -> TreeValue {
    TreeValue::File {
        id: *file_id,
        executable: false,
    }
}

fn create_single_tree(store: &mut Store, path_contents: &[(&RepoPath, &str)]) -> TreeId {
    let mut tree = store.empty_tree_id();
    for (path, contents) in path_contents {
        let id = store.write_file(&contents.as_bytes().to_vec());
        tree = set_path(store, tree, path, Some(file_value(&id))).unwrap();
    }
    tree
}

fn plain_path_value(store: &Store, tree: TreeId, path: &RepoPath) -> Option<TreeValue> {
    let value = MergedTree::legacy(tree).path_value(store, path).unwrap();
    *value.as_resolved().unwrap()
}

#[test]
fn test_path_value_and_entries() {
    let mut store = Store::new();
    let store = &mut store;

    // Create a MergedTree
    let resolved_file_path = RepoPath::from_internal_string("dir1/subdir/resolved");
    let resolved_dir_path = resolved_file_path.parent().unwrap();
    let conflicted_file_path = RepoPath::from_internal_string("dir2/conflicted");
    let missing_path = RepoPath::from_internal_string("dir2/missing_file");
    let modify_delete_path = RepoPath::from_internal_string("dir2/modify_delete");
    let file_dir_conflict_path = RepoPath::from_internal_string("file_dir");
    let file_dir_conflict_sub_path = RepoPath::from_internal_string("file_dir/file");
    let tree1 = create_single_tree(
        store,
        &[
            (&resolved_file_path, "unchanged"),
            (&conflicted_file_path, "1"),
            (&modify_delete_path, "1"),
            (&file_dir_conflict_path, "1"),
        ],
    );
    let tree2 = create_single_tree(
        store,
        &[
            (&resolved_file_path, "unchanged"),
            (&conflicted_file_path, "2"),
            (&modify_delete_path, "2"),
            (&file_dir_conflict_path, "2"),
        ],
    );
    let tree3 = create_single_tree(
        store,
        &[
            (&resolved_file_path, "unchanged"),
            (&conflicted_file_path, "3"),
            // No modify_delete_path in this tree
            (&file_dir_conflict_sub_path, "1"),
        ],
    );
    let merged_tree = MergedTree::Merge(Merge::new(vec![tree1], vec![tree2, tree3]));
    let store = &*store;

    // Get the root tree
    assert_eq!(
        merged_tree.path_value(store, &RepoPath::root()).unwrap(),
        Merge::new(
            vec![Some(TreeValue::Tree(tree1))],
            vec![Some(TreeValue::Tree(tree2)), Some(TreeValue::Tree(tree3))]
        )
    );
    // Get file path without conflict
    assert_eq!(
        merged_tree.path_value(store, &resolved_file_path).unwrap(),
        Merge::resolved(plain_path_value(store, tree1, &resolved_file_path)),
    );
    // Get directory path without conflict
    assert_eq!(
        merged_tree.path_value(store, &resolved_dir_path).unwrap(),
        Merge::resolved(plain_path_value(store, tree1, &resolved_dir_path)),
    );
    // Get missing path
    assert_eq!(
        merged_tree.path_value(store, &missing_path).unwrap(),
        Merge::absent()
    );
    // Get modify/delete conflict (some None values)
    assert_eq!(
        merged_tree.path_value(store, &modify_delete_path).unwrap(),
        Merge::new(
            vec![plain_path_value(store, tree1, &modify_delete_path)],
            vec![plain_path_value(store, tree2, &modify_delete_path), None]
        ),
    );
    // Get file/dir conflict path
    assert_eq!(
        merged_tree
            .path_value(store, &file_dir_conflict_path)
            .unwrap(),
        Merge::new(
            vec![plain_path_value(store, tree1, &file_dir_conflict_path)],
            vec![
                plain_path_value(store, tree2, &file_dir_conflict_path),
                plain_path_value(store, tree3, &file_dir_conflict_path)
            ]
        ),
    );
    // Get file inside file/dir conflict
    // There is a conflict in the parent directory, but this file is still resolved
    assert_eq!(
        merged_tree
            .path_value(store, &file_dir_conflict_sub_path)
            .unwrap(),
        Merge::resolved(plain_path_value(store, tree3, &file_dir_conflict_sub_path)),
    );

    // Test entries()
    let actual_entries = merged_tree.entries(store).unwrap();
    // missing_path, resolved_dir_path, and file_dir_conflict_sub_path should not
    // appear
    let expected_entries: Vec<_> = [
        &resolved_file_path,
        &conflicted_file_path,
        &modify_delete_path,
        &file_dir_conflict_path,
    ]
    .iter()
    .map(|path| ((*path).clone(), merged_tree.path_value(store, path).unwrap()))
    .collect();
    assert_eq!(actual_entries, expected_entries);

    let actual_entries = merged_tree
        .entries_matching(
            store,
            &Matcher::files(vec![
                resolved_file_path.clone(),
                modify_delete_path.clone(),
                file_dir_conflict_sub_path.clone(),
            ]),
        )
        .unwrap();
    let expected_entries: Vec<_> = [&resolved_file_path, &modify_delete_path]
        .iter()
        .map(|path| ((*path).clone(), merged_tree.path_value(store, path).unwrap()))
        .collect();
    assert_eq!(actual_entries, expected_entries);
}

/// Diff two resolved trees
#[test]
fn test_diff_resolved() {
    let mut store = Store::new();
    let store = &mut store;

    let clean_path = RepoPath::from_internal_string("dir1/file");
    let modified_path = RepoPath::from_internal_string("dir2/file");
    let removed_path = RepoPath::from_internal_string("dir3/file");
    let added_path = RepoPath::from_internal_string("dir4/file");
    let before = create_single_tree(
        store,
        &[
            (&clean_path, "clean"),
            (&modified_path, "before"),
            (&removed_path, "before"),
        ],
    );
    let after = create_single_tree(
        store,
        &[
            (&clean_path, "clean"),
            (&modified_path, "after"),
            (&added_path, "after"),
        ],
    );
    let before_merged = MergedTree::new(Merge::resolved(before));
    let after_merged = MergedTree::new(Merge::resolved(after));
    let store = &*store;

    let diff = before_merged
        .diff(store, &after_merged, &Matcher::everything())
        .unwrap();
    assert_eq!(diff.len(), 3);
    assert_eq!(
        diff[0].clone(),
        (
            modified_path.clone(),
            Merge::resolved(plain_path_value(store, before, &modified_path)),
            Merge::resolved(plain_path_value(store, after, &modified_path)),
        )
    );
    assert_eq!(
        diff[1].clone(),
        (
            removed_path.clone(),
            Merge::resolved(plain_path_value(store, before, &removed_path)),
            Merge::absent(),
        )
    );
    assert_eq!(
        diff[2].clone(),
        (
            added_path.clone(),
            Merge::absent(),
            Merge::resolved(plain_path_value(store, after, &added_path)),
        )
    );
}

/// Diff two conflicted trees
#[test]
fn test_diff_conflicted() {
    let mut store = Store::new();
    let store = &mut store;

    // path1 is a clean (unchanged) conflict
    // path2 is a conflict before and different conflict after
    // path3 is resolved before and a conflict after
    // path4 is missing before and a conflict after
    let path1 = RepoPath::from_internal_string("dir1/file");
    let path2 = RepoPath::from_internal_string("dir2/file");
    let path3 = RepoPath::from_internal_string("dir4/file");
    let path4 = RepoPath::from_internal_string("dir6/file");
    let left_base = create_single_tree(
        store,
        &[
            (&path1, "clean-base"),
            (&path2, "left-base"),
            (&path3, "left"),
        ],
    );
    let left_side1 = create_single_tree(
        store,
        &[
            (&path1, "clean-side1"),
            (&path2, "left-side1"),
            (&path3, "left"),
        ],
    );
    let left_side2 = create_single_tree(
        store,
        &[
            (&path1, "clean-side2"),
            (&path2, "left-side2"),
            (&path3, "left"),
        ],
    );
    let right_base = create_single_tree(
        store,
        &[
            (&path1, "clean-base"),
            (&path2, "right-base"),
            (&path3, "right-base"),
            (&path4, "right-base"),
        ],
    );
    let right_side1 = create_single_tree(
        store,
        &[
            (&path1, "clean-side1"),
            (&path2, "right-side1"),
            (&path3, "right-side1"),
            (&path4, "right-side1"),
        ],
    );
    let right_side2 = create_single_tree(
        store,
        &[
            (&path1, "clean-side2"),
            (&path2, "right-side2"),
            (&path3, "right-side2"),
            (&path4, "right-side2"),
        ],
    );
    let left_merged = MergedTree::new(Merge::new(
        vec![left_base],
        vec![left_side1, left_side2],
    ));
    let right_merged = MergedTree::new(Merge::new(
        vec![right_base],
        vec![right_side1, right_side2],
    ));
    let store = &*store;

    // Test the forwards diff
    let actual_diff = left_merged
        .diff(store, &right_merged, &Matcher::everything())
        .unwrap();
    let expected_diff: Vec<_> = [&path2, &path3, &path4]
        .iter()
        .map(|path| {
            (
                (*path).clone(),
                left_merged.path_value(store, path).unwrap(),
                right_merged.path_value(store, path).unwrap(),
            )
        })
        .collect();
    assert_eq!(actual_diff, expected_diff);
    // Test the reverse diff
    let actual_diff = right_merged
        .diff(store, &left_merged, &Matcher::everything())
        .unwrap();
    let expected_diff: Vec<_> = [&path2, &path3, &path4]
        .iter()
        .map(|path| {
            (
                (*path).clone(),
                right_merged.path_value(store, path).unwrap(),
                left_merged.path_value(store, path).unwrap(),
            )
        })
        .collect();
    assert_eq!(actual_diff, expected_diff);
}

#[test]
fn test_resolve_success() {
    let mut store = Store::new();
    let store = &mut store;

    let unchanged_path = RepoPath::from_internal_string("unchanged");
    let trivial_file_path = RepoPath::from_internal_string("trivial-file");
    let trivial_hunk_path = RepoPath::from_internal_string("trivial-hunk");
    let both_added_dir_path = RepoPath::from_internal_string("added-dir");
    let both_added_dir_file1_path = both_added_dir_path.join(&RepoPathComponent::from("file1"));
    let both_added_dir_file2_path = both_added_dir_path.join(&RepoPathComponent::from("file2"));
    let emptied_dir_path = RepoPath::from_internal_string("to-become-empty");
    let emptied_dir_file1_path = emptied_dir_path.join(&RepoPathComponent::from("file1"));
    let emptied_dir_file2_path = emptied_dir_path.join(&RepoPathComponent::from("file2"));
    let base1 = create_single_tree(
        store,
        &[
            (&unchanged_path, "unchanged"),
            (&trivial_file_path, "base1"),
            (&trivial_hunk_path, "line1\nline2\nline3\n"),
            (&emptied_dir_file1_path, "base1"),
            (&emptied_dir_file2_path, "base1"),
        ],
    );
    let side1 = create_single_tree(
        store,
        &[
            (&unchanged_path, "unchanged"),
            (&trivial_file_path, "base1"),
            (&trivial_hunk_path, "line1 side1\nline2\nline3\n"),
            (&both_added_dir_file1_path, "side1"),
            (&emptied_dir_file2_path, "base1"),
        ],
    );
    let side2 = create_single_tree(
        store,
        &[
            (&unchanged_path, "unchanged"),
            (&trivial_file_path, "side2"),
            (&trivial_hunk_path, "line1\nline2\nline3 side2\n"),
            (&both_added_dir_file2_path, "side2"),
            (&emptied_dir_file1_path, "base1"),
        ],
    );
    let expected = create_single_tree(
        store,
        &[
            (&unchanged_path, "unchanged"),
            (&trivial_file_path, "side2"),
            (&trivial_hunk_path, "line1 side1\nline2\nline3 side2\n"),
            (&both_added_dir_file1_path, "side1"),
            (&both_added_dir_file2_path, "side2"),
        ],
    );

    let tree = MergedTree::new(Merge::new(vec![base1], vec![side1, side2]));
    let resolved = tree.resolve(store).unwrap();
    let resolved_tree = *resolved.as_resolved().unwrap();
    assert_eq!(
        resolved_tree,
        expected,
        "actual entries: {:#?}, expected entries {:#?}",
        MergedTree::legacy(resolved_tree).entries(store).unwrap(),
        MergedTree::legacy(expected).entries(store).unwrap()
    );
}

#[test]
fn test_resolve_root_becomes_empty() {
    let mut store = Store::new();
    let store = &mut store;

    let path1 = RepoPath::from_internal_string("dir1/file");
    let path2 = RepoPath::from_internal_string("dir2/file");
    let base1 = create_single_tree(store, &[(&path1, "base1"), (&path2, "base1")]);
    let side1 = create_single_tree(store, &[(&path2, "base1")]);
    let side2 = create_single_tree(store, &[(&path1, "base1")]);

    let tree = MergedTree::new(Merge::new(vec![base1], vec![side1, side2]));
    let resolved = tree.resolve(store).unwrap();
    assert_eq!(*resolved.as_resolved().unwrap(), store.empty_tree_id());
}

#[test]
fn test_resolve_with_conflict() {
    let mut store = Store::new();
    let store = &mut store;

    // The trivial conflict should be resolved but the non-trivial should not (and
    // cannot)
    let trivial_path = RepoPath::from_internal_string("dir1/trivial");
    let conflict_path = RepoPath::from_internal_string("dir2/file_conflict");
    let base1 = create_single_tree(store, &[(&trivial_path, "base1"), (&conflict_path, "base1")]);
    let side1 = create_single_tree(store, &[(&trivial_path, "side1"), (&conflict_path, "side1")]);
    let side2 = create_single_tree(store, &[(&trivial_path, "base1"), (&conflict_path, "side2")]);
    let expected_base1 =
        create_single_tree(store, &[(&trivial_path, "side1"), (&conflict_path, "base1")]);
    let expected_side1 =
        create_single_tree(store, &[(&trivial_path, "side1"), (&conflict_path, "side1")]);
    let expected_side2 =
        create_single_tree(store, &[(&trivial_path, "side1"), (&conflict_path, "side2")]);

    let tree = MergedTree::new(Merge::new(vec![base1], vec![side1, side2]));
    let resolved_tree = tree.resolve(store).unwrap();
    assert_eq!(
        resolved_tree,
        Merge::new(vec![expected_base1], vec![expected_side1, expected_side2])
    )
}

#[test]
fn test_diff_dir_file() {
    let mut store = Store::new();
    let store = &mut store;

    // path1: file1 -> directory1
    // path2: file1 -> directory1+(directory2-absent)
    // path3: file1 -> directory1+(file1-absent)
    // path4: file1+(file2-file3) -> directory1+(directory2-directory3)
    // path5: directory1 -> file1+(file2-absent)
    // path6: directory1 -> file1+(directory1-absent)
    let path1 = RepoPath::from_internal_string("path1");
    let path2 = RepoPath::from_internal_string("path2");
    let path3 = RepoPath::from_internal_string("path3");
    let path4 = RepoPath::from_internal_string("path4");
    let path5 = RepoPath::from_internal_string("path5");
    let path6 = RepoPath::from_internal_string("path6");
    let file = RepoPathComponent::from("file");
    let left_base = create_single_tree(
        store,
        &[
            (&path1, "left"),
            (&path2, "left"),
            (&path3, "left"),
            (&path4, "left-base"),
            (&path5.join(&file), "left"),
            (&path6.join(&file), "left"),
        ],
    );
    let left_side1 = create_single_tree(
        store,
        &[
            (&path1, "left"),
            (&path2, "left"),
            (&path3, "left"),
            (&path4, "left-side1"),
            (&path5.join(&file), "left"),
            (&path6.join(&file), "left"),
        ],
    );
    let left_side2 = create_single_tree(
        store,
        &[
            (&path1, "left"),
            (&path2, "left"),
            (&path3, "left"),
            (&path4, "left-side2"),
            (&path5.join(&file), "left"),
            (&path6.join(&file), "left"),
        ],
    );
    let right_base = create_single_tree(
        store,
        &[
            (&path1.join(&file), "right"),
            // path2 absent
            // path3 absent
            (&path4.join(&file), "right-base"),
            // path5 is absent
            // path6 is absent
        ],
    );
    let right_side1 = create_single_tree(
        store,
        &[
            (&path1.join(&file), "right"),
            (&path2.join(&file), "right"),
            (&path3.join(&file), "right-side1"),
            (&path4.join(&file), "right-side1"),
            (&path5, "right-side1"),
            (&path6, "right"),
        ],
    );
    let right_side2 = create_single_tree(
        store,
        &[
            (&path1.join(&file), "right"),
            (&path2.join(&file), "right"),
            (&path3, "right-side2"),
            (&path4.join(&file), "right-side2"),
            (&path5, "right-side2"),
            (&path6.join(&file), "right"),
        ],
    );
    let left_merged = MergedTree::new(Merge::new(
        vec![left_base],
        vec![left_side1, left_side2],
    ));
    let right_merged = MergedTree::new(Merge::new(
        vec![right_base],
        vec![right_side1, right_side2],
    ));
    let store = &*store;
    let left_value = |path: &RepoPath| left_merged.path_value(store, path).unwrap();
    let right_value = |path: &RepoPath| right_merged.path_value(store, path).unwrap();

    // Test the forwards diff. A path comes before the paths below it.
    let actual_diff = left_merged
        .diff(store, &right_merged, &Matcher::everything())
        .unwrap();
    let expected_diff = vec![
        // path1: file1 -> directory1
        (path1.clone(), left_value(&path1), Merge::absent()),
        (
            path1.join(&file),
            Merge::absent(),
            right_value(&path1.join(&file)),
        ),
        // path2: file1 -> directory1+(directory2-absent)
        (path2.clone(), left_value(&path2), Merge::absent()),
        (
            path2.join(&file),
            Merge::absent(),
            right_value(&path2.join(&file)),
        ),
        // path3: file1 -> directory1+(file1-absent)
        (path3.clone(), left_value(&path3), right_value(&path3)),
        // path4: file1+(file2-file3) -> directory1+(directory2-directory3)
        (path4.clone(), left_value(&path4), Merge::absent()),
        (
            path4.join(&file),
            Merge::absent(),
            right_value(&path4.join(&file)),
        ),
        // path5: directory1 -> file1+(file2-absent)
        (path5.clone(), Merge::absent(), right_value(&path5)),
        (
            path5.join(&file),
            left_value(&path5.join(&file)),
            Merge::absent(),
        ),
        // path6: directory1 -> file1+(directory1-absent)
        (path6.clone(), Merge::absent(), right_value(&path6)),
        (
            path6.join(&file),
            left_value(&path6.join(&file)),
            Merge::absent(),
        ),
    ];
    assert_eq!(actual_diff, expected_diff);
    // Test the reverse diff: the same paths in the same order, the sides exchanged.
    let actual_diff = right_merged
        .diff(store, &left_merged, &Matcher::everything())
        .unwrap();
    let expected_diff: Vec<_> = expected_diff
        .into_iter()
        .map(|(path, left, right)| (path, right, left))
        .collect();
    assert_eq!(actual_diff, expected_diff);
}

/// Merge 3 resolved trees that can be resolved
#[test]
fn test_merge_simple() {
    let mut store = Store::new();
    let store = &mut store;

    let path1 = RepoPath::from_internal_string("dir1/file");
    let path2 = RepoPath::from_internal_string("dir2/file");
    let base1 = create_single_tree(store, &[(&path1, "base"), (&path2, "base")]);
    let side1 = create_single_tree(store, &[(&path1, "side1"), (&path2, "base")]);
    let side2 = create_single_tree(store, &[(&path1, "base"), (&path2, "side2")]);
    let expected = create_single_tree(store, &[(&path1, "side1"), (&path2, "side2")]);
    let base1_merged = MergedTree::new(Merge::resolved(base1));
    let side1_merged = MergedTree::new(Merge::resolved(side1));
    let side2_merged = MergedTree::new(Merge::resolved(side2));
    let expected_merged = MergedTree::new(Merge::resolved(expected));

    let merged = side1_merged
        .merge(store, &base1_merged, &side2_merged)
        .unwrap();
    assert_eq!(merged, expected_merged);
}

/// Merge 3 resolved trees that can be partially resolved
#[test]
fn test_merge_partial_resolution() {
    let mut store = Store::new();
    let store = &mut store;

    // path1 can be resolved, path2 cannot
    let path1 = RepoPath::from_internal_string("dir1/file");
    let path2 = RepoPath::from_internal_string("dir2/file");
    let base1 = create_single_tree(store, &[(&path1, "base"), (&path2, "base")]);
    let side1 = create_single_tree(store, &[(&path1, "side1"), (&path2, "side1")]);
    let side2 = create_single_tree(store, &[(&path1, "base"), (&path2, "side2")]);
    let expected_base1 = create_single_tree(store, &[(&path1, "side1"), (&path2, "base")]);
    let expected_side1 = create_single_tree(store, &[(&path1, "side1"), (&path2, "side1")]);
    let expected_side2 = create_single_tree(store, &[(&path1, "side1"), (&path2, "side2")]);
    let base1_merged = MergedTree::new(Merge::resolved(base1));
    let side1_merged = MergedTree::new(Merge::resolved(side1));
    let side2_merged = MergedTree::new(Merge::resolved(side2));
    let expected_merged = MergedTree::new(Merge::new(
        vec![expected_base1],
        vec![expected_side1, expected_side2],
    ));

    let merged = side1_merged
        .merge(store, &base1_merged, &side2_merged)
        .unwrap();
    assert_eq!(merged, expected_merged);
    // The resolved path has one value, the other keeps the terms it had.
    assert_eq!(
        merged.path_value(store, &path1).unwrap(),
        Merge::resolved(plain_path_value(store, side1, &path1))
    );
    assert_eq!(
        merged.path_value(store, &path2).unwrap(),
        Merge::new(
            vec![plain_path_value(store, base1, &path2)],
            vec![
                plain_path_value(store, side1, &path2),
                plain_path_value(store, side2, &path2)
            ]
        )
    );
}

/// Merge 3 resolved trees, including one empty legacy tree
#[test]
fn test_merge_with_empty_legacy_tree() {
    let mut store = Store::new();
    let store = &mut store;

    let path1 = RepoPath::from_internal_string("dir1/file");
    let path2 = RepoPath::from_internal_string("dir2/file");
    let base1 = store.empty_tree_id();
    let side1 = create_single_tree(store, &[(&path1, "side1")]);
    let side2 = create_single_tree(store, &[(&path2, "side2")]);
    let expected = create_single_tree(store, &[(&path1, "side1"), (&path2, "side2")]);
    let base1_merged = MergedTree::legacy(base1);
    let side1_merged = MergedTree::new(Merge::resolved(side1));
    let side2_merged = MergedTree::new(Merge::resolved(side2));
    let expected_merged = MergedTree::new(Merge::resolved(expected));

    let merged = side1_merged
        .merge(store, &base1_merged, &side2_merged)
        .unwrap();
    assert_eq!(merged, expected_merged);
}

/// Merge 3 trees where each one is a 3-way conflict and the result is arrived
/// at by only simplifying the conflict (no need to recurse)
#[test]
fn test_merge_simplify_only() {
    let mut store = Store::new();
    let store = &mut store;

    let path = RepoPath::from_internal_string("dir1/file");
    let tree1 = create_single_tree(store, &[(&path, "1")]);
    let tree2 = create_single_tree(store, &[(&path, "2")]);
    let tree3 = create_single_tree(store, &[(&path, "3")]);
    let tree4 = create_single_tree(store, &[(&path, "4")]);
    let tree5 = create_single_tree(store, &[(&path, "5")]);
    let expected = tree5;
    let base1_merged = MergedTree::new(Merge::new(vec![tree1], vec![tree2, tree3]));
    let side1_merged = MergedTree::new(Merge::new(vec![tree1], vec![tree4, tree2]));
    let side2_merged = MergedTree::new(Merge::new(vec![tree4], vec![tree5, tree3]));
    let expected_merged = MergedTree::new(Merge::resolved(expected));

    let merged = side1_merged
        .merge(store, &base1_merged, &side2_merged)
        .unwrap();
    assert_eq!(merged, expected_merged);
}

/// Merge 3 trees with 3+1+1 terms (i.e. a 5-way conflict) such that resolving
/// the conflict between the trees leads to two trees being the same, so the
/// result is a 3-way conflict.
#[test]
fn test_merge_simplify_result() {
    let mut store = Store::new();
    let store = &mut store;

    // The conflict in path1 cannot be resolved, but the conflict in path2 can.
    let path1 = RepoPath::from_internal_string("dir1/file");
    let path2 = RepoPath::from_internal_string("dir2/file");
    let tree1 = create_single_tree(store, &[(&path1, "1"), (&path2, "1")]);
    let tree2 = create_single_tree(store, &[(&path1, "2"), (&path2, "2")]);
    let tree3 = create_single_tree(store, &[(&path1, "3"), (&path2, "3")]);
    let tree4 = create_single_tree(store, &[(&path1, "4"), (&path2, "2")]);
    let tree5 = create_single_tree(store, &[(&path1, "4"), (&path2, "1")]);
    let expected_base1 = create_single_tree(store, &[(&path1, "1"), (&path2, "3")]);
    let expected_side1 = create_single_tree(store, &[(&path1, "2"), (&path2, "3")]);
    let expected_side2 = create_single_tree(store, &[(&path1, "3"), (&path2, "3")]);
    let side1_merged = MergedTree::new(Merge::new(vec![tree1], vec![tree2, tree3]));
    let base1_merged = MergedTree::new(Merge::resolved(tree4));
    let side2_merged = MergedTree::new(Merge::resolved(tree5));
    let expected_merged = MergedTree::new(Merge::new(
        vec![expected_base1],
        vec![expected_side1, expected_side2],
    ));

    let merged = side1_merged
        .merge(store, &base1_merged, &side2_merged)
        .unwrap();
    assert_eq!(merged, expected_merged);
}

fn plain_entries(store: &Store, tree: TreeId, prefix: &RepoPath, out: &mut Vec<(RepoPath, TreeValue)>) {
    let entries = store.get_tree(tree).unwrap();
    for i in 0..entries.len() {
        let path = prefix.join(entries.name_at(i));
        match entries.value_at(i) {
            TreeValue::Tree(sub) => plain_entries(store, sub, &path, out),
            value => out.push((path, value)),
        }
    }
}

/// Writes a plain tree that holds the values of `tree`, conflicts as records.
fn to_legacy_tree(store: &mut Store, tree: &MergedTree) -> TreeId {
    let entries = tree.entries(store).unwrap();
    let mut builder = MergedTreeBuilder::new(MergedTreeId::Legacy(store.empty_tree_id()));
    for (path, value) in entries {
        builder.set_or_remove(path, value);
    }
    match builder.write_tree(store).unwrap() {
        MergedTreeId::Legacy(id) => id,
        MergedTreeId::Merge(_) => panic!("a plain base gives a plain tree"),
    }
}

#[test]
fn test_from_legacy_tree() {
    let mut store = Store::new();
    let store = &mut store;
    let mut tree_id = store.empty_tree_id();

    // file1: regular file without conflicts
    let file1_path = RepoPath::from_internal_string("no_conflict");
    let file1_id = store.write_file(&b"foo".to_vec());
    tree_id = set_path(store, tree_id, &file1_path, Some(file_value(&file1_id))).unwrap();

    // file2: 3-way conflict
    let file2_path = RepoPath::from_internal_string("3way");
    let file2_v1_id = store.write_file(&b"file2_v1".to_vec());
    let file2_v2_id = store.write_file(&b"file2_v2".to_vec());
    let file2_v3_id = store.write_file(&b"file2_v3".to_vec());
    let file2_conflict = Merge::new(
        vec![Some(file_value(&file2_v1_id))],
        vec![
            Some(file_value(&file2_v2_id)),
            Some(file_value(&file2_v3_id)),
        ],
    );
    let file2_conflict_id = store.write_conflict(&file2_conflict).unwrap();
    tree_id = set_path(
        store,
        tree_id,
        &file2_path,
        Some(TreeValue::Conflict(file2_conflict_id)),
    )
    .unwrap();

    // file3: modify/delete conflict
    let file3_path = RepoPath::from_internal_string("modify_delete");
    let file3_v1_id = store.write_file(&b"file3_v1".to_vec());
    let file3_v2_id = store.write_file(&b"file3_v2".to_vec());
    let file3_conflict = Merge::new(
        vec![Some(file_value(&file3_v1_id))],
        vec![Some(file_value(&file3_v2_id)), None],
    );
    let file3_conflict_id = store.write_conflict(&file3_conflict).unwrap();
    tree_id = set_path(
        store,
        tree_id,
        &file3_path,
        Some(TreeValue::Conflict(file3_conflict_id)),
    )
    .unwrap();

    // file4: add/add conflict
    let file4_path = RepoPath::from_internal_string("add_add");
    let file4_v1_id = store.write_file(&b"file4_v1".to_vec());
    let file4_v2_id = store.write_file(&b"file4_v2".to_vec());
    let file4_conflict = Merge::new(
        vec![None],
        vec![
            Some(file_value(&file4_v1_id)),
            Some(file_value(&file4_v2_id)),
        ],
    );
    let file4_conflict_id = store.write_conflict(&file4_conflict).unwrap();
    tree_id = set_path(
        store,
        tree_id,
        &file4_path,
        Some(TreeValue::Conflict(file4_conflict_id)),
    )
    .unwrap();

    // file5: 5-way conflict
    let file5_path = RepoPath::from_internal_string("5way");
    let file5_v1_id = store.write_file(&b"file5_v1".to_vec());
    let file5_v2_id = store.write_file(&b"file5_v2".to_vec());
    let file5_v3_id = store.write_file(&b"file5_v3".to_vec());
    let file5_v4_id = store.write_file(&b"file5_v4".to_vec());
    let file5_v5_id = store.write_file(&b"file5_v5".to_vec());
    let file5_conflict = Merge::new(
        vec![
            Some(file_value(&file5_v1_id)),
            Some(file_value(&file5_v2_id)),
        ],
        vec![
            Some(file_value(&file5_v3_id)),
            Some(file_value(&file5_v4_id)),
            Some(file_value(&file5_v5_id)),
        ],
    );
    let file5_conflict_id = store.write_conflict(&file5_conflict).unwrap();
    tree_id = set_path(
        store,
        tree_id,
        &file5_path,
        Some(TreeValue::Conflict(file5_conflict_id)),
    )
    .unwrap();

    // dir1: directory without conflicts
    let dir1_basename = RepoPathComponent::from("dir1");
    let dir1_filename = RepoPath::root()
        .join(&dir1_basename)
        .join(&RepoPathComponent::from("file"));
    let dir1_filename_id = store.write_file(&b"file5_v2".to_vec());
    tree_id = set_path(
        store,
        tree_id,
        &dir1_filename,
        Some(file_value(&dir1_filename_id)),
    )
    .unwrap();

    let merged_tree = MergedTree::from_legacy_tree(store, tree_id).unwrap();
    assert_eq!(
        merged_tree
            .value(store, &RepoPathComponent::from("missing"))
            .unwrap(),
        MergedTreeValue::Resolved(None)
    );
    // file1: regular file without conflicts
    assert_eq!(
        merged_tree
            .value(store, &file1_path.components()[0])
            .unwrap(),
        MergedTreeValue::Resolved(Some(TreeValue::File {
            id: file1_id,
            executable: false,
        }))
    );
    // file2: 3-way conflict
    assert_eq!(
        merged_tree
            .value(store, &file2_path.components()[0])
            .unwrap(),
        MergedTreeValue::Conflict(Merge::new(
            vec![Some(file_value(&file2_v1_id)), None],
            vec![
                Some(file_value(&file2_v2_id)),
                Some(file_value(&file2_v3_id)),
                None,
            ],
        ))
    );
    // file3: modify/delete conflict
    assert_eq!(
        merged_tree
            .value(store, &file3_path.components()[0])
            .unwrap(),
        MergedTreeValue::Conflict(Merge::new(
            vec![Some(file_value(&file3_v1_id)), None],
            vec![Some(file_value(&file3_v2_id)), None, None],
        ))
    );
    // file4: add/add conflict
    assert_eq!(
        merged_tree
            .value(store, &file4_path.components()[0])
            .unwrap(),
        MergedTreeValue::Conflict(Merge::new(
            vec![None, None],
            vec![
                Some(file_value(&file4_v1_id)),
                Some(file_value(&file4_v2_id)),
                None
            ],
        ))
    );
    // file5: 5-way conflict
    assert_eq!(
        merged_tree
            .value(store, &file5_path.components()[0])
            .unwrap(),
        MergedTreeValue::Conflict(Merge::new(
            vec![
                Some(file_value(&file5_v1_id)),
                Some(file_value(&file5_v2_id)),
            ],
            vec![
                Some(file_value(&file5_v3_id)),
                Some(file_value(&file5_v4_id)),
                Some(file_value(&file5_v5_id)),
            ],
        ))
    );
    // file6: directory without conflicts
    assert_eq!(
        merged_tree.value(store, &dir1_basename).unwrap(),
        MergedTreeValue::Resolved(store.get_tree(tree_id).unwrap().value(&dir1_basename))
    );

    // Also test that MergedTreeBuilder can create the same tree by starting from an
    // empty legacy tree.
    let mut tree_builder = MergedTreeBuilder::new(MergedTreeId::Legacy(store.empty_tree_id()));
    let mut entries = vec![];
    plain_entries(store, tree_id, &RepoPath::root(), &mut entries);
    for (path, value) in entries {
        tree_builder.set_or_remove(path, Merge::normal(value));
    }
    let recreated_legacy_id = tree_builder.write_tree(store).unwrap();
    assert_eq!(recreated_legacy_id, MergedTreeId::Legacy(tree_id));

    // Create the merged tree by starting from an empty merged tree and adding
    // entries from the merged tree we created before
    let empty_merged_id =
        MergedTreeId::Merge(Merge::from_interleaved(&vec![store.empty_tree_id(); 5]));
    let mut tree_builder = MergedTreeBuilder::new(empty_merged_id);
    for (path, value) in merged_tree.entries(store).unwrap() {
        tree_builder.set_or_remove(path, value);
    }
    let recreated_merged_id = tree_builder.write_tree(store).unwrap();
    assert_eq!(recreated_merged_id, merged_tree.id());

    // Create the merged tree by adding the same (variable-arity) entries as we
    // added to the single-tree TreeBuilder.
    let mut tree_builder = MergedTreeBuilder::new(MergedTreeId::Merge(Merge::resolved(
        store.empty_tree_id(),
    )));
    // Add the entries out of order, so we test both increasing and reducing the
    // arity (going up from 1-way to 3-way to 5-way, then to 3-way again)
    tree_builder.set_or_remove(file1_path, Merge::normal(file_value(&file1_id)));
    tree_builder.set_or_remove(file2_path, file2_conflict);
    tree_builder.set_or_remove(file5_path, file5_conflict);
    tree_builder.set_or_remove(file3_path, file3_conflict);
    tree_builder.set_or_remove(file4_path, file4_conflict);
    tree_builder.set_or_remove(dir1_filename, Merge::normal(file_value(&dir1_filename_id)));
    let recreated_merged_id = tree_builder.write_tree(store).unwrap();
    assert_eq!(recreated_merged_id, merged_tree.id());
}

#[test]
fn test_conflict_iterator() {
    let mut store = Store::new();
    let store = &mut store;

    let unchanged_path = RepoPath::from_internal_string("dir/subdir/unchanged");
    let trivial_path = RepoPath::from_internal_string("dir/subdir/trivial");
    let trivial_hunk_path = RepoPath::from_internal_string("dir/non_trivial");
    let file_conflict_path = RepoPath::from_internal_string("dir/subdir/file_conflict");
    let modify_delete_path = RepoPath::from_internal_string("dir/subdir/modify_delete");
    let same_add_path = RepoPath::from_internal_string("dir/subdir/same_add");
    let different_add_path = RepoPath::from_internal_string("dir/subdir/different_add");
    let dir_file_path = RepoPath::from_internal_string("dir/subdir/dir_file");
    let added_dir_path = RepoPath::from_internal_string("dir/new_dir");
    let modify_delete_dir_path = RepoPath::from_internal_string("dir/modify_delete_dir");
    let base1 = create_single_tree(
        store,
        &[
            (&unchanged_path, "unchanged"),
            (&trivial_path, "base"),
            (&trivial_hunk_path, "line1\nline2\nline3\n"),
            (&file_conflict_path, "base"),
            (&modify_delete_path, "base"),
            // no same_add_path
            // no different_add_path
            (&dir_file_path, "base"),
            // no added_dir_path
            (
                &modify_delete_dir_path.join(&RepoPathComponent::from("base")),
                "base",
            ),
        ],
    );
    let side1 = create_single_tree(
        store,
        &[
            (&unchanged_path, "unchanged"),
            (&trivial_path, "base"),
            (&file_conflict_path, "side1"),
            (&trivial_hunk_path, "line1 side1\nline2\nline3\n"),
            (&modify_delete_path, "modified"),
            (&same_add_path, "same"),
            (&different_add_path, "side1"),
            (&dir_file_path, "side1"),
            (
                &added_dir_path.join(&RepoPathComponent::from("side1")),
                "side1",
            ),
            (
                &modify_delete_dir_path.join(&RepoPathComponent::from("side1")),
                "side1",
            ),
        ],
    );
    let side2 = create_single_tree(
        store,
        &[
            (&unchanged_path, "unchanged"),
            (&trivial_path, "side2"),
            (&file_conflict_path, "side2"),
            (&trivial_hunk_path, "line1\nline2\nline3 side2\n"),
            // no modify_delete_path
            (&same_add_path, "same"),
            (&different_add_path, "side2"),
            (&dir_file_path.join(&RepoPathComponent::from("dir")), "new"),
            (
                &added_dir_path.join(&RepoPathComponent::from("side2")),
                "side2",
            ),
            // no modify_delete_dir_path
        ],
    );

    let tree = MergedTree::new(Merge::new(vec![base1], vec![side1, side2]));
    let conflicts = tree.conflicts(store).unwrap();
    let conflict_at = |store: &Store, path: &RepoPath| {
        Merge::new(
            vec![plain_path_value(store, base1, path)],
            vec![
                plain_path_value(store, side1, path),
                plain_path_value(store, side2, path),
            ],
        )
    };
    // We initially also get a conflict in trivial_hunk_path because we had
    // forgotten to resolve conflicts
    assert_eq!(
        conflicts,
        vec![
            (
                trivial_hunk_path.clone(),
                conflict_at(store, &trivial_hunk_path)
            ),
            (
                different_add_path.clone(),
                conflict_at(store, &different_add_path)
            ),
            (dir_file_path.clone(), conflict_at(store, &dir_file_path)),
            (
                file_conflict_path.clone(),
                conflict_at(store, &file_conflict_path)
            ),
            (
                modify_delete_path.clone(),
                conflict_at(store, &modify_delete_path)
            ),
        ]
    );

    // After we resolve conflicts, there are only non-trivial conflicts left
    let tree = MergedTree::Merge(tree.resolve(store).unwrap());
    let conflicts = tree.conflicts(store).unwrap();
    assert_eq!(
        conflicts,
        vec![
            (
                different_add_path.clone(),
                conflict_at(store, &different_add_path)
            ),
            (dir_file_path.clone(), conflict_at(store, &dir_file_path)),
            (
                file_conflict_path.clone(),
                conflict_at(store, &file_conflict_path)
            ),
            (
                modify_delete_path.clone(),
                conflict_at(store, &modify_delete_path)
            ),
        ]
    );

    let merged_legacy_tree = to_legacy_tree(store, &tree);
    let legacy_conflicts = MergedTree::legacy(merged_legacy_tree)
        .conflicts(store)
        .unwrap();
    assert_eq!(legacy_conflicts, conflicts);
}

#[test]
fn test_conflict_iterator_higher_arity() {
    let mut store = Store::new();
    let store = &mut store;

    let two_sided_path = RepoPath::from_internal_string("dir/2-sided");
    let three_sided_path = RepoPath::from_internal_string("dir/3-sided");
    let base1 = create_single_tree(
        store,
        &[(&two_sided_path, "base1"), (&three_sided_path, "base1")],
    );
    let base2 = create_single_tree(
        store,
        &[(&two_sided_path, "base2"), (&three_sided_path, "base2")],
    );
    let side1 = create_single_tree(
        store,
        &[(&two_sided_path, "side1"), (&three_sided_path, "side1")],
    );
    let side2 = create_single_tree(
        store,
        &[(&two_sided_path, "base1"), (&three_sided_path, "side2")],
    );
    let side3 = create_single_tree(
        store,
        &[(&two_sided_path, "side3"), (&three_sided_path, "side3")],
    );

    let tree = MergedTree::new(Merge::new(
        vec![base1, base2],
        vec![side1, side2, side3],
    ));
    let conflicts = tree.conflicts(store).unwrap();
    let conflict_at = |store: &Store, path: &RepoPath| {
        Merge::new(
            vec![
                plain_path_value(store, base1, path),
                plain_path_value(store, base2, path),
            ],
            vec![
                plain_path_value(store, side1, path),
                plain_path_value(store, side2, path),
                plain_path_value(store, side3, path),
            ],
        )
    };
    // Both paths have the full, unsimplified conflict (3-sided)
    assert_eq!(
        conflicts,
        vec![
            (two_sided_path.clone(), conflict_at(store, &two_sided_path)),
            (
                three_sided_path.clone(),
                conflict_at(store, &three_sided_path)
            )
        ]
    );
    // Iterating over conflicts in a legacy tree yields the simplified conflict at
    // each path
    let merged = MergedTree::resolved(side1)
        .merge(store, &MergedTree::resolved(base1), &MergedTree::resolved(side2))
        .unwrap();
    let merged_legacy_tree = to_legacy_tree(store, &merged);
    let merged = MergedTree::legacy(merged_legacy_tree)
        .merge(store, &MergedTree::resolved(base2), &MergedTree::resolved(side3))
        .unwrap();
    let merged_legacy_tree = to_legacy_tree(store, &merged);
    let legacy_conflicts = MergedTree::legacy(merged_legacy_tree)
        .conflicts(store)
        .unwrap();
    assert_eq!(
        legacy_conflicts,
        vec![
            (
                two_sided_path.clone(),
                Merge::new(
                    vec![plain_path_value(store, base2, &two_sided_path)],
                    vec![
                        plain_path_value(store, side1, &two_sided_path),
                        plain_path_value(store, side3, &two_sided_path),
                    ],
                )
            ),
            (
                three_sided_path.clone(),
                conflict_at(store, &three_sided_path)
            )
        ]
    );
}
