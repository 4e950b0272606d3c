use marginalia::diff::{changed_files_from_deltas, choose_base_branch, hunk_from_counts, remote_branch_names};

#[test]
fn hunk_end_from_line_count() {
    let h = hunk_from_counts(10, 3);
    assert_eq!((h.new_start, h.new_end), (10, 12));
    let one = hunk_from_counts(7, 1);
    assert_eq!((one.new_start, one.new_end), (7, 7));
    // A hunk that only deletes lines points at its start line.
    let del = hunk_from_counts(5, 0);
    assert_eq!((del.new_start, del.new_end), (5, 5));
}

#[test]
fn deltas_become_changed_files() {
    let deltas = vec![
        ("src/a.rs".to_string(), vec![(1, 2), (10, 0)]),
        ("src/empty.rs".to_string(), vec![]),
        ("src/a.rs".to_string(), vec![(40, 1)]),
        ("src/b.rs".to_string(), vec![(3, 4)]),
    ];
    let files = changed_files_from_deltas(&deltas);
    assert_eq!(files.len(), 2);
    assert_eq!(files[0].path, "src/a.rs");
    let a: Vec<(usize, usize)> = files[0].hunks.iter().map(|h| (h.new_start, h.new_end)).collect();
    assert_eq!(a, vec![(1, 2), (10, 10)]);
    assert_eq!(files[1].path, "src/b.rs");
    assert_eq!((files[1].hunks[0].new_start, files[1].hunks[0].new_end), (3, 6));
}

#[test]
fn empty_delta_does_not_block_a_later_one() {
    let deltas = vec![
        ("x.rs".to_string(), vec![]),
        ("x.rs".to_string(), vec![(2, 2)]),
    ];
    let files = changed_files_from_deltas(&deltas);
    assert_eq!(files.len(), 1);
    assert_eq!((files[0].hunks[0].new_start, files[0].hunks[0].new_end), (2, 3));
}

#[test]
fn remote_names() {
    assert_eq!(
        remote_branch_names("main"),
        vec!["origin/main".to_string(), "upstream/main".to_string()]
    );
}

#[test]
fn base_branch_choice() {
    assert_eq!(choose_base_branch(true, true), Ok("main".to_string()));
    assert_eq!(choose_base_branch(false, true), Ok("master".to_string()));
    assert_eq!(
        choose_base_branch(false, false),
        Err("could not auto-detect base branch (tried main, master)".to_string())
    );
}
