//! Row hashing, tabular diff and staged row edits.

use oxen::tabular::classify_row;
use oxen::tabular::row_hash;
use oxen::tabular::tabular_diff;
use oxen::tabular::DataFrame;
use oxen::tabular::DataRow;
use oxen::tabular::DiffRowStatus;
use oxen::model::CommitEntry;
use oxen::tabular::StagedDataFrame;

fn row(cells: &[&str]) -> DataRow {
    DataRow { cells: cells.iter().map(|c| String::from(*c)).collect() }
}

fn cells(r: &DataRow) -> Vec<String> {
    r.cells.clone()
}

/// The committed table of the diff scenario: `id,name,age`.
fn base_df() -> DataFrame {
    DataFrame {
        columns: vec![String::from("id"), String::from("name"), String::from("age")],
        rows: vec![row(&["1", "a", "10"]), row(&["2", "b", "20"])],
    }
}

#[test]
fn test_row_hash_depends_on_selected_cells() {
    let a = row(&["1", "a", "10"]);
    let b = row(&["1", "z", "10"]);
    let keys = vec![0usize];
    let all = vec![0usize, 1, 2];
    assert_eq!(row_hash(&a, &keys), row_hash(&b, &keys));
    assert_ne!(row_hash(&a, &all), row_hash(&b, &all));
}

#[test]
fn test_classify_row_statuses() {
    assert_eq!(classify_row(false, true, "x", "y", true), DiffRowStatus::Added);
    assert_eq!(classify_row(true, false, "x", "y", true), DiffRowStatus::Removed);
    assert_eq!(classify_row(true, true, "x", "y", true), DiffRowStatus::Modified);
    assert_eq!(classify_row(true, true, "x", "x", true), DiffRowStatus::Unchanged);
    // Without target columns nothing counts as modified.
    assert_eq!(classify_row(true, true, "x", "y", false), DiffRowStatus::Unchanged);
}

#[test]
fn test_tabular_diff_keyed_on_id() {
    // Left: rows 1 and 2.  Right: row 1 with a new age, and a new row 3.
    let left = vec![row(&["1", "a", "10"]), row(&["2", "b", "20"])];
    let right = vec![row(&["1", "a", "11"]), row(&["3", "c", "30"])];
    let keys = vec![0usize];
    let targets = vec![2usize];

    let d = tabular_diff(&left, &right, &keys, &targets);
    assert_eq!(d.len(), 3);

    // Row 1 changed its age.
    assert_eq!(d[0].status, DiffRowStatus::Modified);
    assert_eq!(cells(d[0].left.as_ref().unwrap()), vec!["1", "a", "10"]);
    assert_eq!(cells(d[0].right.as_ref().unwrap()), vec!["1", "a", "11"]);

    // Row 2 is gone on the right.
    assert_eq!(d[1].status, DiffRowStatus::Removed);
    assert_eq!(cells(d[1].left.as_ref().unwrap()), vec!["2", "b", "20"]);
    assert!(d[1].right.is_none());

    // Row 3 is new on the right.
    assert_eq!(d[2].status, DiffRowStatus::Added);
    assert!(d[2].left.is_none());
    assert_eq!(cells(d[2].right.as_ref().unwrap()), vec!["3", "c", "30"]);
}

#[test]
fn test_output_columns_shape() {
    let keys = vec![String::from("id")];
    let targets = vec![String::from("age")];
    let cols =
        oxen::tabular::get_output_columns(&keys, &targets, &vec![], &vec![], &vec![], &vec![]);
    assert_eq!(cols, vec!["id", "age.left", "age.right", ".oxen.diff.status"]);
    // Display columns sit between the target block and the status column.
    let display = vec![String::from("note.left"), String::from("note.right")];
    let unchanged = vec![String::from("note")];
    let cols = oxen::tabular::get_output_columns(
        &keys,
        &targets,
        &display,
        &vec![],
        &vec![],
        &unchanged,
    );
    assert_eq!(
        cols,
        vec![
            "id",
            "age.left",
            "age.right",
            "note.left",
            "note.right",
            ".oxen.diff.status",
        ]
    );
}

#[test]
fn test_staged_row_edits() {
    // Index the committed table, then: append {id:4,name:d,age:40},
    // change row id 1 (row id 0) to age 12, delete row id 2 (row id 1).
    let mut staged = StagedDataFrame::index(base_df(), String::from("base-commit"));

    let appended = staged
        .append_row("{\"id\": \"4\", \"name\": \"d\", \"age\": \"40\"}")
        .unwrap();
    assert_eq!(appended, 2);
    staged.modify_row(0, "{\"age\": \"12\"}").unwrap();
    staged.delete_row(1).unwrap();

    let (added, modified, deleted) = staged.diff_counts();
    assert_eq!((added, modified, deleted), (1, 1, 1));

    // Materializing yields exactly the base after the edits.
    let rows = staged.apply();
    let got: Vec<Vec<String>> = rows.iter().map(cells).collect();
    assert_eq!(
        got,
        vec![
            vec!["1".to_string(), "a".to_string(), "12".to_string()],
            vec!["4".to_string(), "d".to_string(), "40".to_string()],
        ],
    );
}

#[test]
fn test_staged_row_restore_undoes_an_edit() {
    let mut staged = StagedDataFrame::index(base_df(), String::from("base-commit"));
    staged.delete_row(0).unwrap();
    assert_eq!(staged.diff_counts(), (0, 0, 1));
    staged.restore_row(0).unwrap();
    assert_eq!(staged.diff_counts(), (0, 0, 0));
    assert!(staged.restore_row(0).is_err());
    // The base is untouched throughout.
    assert_eq!(staged.apply().len(), 2);
}

#[test]
fn test_staged_rows_reject_bad_input() {
    let mut staged = StagedDataFrame::index(base_df(), String::from("base-commit"));
    // Not a JSON object.
    assert!(staged.append_row("not json").is_err());
    // A row id past the base.
    assert!(staged.delete_row(99).is_err());
    assert!(staged.modify_row(99, "{\"age\": \"1\"}").is_err());
}

#[test]
fn test_diff_counts_between_listings() {
    let e = |p: &str, h: &str| CommitEntry {
        path: String::from(p),
        hash: String::from(h),
        num_bytes: 1,
        last_modified: 0,
        commit_id: String::new(),
    };
    let base = vec![e("a.txt", "h1"), e("b.txt", "h2")];
    let head = vec![e("b.txt", "h9"), e("c.txt", "h3")];
    let counts = oxen::diff::count_diff_entries(&base, &head);
    assert_eq!(counts.added, 1);
    assert_eq!(counts.removed, 1);
    assert_eq!(counts.modified, 1);
}

#[test]
fn test_remote_staged_pagination() {
    let entries: Vec<String> = (0..25).map(|i| format!("file_{}.txt", i)).collect();
    let page = oxen::remote_staged::RemoteStagedStatus::paginate_entries(entries.clone(), 2, 10);
    assert_eq!(page.total_entries, 25);
    assert_eq!(page.total_pages, 3);
    assert_eq!(page.entries.len(), 10);
    assert_eq!(page.entries[0], "file_10.txt");
    let last = oxen::remote_staged::RemoteStagedStatus::paginate_entries(entries, 3, 10);
    assert_eq!(last.entries.len(), 5);
}

#[test]
fn test_staged_edits_detect_stale_base() {
    let staged = StagedDataFrame::index(base_df(), String::from("commit-one"));
    assert!(!staged.is_stale("commit-one"));
    // A foreign commit moved the branch head: the session is stale and
    // must re-index before its edits can land.
    assert!(staged.is_stale("commit-two"));
}

#[test]
fn test_tabular_diff_sorts_rows_by_key_ascending() {
    // Inputs arrive with keys out of order on both sides; the diff comes
    // out ascending by the key column.
    let left = vec![row(&["2", "b", "20"]), row(&["1", "a", "10"])];
    let right = vec![row(&["4", "d", "40"]), row(&["3", "c", "30"])];
    let keys = vec![0usize];
    let targets = vec![2usize];
    let d = tabular_diff(&left, &right, &keys, &targets);
    assert_eq!(d.len(), 4);
    assert_eq!(d[0].status, DiffRowStatus::Removed);
    assert_eq!(cells(d[0].left.as_ref().unwrap()), vec!["1", "a", "10"]);
    assert_eq!(d[1].status, DiffRowStatus::Removed);
    assert_eq!(cells(d[1].left.as_ref().unwrap()), vec!["2", "b", "20"]);
    assert_eq!(d[2].status, DiffRowStatus::Added);
    assert_eq!(cells(d[2].right.as_ref().unwrap()), vec!["3", "c", "30"]);
    assert_eq!(d[3].status, DiffRowStatus::Added);
    assert_eq!(cells(d[3].right.as_ref().unwrap()), vec!["4", "d", "40"]);
}

#[test]
fn test_diff_entry_changes_by_content_hash() {
    let e = |p: &str, h: &str, n: u64| CommitEntry {
        path: String::from(p),
        hash: String::from(h),
        num_bytes: n,
        last_modified: 0,
        commit_id: String::new(),
    };
    // Same size, different content: a real change.
    let base = e("a.txt", "h1", 5);
    let head = e("a.txt", "h2", 5);
    let entry = oxen::diff::DiffEntry::from_commit_entry(
        Some(&base),
        Some(&head),
        oxen::diff::DiffEntryStatus::Modified,
    );
    assert!(entry.has_changes());
    // Identical content: no change, whatever the metadata says.
    let same = oxen::diff::DiffEntry::from_commit_entry(
        Some(&base),
        Some(&base),
        oxen::diff::DiffEntryStatus::Modified,
    );
    assert!(!same.has_changes());
}

#[test]
fn test_diff_entry_from_dir_carries_summary_and_sizes() {
    let e = |p: &str, h: &str, n: u64| CommitEntry {
        path: String::from(p),
        hash: String::from(h),
        num_bytes: n,
        last_modified: 0,
        commit_id: String::new(),
    };
    let base = vec![e("d/a.txt", "h1", 10), e("d/b.txt", "h2", 20)];
    let head = vec![e("d/b.txt", "h9", 25), e("d/c.txt", "h3", 30)];
    let entry = oxen::diff::DiffEntry::from_dir(
        Some("d"),
        &base,
        Some("d"),
        &head,
        oxen::diff::DiffEntryStatus::Modified,
    );
    assert!(entry.is_dir);
    assert_eq!(entry.filename, "d");
    assert_eq!(entry.size, 55);
    assert_eq!(entry.head_size, Some(55));
    assert_eq!(entry.base_size, Some(30));
    let summary = entry.summary.unwrap();
    assert_eq!(summary.added, 1);
    assert_eq!(summary.removed, 1);
    assert_eq!(summary.modified, 1);
}

#[test]
fn test_compare_requires_keys_for_targets() {
    let keys: Vec<String> = vec![];
    let targets = vec![String::from("age")];
    assert!(oxen::tabular::validate_compare_columns(&keys, &targets).is_err());
    let keys = vec![String::from("id")];
    assert!(oxen::tabular::validate_compare_columns(&keys, &targets).is_ok());
    let none: Vec<String> = vec![];
    assert!(oxen::tabular::validate_compare_columns(&none, &none).is_ok());
}

#[test]
fn test_display_columns_follow_schema_diff() {
    let display = vec![
        String::from("gone.left"),
        String::from("gone.right"),
        String::from("new.right"),
        String::from("same.left"),
        String::from("other"),
    ];
    let added = vec![String::from("new")];
    let removed = vec![String::from("gone")];
    let unchanged = vec![String::from("same")];
    let kept = oxen::tabular::filter_display_columns(&display, &added, &removed, &unchanged);
    assert_eq!(
        kept,
        vec![
            String::from("gone.left"),
            String::from("new.right"),
            String::from("same.left"),
        ]
    );
}

#[test]
fn test_diff_entry_carries_inline_tabular_diff() {
    let e = |p: &str, h: &str, n: u64| CommitEntry {
        path: String::from(p),
        hash: String::from(h),
        num_bytes: n,
        last_modified: 0,
        commit_id: String::new(),
    };
    let base = e("t.csv", "h1", 5);
    let head = e("t.csv", "h2", 6);
    let left = vec![row(&["1", "a", "10"])];
    let right = vec![row(&["1", "a", "11"])];
    let rows = tabular_diff(&left, &right, &vec![0usize], &vec![2usize]);
    let entry = oxen::diff::DiffEntry::from_commit_entry(
        Some(&base),
        Some(&head),
        oxen::diff::DiffEntryStatus::Modified,
    )
    .with_tabular(rows);
    let attached = entry.tabular.as_ref().unwrap();
    assert_eq!(attached.len(), 1);
    assert_eq!(attached[0].status, DiffRowStatus::Modified);
    assert_eq!(entry.filename, "t.csv");
}
