use jj_ai::diff::diff_lines;
use jj_ai::diff::group_hunks;
use jj_ai::diff::render_commit_patch;
use jj_ai::diff::render_file_block;
use jj_ai::diff::tree_diff;
use jj_ai::diff::DiffEntry;
use jj_ai::diff::LineKind;
use jj_ai::model::CommitRecord;
use jj_ai::model::FileEntry;
use jj_ai::model::RepoModel;
use jj_ai::model::Tree;
use jj_ai::text::split_lines;
use jj_ai::text::trim_str;

fn tree_of(files: &[(&str, &str)]) -> Tree {
    Tree {
        files: files
            .iter()
            .map(|(p, c)| FileEntry { path: p.to_string(), content: c.to_string() })
            .collect(),
    }
}

fn two_commit_repo(parent_files: &[(&str, &str)], child_files: &[(&str, &str)]) -> RepoModel {
    RepoModel {
        commits: vec![
            CommitRecord {
                id: 1,
                change_id: 101,
                parents: vec![],
                tree: tree_of(parent_files),
                description: "base".to_string(),
            },
            CommitRecord {
                id: 2,
                change_id: 102,
                parents: vec![1],
                tree: tree_of(child_files),
                description: String::new(),
            },
        ],
        working_copy: 2,
        next_id: 3,
    }
}

#[test]
fn split_lines_keeps_terminators() {
    let lines = split_lines("a\nbb\nc");
    assert_eq!(lines, vec!["a\n".to_string(), "bb\n".to_string(), "c".to_string()]);
    let joined: String = lines.concat();
    assert_eq!(joined, "a\nbb\nc");
    assert!(split_lines("").is_empty());
}

#[test]
fn trim_str_strips_surrounding_whitespace() {
    assert_eq!(trim_str("  hello \n"), "hello");
    assert_eq!(trim_str("\t\r\n "), "");
    assert_eq!(trim_str("x"), "x");
}

#[test]
fn render_patch_for_modified_file() {
    let repo = two_commit_repo(&[("f.txt", "a\nb\nc\n")], &[("f.txt", "a\nx\nc\n")]);
    let patch = render_commit_patch(&repo, 2, &vec![]);
    assert_eq!(
        patch,
        "diff --git a/f.txt b/f.txt\n@@ -1,3 +1,3 @@\n a\n-b\n+x\n c\n"
    );
}

#[test]
fn render_patch_for_added_file() {
    let repo = two_commit_repo(&[], &[("f.txt", "foo\n")]);
    let patch = render_commit_patch(&repo, 2, &vec![]);
    assert_eq!(patch, "diff --git a/f.txt b/f.txt\n@@ -1,0 +1,1 @@\n+foo\n");
}

#[test]
fn render_patch_for_removed_file() {
    let repo = two_commit_repo(&[("gone.txt", "bye\n")], &[]);
    let patch = render_commit_patch(&repo, 2, &vec![]);
    assert_eq!(patch, "diff --git a/gone.txt b/gone.txt\n@@ -1,1 +1,0 @@\n-bye\n");
}

#[test]
fn render_patch_of_identical_trees_is_empty() {
    let files = [("f.txt", "same\n")];
    let repo = two_commit_repo(&files, &files);
    let patch = render_commit_patch(&repo, 2, &vec![]);
    assert_eq!(patch, "");
}

#[test]
fn ignore_glob_hides_matching_paths() {
    let repo = two_commit_repo(&[("debug.log", "old\n")], &[("debug.log", "new\n")]);
    let filtered = render_commit_patch(&repo, 2, &vec!["*.log".to_string()]);
    assert_eq!(filtered, "");
    let unfiltered = render_commit_patch(&repo, 2, &vec!["*.rs".to_string()]);
    assert!(unfiltered.starts_with("diff --git a/debug.log b/debug.log\n"));
    let invalid_pattern = render_commit_patch(&repo, 2, &vec!["[".to_string()]);
    assert!(invalid_pattern.starts_with("diff --git a/debug.log b/debug.log\n"));
}

#[test]
fn tree_diff_lists_differing_paths_in_order() {
    let base = tree_of(&[("a.txt", "1\n"), ("b.txt", "2\n"), ("c.txt", "3\n")]);
    let target = tree_of(&[("b.txt", "2\n"), ("c.txt", "changed\n"), ("d.txt", "4\n")]);
    let entries = tree_diff(&base, &target);
    let paths: Vec<&str> = entries.iter().map(|e| e.path.as_str()).collect();
    assert_eq!(paths, vec!["a.txt", "c.txt", "d.txt"]);
    assert!(entries[0].after.is_none());
    assert!(entries[2].before.is_none());
}

#[test]
fn diff_lines_round_trips_both_sides() {
    let before: Vec<String> = vec!["a\n", "b\n", "c\n", "d\n"].into_iter().map(String::from).collect();
    let after: Vec<String> = vec!["a\n", "c\n", "d\n", "e\n"].into_iter().map(String::from).collect();
    let ops = diff_lines(&before, &after);
    let left: String = ops
        .iter()
        .filter(|l| !matches!(l.kind, LineKind::Added))
        .map(|l| l.text.clone())
        .collect();
    let right: String = ops
        .iter()
        .filter(|l| !matches!(l.kind, LineKind::Removed))
        .map(|l| l.text.clone())
        .collect();
    assert_eq!(left, before.concat());
    assert_eq!(right, after.concat());
}

#[test]
fn far_apart_changes_make_separate_hunks() {
    let mut before: Vec<String> = (0..12).map(|i| format!("line{}\n", i)).collect();
    let mut after = before.clone();
    before[1] = "old-top\n".to_string();
    after[1] = "new-top\n".to_string();
    before[10] = "old-bottom\n".to_string();
    after[10] = "new-bottom\n".to_string();
    let ops = diff_lines(&before, &after);
    let hunks = group_hunks(&ops, 3);
    assert_eq!(hunks.len(), 2);
    let removed: Vec<String> = hunks
        .iter()
        .flat_map(|h| h.lines.iter())
        .filter(|l| matches!(l.kind, LineKind::Removed))
        .map(|l| l.text.clone())
        .collect();
    assert_eq!(removed, vec!["old-top\n".to_string(), "old-bottom\n".to_string()]);
    assert!(hunks[0].left_start <= hunks[1].left_start);
}

#[test]
fn unchanged_content_yields_header_only_block() {
    let entry = DiffEntry {
        path: "empty.txt".to_string(),
        before: None,
        after: Some(String::new()),
    };
    let block = render_file_block(&entry);
    assert_eq!(block, "diff --git a/empty.txt b/empty.txt\n");
}
