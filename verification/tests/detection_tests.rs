use jj_ai::detection::find_rewritten_commits;
use jj_ai::hook::plan_hook_updates;
use jj_ai::model::CommitRecord;
use jj_ai::model::FileEntry;
use jj_ai::model::RepoModel;
use jj_ai::model::Tree;
use jj_ai::update::apply_descriptions;

fn tree_with(content: &str) -> Tree {
    Tree { files: vec![FileEntry { path: "f.txt".to_string(), content: content.to_string() }] }
}

fn small_repo() -> RepoModel {
    RepoModel {
        commits: vec![
            CommitRecord {
                id: 1,
                change_id: 301,
                parents: vec![],
                tree: tree_with("one\n"),
                description: "first".to_string(),
            },
            CommitRecord {
                id: 2,
                change_id: 302,
                parents: vec![1],
                tree: tree_with("two\n"),
                description: String::new(),
            },
        ],
        working_copy: 2,
        next_id: 3,
    }
}

#[test]
fn rewritten_head_is_detected() {
    let before = small_repo();
    let mut after = small_repo();
    let rewrites = apply_descriptions(&mut after, &vec![(2, "now described".to_string())]);
    assert_eq!(rewrites, vec![(2, 3)]);

    let detected = find_rewritten_commits(&before, &after);
    assert_eq!(detected, vec![(2, 3)]);
}

#[test]
fn unchanged_repos_report_no_rewrites() {
    let before = small_repo();
    let after = small_repo();
    assert!(find_rewritten_commits(&before, &after).is_empty());
}

#[test]
fn hook_plans_only_describable_rewrites() {
    let mut after = small_repo();
    // The foreign operation rewrote the head but left its description empty.
    let rewrites = apply_descriptions(&mut after, &vec![(2, String::new())]);
    assert_eq!(rewrites, vec![(2, 3)]);

    let updates = plan_hook_updates(&after, &rewrites, &vec![]);
    assert_eq!(updates.len(), 1);
    assert_eq!(updates[0].0, 3);
    assert!(updates[0].1.starts_with("diff --git a/f.txt b/f.txt\n"));

    // Once the commit carries a description the hook leaves it alone.
    after.commits[1].description = "written by hand".to_string();
    assert!(plan_hook_updates(&after, &rewrites, &vec![]).is_empty());
}
