use jj_ai::command::backprop::plan_backprop;
use jj_ai::command::backprop::run_backprop;
use jj_ai::error::JjaiError;
use jj_ai::llm::LlmError;
use jj_ai::model::CommitRecord;
use jj_ai::model::FileEntry;
use jj_ai::model::RepoModel;
use jj_ai::model::Tree;

fn one_file(content: &str) -> Tree {
    Tree { files: vec![FileEntry { path: "f.txt".to_string(), content: content.to_string() }] }
}

/// root(1) -> A(2) -> B(3) -> C(4), ids equal positions + 1.
fn linear_chain(descriptions: &[&str]) -> RepoModel {
    let mut commits = Vec::new();
    for (i, d) in descriptions.iter().enumerate() {
        let id = (i + 1) as u64;
        let parents = if i == 0 { vec![] } else { vec![i as u64] };
        commits.push(CommitRecord {
            id,
            change_id: 200 + id,
            parents,
            tree: one_file(&format!("state {}\n", i)),
            description: d.to_string(),
        });
    }
    let n = commits.len() as u64;
    RepoModel { commits, working_copy: n, next_id: n + 1 }
}

#[test]
fn walk_queues_oldest_first() {
    // root -> A -> B -> C, every description empty. The walk visits
    // C, B, A (the root has no parent and is never queued), and the plan
    // lists them for application in the opposite, oldest-first order.
    let repo = linear_chain(&["", "", "", ""]);
    let queue = plan_backprop(&repo, 4, None, &vec![]);
    let ids: Vec<u64> = queue.iter().map(|(id, _)| *id).collect();
    assert_eq!(ids, vec![2, 3, 4]);
}

#[test]
fn walk_skips_described_and_root() {
    let repo = linear_chain(&["root msg", "", "has one", ""]);
    let queue = plan_backprop(&repo, 4, None, &vec![]);
    let ids: Vec<u64> = queue.iter().map(|(id, _)| *id).collect();
    assert_eq!(ids, vec![2, 4]);
}

#[test]
fn limit_bounds_visited_ancestors() {
    // With a visit bound of 1 only the starting commit is examined,
    // whatever the description state of the rest of the chain.
    let repo = linear_chain(&["", "", "", ""]);
    let queue = plan_backprop(&repo, 4, Some(1), &vec![]);
    let ids: Vec<u64> = queue.iter().map(|(id, _)| *id).collect();
    assert_eq!(ids, vec![4]);

    let two = plan_backprop(&repo, 4, Some(2), &vec![]);
    let ids2: Vec<u64> = two.iter().map(|(id, _)| *id).collect();
    assert_eq!(ids2, vec![3, 4]);

    let none = plan_backprop(&repo, 4, Some(0), &vec![]);
    assert!(none.is_empty());
}

#[test]
fn backprop_applies_each_candidate_in_its_own_pass() {
    let mut repo = linear_chain(&["", "", "", ""]);
    let count = run_backprop(
        &mut repo,
        4,
        None,
        &vec![
            Ok("describe A".to_string()),
            Ok("describe B".to_string()),
            Ok("describe C".to_string()),
        ],
        &vec![],
        false,
    )
    .expect("walk succeeds");
    assert_eq!(count, 3);
    assert_eq!(repo.commits[0].description, "");
    assert_eq!(repo.commits[1].description, "describe A");
    assert_eq!(repo.commits[2].description, "describe B");
    assert_eq!(repo.commits[3].description, "describe C");
    // Change identities survive all three rewrites.
    assert_eq!(repo.commits[1].change_id, 202);
    assert_eq!(repo.commits[2].change_id, 203);
    assert_eq!(repo.commits[3].change_id, 204);
}

#[test]
fn backprop_failure_keeps_earlier_rewrites() {
    let mut repo = linear_chain(&["", "", "", ""]);
    let result = run_backprop(
        &mut repo,
        4,
        None,
        &vec![
            Ok("describe A".to_string()),
            Err(LlmError::Api("network".to_string())),
            Ok("never used".to_string()),
        ],
        &vec![],
        false,
    );
    let failure = result.err().expect("walk fails partway");
    assert_eq!(failure.completed, 1);
    assert!(matches!(failure.error, JjaiError::Llm(_)));
    // The first candidate's rewrite is durable; the later ones never ran.
    assert_eq!(repo.commits[1].description, "describe A");
    assert_eq!(repo.commits[2].description, "");
    assert_eq!(repo.commits[3].description, "");
}

#[test]
fn backprop_dry_run_never_mutates() {
    let mut repo = linear_chain(&["", "", "", ""]);
    let count = run_backprop(
        &mut repo,
        4,
        None,
        &vec![Ok("a".to_string()), Ok("b".to_string()), Ok("c".to_string())],
        &vec![],
        true,
    )
    .expect("dry walk succeeds");
    assert_eq!(count, 3);
    for c in &repo.commits {
        assert_eq!(c.description, "");
    }
    assert_eq!(repo.commits[3].id, 4);
}

#[test]
fn backprop_with_nothing_to_do_leaves_repo_untouched() {
    // Every ancestor already carries a description: no candidates, no
    // backend outcomes, and no mutation even outside dry-run.
    let mut repo = linear_chain(&["a", "b", "c", "d"]);
    let count = run_backprop(&mut repo, 4, None, &vec![], &vec![], false)
        .expect("empty walk succeeds");
    assert_eq!(count, 0);
    for (i, c) in repo.commits.iter().enumerate() {
        assert_eq!(c.id, (i + 1) as u64);
    }
    assert_eq!(repo.next_id, 5);
}
