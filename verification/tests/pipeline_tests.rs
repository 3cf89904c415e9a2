use jj_ai::command::describe::run_describe;
use jj_ai::command::resolve_revision;
use jj_ai::command::resolve_revisions;
use jj_ai::command::RevsetEval;
use jj_ai::error::JjaiError;
use jj_ai::llm::LlmError;
use jj_ai::model::CommitRecord;
use jj_ai::model::FileEntry;
use jj_ai::model::RepoModel;
use jj_ai::model::Tree;

fn leaf_tree(path: &str, content: &str) -> Tree {
    Tree { files: vec![FileEntry { path: path.to_string(), content: content.to_string() }] }
}

fn single_commit_repo() -> RepoModel {
    RepoModel {
        commits: vec![CommitRecord {
            id: 1,
            change_id: 11,
            parents: vec![],
            tree: leaf_tree("f.txt", "foo\n"),
            description: String::new(),
        }],
        working_copy: 1,
        next_id: 2,
    }
}

fn chain_repo(descriptions: &[&str]) -> RepoModel {
    let mut commits = Vec::new();
    for (i, d) in descriptions.iter().enumerate() {
        let id = (i + 1) as u64;
        let parents = if i == 0 { vec![] } else { vec![i as u64] };
        commits.push(CommitRecord {
            id,
            change_id: 100 + id,
            parents,
            tree: leaf_tree("f.txt", &format!("version {}\n", i)),
            description: d.to_string(),
        });
    }
    let n = commits.len() as u64;
    RepoModel { commits, working_copy: n, next_id: n + 1 }
}

#[test]
fn describe_generates_applies_then_skips() {
    let mut repo = single_commit_repo();

    let first = run_describe(
        &mut repo,
        &vec![1],
        &vec![Ok("Add foo to f.txt".to_string())],
        &vec![],
        false,
        false,
    )
    .expect("first run succeeds");
    assert!(first.applied);
    assert_eq!(first.skipped_existing, 0);
    assert_eq!(first.described.len(), 1);
    assert_eq!(first.described[0].commit_id, 1);
    assert_eq!(first.described[0].description, "Add foo to f.txt");
    assert_eq!(repo.commits[0].description, "Add foo to f.txt");
    assert_eq!(repo.commits[0].change_id, 11);
    assert_ne!(repo.commits[0].id, 1);

    let new_id = repo.commits[0].id;
    let second = run_describe(&mut repo, &vec![new_id], &vec![], &vec![], false, false)
        .expect("second run succeeds");
    assert!(!second.applied);
    assert_eq!(second.skipped_existing, 1);
    assert!(second.described.is_empty());
    assert_eq!(repo.commits[0].description, "Add foo to f.txt");
}

#[test]
fn one_failed_generation_rewrites_nothing() {
    let mut repo = chain_repo(&["", ""]);

    let result = run_describe(
        &mut repo,
        &vec![1, 2],
        &vec![Ok("first".to_string()), Err(LlmError::Api("quota".to_string()))],
        &vec![],
        false,
        false,
    );
    assert!(matches!(result, Err(JjaiError::Llm(_))));
    assert_eq!(repo.commits[0].description, "");
    assert_eq!(repo.commits[1].description, "");
    assert_eq!(repo.commits[0].id, 1);
    assert_eq!(repo.commits[1].id, 2);
}

#[test]
fn dry_run_reports_without_mutation() {
    let mut repo = single_commit_repo();
    let result = run_describe(
        &mut repo,
        &vec![1],
        &vec![Ok("would say this".to_string())],
        &vec![],
        true,
        false,
    )
    .expect("dry run succeeds");
    assert!(!result.applied);
    assert_eq!(result.described.len(), 1);
    assert_eq!(result.described[0].description, "would say this");
    assert_eq!(repo.commits[0].description, "");
    assert_eq!(repo.commits[0].id, 1);
}

#[test]
fn empty_diff_contributes_nothing() {
    // Identical trees parent and child: the child renders empty and is
    // silently skipped, not an error.
    let mut repo = RepoModel {
        commits: vec![
            CommitRecord {
                id: 1,
                change_id: 11,
                parents: vec![],
                tree: leaf_tree("f.txt", "same\n"),
                description: "base".to_string(),
            },
            CommitRecord {
                id: 2,
                change_id: 12,
                parents: vec![1],
                tree: leaf_tree("f.txt", "same\n"),
                description: String::new(),
            },
        ],
        working_copy: 2,
        next_id: 3,
    };
    let result = run_describe(&mut repo, &vec![2], &vec![], &vec![], false, false)
        .expect("succeeds with nothing to describe");
    assert!(!result.applied);
    assert!(result.described.is_empty());
    assert_eq!(result.skipped_existing, 0);
}

#[test]
fn at_symbol_resolves_to_working_position() {
    let repo = chain_repo(&["a", "b", "c"]);
    let single = resolve_revision(&repo, "@", RevsetEval::Commits(vec![])).unwrap();
    assert_eq!(single, repo.working_copy);
    let many = resolve_revisions(&repo, "@", RevsetEval::EvalFailed("unused".to_string()))
        .unwrap();
    assert_eq!(many, vec![repo.working_copy]);
}

#[test]
fn empty_revset_answer_is_not_found() {
    let repo = single_commit_repo();
    let r = resolve_revisions(&repo, "xyz", RevsetEval::Commits(vec![]));
    assert!(matches!(r, Err(JjaiError::RevisionNotFound { .. })));
}

#[test]
fn multiple_matches_are_ambiguous_in_single_mode() {
    let repo = chain_repo(&["a", "b"]);
    let r = resolve_revision(&repo, "branches()", RevsetEval::Commits(vec![1, 2]));
    assert!(matches!(r, Err(JjaiError::RevisionAmbiguous { .. })));
    let ok = resolve_revisions(&repo, "branches()", RevsetEval::Commits(vec![1, 2])).unwrap();
    assert_eq!(ok, vec![1, 2]);
}

#[test]
fn failed_evaluation_is_a_resolve_error() {
    let repo = single_commit_repo();
    let r = resolve_revision(
        &repo,
        "bad(((",
        RevsetEval::EvalFailed("syntax error".to_string()),
    );
    assert!(matches!(r, Err(JjaiError::RevisionResolve { .. })));
}

#[test]
fn single_revision_flow_applies_description() {
    let mut repo = single_commit_repo();
    let result = jj_ai::command::run_describe(
        &mut repo,
        "@",
        RevsetEval::Commits(vec![]),
        Ok("Initial import".to_string()),
        &vec![],
        false,
    )
    .expect("describe succeeds");
    assert!(result.applied);
    assert_eq!(result.description, "Initial import");
    assert_eq!(repo.commits[0].description, "Initial import");
}

#[test]
fn rewrite_rebases_descendants_once() {
    let mut repo = chain_repo(&["", "keep me", ""]);
    let result = run_describe(
        &mut repo,
        &vec![1],
        &vec![Ok("root described".to_string())],
        &vec![],
        false,
        false,
    )
    .expect("succeeds");
    assert!(result.applied);
    // The target was rewritten and both descendants were re-parented onto
    // fresh identifiers; change identities and other descriptions survive.
    assert_eq!(repo.commits[0].description, "root described");
    assert_eq!(repo.commits[1].description, "keep me");
    assert_eq!(repo.commits.len(), 3);
    assert_ne!(repo.commits[0].id, 1);
    assert_ne!(repo.commits[1].id, 2);
    assert_ne!(repo.commits[2].id, 3);
    assert_eq!(repo.commits[1].parents, vec![repo.commits[0].id]);
    assert_eq!(repo.commits[2].parents, vec![repo.commits[1].id]);
    assert_eq!(repo.commits[0].change_id, 101);
    assert_eq!(repo.commits[1].change_id, 102);
    assert_eq!(repo.commits[2].change_id, 103);
    assert_eq!(repo.working_copy, repo.commits[2].id);
    // Trees survive the rewrite; only descriptions and content ids move.
    for (i, c) in repo.commits.iter().enumerate() {
        assert_eq!(c.tree.files[0].content, format!("version {}\n", i));
    }
}
