//! The single-revision describe flow and revision resolution. The storage
//! collaborator evaluates arbitrary revision expressions; its answer comes
//! in as a value, and every decision made on it is verified here. The
//! working-position symbol `@` is resolved against the model directly.
use vstd::prelude::*;
use vstd::string::StrSliceExecFns;

pub mod backprop;
pub mod describe;

use crate::diff::nothing_to_describe;
use crate::diff::render_commit_patch;
use crate::error::JjaiError;
use crate::llm::LlmError;
use crate::model::RepoModel;
use crate::update::apply_descriptions;
use crate::update::update_for;

verus! {

/// The storage collaborator's answer to evaluating a revision expression
/// other than `@`: the matching commits, or why evaluation failed.
pub enum RevsetEval {
    Commits(Vec<u64>),
    EvalFailed(String),
}

/// The working-position symbol.
pub open spec fn is_at_symbol(s: Seq<char>) -> bool {
    s.len() == 1 && s[0] == '@'
}

/// What a revision expression resolves to, given the collaborator's answer
/// for non-`@` expressions.
pub open spec fn resolved_ids(repo: &RepoModel, revision: Seq<char>, evaluated: &RevsetEval) -> Option<
    Seq<u64>,
> {
    if is_at_symbol(revision) {
        Some(seq![repo.working_copy])
    } else {
        match evaluated {
            RevsetEval::Commits(ids) => Some(ids@),
            RevsetEval::EvalFailed(_) => None,
        }
    }
}

/// Resolves a revision expression to its matching commits, in order.
/// `@` yields exactly the working position; any other expression stands or
/// falls with the collaborator's answer, and an empty answer is the distinct
/// "revision not found" failure.
pub fn resolve_revisions(repo: &RepoModel, revision: &str, evaluated: RevsetEval) -> (r: Result<
    Vec<u64>,
    JjaiError,
>)
    requires
        repo.wf(),
    ensures
        match resolved_ids(repo, revision@, &evaluated) {
            None => r is Err && r->Err_0 is RevisionResolve,
            Some(ids) => if ids.len() == 0 {
                r is Err && r->Err_0 is RevisionNotFound
            } else {
                r is Ok && r->Ok_0@ == ids
            },
        },
{
    let at = revision.unicode_len() == 1 && revision.get_char(0) == '@';
    if at {
        let mut ids: Vec<u64> = Vec::new();
        ids.push(repo.working_copy);
        proof {
            assert(ids@ =~= seq![repo.working_copy]);
        }
        Ok(ids)
    } else {
        match evaluated {
            RevsetEval::EvalFailed(reason) => Err(
                JjaiError::RevisionResolve { revision: revision.to_owned(), reason },
            ),
            RevsetEval::Commits(ids) => {
                if ids.len() == 0 {
                    Err(JjaiError::RevisionNotFound { revision: revision.to_owned() })
                } else {
                    Ok(ids)
                }
            },
        }
    }
}

/// Resolves a revision expression that must name exactly one commit. `@`
/// always does; any other expression fails as "ambiguous" when several
/// commits match.
pub fn resolve_revision(repo: &RepoModel, revision: &str, evaluated: RevsetEval) -> (r: Result<
    u64,
    JjaiError,
>)
    requires
        repo.wf(),
    ensures
        is_at_symbol(revision@) ==> r is Ok && r->Ok_0 == repo.working_copy,
        match resolved_ids(repo, revision@, &evaluated) {
            None => r is Err && r->Err_0 is RevisionResolve,
            Some(ids) => if ids.len() == 0 {
                r is Err && r->Err_0 is RevisionNotFound
            } else if ids.len() == 1 {
                r is Ok && r->Ok_0 == ids[0]
            } else {
                r is Err && r->Err_0 is RevisionAmbiguous
            },
        },
{
    let ids = match resolve_revisions(repo, revision, evaluated) {
        Err(e) => {
            return Err(e);
        },
        Ok(ids) => ids,
    };
    if ids.len() > 1 {
        return Err(JjaiError::RevisionAmbiguous { revision: revision.to_owned() });
    }
    Ok(ids[0])
}

/// What one invocation of the single-revision describe flow reports.
pub struct DescribeResult {
    /// The generated description; empty when there was nothing to describe.
    pub description: String,
    /// Whether the description was written to the commit.
    pub applied: bool,
}

/// Describes one commit: renders its patch, hands back the generated
/// description, and — outside dry-run — rewrites the commit and re-parents
/// its descendants in one transaction. A commit whose patch is empty is
/// nothing to describe, not an error. `generation` is what the
/// text-generation backend returned for the rendered patch.
pub fn run_describe(
    repo: &mut RepoModel,
    revision: &str,
    evaluated: RevsetEval,
    generation: Result<String, LlmError>,
    ignore_patterns: &Vec<String>,
    dry_run: bool,
) -> (r: Result<DescribeResult, JjaiError>)
    requires
        old(repo).wf(),
        (match resolved_ids(old(repo), revision@, &evaluated) {
            Some(ids) => forall|k: int| 0 <= k < ids.len() ==> old(repo).has_commit(#[trigger] ids[k]),
            None => true,
        }),
        old(repo).next_id + old(repo).commits@.len() <= u64::MAX,
    ensures
        match resolved_ids(old(repo), revision@, &evaluated) {
            None => r is Err && r->Err_0 is RevisionResolve && *final (repo) == *old(repo),
            Some(ids) => if ids.len() == 0 {
                r is Err && r->Err_0 is RevisionNotFound && *final (repo) == *old(repo)
            } else if ids.len() > 1 && !is_at_symbol(revision@) {
                r is Err && r->Err_0 is RevisionAmbiguous && *final (repo) == *old(repo)
            } else {
                {
                    let target = if is_at_symbol(revision@) {
                        old(repo).working_copy
                    } else {
                        ids[0]
                    };
                    if nothing_to_describe(old(repo), target, ignore_patterns@) {
                        r is Ok && r->Ok_0.description@.len() == 0 && r->Ok_0.applied == false
                            && *final (repo) == *old(repo)
                    } else {
                        match generation {
                            Result::Err(_) => r is Err && r->Err_0 is Llm && *final (repo) == *old(
                                repo,
                            ),
                            Result::Ok(d) => if dry_run {
                                r is Ok && r->Ok_0.description == d && r->Ok_0.applied == false
                                    && *final (repo) == *old(repo)
                            } else {
                                &&& r is Ok
                                &&& r->Ok_0.description == d
                                &&& r->Ok_0.applied == true
                                &&& final (repo).wf()
                                &&& final (repo).commits@.len() == old(repo).commits@.len()
                                &&& (forall|i: int|
                                    0 <= i < old(repo).commits@.len() ==> (#[trigger] final(repo).commits@[i]).change_id == old(repo).commits@[i].change_id)
                                &&& (forall|i: int|
                                    0 <= i < old(repo).commits@.len() ==> (#[trigger] final(repo).commits@[i]).tree.files@ == old(repo).commits@[i].tree.files@)
                                &&& (forall|i: int|
                                    0 <= i < old(repo).commits@.len() ==> (#[trigger] final(repo).commits@[i]).parents@.len() == old(repo).commits@[i].parents@.len())
                                &&& final (repo).commits@[old(repo).spec_index_of(
                                    target,
                                )].id != old(repo).commits@[old(repo).spec_index_of(target)].id
                                &&& final (repo).commits@[old(repo).spec_index_of(
                                    target,
                                )].description == d
                                &&& (forall|i: int|
                                    0 <= i < old(repo).commits@.len() && old(repo).commits@[i].id
                                        != target ==> (#[trigger] final(repo).commits@[i]).description == old(repo).commits@[i].description)
                            },
                        }
                    }
                }
            },
        },
{
    let target = match resolve_revision(repo, revision, evaluated) {
        Err(e) => {
            return Err(e);
        },
        Ok(t) => t,
    };
    let diff = render_commit_patch(repo, target, ignore_patterns);
    if diff.unicode_len() == 0 {
        return Ok(DescribeResult { description: String::new(), applied: false });
    }
    let description = match generation {
        Err(e) => {
            return Err(JjaiError::Llm(e));
        },
        Ok(d) => d,
    };
    if dry_run {
        return Ok(DescribeResult { description, applied: false });
    }
    let mut updates: Vec<(u64, String)> = Vec::new();
    updates.push((target, description.clone()));
    let ghost gi = repo.spec_index_of(target);
    proof {
        assert(old(repo).has_commit(target));
        assert(0 <= gi < old(repo).commits@.len() && old(repo).commits@[gi].id == target);
        assert(updates@[0] == (target, description));
    }
    let rewrites = apply_descriptions(repo, &updates);
    proof {
        crate::update::lemma_update_for_unique_key(updates@, target, 0);
        assert(update_for(updates@, old(repo).commits@[gi].id) == Some(description));
        assert forall|i: int|
            0 <= i < old(repo).commits@.len() && old(repo).commits@[i].id != target implies (
        #[trigger] final (repo).commits@[i]).description == old(repo).commits@[i].description by {
            assert forall|q: int|
                0 <= q < updates@.len() implies (#[trigger] updates@[q]).0 != old(
                repo,
            ).commits@[i].id by {
                assert(updates@[q] == (target, description));
            }
            crate::update::lemma_update_for_none(updates@, old(repo).commits@[i].id);
        }
    }
    Ok(DescribeResult { description, applied: true })
}

} // verus!
