//! The batch describe pipeline over an ordered list of target commits:
//! skip the already-described, render each patch, skip empty ones, pair the
//! rest with generated descriptions, and apply everything in one
//! transaction — or none of it. Only targets skipped for an existing
//! description are counted; a target whose patch is empty contributes
//! nothing and is not counted.
use vstd::prelude::*;
use vstd::string::StrSliceExecFns;

use crate::diff::nothing_to_describe;
use crate::diff::render_commit_patch;
use crate::error::JjaiError;
use crate::llm::LlmError;
use crate::model::RepoModel;
use crate::text::is_blank;
use crate::text::str_is_blank;
use crate::update::apply_descriptions;
use crate::update::update_for;

verus! {

/// One commit paired with its generated description.
pub struct DescribedCommit {
    pub commit_id: u64,
    pub description: String,
}

/// What one invocation of the batch describe pipeline reports.
pub struct DescribeResult {
    /// The commits that received a description, in target order.
    pub described: Vec<DescribedCommit>,
    /// Whether the descriptions were written to the store.
    pub applied: bool,
    /// How many targets were skipped for already carrying a description.
    pub skipped_existing: usize,
}

/// A target left alone because it already carries a description and
/// overwriting is off.
pub open spec fn skip_existing(repo: &RepoModel, id: u64, overwrite: bool) -> bool {
    !overwrite && !is_blank(repo.spec_commit(id).description@)
}

/// A target that will be described: not skipped, and with something to
/// show in its patch.
pub open spec fn wants_description(
    repo: &RepoModel,
    id: u64,
    patterns: Seq<String>,
    overwrite: bool,
) -> bool {
    !skip_existing(repo, id, overwrite) && !nothing_to_describe(repo, id, patterns)
}

/// The targets that will be described, in order.
pub open spec fn spec_pending(
    repo: &RepoModel,
    targets: Seq<u64>,
    patterns: Seq<String>,
    overwrite: bool,
) -> Seq<u64>
    decreases targets.len(),
{
    if targets.len() == 0 {
        Seq::empty()
    } else {
        spec_pending(repo, targets.drop_last(), patterns, overwrite) + (if wants_description(
            repo,
            targets.last(),
            patterns,
            overwrite,
        ) {
            seq![targets.last()]
        } else {
            Seq::empty()
        })
    }
}

/// How many targets are skipped as already described.
pub open spec fn spec_skipped(repo: &RepoModel, targets: Seq<u64>, overwrite: bool) -> int
    decreases targets.len(),
{
    if targets.len() == 0 {
        0
    } else {
        spec_skipped(repo, targets.drop_last(), overwrite) + (if skip_existing(
            repo,
            targets.last(),
            overwrite,
        ) {
            1int
        } else {
            0int
        })
    }
}

pub proof fn lemma_spec_pending_membership(
    repo: &RepoModel,
    targets: Seq<u64>,
    patterns: Seq<String>,
    overwrite: bool,
)
    ensures
        forall|k: int|
            0 <= k < spec_pending(repo, targets, patterns, overwrite).len() ==> targets.contains(
                #[trigger] spec_pending(repo, targets, patterns, overwrite)[k],
            ),
    decreases targets.len(),
{
    if targets.len() > 0 {
        lemma_spec_pending_membership(repo, targets.drop_last(), patterns, overwrite);
        let pend = spec_pending(repo, targets, patterns, overwrite);
        let prev = spec_pending(repo, targets.drop_last(), patterns, overwrite);
        assert forall|k: int| 0 <= k < pend.len() implies targets.contains(#[trigger] pend[k]) by {
            if k < prev.len() {
                assert(prev[k] == pend[k]);
                let j = choose|j: int|
                    0 <= j < targets.drop_last().len() && targets.drop_last()[j] == prev[k];
                assert(targets[j] == pend[k]);
            } else {
                assert(pend[k] == targets.last());
                assert(targets[targets.len() - 1] == pend[k]);
            }
        }
    }
}

pub proof fn lemma_spec_pending_distinct(
    repo: &RepoModel,
    targets: Seq<u64>,
    patterns: Seq<String>,
    overwrite: bool,
)
    requires
        forall|k: int, l: int| 0 <= k < l < targets.len() ==> targets[k] != targets[l],
    ensures
        forall|k: int, l: int|
            0 <= k < l < spec_pending(repo, targets, patterns, overwrite).len() ==> spec_pending(
                repo,
                targets,
                patterns,
                overwrite,
            )[k] != spec_pending(repo, targets, patterns, overwrite)[l],
    decreases targets.len(),
{
    if targets.len() > 0 {
        let prev_targets = targets.drop_last();
        assert forall|k: int, l: int|
            0 <= k < l < prev_targets.len() implies prev_targets[k] != prev_targets[l] by {
            assert(prev_targets[k] == targets[k]);
            assert(prev_targets[l] == targets[l]);
        }
        lemma_spec_pending_distinct(repo, prev_targets, patterns, overwrite);
        lemma_spec_pending_membership(repo, prev_targets, patterns, overwrite);
        let pend = spec_pending(repo, targets, patterns, overwrite);
        let prev = spec_pending(repo, prev_targets, patterns, overwrite);
        assert forall|k: int, l: int| 0 <= k < l < pend.len() implies pend[k] != pend[l] by {
            if l < prev.len() {
                assert(pend[k] == prev[k] && pend[l] == prev[l]);
            } else if k < prev.len() {
                assert(pend[k] == prev[k]);
                assert(pend[l] == targets.last());
                assert(prev_targets.contains(prev[k]));
                let j = choose|j: int|
                    0 <= j < prev_targets.len() && prev_targets[j] == prev[k];
                assert(targets[j] == prev[k]);
            }
        }
    }
}

/// Plans one pipeline invocation: which targets get a description, with
/// their rendered patches, and how many are skipped as already described.
pub fn plan_describe(
    repo: &RepoModel,
    targets: &Vec<u64>,
    ignore_patterns: &Vec<String>,
    overwrite: bool,
) -> (r: (Vec<(u64, String)>, usize))
    requires
        repo.wf(),
        forall|k: int| 0 <= k < targets@.len() ==> repo.has_commit(#[trigger] targets@[k]),
    ensures
        r.0@.len() == spec_pending(repo, targets@, ignore_patterns@, overwrite).len(),
        forall|k: int|
            0 <= k < r.0@.len() ==> (#[trigger] r.0@[k]).0 == spec_pending(
                repo,
                targets@,
                ignore_patterns@,
                overwrite,
            )[k],
        forall|k: int| 0 <= k < r.0@.len() ==> (#[trigger] r.0@[k]).1@.len() > 0,
        forall|k: int|
            0 <= k < r.0@.len() ==> crate::diff::is_rendered_patch(
                repo,
                (#[trigger] r.0@[k]).0,
                ignore_patterns@,
                r.0@[k].1@,
            ),
        r.1 == spec_skipped(repo, targets@, overwrite),
{
    let n = targets.len();
    let mut pending: Vec<(u64, String)> = Vec::new();
    let mut skipped: usize = 0;
    let mut k: usize = 0;
    while k < n
        invariant
            0 <= k <= n,
            n == targets@.len(),
            repo.wf(),
            forall|q: int| 0 <= q < n ==> repo.has_commit(#[trigger] targets@[q]),
            pending@.len() == spec_pending(
                repo,
                targets@.take(k as int),
                ignore_patterns@,
                overwrite,
            ).len(),
            forall|q: int|
                0 <= q < pending@.len() ==> (#[trigger] pending@[q]).0 == spec_pending(
                    repo,
                    targets@.take(k as int),
                    ignore_patterns@,
                    overwrite,
                )[q],
            forall|q: int| 0 <= q < pending@.len() ==> (#[trigger] pending@[q]).1@.len() > 0,
            forall|q: int|
                0 <= q < pending@.len() ==> crate::diff::is_rendered_patch(
                    repo,
                    (#[trigger] pending@[q]).0,
                    ignore_patterns@,
                    pending@[q].1@,
                ),
            skipped == spec_skipped(repo, targets@.take(k as int), overwrite),
            skipped <= k,
        decreases n - k,
    {
        let ghost take_k = targets@.take(k as int);
        let ghost take_k1 = targets@.take(k as int + 1);
        proof {
            assert(take_k1.drop_last() =~= take_k);
            assert(take_k1.last() == targets@[k as int]);
        }
        let id = targets[k];
        let idx = repo.find_commit(id).unwrap();
        let described_already = !str_is_blank(repo.commits[idx].description.as_str());
        if !overwrite && described_already {
            proof {
                assert(repo.spec_commit(id) == repo.commits@[idx as int]);
            }
            skipped = skipped + 1;
        } else {
            let diff = render_commit_patch(repo, id, ignore_patterns);
            proof {
                assert(repo.spec_commit(id) == repo.commits@[idx as int]);
            }
            if diff.unicode_len() > 0 {
                let ghost pending0 = pending@;
                pending.push((id, diff));
                proof {
                    assert forall|q: int| 0 <= q < pending0.len() implies #[trigger] pending@[q]
                        == pending0[q] by {}
                    assert(pending@[pending0.len() as int].0 == id);
                }
            }
        }
        k += 1;
    }
    proof {
        assert(targets@.take(n as int) =~= targets@);
    }
    (pending, skipped)
}

/// Runs the batch describe pipeline. `generated` holds, in order, what the
/// text-generation backend returned for each planned patch. One failed
/// generation aborts the whole invocation with no store mutation; dry-run
/// reports without mutating; otherwise every described commit is rewritten
/// and all descendants are re-parented in one transaction.
#[verifier::rlimit(60)]
pub fn run_describe(
    repo: &mut RepoModel,
    targets: &Vec<u64>,
    generated: &Vec<Result<String, LlmError>>,
    ignore_patterns: &Vec<String>,
    dry_run: bool,
    overwrite: bool,
) -> (r: Result<DescribeResult, JjaiError>)
    requires
        old(repo).wf(),
        forall|k: int| 0 <= k < targets@.len() ==> old(repo).has_commit(#[trigger] targets@[k]),
        forall|k: int, l: int| 0 <= k < l < targets@.len() ==> targets@[k] != targets@[l],
        generated@.len() == spec_pending(old(repo), targets@, ignore_patterns@, overwrite).len(),
        old(repo).next_id + old(repo).commits@.len() <= u64::MAX,
    ensures
        ({
            let pend = spec_pending(old(repo), targets@, ignore_patterns@, overwrite);
            &&& ((exists|k: int| 0 <= k < pend.len() && (#[trigger] generated@[k]) is Err) ==> (r
                is Err && r->Err_0 is Llm && *final (repo) == *old(repo)))
            &&& ((forall|k: int| 0 <= k < pend.len() ==> (#[trigger] generated@[k]) is Ok) ==> {
                &&& r is Ok
                &&& r->Ok_0.skipped_existing == spec_skipped(old(repo), targets@, overwrite)
                &&& r->Ok_0.described@.len() == pend.len()
                &&& (forall|k: int|
                    0 <= k < pend.len() ==> (#[trigger] r->Ok_0.described@[k]).commit_id == pend[k]
                        && r->Ok_0.described@[k].description == generated@[k]->Ok_0)
                &&& ((pend.len() == 0 || dry_run) ==> r->Ok_0.applied == false && *final (repo)
                    == *old(repo))
                &&& ((pend.len() > 0 && !dry_run) ==> {
                    &&& r->Ok_0.applied == true
                    &&& final (repo).wf()
                    &&& final (repo).commits@.len() == old(repo).commits@.len()
                    &&& (forall|i: int|
                        0 <= i < old(repo).commits@.len() ==> (#[trigger] final(repo).commits@[i]).change_id == old(repo).commits@[i].change_id)
                    &&& (forall|i: int|
                        0 <= i < old(repo).commits@.len() ==> (#[trigger] final(repo).commits@[i]).tree.files@ == old(repo).commits@[i].tree.files@)
                    &&& (forall|i: int|
                        0 <= i < old(repo).commits@.len() ==> (#[trigger] final(repo).commits@[i]).parents@.len() == old(repo).commits@[i].parents@.len())
                    &&& (forall|k: int|
                        0 <= k < pend.len() ==> final (repo).commits@[old(repo).spec_index_of(
                            #[trigger] pend[k],
                        )].description == generated@[k]->Ok_0)
                    &&& (forall|k: int|
                        0 <= k < pend.len() ==> final (repo).commits@[old(repo).spec_index_of(
                            #[trigger] pend[k],
                        )].id != old(repo).commits@[old(repo).spec_index_of(pend[k])].id)
                    &&& (forall|i: int|
                        0 <= i < old(repo).commits@.len() && (forall|k: int|
                            0 <= k < pend.len() ==> old(repo).commits@[i].id != #[trigger] pend[k])
                            ==> (#[trigger] final (repo).commits@[i]).description == old(
                            repo,
                        ).commits@[i].description)
                })
            })
        }),
{
    let ghost pend = spec_pending(old(repo), targets@, ignore_patterns@, overwrite);
    let (pending, skipped) = plan_describe(repo, targets, ignore_patterns, overwrite);
    let mut described: Vec<DescribedCommit> = Vec::new();
    let mut updates: Vec<(u64, String)> = Vec::new();
    let m = pending.len();
    let mut k: usize = 0;
    while k < m
        invariant
            0 <= k <= m,
            m == pending@.len(),
            m == pend.len(),
            pend == spec_pending(old(repo), targets@, ignore_patterns@, overwrite),
            generated@.len() == m,
            forall|q: int| 0 <= q < m ==> (#[trigger] pending@[q]).0 == pend[q],
            forall|q: int| 0 <= q < k ==> (#[trigger] generated@[q]) is Ok,
            described@.len() == k,
            updates@.len() == k,
            forall|q: int|
                0 <= q < k ==> (#[trigger] described@[q]).commit_id == pend[q] && described@[q].description
                    == generated@[q]->Ok_0,
            forall|q: int|
                0 <= q < k ==> (#[trigger] updates@[q]).0 == pend[q] && updates@[q].1
                    == generated@[q]->Ok_0,
            *repo == *old(repo),
        decreases m - k,
    {
        match &generated[k] {
            Result::Err(e) => {
                return Err(JjaiError::Llm(e.clone()));
            },
            Result::Ok(d) => {
                described.push(DescribedCommit { commit_id: pending[k].0, description: d.clone() });
                updates.push((pending[k].0, d.clone()));
            },
        }
        k += 1;
    }
    if described.len() == 0 || dry_run {
        return Ok(DescribeResult { described, applied: false, skipped_existing: skipped });
    }
    proof {
        lemma_spec_pending_distinct(old(repo), targets@, ignore_patterns@, overwrite);
        assert forall|a: int, b: int|
            0 <= a < b < updates@.len() implies (#[trigger] updates@[a]).0 != (
        #[trigger] updates@[b]).0 by {
            assert(updates@[a].0 == pend[a]);
            assert(updates@[b].0 == pend[b]);
        }
    }
    let rewrites = apply_descriptions(repo, &updates);
    proof {
        lemma_spec_pending_membership(old(repo), targets@, ignore_patterns@, overwrite);
        assert forall|q: int|
            0 <= q < pend.len() implies final (repo).commits@[old(repo).spec_index_of(
            #[trigger] pend[q],
        )].description == generated@[q]->Ok_0 && final (repo).commits@[old(repo).spec_index_of(
            pend[q],
        )].id != old(repo).commits@[old(repo).spec_index_of(pend[q])].id by {
            let j = choose|j: int| 0 <= j < targets@.len() && targets@[j] == pend[q];
            assert(old(repo).has_commit(pend[q]));
            let gi = old(repo).spec_index_of(pend[q]);
            assert(0 <= gi < old(repo).commits@.len() && old(repo).commits@[gi].id == pend[q]);
            crate::update::lemma_update_for_unique_key(updates@, pend[q], q);
            assert(update_for(updates@, old(repo).commits@[gi].id) is Some);
        }
        assert forall|i: int|
            0 <= i < old(repo).commits@.len() && (forall|q: int|
                0 <= q < pend.len() ==> old(repo).commits@[i].id != #[trigger] pend[q]) implies (
        #[trigger] final (repo).commits@[i]).description == old(repo).commits@[i].description by {
            assert forall|q: int| 0 <= q < updates@.len() implies (#[trigger] updates@[q]).0 != old(
                repo,
            ).commits@[i].id by {
                assert(updates@[q].0 == pend[q]);
            }
            crate::update::lemma_update_for_none(updates@, old(repo).commits@[i].id);
        }
    }
    Ok(DescribeResult { described, applied: true, skipped_existing: skipped })
}

} // verus!
