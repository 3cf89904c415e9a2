//! The ancestry walker: follow first parents from a starting commit,
//! queueing every ancestor that has no description and something to show,
//! up to an optional visit bound; then describe the queue oldest-first, one
//! transaction per commit, so each rebase only accounts for rewrites already
//! applied earlier in the walk. A failure partway leaves the earlier
//! rewrites durable.
use vstd::prelude::*;
use vstd::pervasive::VecAdditionalExecFns;
use vstd::string::StrSliceExecFns;

use crate::diff::nothing_to_describe;
use crate::diff::render_commit_patch;
use crate::error::JjaiError;
use crate::llm::LlmError;
use crate::model::lemma_parent_index_lt;
use crate::model::RepoModel;
use crate::text::is_blank;
use crate::text::str_is_blank;
use crate::update::apply_descriptions;
use crate::update::lemma_update_for_none;
use crate::update::lemma_update_for_unique_key;

verus! {

/// The visit bound as a mathematical option.
pub open spec fn lim_view(limit: Option<usize>) -> Option<int> {
    match limit {
        Some(l) => Some(l as int),
        None => None,
    }
}

/// One ancestor visited: the bound shrinks.
pub open spec fn dec_limit(limit: Option<int>) -> Option<int> {
    match limit {
        Some(l) => Some(l - 1),
        None => None,
    }
}

/// Whether the walk stops because the visit bound is used up.
pub open spec fn limit_reached(limit: Option<int>) -> bool {
    match limit {
        Some(l) => l <= 0,
        None => false,
    }
}

/// Whether the walker queues this commit: no description yet, not a root,
/// and a patch that shows something.
pub open spec fn is_candidate(repo: &RepoModel, id: u64, patterns: Seq<String>) -> bool {
    &&& is_blank(repo.spec_commit(id).description@)
    &&& repo.spec_commit(id).parents@.len() > 0
    &&& !nothing_to_describe(repo, id, patterns)
}

/// The candidates of the first-parent walk from `id`, in visit order:
/// the starting commit first, the root-most ancestor last. `fuel` only
/// bounds the recursion; any fuel above the commit's position gives the
/// same walk.
pub open spec fn walk_candidates(
    repo: &RepoModel,
    id: u64,
    limit: Option<int>,
    patterns: Seq<String>,
    fuel: nat,
) -> Seq<u64>
    decreases fuel,
{
    if fuel == 0 || limit_reached(limit) {
        Seq::empty()
    } else {
        let here: Seq<u64> = if is_candidate(repo, id, patterns) {
            seq![id]
        } else {
            Seq::empty()
        };
        if repo.spec_commit(id).parents@.len() == 0 {
            here
        } else {
            here + walk_candidates(
                repo,
                repo.spec_commit(id).parents@[0],
                dec_limit(limit),
                patterns,
                (fuel - 1) as nat,
            )
        }
    }
}

proof fn lemma_walk_candidates_fuel(
    repo: &RepoModel,
    id: u64,
    limit: Option<int>,
    patterns: Seq<String>,
    f1: nat,
    f2: nat,
)
    requires
        repo.wf(),
        repo.has_commit(id),
        f1 > repo.spec_index_of(id),
        f2 > repo.spec_index_of(id),
    ensures
        walk_candidates(repo, id, limit, patterns, f1) == walk_candidates(
            repo,
            id,
            limit,
            patterns,
            f2,
        ),
    decreases f1,
{
    if !limit_reached(limit) {
        let gi = repo.spec_index_of(id);
        assert(0 <= gi < repo.commits@.len() && repo.commits@[gi].id == id);
        if repo.spec_commit(id).parents@.len() > 0 {
            lemma_parent_index_lt(repo, gi, 0);
            let pid = repo.commits@[gi].parents@[0];
            lemma_walk_candidates_fuel(
                repo,
                pid,
                dec_limit(limit),
                patterns,
                (f1 - 1) as nat,
                (f2 - 1) as nat,
            );
        }
    }
}

proof fn lemma_walk_candidates_indices(
    repo: &RepoModel,
    id: u64,
    limit: Option<int>,
    patterns: Seq<String>,
    fuel: nat,
)
    requires
        repo.wf(),
        repo.has_commit(id),
        fuel > repo.spec_index_of(id),
    ensures
        forall|k: int|
            0 <= k < walk_candidates(repo, id, limit, patterns, fuel).len() ==> repo.has_commit(
                #[trigger] walk_candidates(repo, id, limit, patterns, fuel)[k],
            ) && repo.spec_index_of(walk_candidates(repo, id, limit, patterns, fuel)[k])
                <= repo.spec_index_of(id),
        forall|k: int, l: int|
            0 <= k < l < walk_candidates(repo, id, limit, patterns, fuel).len()
                ==> repo.spec_index_of(#[trigger] walk_candidates(repo, id, limit, patterns, fuel)[k])
                > repo.spec_index_of(#[trigger] walk_candidates(repo, id, limit, patterns, fuel)[l]),
    decreases fuel,
{
    if !limit_reached(limit) {
        let gi = repo.spec_index_of(id);
        assert(0 <= gi < repo.commits@.len() && repo.commits@[gi].id == id);
        let w = walk_candidates(repo, id, limit, patterns, fuel);
        if repo.spec_commit(id).parents@.len() > 0 {
            lemma_parent_index_lt(repo, gi, 0);
            let pid = repo.commits@[gi].parents@[0];
            lemma_walk_candidates_indices(repo, pid, dec_limit(limit), patterns, (fuel - 1) as nat);
            let rest = walk_candidates(repo, pid, dec_limit(limit), patterns, (fuel - 1) as nat);
            assert forall|k: int| 0 <= k < w.len() implies repo.has_commit(#[trigger] w[k])
                && repo.spec_index_of(w[k]) <= gi by {
                if is_candidate(repo, id, patterns) {
                    if k > 0 {
                        assert(w[k] == rest[k - 1]);
                    }
                } else {
                    assert(w[k] == rest[k]);
                }
            }
            assert forall|k: int, l: int| 0 <= k < l < w.len() implies repo.spec_index_of(
                #[trigger] w[k],
            ) > repo.spec_index_of(#[trigger] w[l]) by {
                if is_candidate(repo, id, patterns) {
                    if k > 0 {
                        assert(w[k] == rest[k - 1] && w[l] == rest[l - 1]);
                    } else {
                        assert(w[0] == id);
                        assert(w[l] == rest[l - 1]);
                        assert(repo.spec_index_of(rest[l - 1]) <= repo.spec_index_of(pid));
                    }
                } else {
                    assert(w[k] == rest[k] && w[l] == rest[l]);
                }
            }
        }
    }
}

/// The identifiers of a planned queue.
pub open spec fn ids_of(s: Seq<(u64, String)>) -> Seq<u64> {
    s.map_values(|p: (u64, String)| p.0)
}

fn collect_candidates(
    repo: &RepoModel,
    id: u64,
    limit: Option<usize>,
    ignore_patterns: &Vec<String>,
) -> (r: Vec<(u64, String)>)
    requires
        repo.wf(),
        repo.has_commit(id),
    ensures
        ids_of(r@) =~= walk_candidates(
            repo,
            id,
            lim_view(limit),
            ignore_patterns@,
            (repo.spec_index_of(id) + 1) as nat,
        ),
        forall|k: int| 0 <= k < r@.len() ==> (#[trigger] r@[k]).1@.len() > 0,
        forall|k: int|
            0 <= k < r@.len() ==> crate::diff::is_rendered_patch(
                repo,
                (#[trigger] r@[k]).0,
                ignore_patterns@,
                r@[k].1@,
            ),
    decreases repo.spec_index_of(id),
{
    if limit.is_some() && limit.unwrap() == 0 {
        let r: Vec<(u64, String)> = Vec::new();
        proof {
            assert(ids_of(r@) =~= Seq::<u64>::empty());
        }
        return r;
    }
    let idx = repo.find_commit(id).unwrap();
    let ghost gi = idx as int;
    proof {
        assert(repo.spec_commit(id) == repo.commits@[gi]);
    }
    let mut out: Vec<(u64, String)> = Vec::new();
    let blank = str_is_blank(repo.commits[idx].description.as_str());
    let nparents = repo.commits[idx].parents.len();
    if blank && nparents > 0 {
        let diff = render_commit_patch(repo, id, ignore_patterns);
        if diff.unicode_len() > 0 {
            out.push((id, diff));
        }
    }
    proof {
        if is_candidate(repo, id, ignore_patterns@) {
            assert(ids_of(out@) =~= seq![id]);
        } else {
            assert(ids_of(out@) =~= Seq::<u64>::empty());
        }
    }
    if nparents == 0 {
        return out;
    }
    let parent = repo.commits[idx].parents[0];
    proof {
        lemma_parent_index_lt(repo, gi, 0);
    }
    let next_limit: Option<usize> = match limit {
        None => None,
        Some(l) => Some(l - 1),
    };
    let mut rest = collect_candidates(repo, parent, next_limit, ignore_patterns);
    proof {
        lemma_walk_candidates_fuel(
            repo,
            parent,
            lim_view(next_limit),
            ignore_patterns@,
            (repo.spec_index_of(parent) + 1) as nat,
            gi as nat,
        );
    }
    let ghost out0 = out@;
    let ghost rest0 = rest@;
    out.append(&mut rest);
    proof {
        assert(out@ == out0 + rest0);
        assert(ids_of(out@) =~= ids_of(out0) + ids_of(rest0));
        assert(ids_of(out@) =~= walk_candidates(
            repo,
            id,
            lim_view(limit),
            ignore_patterns@,
            (gi + 1) as nat,
        ));
    }
    out
}

/// Plans one walk: the queued ancestors with their rendered patches, oldest
/// first — the reverse of the visit order, so that descriptions are applied
/// root-to-leaf.
pub fn plan_backprop(
    repo: &RepoModel,
    start: u64,
    limit: Option<usize>,
    ignore_patterns: &Vec<String>,
) -> (r: Vec<(u64, String)>)
    requires
        repo.wf(),
        repo.has_commit(start),
    ensures
        ids_of(r@) =~= walk_candidates(
            repo,
            start,
            lim_view(limit),
            ignore_patterns@,
            (repo.spec_index_of(start) + 1) as nat,
        ).reverse(),
        forall|k: int| 0 <= k < r@.len() ==> (#[trigger] r@[k]).1@.len() > 0,
        forall|k: int|
            0 <= k < r@.len() ==> crate::diff::is_rendered_patch(
                repo,
                (#[trigger] r@[k]).0,
                ignore_patterns@,
                r@[k].1@,
            ),
{
    let mut fwd = collect_candidates(repo, start, limit, ignore_patterns);
    let ghost fwd0 = fwd@;
    let mut out: Vec<(u64, String)> = Vec::new();
    while fwd.len() > 0
        invariant
            out@.len() + fwd@.len() == fwd0.len(),
            fwd@ =~= fwd0.take(fwd@.len() as int),
            forall|q: int| 0 <= q < out@.len() ==> #[trigger] out@[q] == fwd0[fwd0.len() - 1 - q],
            forall|q: int|
                0 <= q < fwd0.len() ==> (#[trigger] fwd0[q]).1@.len() > 0
                    && crate::diff::is_rendered_patch(
                    repo,
                    fwd0[q].0,
                    ignore_patterns@,
                    fwd0[q].1@,
                ),
        decreases fwd@.len(),
    {
        let item = fwd.pop().unwrap();
        out.push(item);
    }
    proof {
        assert(ids_of(out@) =~= ids_of(fwd0).reverse());
    }
    out
}

/// The position of the first failed generation; the length when all
/// succeeded.
pub open spec fn first_err(gen: Seq<Result<String, LlmError>>) -> int
    decreases gen.len(),
{
    if gen.len() == 0 {
        0
    } else if gen[0] is Err {
        0
    } else {
        1 + first_err(gen.drop_first())
    }
}

pub proof fn lemma_first_err_at(gen: Seq<Result<String, LlmError>>, k: int)
    requires
        0 <= k <= gen.len(),
        forall|q: int| 0 <= q < k ==> (#[trigger] gen[q]) is Ok,
        k < gen.len() ==> gen[k] is Err,
    ensures
        first_err(gen) == k,
    decreases gen.len(),
{
    if gen.len() > 0 && k > 0 {
        assert(gen[0] is Ok);
        assert forall|q: int| 0 <= q < k - 1 implies (#[trigger] gen.drop_first()[q]) is Ok by {
            assert(gen.drop_first()[q] == gen[q + 1]);
        }
        if k - 1 < gen.drop_first().len() {
            assert(gen.drop_first()[k - 1] == gen[k]);
        }
        lemma_first_err_at(gen.drop_first(), k - 1);
    }
}

/// A walk that failed partway, with how many candidates had already been
/// described — durably, outside dry-run — before the failure.
#[derive(Debug)]
pub struct BackpropFailure {
    /// How many candidates completed before the failure.
    pub completed: usize,
    /// What went wrong on the next candidate.
    pub error: JjaiError,
}

/// Walks the ancestry from `start` and describes each queued ancestor,
/// oldest first, in its own transaction. `generated` holds what the
/// text-generation backend returned for each queued patch, in that order.
/// A failure aborts the walk but leaves the earlier rewrites durable, and
/// is surfaced together with the count of candidates that completed;
/// dry-run never mutates.
#[verifier::rlimit(100)]
pub fn run_backprop(
    repo: &mut RepoModel,
    start: u64,
    limit: Option<usize>,
    generated: &Vec<Result<String, LlmError>>,
    ignore_patterns: &Vec<String>,
    dry_run: bool,
) -> (r: Result<usize, BackpropFailure>)
    requires
        old(repo).wf(),
        old(repo).has_commit(start),
        generated@.len() == walk_candidates(
            old(repo),
            start,
            lim_view(limit),
            ignore_patterns@,
            (old(repo).spec_index_of(start) + 1) as nat,
        ).len(),
        old(repo).next_id + old(repo).commits@.len() * (generated@.len() + 1) <= u64::MAX,
    ensures
        ({
            let cands = walk_candidates(
                old(repo),
                start,
                lim_view(limit),
                ignore_patterns@,
                (old(repo).spec_index_of(start) + 1) as nat,
            ).reverse();
            let fe = first_err(generated@);
            &&& (fe == cands.len() ==> r is Ok && r->Ok_0 == cands.len())
            &&& (fe < cands.len() ==> r is Err && r->Err_0.error is Llm && r->Err_0.completed
                == fe)
            &&& (dry_run ==> *final (repo) == *old(repo))
            &&& (cands.len() == 0 ==> r is Ok && r->Ok_0 == 0 && *final (repo) == *old(repo))
            &&& (!dry_run ==> {
                &&& final (repo).wf()
                &&& final (repo).commits@.len() == old(repo).commits@.len()
                &&& (forall|i: int|
                    0 <= i < old(repo).commits@.len() ==> (#[trigger] final(repo).commits@[i]).change_id == old(repo).commits@[i].change_id)
                &&& (forall|i: int|
                    0 <= i < old(repo).commits@.len() ==> (#[trigger] final(repo).commits@[i]).tree.files@ == old(repo).commits@[i].tree.files@)
                &&& (forall|k: int|
                    0 <= k < fe ==> final (repo).commits@[old(repo).spec_index_of(
                        #[trigger] cands[k],
                    )].description == generated@[k]->Ok_0)
                &&& (forall|k: int|
                    fe <= k < cands.len() ==> final (repo).commits@[old(repo).spec_index_of(
                        #[trigger] cands[k],
                    )].description == old(repo).commits@[old(repo).spec_index_of(
                        cands[k],
                    )].description)
                &&& (forall|i: int|
                    0 <= i < old(repo).commits@.len() && (forall|k: int|
                        0 <= k < cands.len() ==> old(repo).spec_index_of(#[trigger] cands[k])
                            != i) ==> (#[trigger] final (repo).commits@[i]).description == old(
                        repo,
                    ).commits@[i].description)
            })
        }),
{
    let queue = plan_backprop(repo, start, limit, ignore_patterns);
    let ghost visit = walk_candidates(
        old(repo),
        start,
        lim_view(limit),
        ignore_patterns@,
        (old(repo).spec_index_of(start) + 1) as nat,
    );
    let ghost cands = visit.reverse();
    proof {
        lemma_walk_candidates_indices(
            repo,
            start,
            lim_view(limit),
            ignore_patterns@,
            (old(repo).spec_index_of(start) + 1) as nat,
        );
        assert forall|k: int, l: int|
            0 <= k < l < cands.len() implies old(repo).spec_index_of(#[trigger] cands[k]) < old(
            repo,
        ).spec_index_of(#[trigger] cands[l]) by {
            assert(cands[k] == visit[visit.len() - 1 - k]);
            assert(cands[l] == visit[visit.len() - 1 - l]);
        }
        assert forall|k: int| 0 <= k < cands.len() implies old(repo).has_commit(
            #[trigger] cands[k],
        ) by {
            assert(cands[k] == visit[visit.len() - 1 - k]);
        }
    }
    let n_cands = queue.len();
    let mut k: usize = 0;
    if dry_run {
        while k < n_cands
            invariant
                0 <= k <= n_cands,
                n_cands == generated@.len(),
                n_cands == cands.len(),
                cands == walk_candidates(
                    old(repo),
                    start,
                    lim_view(limit),
                    ignore_patterns@,
                    (old(repo).spec_index_of(start) + 1) as nat,
                ).reverse(),
                dry_run,
                *repo == *old(repo),
                forall|q: int| 0 <= q < k ==> (#[trigger] generated@[q]) is Ok,
            decreases n_cands - k,
        {
            match &generated[k] {
                Result::Err(e) => {
                    proof {
                        lemma_first_err_at(generated@, k as int);
                    }
                    return Err(
                        BackpropFailure { completed: k, error: JjaiError::Llm(e.clone()) },
                    );
                },
                Result::Ok(_) => {},
            }
            k += 1;
        }
        proof {
            lemma_first_err_at(generated@, n_cands as int);
        }
        return Ok(n_cands);
    }
    let mut current_ids: Vec<u64> = Vec::new();
    let mut b: usize = 0;
    while b < n_cands
        invariant
            0 <= b <= n_cands,
            n_cands == queue@.len(),
            ids_of(queue@) =~= cands,
            current_ids@.len() == b,
            forall|q: int| 0 <= q < b ==> #[trigger] current_ids@[q] == queue@[q].0,
        decreases n_cands - b,
    {
        current_ids.push(queue[b].0);
        b += 1;
    }
    proof {
        assert forall|q: int| 0 <= q < n_cands implies #[trigger] current_ids@[q] == cands[q]
            by {}
    }
    let ghost olen = old(repo).commits@.len();
    let ghost onext = old(repo).next_id;
    k = 0;
    while k < n_cands
        invariant
            0 <= k <= n_cands,
            n_cands == generated@.len(),
            n_cands == cands.len(),
            cands == walk_candidates(
                old(repo),
                start,
                lim_view(limit),
                ignore_patterns@,
                (old(repo).spec_index_of(start) + 1) as nat,
            ).reverse(),
            !dry_run,
            n_cands == 0 ==> *repo == *old(repo),
            current_ids@.len() == n_cands,
            repo.wf(),
            repo.commits@.len() == olen,
            olen == old(repo).commits@.len(),
            onext == old(repo).next_id,
            onext + olen * (n_cands + 1) <= u64::MAX,
            repo.next_id <= onext + olen * (k as int),
            forall|i: int|
                0 <= i < olen ==> (#[trigger] repo.commits@[i]).change_id == old(
                    repo,
                ).commits@[i].change_id,
            forall|q: int| 0 <= q < k ==> (#[trigger] generated@[q]) is Ok,
            forall|q: int, l: int|
                0 <= q < l < n_cands ==> old(repo).spec_index_of(#[trigger] cands[q]) < old(
                    repo,
                ).spec_index_of(#[trigger] cands[l]),
            forall|q: int|
                0 <= q < n_cands ==> 0 <= old(repo).spec_index_of(#[trigger] cands[q]) < olen,
            forall|q: int|
                0 <= q < k ==> (#[trigger] repo.commits@[old(repo).spec_index_of(
                    cands[q],
                )]).description == generated@[q]->Ok_0,
            forall|q: int|
                k <= q < n_cands ==> (#[trigger] repo.commits@[old(repo).spec_index_of(
                    cands[q],
                )]).description == old(repo).commits@[old(repo).spec_index_of(
                    cands[q],
                )].description,
            forall|i: int|
                0 <= i < olen ==> (#[trigger] repo.commits@[i]).tree.files@ == old(
                    repo,
                ).commits@[i].tree.files@,
            forall|i: int|
                0 <= i < olen && (forall|q: int|
                    0 <= q < n_cands ==> old(repo).spec_index_of(#[trigger] cands[q]) != i) ==> (
                #[trigger] repo.commits@[i]).description == old(repo).commits@[i].description,
            forall|q: int|
                k <= q < n_cands ==> #[trigger] current_ids@[q] == repo.commits@[old(
                    repo,
                ).spec_index_of(cands[q])].id,
        decreases n_cands - k,
    {
        let d: String = match &generated[k] {
            Result::Err(e) => {
                proof {
                    lemma_first_err_at(generated@, k as int);
                }
                return Err(
                    BackpropFailure { completed: k, error: JjaiError::Llm(e.clone()) },
                );
            },
            Result::Ok(d) => d.clone(),
        };
        let target = current_ids[k];
        let ghost gidx = old(repo).spec_index_of(cands[k as int]);
        let mut updates: Vec<(u64, String)> = Vec::new();
        updates.push((target, d.clone()));
        let ghost pre = *repo;
        proof {
            assert(olen * (k as int) + olen == olen * ((k as int) + 1)) by (nonlinear_arith);
            assert(olen * ((k as int) + 1) <= olen * ((n_cands as int) + 1)) by (nonlinear_arith)
                requires
                    (k as int) + 1 <= (n_cands as int) + 1,
                    olen >= 0,
            ;
        }
        let rewrites = apply_descriptions(repo, &updates);
        proof {
            assert(pre.commits@[gidx].id == target);
            lemma_update_for_unique_key(updates@, target, 0);
            assert forall|i: int| 0 <= i < olen && pre.commits@[i].id != target implies (
            #[trigger] repo.commits@[i]).description == pre.commits@[i].description by {
                assert forall|q: int| 0 <= q < updates@.len() implies (#[trigger] updates@[q]).0
                    != pre.commits@[i].id by {}
                lemma_update_for_none(updates@, pre.commits@[i].id);
            }
            assert(repo.commits@[gidx].description == d);
            assert forall|q: int| k + 1 <= q < n_cands implies pre.commits@[old(
                repo,
            ).spec_index_of(cands[q])].id != target by {
                let a = old(repo).spec_index_of(cands[q]);
                assert(a != gidx);
            }
            assert forall|a: int| 0 <= a < olen implies crate::update::apply_rewrite(
                rewrites@,
                #[trigger] pre.commits@[a].id,
            ) == repo.commits@[a].id by {}
        }
        let mut q: usize = k + 1;
        while q < n_cands
            invariant
                k < n_cands,
                k + 1 <= q <= n_cands,
                n_cands == cands.len(),
                current_ids@.len() == n_cands,
                repo.commits@.len() == olen,
                forall|a: int, bq: int|
                    0 <= a < bq < n_cands ==> old(repo).spec_index_of(#[trigger] cands[a]) < old(
                        repo,
                    ).spec_index_of(#[trigger] cands[bq]),
                forall|a: int|
                    0 <= a < n_cands ==> 0 <= old(repo).spec_index_of(#[trigger] cands[a]) < olen,
                forall|a: int, bq: int|
                    0 <= a < bq < rewrites@.len() ==> (#[trigger] rewrites@[a]).0 != (
                    #[trigger] rewrites@[bq]).0,
                forall|a: int|
                    q <= a < n_cands ==> #[trigger] current_ids@[a] == pre.commits@[old(
                        repo,
                    ).spec_index_of(cands[a])].id,
                forall|a: int|
                    k + 1 <= a < q ==> #[trigger] current_ids@[a] == repo.commits@[old(
                        repo,
                    ).spec_index_of(cands[a])].id,
                forall|a: int|
                    0 <= a < olen ==> crate::update::apply_rewrite(
                        rewrites@,
                        #[trigger] pre.commits@[a].id,
                    ) == repo.commits@[a].id,
            decreases n_cands - q,
        {
            let mapped = crate::update::map_commit_id(&rewrites, current_ids[q]);
            current_ids.set(q, mapped);
            q += 1;
        }
        k += 1;
    }
    proof {
        lemma_first_err_at(generated@, n_cands as int);
    }
    Ok(n_cands)
}

} // verus!
