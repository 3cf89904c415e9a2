//! The decision core of the dispatch hook: after a foreign operation, take
//! the detected rewrites and queue every rewritten commit that still has no
//! description and whose patch shows something. The surrounding command-line
//! plumbing performs the detection round-trip and the generation calls.
use vstd::prelude::*;
use vstd::string::StrSliceExecFns;

use crate::diff::nothing_to_describe;
use crate::diff::render_commit_patch;
use crate::model::RepoModel;

verus! {

/// Whether the hook queues the rewritten commit `id`: still present, with
/// an empty description and a patch that shows something.
pub open spec fn hook_wants(repo: &RepoModel, id: u64, patterns: Seq<String>) -> bool {
    &&& repo.has_commit(id)
    &&& repo.spec_commit(id).description@.len() == 0
    &&& !nothing_to_describe(repo, id, patterns)
}

/// The new identifiers out of `pairs` that the hook will describe, in order.
pub open spec fn spec_hook_pending(
    repo: &RepoModel,
    pairs: Seq<(u64, u64)>,
    patterns: Seq<String>,
) -> Seq<u64>
    decreases pairs.len(),
{
    if pairs.len() == 0 {
        Seq::empty()
    } else {
        spec_hook_pending(repo, pairs.drop_last(), patterns) + (if hook_wants(
            repo,
            pairs.last().1,
            patterns,
        ) {
            seq![pairs.last().1]
        } else {
            Seq::empty()
        })
    }
}

/// Plans the hook's updates: for every detected rewrite, the new commit
/// paired with its rendered patch, where a description is still missing and
/// the patch is not empty.
pub fn plan_hook_updates(
    repo: &RepoModel,
    rewrites: &Vec<(u64, u64)>,
    ignore_patterns: &Vec<String>,
) -> (r: Vec<(u64, String)>)
    requires
        repo.wf(),
    ensures
        r@.len() == spec_hook_pending(repo, rewrites@, ignore_patterns@).len(),
        forall|k: int|
            0 <= k < r@.len() ==> (#[trigger] r@[k]).0 == spec_hook_pending(
                repo,
                rewrites@,
                ignore_patterns@,
            )[k],
        forall|k: int| 0 <= k < r@.len() ==> (#[trigger] r@[k]).1@.len() > 0,
        forall|k: int|
            0 <= k < r@.len() ==> crate::diff::is_rendered_patch(
                repo,
                (#[trigger] r@[k]).0,
                ignore_patterns@,
                r@[k].1@,
            ),
{
    let n = rewrites.len();
    let mut out: Vec<(u64, String)> = Vec::new();
    let mut k: usize = 0;
    while k < n
        invariant
            0 <= k <= n,
            n == rewrites@.len(),
            repo.wf(),
            out@.len() == spec_hook_pending(
                repo,
                rewrites@.take(k as int),
                ignore_patterns@,
            ).len(),
            forall|q: int|
                0 <= q < out@.len() ==> (#[trigger] out@[q]).0 == spec_hook_pending(
                    repo,
                    rewrites@.take(k as int),
                    ignore_patterns@,
                )[q],
            forall|q: int| 0 <= q < out@.len() ==> (#[trigger] out@[q]).1@.len() > 0,
            forall|q: int|
                0 <= q < out@.len() ==> crate::diff::is_rendered_patch(
                    repo,
                    (#[trigger] out@[q]).0,
                    ignore_patterns@,
                    out@[q].1@,
                ),
        decreases n - k,
    {
        let ghost take_k = rewrites@.take(k as int);
        let ghost take_k1 = rewrites@.take(k as int + 1);
        proof {
            assert(take_k1.drop_last() =~= take_k);
            assert(take_k1.last() == rewrites@[k as int]);
        }
        let new_id = rewrites[k].1;
        match repo.find_commit(new_id) {
            None => {
            },
            Some(idx) => {
                proof {
                    assert(repo.spec_commit(new_id) == repo.commits@[idx as int]);
                }
                if repo.commits[idx].description.as_str().unicode_len() == 0 {
                    let diff = render_commit_patch(repo, new_id, ignore_patterns);
                    if diff.unicode_len() > 0 {
                        let ghost out0 = out@;
                        out.push((new_id, diff));
                        proof {
                            assert forall|q: int| 0 <= q < out0.len() implies #[trigger] out@[q]
                                == out0[q] by {}
                            assert(out@[out0.len() as int].0 == new_id);
                        }
                    }
                }
            },
        }
        k += 1;
    }
    proof {
        assert(rewrites@.take(n as int) =~= rewrites@);
    }
    out
}

} // verus!
