//! The transactional core of a rewrite: staging new descriptions for target
//! commits and re-parenting every descendant onto the rewritten commits in
//! one pass. Identities change for exactly the targets and their
//! descendants; change identities, trees and untouched descriptions are
//! preserved, and the old-to-new identifier map is returned.
use vstd::prelude::*;

use crate::model::CommitRecord;
use crate::model::FileEntry;
use crate::model::RepoModel;
use crate::model::Tree;

verus! {

/// The replacement recorded for `id` in the rewrite log, if any.
pub open spec fn rewrite_of(rewrites: Seq<(u64, u64)>, id: u64) -> Option<u64>
    decreases rewrites.len(),
{
    if rewrites.len() == 0 {
        None
    } else if rewrites.last().0 == id {
        Some(rewrites.last().1)
    } else {
        rewrite_of(rewrites.drop_last(), id)
    }
}

/// `id` after the recorded rewrites: its replacement, or itself.
pub open spec fn apply_rewrite(rewrites: Seq<(u64, u64)>, id: u64) -> u64 {
    match rewrite_of(rewrites, id) {
        Some(n) => n,
        None => id,
    }
}

/// The new description that `updates` carries for `id`, if any.
pub open spec fn update_for(updates: Seq<(u64, String)>, id: u64) -> Option<String>
    decreases updates.len(),
{
    if updates.len() == 0 {
        None
    } else if updates.last().0 == id {
        Some(updates.last().1)
    } else {
        update_for(updates.drop_last(), id)
    }
}

proof fn lemma_rewrite_of_absent(rewrites: Seq<(u64, u64)>, id: u64)
    requires
        forall|k: int| 0 <= k < rewrites.len() ==> (#[trigger] rewrites[k]).0 != id,
    ensures
        rewrite_of(rewrites, id) is None,
    decreases rewrites.len(),
{
    if rewrites.len() > 0 {
        assert forall|k: int| 0 <= k < rewrites.drop_last().len() implies (
        #[trigger] rewrites.drop_last()[k]).0 != id by {
            assert(rewrites.drop_last()[k] == rewrites[k]);
        }
        lemma_rewrite_of_absent(rewrites.drop_last(), id);
    }
}

proof fn lemma_rewrite_of_found(rewrites: Seq<(u64, u64)>, id: u64, idx: int)
    requires
        0 <= idx < rewrites.len(),
        rewrites[idx].0 == id,
        forall|l: int| idx < l < rewrites.len() ==> (#[trigger] rewrites[l]).0 != id,
    ensures
        rewrite_of(rewrites, id) == Some(rewrites[idx].1),
    decreases rewrites.len(),
{
    if idx < rewrites.len() - 1 {
        assert(rewrites.drop_last()[idx] == rewrites[idx]);
        assert forall|l: int| idx < l < rewrites.drop_last().len() implies (
        #[trigger] rewrites.drop_last()[l]).0 != id by {
            assert(rewrites.drop_last()[l] == rewrites[l]);
        }
        lemma_rewrite_of_found(rewrites.drop_last(), id, idx);
    }
}

proof fn lemma_rewrite_of_push_other(rewrites: Seq<(u64, u64)>, pair: (u64, u64), id: u64)
    requires
        pair.0 != id,
    ensures
        rewrite_of(rewrites.push(pair), id) == rewrite_of(rewrites, id),
{
    assert(rewrites.push(pair).drop_last() =~= rewrites);
}

pub proof fn lemma_update_for_none(updates: Seq<(u64, String)>, id: u64)
    requires
        forall|k: int| 0 <= k < updates.len() ==> (#[trigger] updates[k]).0 != id,
    ensures
        update_for(updates, id) is None,
    decreases updates.len(),
{
    if updates.len() > 0 {
        assert forall|k: int| 0 <= k < updates.drop_last().len() implies (
        #[trigger] updates.drop_last()[k]).0 != id by {
            assert(updates.drop_last()[k] == updates[k]);
        }
        lemma_update_for_none(updates.drop_last(), id);
    }
}

proof fn lemma_update_for_found(updates: Seq<(u64, String)>, id: u64, idx: int)
    requires
        0 <= idx < updates.len(),
        updates[idx].0 == id,
        forall|l: int| idx < l < updates.len() ==> (#[trigger] updates[l]).0 != id,
    ensures
        update_for(updates, id) == Some(updates[idx].1),
    decreases updates.len(),
{
    if idx < updates.len() - 1 {
        assert(updates.drop_last()[idx] == updates[idx]);
        assert forall|l: int| idx < l < updates.drop_last().len() implies (
        #[trigger] updates.drop_last()[l]).0 != id by {
            assert(updates.drop_last()[l] == updates[l]);
        }
        lemma_update_for_found(updates.drop_last(), id, idx);
    }
}

/// With pairwise-distinct keys, the entry at `idx` decides the lookup.
pub proof fn lemma_update_for_unique_key(updates: Seq<(u64, String)>, id: u64, idx: int)
    requires
        0 <= idx < updates.len(),
        updates[idx].0 == id,
        forall|k: int, l: int|
            0 <= k < l < updates.len() ==> (#[trigger] updates[k]).0 != (#[trigger] updates[l]).0,
    ensures
        update_for(updates, id) == Some(updates[idx].1),
{
    assert forall|l: int| idx < l < updates.len() implies (#[trigger] updates[l]).0 != id by {
        assert(updates[idx].0 != updates[l].0);
    }
    lemma_update_for_found(updates, id, idx);
}

/// Looks up the new description staged for `id`, if any.
fn find_update(updates: &Vec<(u64, String)>, id: u64) -> (r: Option<String>)
    requires
        forall|k: int, l: int|
            0 <= k < l < updates@.len() ==> (#[trigger] updates@[k]).0 != (
            #[trigger] updates@[l]).0,
    ensures
        r == update_for(updates@, id),
{
    let n = updates.len();
    let mut k: usize = 0;
    while k < n
        invariant
            0 <= k <= n,
            n == updates@.len(),
            forall|q: int| 0 <= q < k ==> (#[trigger] updates@[q]).0 != id,
            forall|q: int, l: int|
                0 <= q < l < updates@.len() ==> (#[trigger] updates@[q]).0 != (
                #[trigger] updates@[l]).0,
        decreases n - k,
    {
        if updates[k].0 == id {
            proof {
                lemma_update_for_found(updates@, id, k as int);
            }
            return Some(updates[k].1.clone());
        }
        k += 1;
    }
    proof {
        lemma_update_for_none(updates@, id);
    }
    None
}

/// Maps `id` through the rewrite log.
pub fn map_commit_id(rewrites: &Vec<(u64, u64)>, id: u64) -> (r: u64)
    requires
        forall|k: int, l: int|
            0 <= k < l < rewrites@.len() ==> (#[trigger] rewrites@[k]).0 != (
            #[trigger] rewrites@[l]).0,
    ensures
        r == apply_rewrite(rewrites@, id),
{
    let n = rewrites.len();
    let mut k: usize = 0;
    while k < n
        invariant
            0 <= k <= n,
            n == rewrites@.len(),
            forall|q: int| 0 <= q < k ==> (#[trigger] rewrites@[q]).0 != id,
            forall|q: int, l: int|
                0 <= q < l < rewrites@.len() ==> (#[trigger] rewrites@[q]).0 != (
                #[trigger] rewrites@[l]).0,
        decreases n - k,
    {
        if rewrites[k].0 == id {
            proof {
                lemma_rewrite_of_found(rewrites@, id, k as int);
            }
            return rewrites[k].1;
        }
        k += 1;
    }
    proof {
        lemma_rewrite_of_absent(rewrites@, id);
    }
    id
}

fn clone_tree(t: &Tree) -> (r: Tree)
    ensures
        r.files@ =~= t.files@,
{
    let n = t.files.len();
    let mut files: Vec<FileEntry> = Vec::new();
    let mut k: usize = 0;
    while k < n
        invariant
            0 <= k <= n,
            n == t.files@.len(),
            files@.len() == k,
            forall|q: int| 0 <= q < k ==> files@[q] == t.files@[q],
        decreases n - k,
    {
        let e = FileEntry { path: t.files[k].path.clone(), content: t.files[k].content.clone() };
        proof {
            assert(e == t.files@[k as int]);
        }
        files.push(e);
        k += 1;
    }
    Tree { files }
}

proof fn lemma_rebuilt_wf(old_repo: &RepoModel, fr: &RepoModel, rewrites: Seq<(u64, u64)>)
    requires
        old_repo.wf(),
        fr.commits@.len() == old_repo.commits@.len(),
        forall|i: int|
            0 <= i < fr.commits@.len() ==> (#[trigger] fr.commits@[i]).parents@.len()
                == old_repo.commits@[i].parents@.len(),
        forall|i: int, p: int|
            0 <= i < fr.commits@.len() && 0 <= p < old_repo.commits@[i].parents@.len() ==> (
            #[trigger] fr.commits@[i].parents@[p]) == apply_rewrite(
                rewrites,
                old_repo.commits@[i].parents@[p],
            ),
        forall|i: int|
            0 <= i < fr.commits@.len() ==> apply_rewrite(
                rewrites,
                (#[trigger] old_repo.commits@[i]).id,
            ) == fr.commits@[i].id,
        forall|i: int, j: int|
            0 <= i < j < fr.commits@.len() ==> (#[trigger] fr.commits@[i]).id != (
            #[trigger] fr.commits@[j]).id,
        forall|i: int|
            0 <= i < fr.commits@.len() ==> (#[trigger] fr.commits@[i]).change_id
                == old_repo.commits@[i].change_id,
        forall|i: int| 0 <= i < fr.commits@.len() ==> (#[trigger] fr.commits@[i]).id < fr.next_id,
        forall|i: int| 0 <= i < fr.commits@.len() ==> (#[trigger] fr.commits@[i]).tree.wf(),
        fr.working_copy == apply_rewrite(rewrites, old_repo.working_copy),
    ensures
        fr.wf(),
{
    assert forall|i2: int, k2: int|
        0 <= i2 < fr.commits@.len() && 0 <= k2 < fr.commits@[i2].parents@.len() implies #[trigger] crate::model::parent_stored_before(
        fr.commits@,
        i2,
        k2,
    ) by {
        assert(crate::model::parent_stored_before(old_repo.commits@, i2, k2));
        let pj = choose|j: int|
            0 <= j < i2 && (#[trigger] old_repo.commits@[j]).id
                == old_repo.commits@[i2].parents@[k2];
        assert(fr.commits@[i2].parents@[k2] == apply_rewrite(
            rewrites,
            old_repo.commits@[i2].parents@[k2],
        ));
        assert(apply_rewrite(rewrites, old_repo.commits@[pj].id) == fr.commits@[pj].id);
        assert(fr.commits@[pj].id == fr.commits@[i2].parents@[k2]);
        assert(crate::model::parent_stored_before(fr.commits@, i2, k2));
    }
    let w = choose|w: int|
        0 <= w < old_repo.commits@.len() && (#[trigger] old_repo.commits@[w]).id
            == old_repo.working_copy;
    assert(apply_rewrite(rewrites, old_repo.commits@[w].id) == fr.commits@[w].id);
    assert(fr.has_commit(fr.working_copy));
    assert forall|i2: int, j2: int|
        0 <= i2 < j2 < fr.commits@.len() implies (#[trigger] fr.commits@[i2]).change_id != (
    #[trigger] fr.commits@[j2]).change_id by {
        assert(old_repo.commits@[i2].change_id != old_repo.commits@[j2].change_id);
    }
}

/// Stages the given new descriptions, then re-parents every descendant of a
/// rewritten commit in one pass over the graph. Exactly the targets and the
/// commits downstream of them receive fresh identifiers; change identities,
/// trees, and the descriptions of non-targets are untouched. Returns the
/// old-to-new identifier map of the whole pass.
#[verifier::rlimit(100)]
pub fn apply_descriptions(repo: &mut RepoModel, updates: &Vec<(u64, String)>) -> (rewrites: Vec<
    (u64, u64),
>)
    requires
        old(repo).wf(),
        forall|k: int, l: int|
            0 <= k < l < updates@.len() ==> (#[trigger] updates@[k]).0 != (
            #[trigger] updates@[l]).0,
        old(repo).next_id + old(repo).commits@.len() <= u64::MAX,
    ensures
        final (repo).wf(),
        final (repo).commits@.len() == old(repo).commits@.len(),
        forall|i: int|
            0 <= i < old(repo).commits@.len() ==> {
                let oc = old(repo).commits@[i];
                let fc = (#[trigger] final (repo).commits@[i]);
                &&& fc.change_id == oc.change_id
                &&& fc.tree.files@ == oc.tree.files@
                &&& fc.parents@.len() == oc.parents@.len()
                &&& fc.description == (match update_for(updates@, oc.id) {
                    Some(d) => d,
                    None => oc.description,
                })
                &&& (forall|p: int|
                    0 <= p < oc.parents@.len() ==> (#[trigger] fc.parents@[p]) == apply_rewrite(
                        rewrites@,
                        oc.parents@[p],
                    ))
                &&& rewrite_of(rewrites@, oc.id) == (if fc.id != oc.id {
                    Some(fc.id)
                } else {
                    None::<u64>
                })
                &&& ((fc.id != oc.id) <==> (update_for(updates@, oc.id) is Some || exists|p: int|
                    0 <= p < oc.parents@.len() && apply_rewrite(
                        rewrites@,
                        #[trigger] oc.parents@[p],
                    ) != oc.parents@[p]))
                &&& (fc.id == oc.id || fc.id >= old(repo).next_id)
            },
        final (repo).working_copy == apply_rewrite(rewrites@, old(repo).working_copy),
        forall|k: int|
            0 <= k < rewrites@.len() ==> (#[trigger] rewrites@[k]).1 >= old(repo).next_id,
        forall|k: int, l: int|
            0 <= k < l < rewrites@.len() ==> (#[trigger] rewrites@[k]).0 != (
            #[trigger] rewrites@[l]).0,
        final (repo).next_id >= old(repo).next_id,
        final (repo).next_id <= old(repo).next_id + old(repo).commits@.len(),
{
    let ghost oldc = old(repo).commits@;
    let ghost old_next = old(repo).next_id;
    let n = repo.commits.len();
    let mut nc: Vec<CommitRecord> = Vec::new();
    let mut rewrites: Vec<(u64, u64)> = Vec::new();
    let mut next: u64 = repo.next_id;
    let mut i: usize = 0;
    while i < n
        invariant
            0 <= i <= n,
            *repo == *old(repo),
            old(repo).wf(),
            n == oldc.len(),
            oldc == old(repo).commits@,
            old_next == old(repo).next_id,
            old_next + n <= u64::MAX,
            forall|k: int, l: int|
                0 <= k < l < updates@.len() ==> (#[trigger] updates@[k]).0 != (
                #[trigger] updates@[l]).0,
            nc@.len() == i,
            old_next <= next,
            next <= old_next + i,
            forall|k: int, l: int|
                0 <= k < rewrites@.len() && i <= l < n ==> (#[trigger] rewrites@[k]).0 != (
                #[trigger] oldc[l]).id,
            forall|k: int, l: int|
                0 <= k < l < rewrites@.len() ==> (#[trigger] rewrites@[k]).0 != (
                #[trigger] rewrites@[l]).0,
            forall|k: int|
                0 <= k < rewrites@.len() ==> old_next <= (#[trigger] rewrites@[k]).1 < next,
            forall|a: int, b: int| 0 <= a < b < i ==> (#[trigger] nc@[a]).id != (#[trigger] nc@[b]).id,
            forall|a: int|
                0 <= a < i ==> {
                    let oc = oldc[a];
                    let fc = (#[trigger] nc@[a]);
                    &&& fc.change_id == oc.change_id
                    &&& fc.tree.files@ == oc.tree.files@
                    &&& fc.parents@.len() == oc.parents@.len()
                    &&& fc.description == (match update_for(updates@, oc.id) {
                        Some(d) => d,
                        None => oc.description,
                    })
                    &&& (forall|p: int|
                        0 <= p < oc.parents@.len() ==> (#[trigger] fc.parents@[p])
                            == apply_rewrite(rewrites@, oc.parents@[p]))
                    &&& rewrite_of(rewrites@, oc.id) == (if fc.id != oc.id {
                        Some(fc.id)
                    } else {
                        None::<u64>
                    })
                    &&& ((fc.id != oc.id) <==> (update_for(updates@, oc.id) is Some || exists|p: int|
                        0 <= p < oc.parents@.len() && apply_rewrite(
                            rewrites@,
                            #[trigger] oc.parents@[p],
                        ) != oc.parents@[p]))
                    &&& fc.id < next
                    &&& (fc.id == oc.id || fc.id >= old_next)
                },
        decreases n - i,
    {
        let ghost rw0 = rewrites@;
        let c = &repo.commits[i];
        let old_id = c.id;
        let np = c.parents.len();
        let mut new_parents: Vec<u64> = Vec::new();
        let mut parents_changed = false;
        let mut p: usize = 0;
        while p < np
            invariant
                0 <= p <= np,
                np == oldc[i as int].parents@.len(),
                c == oldc[i as int],
                rewrites@ == rw0,
                forall|k: int, l: int|
                    0 <= k < l < rewrites@.len() ==> (#[trigger] rewrites@[k]).0 != (
                    #[trigger] rewrites@[l]).0,
                new_parents@.len() == p,
                forall|q: int|
                    0 <= q < p ==> (#[trigger] new_parents@[q]) == apply_rewrite(
                        rewrites@,
                        oldc[i as int].parents@[q],
                    ),
                parents_changed == (exists|q: int|
                    0 <= q < p && apply_rewrite(rewrites@, #[trigger] oldc[i as int].parents@[q])
                        != oldc[i as int].parents@[q]),
            decreases np - p,
        {
            let orig = c.parents[p];
            let mapped = map_commit_id(&rewrites, orig);
            if mapped != orig {
                parents_changed = true;
            }
            new_parents.push(mapped);
            p += 1;
        }
        let staged = find_update(updates, old_id);
        let is_target = staged.is_some();
        let changed = is_target || parents_changed;
        let new_id: u64 = if changed {
            let fresh = next;
            next = next + 1;
            rewrites.push((old_id, fresh));
            fresh
        } else {
            old_id
        };
        let description: String = match staged {
            Some(d) => d,
            None => c.description.clone(),
        };
        let record = CommitRecord {
            id: new_id,
            change_id: c.change_id,
            parents: new_parents,
            tree: clone_tree(&c.tree),
            description,
        };
        proof {
            if changed {
                assert(rewrites@ == rw0.push((old_id, new_id)));
                assert(rewrites@.drop_last() =~= rw0);
                assert(rewrite_of(rewrites@, old_id) == Some(new_id));
                assert forall|k: int, l: int|
                    0 <= k < rewrites@.len() && i + 1 <= l < n implies (
                #[trigger] rewrites@[k]).0 != (#[trigger] oldc[l]).id by {
                    if k < rw0.len() {
                        assert(rewrites@[k] == rw0[k]);
                    } else {
                        assert(rewrites@[k] == (old_id, new_id));
                        assert(oldc[i as int].id != oldc[l].id);
                    }
                }
                assert forall|a: int| 0 <= a < i implies apply_rewrite(
                    rewrites@,
                    (#[trigger] oldc[a]).id,
                ) == apply_rewrite(rw0, oldc[a].id) && rewrite_of(rewrites@, oldc[a].id)
                    == rewrite_of(rw0, oldc[a].id) by {
                    assert(oldc[a].id != old_id);
                    lemma_rewrite_of_push_other(rw0, (old_id, new_id), oldc[a].id);
                }
                assert forall|a: int, q: int|
                    0 <= a <= i && 0 <= q < oldc[a].parents@.len() implies apply_rewrite(
                    rewrites@,
                    #[trigger] oldc[a].parents@[q],
                ) == apply_rewrite(rw0, oldc[a].parents@[q]) by {
                    assert(crate::model::parent_stored_before(oldc, a, q));
                    let pj = choose|j: int|
                        0 <= j < a && (#[trigger] oldc[j]).id == oldc[a].parents@[q];
                    assert(oldc[pj].id != oldc[i as int].id);
                    lemma_rewrite_of_push_other(rw0, (old_id, new_id), oldc[a].parents@[q]);
                }
            } else {
                lemma_rewrite_of_absent(rewrites@, old_id);
            }
            assert(record.id == new_id);
        }
        nc.push(record);
        i += 1;
    }
    proof {
        assert(oldc.len() == n);
    }
    let new_wc = map_commit_id(&rewrites, repo.working_copy);
    repo.commits = nc;
    repo.next_id = next;
    repo.working_copy = new_wc;
    proof {
        let fr = *repo;
        assert forall|i2: int|
            0 <= i2 < fr.commits@.len() implies apply_rewrite(
            rewrites@,
            (#[trigger] old(repo).commits@[i2]).id,
        ) == fr.commits@[i2].id by {
            assert(nc@[i2].id == fr.commits@[i2].id);
        }
        assert forall|i2: int|
            0 <= i2 < fr.commits@.len() implies (#[trigger] fr.commits@[i2]).tree.wf() by {
            assert(oldc[i2].tree.wf());
            assert(fr.commits@[i2].tree.files@ == oldc[i2].tree.files@);
        }
        lemma_rebuilt_wf(old(repo), &fr, rewrites@);
        assert(fr.wf());
    }
    rewrites
}

} // verus!
