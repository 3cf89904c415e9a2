//! Detecting which commits a foreign operation rewrote: pair up the sole
//! head of each change identity before and after the operation, and report
//! the pairs whose content identifiers differ.
use vstd::prelude::*;

use crate::model::RepoModel;

verus! {

/// Some commit lists `id` among its parents.
pub open spec fn id_is_parent(repo: &RepoModel, id: u64) -> bool {
    exists|j: int, k: int|
        0 <= j < repo.commits@.len() && 0 <= k < repo.commits@[j].parents@.len()
            && #[trigger] repo.commits@[j].parents@[k] == id
}

/// The commit at position `i` is a head: nothing builds on it.
pub open spec fn is_head(repo: &RepoModel, i: int) -> bool {
    !id_is_parent(repo, repo.commits@[i].id)
}

/// The commit at position `i` is a head carrying change identity `c`.
pub open spec fn head_with_change(repo: &RepoModel, c: u64, i: int) -> bool {
    0 <= i < repo.commits@.len() && is_head(repo, i) && repo.commits@[i].change_id == c
}

/// How many of the first `upto` commits are heads carrying `c`.
pub open spec fn count_heads(repo: &RepoModel, c: u64, upto: int) -> int
    decreases upto,
{
    if upto <= 0 {
        0
    } else {
        count_heads(repo, c, upto - 1) + (if head_with_change(repo, c, upto - 1) {
            1int
        } else {
            0int
        })
    }
}

/// The identifier of the head carrying `c`, meaningful when such a head is
/// unique.
pub open spec fn head_id_for(repo: &RepoModel, c: u64) -> u64 {
    repo.commits@[choose|i: int| head_with_change(repo, c, i)].id
}

/// A reported pair: the change identity it stands for has a sole head on
/// each side, and those heads' identifiers differ.
pub open spec fn pair_ok(before: &RepoModel, after: &RepoModel, p: (u64, u64)) -> bool {
    exists|c: u64|
        {
            &&& #[trigger] count_heads(before, c, before.commits@.len() as int) == 1
            &&& count_heads(after, c, after.commits@.len() as int) == 1
            &&& head_id_for(before, c) == p.0
            &&& head_id_for(after, c) == p.1
            &&& p.0 != p.1
        }
}

/// Whether the pair list reports this pair.
pub open spec fn has_pair(pairs: Seq<(u64, u64)>, p: (u64, u64)) -> bool
    decreases pairs.len(),
{
    pairs.len() > 0 && (pairs.last() == p || has_pair(pairs.drop_last(), p))
}

proof fn lemma_count_heads_mono(repo: &RepoModel, c: u64, a: int, b: int)
    requires
        a <= b,
    ensures
        count_heads(repo, c, a) <= count_heads(repo, c, b),
    decreases b - a,
{
    if a < b {
        lemma_count_heads_mono(repo, c, a, b - 1);
    }
}

proof fn lemma_count_heads_from(repo: &RepoModel, c: u64, x: int, upto: int)
    requires
        head_with_change(repo, c, x),
        x < upto,
    ensures
        count_heads(repo, c, upto) >= 1,
    decreases upto,
{
    if x < upto - 1 {
        lemma_count_heads_from(repo, c, x, upto - 1);
        assert(count_heads(repo, c, upto) >= count_heads(repo, c, upto - 1));
    } else {
        assert(count_heads(repo, c, upto) == count_heads(repo, c, upto - 1) + 1);
        assert(count_heads(repo, c, upto - 1) >= 0) by {
            lemma_count_heads_nonneg(repo, c, upto - 1);
        }
    }
}

proof fn lemma_count_heads_nonneg(repo: &RepoModel, c: u64, upto: int)
    ensures
        count_heads(repo, c, upto) >= 0,
    decreases upto,
{
    if upto > 0 {
        lemma_count_heads_nonneg(repo, c, upto - 1);
    }
}

proof fn lemma_count_heads_two(repo: &RepoModel, c: u64, x: int, y: int)
    requires
        head_with_change(repo, c, x),
        head_with_change(repo, c, y),
        x < y,
    ensures
        count_heads(repo, c, repo.commits@.len() as int) >= 2,
{
    lemma_count_heads_from(repo, c, x, y);
    lemma_count_heads_mono(repo, c, y + 1, repo.commits@.len() as int);
}

/// With a sole head for `c`, any head carrying `c` is that head.
proof fn lemma_sole_head(repo: &RepoModel, c: u64, i: int)
    requires
        head_with_change(repo, c, i),
        count_heads(repo, c, repo.commits@.len() as int) == 1,
    ensures
        head_id_for(repo, c) == repo.commits@[i].id,
        forall|j: int| head_with_change(repo, c, j) ==> j == i,
{
    assert forall|j: int| head_with_change(repo, c, j) implies j == i by {
        if j < i {
            lemma_count_heads_two(repo, c, j, i);
        } else if j > i {
            lemma_count_heads_two(repo, c, i, j);
        }
    }
    let w = choose|w: int| head_with_change(repo, c, w);
    assert(head_with_change(repo, c, i));
    assert(head_with_change(repo, c, w));
}

/// Whether nothing builds on the commit at position `i`.
fn commit_is_head(repo: &RepoModel, i: usize) -> (r: bool)
    requires
        i < repo.commits@.len(),
    ensures
        r == is_head(repo, i as int),
{
    let id = repo.commits[i].id;
    let n = repo.commits.len();
    let mut j: usize = 0;
    while j < n
        invariant
            0 <= j <= n,
            n == repo.commits@.len(),
            i < n,
            id == repo.commits@[i as int].id,
            forall|a: int, k: int|
                0 <= a < j && 0 <= k < repo.commits@[a].parents@.len()
                    ==> #[trigger] repo.commits@[a].parents@[k] != id,
        decreases n - j,
    {
        let np = repo.commits[j].parents.len();
        let mut k: usize = 0;
        while k < np
            invariant
                0 <= k <= np,
                j < n,
                n == repo.commits@.len(),
                np == repo.commits@[j as int].parents@.len(),
                id == repo.commits@[i as int].id,
                forall|m: int|
                    0 <= m < k ==> #[trigger] repo.commits@[j as int].parents@[m] != id,
            decreases np - k,
        {
            if repo.commits[j].parents[k] == id {
                return false;
            }
            k += 1;
        }
        j += 1;
    }
    true
}

/// Counts the heads carrying change identity `c`.
fn count_heads_exec(repo: &RepoModel, c: u64) -> (r: usize)
    ensures
        r == count_heads(repo, c, repo.commits@.len() as int),
        r <= repo.commits@.len(),
{
    let n = repo.commits.len();
    let mut count: usize = 0;
    let mut j: usize = 0;
    while j < n
        invariant
            0 <= j <= n,
            n == repo.commits@.len(),
            count == count_heads(repo, c, j as int),
            count <= j,
        decreases n - j,
    {
        if repo.commits[j].change_id == c {
            if commit_is_head(repo, j) {
                count = count + 1;
            }
        }
        j += 1;
    }
    count
}

/// The position of the sole head carrying `c`; meaningful when the count
/// is one.
fn find_head(repo: &RepoModel, c: u64) -> (r: Option<usize>)
    ensures
        r is Some ==> head_with_change(repo, c, r->0 as int),
        r is None ==> count_heads(repo, c, repo.commits@.len() as int) == 0,
{
    let n = repo.commits.len();
    let mut j: usize = 0;
    while j < n
        invariant
            0 <= j <= n,
            n == repo.commits@.len(),
            count_heads(repo, c, j as int) == 0,
        decreases n - j,
    {
        if repo.commits[j].change_id == c {
            if commit_is_head(repo, j) {
                return Some(j);
            }
        }
        j += 1;
    }
    None
}

/// Pairs the sole head of each change identity in `before` with its sole
/// head in `after`, reporting the pairs whose identifiers differ — the
/// commits some foreign operation rewrote. Every reported pair is such a
/// rewrite, and every such rewrite is reported.
#[verifier::rlimit(60)]
pub fn find_rewritten_commits(before: &RepoModel, after: &RepoModel) -> (r: Vec<(u64, u64)>)
    requires
        before.wf(),
        after.wf(),
    ensures
        forall|x: int| 0 <= x < r@.len() ==> pair_ok(before, after, #[trigger] r@[x]),
        forall|x: int, y: int|
            0 <= x < y < r@.len() ==> (#[trigger] r@[x]).0 != (#[trigger] r@[y]).0 && r@[x].1
                != r@[y].1,
        forall|c: u64|
            (#[trigger] count_heads(after, c, after.commits@.len() as int)) == 1 && count_heads(
                before,
                c,
                before.commits@.len() as int,
            ) == 1 && head_id_for(before, c) != head_id_for(after, c) ==> has_pair(
                r@,
                (head_id_for(before, c), head_id_for(after, c)),
            ),
{
    let n = after.commits.len();
    let mut pairs: Vec<(u64, u64)> = Vec::new();
    let ghost mut asrcs: Seq<int> = Seq::empty();
    let ghost mut bsrcs: Seq<int> = Seq::empty();
    let ghost mut csrcs: Seq<u64> = Seq::empty();
    let mut ai: usize = 0;
    while ai < n
        invariant
            0 <= ai <= n,
            n == after.commits@.len(),
            before.wf(),
            after.wf(),
            asrcs.len() == pairs@.len(),
            bsrcs.len() == pairs@.len(),
            csrcs.len() == pairs@.len(),
            forall|x: int|
                0 <= x < pairs@.len() ==> {
                    &&& 0 <= #[trigger] asrcs[x] < ai
                    &&& 0 <= bsrcs[x] < before.commits@.len()
                    &&& head_with_change(after, csrcs[x], asrcs[x])
                    &&& head_with_change(before, csrcs[x], bsrcs[x])
                    &&& count_heads(after, csrcs[x], after.commits@.len() as int) == 1
                    &&& pairs@[x].1 == after.commits@[asrcs[x]].id
                    &&& pairs@[x].0 == before.commits@[bsrcs[x]].id
                },
            forall|x: int, y: int|
                0 <= x < y < pairs@.len() ==> (#[trigger] pairs@[x]).0 != (
                #[trigger] pairs@[y]).0 && pairs@[x].1 != pairs@[y].1,
            forall|x: int| 0 <= x < pairs@.len() ==> pair_ok(before, after, #[trigger] pairs@[x]),
            forall|c: u64|
                (#[trigger] count_heads(after, c, after.commits@.len() as int)) == 1 && count_heads(
                    before,
                    c,
                    before.commits@.len() as int,
                ) == 1 && head_id_for(before, c) != head_id_for(after, c) && (exists|i: int|
                    0 <= i < ai && #[trigger] head_with_change(after, c, i)) ==> has_pair(
                    pairs@,
                    (head_id_for(before, c), head_id_for(after, c)),
                ),
        decreases n - ai,
    {
        let c = after.commits[ai].change_id;
        if commit_is_head(after, ai) {
            let after_count = count_heads_exec(after, c);
            if after_count == 1 {
                proof {
                    lemma_sole_head(after, c, ai as int);
                }
                let before_count = count_heads_exec(before, c);
                if before_count == 1 {
                    let bi = find_head(before, c).unwrap();
                    proof {
                        lemma_sole_head(before, c, bi as int);
                    }
                    let o = before.commits[bi].id;
                    let nw = after.commits[ai].id;
                    if o != nw {
                        let ghost pairs0 = pairs@;
                        pairs.push((o, nw));
                        proof {
                            assert(pairs@.drop_last() =~= pairs0);
                            assert(pairs@.last() == (o, nw));
                            assert(pair_ok(before, after, (o, nw)));
                            assert forall|x: int| 0 <= x < pairs0.len() implies #[trigger] pairs@[x]
                                == pairs0[x] by {}
                            assert forall|x: int| 0 <= x < pairs0.len() implies pairs0[x].1 != nw
                                && pairs0[x].0 != o by {
                                assert(after.commits@[asrcs[x]].id != after.commits@[ai as int].id);
                                if bsrcs[x] == bi as int {
                                    assert(before.commits@[bi as int].change_id == csrcs[x]);
                                    assert(before.commits@[bi as int].change_id == c);
                                    lemma_count_heads_two(after, c, asrcs[x], ai as int);
                                } else {
                                    assert(before.commits@[bsrcs[x]].id != before.commits@[bi as int].id);
                                }
                            }
                            let ghost asrcs0 = asrcs;
                            let ghost bsrcs0 = bsrcs;
                            let ghost csrcs0 = csrcs;
                            asrcs = asrcs.push(ai as int);
                            bsrcs = bsrcs.push(bi as int);
                            csrcs = csrcs.push(c);
                            assert(asrcs.drop_last() =~= asrcs0);
                            assert(bsrcs.drop_last() =~= bsrcs0);
                            assert(csrcs.drop_last() =~= csrcs0);
                            assert forall|x: int| 0 <= x < pairs0.len() implies #[trigger] asrcs[x]
                                == asrcs0[x] && bsrcs[x] == bsrcs0[x] && csrcs[x] == csrcs0[x]
                                by {}
                            assert(asrcs[pairs0.len() as int] == ai as int);
                            assert(bsrcs[pairs0.len() as int] == bi as int);
                            assert(csrcs[pairs0.len() as int] == c);
                            assert forall|x: int| 0 <= x < pairs@.len() implies {
                                &&& 0 <= #[trigger] asrcs[x] < ai + 1
                                &&& 0 <= bsrcs[x] < before.commits@.len()
                                &&& head_with_change(after, csrcs[x], asrcs[x])
                                &&& head_with_change(before, csrcs[x], bsrcs[x])
                                &&& count_heads(after, csrcs[x], after.commits@.len() as int)
                                    == 1
                                &&& pairs@[x].1 == after.commits@[asrcs[x]].id
                                &&& pairs@[x].0 == before.commits@[bsrcs[x]].id
                            } by {
                                if x < pairs0.len() {
                                    assert(0 <= asrcs0[x] < ai);
                                    assert(head_with_change(after, csrcs0[x], asrcs0[x]));
                                    assert(head_with_change(before, csrcs0[x], bsrcs0[x]));
                                    assert(count_heads(
                                        after,
                                        csrcs0[x],
                                        after.commits@.len() as int,
                                    ) == 1);
                                    assert(pairs0[x].1 == after.commits@[asrcs0[x]].id);
                                    assert(pairs0[x].0 == before.commits@[bsrcs0[x]].id);
                                } else {
                                    assert(x == pairs0.len());
                                    assert(head_with_change(after, c, ai as int));
                                    assert(head_with_change(before, c, bi as int));
                                }
                            }
                        }
                    }
                }
            }
        }
        proof {
            assert forall|c2: u64|
                (#[trigger] count_heads(after, c2, after.commits@.len() as int)) == 1
                    && count_heads(before, c2, before.commits@.len() as int) == 1 && head_id_for(
                    before,
                    c2,
                ) != head_id_for(after, c2) && (exists|i: int|
                    0 <= i < ai + 1 && #[trigger] head_with_change(after, c2, i)) implies has_pair(
                pairs@,
                (head_id_for(before, c2), head_id_for(after, c2)),
            ) by {
                let i = choose|i: int| 0 <= i < ai + 1 && #[trigger] head_with_change(after, c2, i);
                if i == ai {
                    assert(c2 == after.commits@[ai as int].change_id);
                    lemma_sole_head(after, c2, ai as int);
                }
            }
        }
        ai += 1;
    }
    proof {
        assert forall|c: u64|
            (#[trigger] count_heads(after, c, after.commits@.len() as int)) == 1 && count_heads(
                before,
                c,
                before.commits@.len() as int,
            ) == 1 && head_id_for(before, c) != head_id_for(after, c) implies has_pair(
            pairs@,
            (head_id_for(before, c), head_id_for(after, c)),
        ) by {
            lemma_count_positive_witness(after, c, after.commits@.len() as int);
        }
    }
    pairs
}

proof fn lemma_count_positive_witness(repo: &RepoModel, c: u64, upto: int)
    requires
        count_heads(repo, c, upto) >= 1,
    ensures
        exists|i: int| 0 <= i < upto && #[trigger] head_with_change(repo, c, i),
    decreases upto,
{
    if upto > 0 {
        if head_with_change(repo, c, upto - 1) {
        } else {
            lemma_count_positive_witness(repo, c, upto - 1);
            let i = choose|i: int| 0 <= i < upto - 1 && #[trigger] head_with_change(repo, c, i);
            assert(head_with_change(repo, c, i));
        }
    }
}

} // verus!
