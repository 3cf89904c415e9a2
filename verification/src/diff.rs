//! Rendering the structural delta between a commit and its primary parent as
//! a unified patch: tree-level diffing by path, ignore-glob filtering,
//! line-level diffing with a fixed context window, and the textual format.
use vstd::prelude::*;
use vstd::string::StrSliceExecFns;
use vstd::string::StringExecFns;

use crate::model::lemma_lookup_absent;
use crate::model::lemma_lookup_found;
use crate::model::lookup_in;
use crate::model::FileEntry;
use crate::model::RepoModel;
use crate::model::Tree;
use crate::text::compare_str;
use crate::text::dec_str;
use crate::text::usize_dec_str;
use crate::text::lemma_seq_char_lt_irrefl;
use crate::text::lemma_seq_char_lt_trans;
use crate::text::lemma_seq_char_lt_trichotomy;
use crate::text::seq_char_lt;
use crate::text::PathOrder;

verus! {

/// Whether the glob `pattern` matches `path`: what the glob engine decides,
/// as a function of the two strings alone. A pattern that does not compile
/// matches nothing.
pub uninterp spec fn glob_matches(pattern: Seq<char>, path: Seq<char>) -> bool;

/// Relies on glob::Pattern::new and glob::Pattern::matches: both are
/// functions of the pattern and path strings alone. A pattern that fails to
/// compile is dropped, so it matches nothing.
#[verifier::external_body]
fn glob_match(pattern: &str, path: &str) -> (r: bool)
    ensures
        r == glob_matches(pattern@, path@),
{
    match glob::Pattern::new(pattern) {
        Ok(p) => p.matches(path),
        Err(_) => false,
    }
}

/// Whether any pattern of `patterns` matches `path`.
pub open spec fn ignored_path(patterns: Seq<String>, path: Seq<char>) -> bool {
    exists|k: int| 0 <= k < patterns.len() && glob_matches((#[trigger] patterns[k])@, path)
}

/// Whether any ignore pattern matches `path`.
pub fn path_is_ignored(patterns: &Vec<String>, path: &str) -> (r: bool)
    ensures
        r == ignored_path(patterns@, path@),
{
    let n = patterns.len();
    let mut k: usize = 0;
    while k < n
        invariant
            0 <= k <= n,
            n == patterns@.len(),
            forall|m: int| 0 <= m < k ==> !glob_matches((#[trigger] patterns@[m])@, path@),
        decreases n - k,
    {
        if glob_match(patterns[k].as_str(), path) {
            return true;
        }
        k += 1;
    }
    false
}

/// A changed path with its before/after contents; one side is absent at a
/// creation or deletion boundary.
pub struct DiffEntry {
    pub path: String,
    pub before: Option<String>,
    pub after: Option<String>,
}

/// The view of an optional file content.
pub open spec fn opt_view(o: Option<String>) -> Option<Seq<char>> {
    match o {
        Some(s) => Some(s@),
        None => None,
    }
}

/// An entry correctly records what `base` and `target` store at its path,
/// and those two differ.
pub open spec fn entry_matches(e: DiffEntry, base: Seq<FileEntry>, target: Seq<FileEntry>) -> bool {
    &&& opt_view(e.before) == lookup_in(base, e.path@)
    &&& opt_view(e.after) == lookup_in(target, e.path@)
    &&& lookup_in(base, e.path@) != lookup_in(target, e.path@)
}

/// Whether one of the first `n` files carries `path`.
pub open spec fn path_in_prefix(files: Seq<FileEntry>, n: int, path: Seq<char>) -> bool
    decreases n,
{
    0 < n <= files.len() && (files[n - 1].path@ == path || path_in_prefix(files, n - 1, path))
}

/// Whether some entry carries `path`.
pub open spec fn has_entry_for(entries: Seq<DiffEntry>, path: Seq<char>) -> bool
    decreases entries.len(),
{
    entries.len() > 0 && (entries.last().path@ == path || has_entry_for(
        entries.drop_last(),
        path,
    ))
}

pub proof fn lemma_has_entry_for_index(entries: Seq<DiffEntry>, path: Seq<char>)
    requires
        has_entry_for(entries, path),
    ensures
        exists|x: int| 0 <= x < entries.len() && (#[trigger] entries[x]).path@ == path,
    decreases entries.len(),
{
    if entries.last().path@ == path {
        assert(entries[entries.len() - 1].path@ == path);
    } else {
        lemma_has_entry_for_index(entries.drop_last(), path);
        let x = choose|x: int|
            0 <= x < entries.drop_last().len() && (#[trigger] entries.drop_last()[x]).path@
                == path;
        assert(entries[x].path@ == path);
    }
}

proof fn lemma_path_in_prefix_from_index(files: Seq<FileEntry>, n: int, k: int)
    requires
        0 <= k < n <= files.len(),
    ensures
        path_in_prefix(files, n, files[k].path@),
    decreases n,
{
    if k < n - 1 {
        lemma_path_in_prefix_from_index(files, n - 1, k);
    }
}

proof fn lemma_lookup_present_index(files: Seq<FileEntry>, path: Seq<char>) -> (k: int)
    requires
        lookup_in(files, path) is Some,
    ensures
        0 <= k < files.len(),
        files[k].path@ == path,
    decreases files.len(),
{
    if files[0].path@ == path {
        0
    } else {
        let k = lemma_lookup_present_index(files.drop_first(), path);
        assert(files[k + 1] == files.drop_first()[k]);
        k + 1
    }
}

/// Structurally diffs two well-formed trees by path. Every returned entry
/// records a real difference, every differing path is returned, and the
/// entries come in ascending path order.
#[verifier::rlimit(60)]
pub fn tree_diff(base: &Tree, target: &Tree) -> (entries: Vec<DiffEntry>)
    requires
        base.wf(),
        target.wf(),
    ensures
        forall|x: int|
            0 <= x < entries@.len() ==> entry_matches(
                #[trigger] entries@[x],
                base.files@,
                target.files@,
            ),
        forall|p: Seq<char>|
            #[trigger] lookup_in(base.files@, p) != lookup_in(target.files@, p)
                ==> has_entry_for(entries@, p),
        forall|x: int, y: int|
            0 <= x < y < entries@.len() ==> seq_char_lt(
                (#[trigger] entries@[x]).path@,
                (#[trigger] entries@[y]).path@,
            ),
{
    let b = &base.files;
    let t = &target.files;
    let n1 = b.len();
    let n2 = t.len();
    let mut i: usize = 0;
    let mut j: usize = 0;
    let mut entries: Vec<DiffEntry> = Vec::new();
    while i < n1 || j < n2
        invariant
            0 <= i <= n1,
            0 <= j <= n2,
            n1 == b@.len(),
            n2 == t@.len(),
            b@ == base.files@,
            t@ == target.files@,
            base.wf(),
            target.wf(),
            forall|k: int, l: int|
                0 <= k < i && j <= l < n2 ==> seq_char_lt(
                    (#[trigger] b@[k]).path@,
                    (#[trigger] t@[l]).path@,
                ),
            forall|k: int, l: int|
                0 <= k < j && i <= l < n1 ==> seq_char_lt(
                    (#[trigger] t@[k]).path@,
                    (#[trigger] b@[l]).path@,
                ),
            forall|x: int|
                0 <= x < entries@.len() ==> entry_matches(
                    #[trigger] entries@[x],
                    base.files@,
                    target.files@,
                ),
            forall|p: Seq<char>|
                #[trigger] lookup_in(base.files@, p) != lookup_in(target.files@, p) && (
                path_in_prefix(b@, i as int, p) || path_in_prefix(t@, j as int, p))
                    ==> has_entry_for(entries@, p),
            forall|x: int, l: int|
                0 <= x < entries@.len() && i <= l < n1 ==> seq_char_lt(
                    (#[trigger] entries@[x]).path@,
                    (#[trigger] b@[l]).path@,
                ),
            forall|x: int, l: int|
                0 <= x < entries@.len() && j <= l < n2 ==> seq_char_lt(
                    (#[trigger] entries@[x]).path@,
                    (#[trigger] t@[l]).path@,
                ),
            forall|x: int, y: int|
                0 <= x < y < entries@.len() ==> seq_char_lt(
                    (#[trigger] entries@[x]).path@,
                    (#[trigger] entries@[y]).path@,
                ),
        decreases n1 - i + n2 - j,
    {
        proof {
            if i < n1 && j < n2 {
                lemma_seq_char_lt_trichotomy(b@[i as int].path@, t@[j as int].path@);
            }
        }
        let take_base: bool = if i < n1 && j < n2 {
            matches!(compare_str(b[i].path.as_str(), t[j].path.as_str()), PathOrder::Less)
        } else {
            j >= n2
        };
        let take_both: bool = i < n1 && j < n2 && matches!(
            compare_str(b[i].path.as_str(), t[j].path.as_str()),
            PathOrder::Equal,
        );
        if take_both {
            let ghost p = b@[i as int].path@;
            proof {
                assert forall|k: int| 0 <= k < i implies (#[trigger] b@[k]).path@ != p by {
                    if b@[k].path@ == p {
                        lemma_seq_char_lt_irrefl(p);
                    }
                }
                assert forall|k: int| 0 <= k < j implies (#[trigger] t@[k]).path@ != p by {
                    if t@[k].path@ == p {
                        lemma_seq_char_lt_irrefl(p);
                    }
                }
                lemma_lookup_found(base.files@, p, i as int);
                lemma_lookup_found(target.files@, p, j as int);
            }
            if b[i].content == t[j].content {
                // identical content on both sides: no difference at this path
                proof {
                    assert(lookup_in(base.files@, p) == lookup_in(target.files@, p));
                }
                i += 1;
                j += 1;
            } else {
                let e = DiffEntry {
                    path: b[i].path.clone(),
                    before: Some(b[i].content.clone()),
                    after: Some(t[j].content.clone()),
                };
                let ghost entries0 = entries@;
                entries.push(e);
                proof {
                    assert(entries@.drop_last() =~= entries0);
                    assert(entries@.last().path@ == p);
                    assert forall|x: int| 0 <= x < entries0.len() implies #[trigger] entries@[x]
                        == entries0[x] by {}
                }
                i += 1;
                j += 1;
            }
        } else if take_base {
            let ghost p = b@[i as int].path@;
            proof {
                assert forall|k: int| 0 <= k < i implies (#[trigger] b@[k]).path@ != p by {
                    if b@[k].path@ == p {
                        lemma_seq_char_lt_irrefl(p);
                    }
                }
                assert forall|l: int| j <= l < n2 implies seq_char_lt(p, (#[trigger] t@[l]).path@)
                    by {
                    if l > j {
                        lemma_seq_char_lt_trans(p, t@[j as int].path@, t@[l].path@);
                    }
                }
                assert forall|k: int| 0 <= k < n2 implies (#[trigger] t@[k]).path@ != p by {
                    if t@[k].path@ == p {
                        lemma_seq_char_lt_irrefl(p);
                    }
                }
                lemma_lookup_found(base.files@, p, i as int);
                lemma_lookup_absent(target.files@, p);
            }
            let e = DiffEntry {
                path: b[i].path.clone(),
                before: Some(b[i].content.clone()),
                after: None,
            };
            let ghost entries0 = entries@;
            entries.push(e);
            proof {
                assert(entries@.drop_last() =~= entries0);
                assert(entries@.last().path@ == p);
                assert forall|x: int| 0 <= x < entries0.len() implies #[trigger] entries@[x]
                    == entries0[x] by {}
            }
            i += 1;
        } else {
            let ghost p = t@[j as int].path@;
            proof {
                assert forall|k: int| 0 <= k < j implies (#[trigger] t@[k]).path@ != p by {
                    if t@[k].path@ == p {
                        lemma_seq_char_lt_irrefl(p);
                    }
                }
                assert forall|l: int| i <= l < n1 implies seq_char_lt(p, (#[trigger] b@[l]).path@)
                    by {
                    if l > i {
                        lemma_seq_char_lt_trans(p, b@[i as int].path@, b@[l].path@);
                    }
                }
                assert forall|k: int| 0 <= k < n1 implies (#[trigger] b@[k]).path@ != p by {
                    if b@[k].path@ == p {
                        lemma_seq_char_lt_irrefl(p);
                    }
                }
                lemma_lookup_found(target.files@, p, j as int);
                lemma_lookup_absent(base.files@, p);
            }
            let e = DiffEntry {
                path: t[j].path.clone(),
                before: None,
                after: Some(t[j].content.clone()),
            };
            let ghost entries0 = entries@;
            entries.push(e);
            proof {
                assert(entries@.drop_last() =~= entries0);
                assert(entries@.last().path@ == p);
                assert forall|x: int| 0 <= x < entries0.len() implies #[trigger] entries@[x]
                    == entries0[x] by {}
            }
            j += 1;
        }
    }
    proof {
        assert forall|p: Seq<char>|
            #[trigger] lookup_in(base.files@, p) != lookup_in(target.files@, p) implies has_entry_for(
            entries@,
            p,
        ) by {
            if lookup_in(base.files@, p) is Some {
                let k = lemma_lookup_present_index(base.files@, p);
                lemma_path_in_prefix_from_index(base.files@, n1 as int, k);
            } else {
                assert(lookup_in(target.files@, p) is Some);
                let k = lemma_lookup_present_index(target.files@, p);
                lemma_path_in_prefix_from_index(target.files@, n2 as int, k);
            }
        }
    }
    entries
}

/// The kind of one line of a rendered diff.
#[derive(Clone, Copy, Debug, PartialEq, Eq, Structural)]
pub enum LineKind {
    /// Present on both sides.
    Context,
    /// Present only on the left (before) side.
    Removed,
    /// Present only on the right (after) side.
    Added,
}

/// One line of a rendered diff, with its terminating newline where the
/// source had one.
pub struct DiffLine {
    pub kind: LineKind,
    pub text: String,
}

/// The left-hand (before) lines of an edit script: context and removed.
pub open spec fn left_views(ops: Seq<DiffLine>) -> Seq<Seq<char>>
    decreases ops.len(),
{
    if ops.len() == 0 {
        Seq::empty()
    } else if ops.last().kind is Added {
        left_views(ops.drop_last())
    } else {
        left_views(ops.drop_last()).push(ops.last().text@)
    }
}

/// The right-hand (after) lines of an edit script: context and added.
pub open spec fn right_views(ops: Seq<DiffLine>) -> Seq<Seq<char>>
    decreases ops.len(),
{
    if ops.len() == 0 {
        Seq::empty()
    } else if ops.last().kind is Removed {
        right_views(ops.drop_last())
    } else {
        right_views(ops.drop_last()).push(ops.last().text@)
    }
}

/// An edit script without changes relates equal files.
pub proof fn lemma_all_context_equal(ops: Seq<DiffLine>)
    requires
        forall|x: int| 0 <= x < ops.len() ==> (#[trigger] ops[x]).kind is Context,
    ensures
        left_views(ops) =~= right_views(ops),
    decreases ops.len(),
{
    if ops.len() > 0 {
        assert(ops[ops.len() - 1].kind is Context);
        assert forall|x: int| 0 <= x < ops.drop_last().len() implies (#[trigger] ops.drop_last()[
            x
        ]).kind is Context by {
            assert(ops.drop_last()[x] == ops[x]);
        }
        lemma_all_context_equal(ops.drop_last());
    }
}

fn lcs_table(before: &Vec<String>, after: &Vec<String>) -> (tbl: Vec<Vec<usize>>)
    ensures
        tbl@.len() == before@.len() + 1,
        forall|x: int| 0 <= x < tbl@.len() ==> (#[trigger] tbl@[x])@.len() == after@.len() + 1,
{
    let n = before.len();
    let m = after.len();
    let mut rows_rev: Vec<Vec<usize>> = Vec::new();
    let mut row0: Vec<usize> = Vec::new();
    let mut y: usize = 0;
    while y < m
        invariant
            0 <= y <= m,
            row0@.len() == y,
            forall|q: int| 0 <= q < y ==> (#[trigger] row0@[q]) == 0,
        decreases m - y,
    {
        row0.push(0);
        y += 1;
    }
    row0.push(0);
    let ghost mbound = m as int;
    proof {
        assert forall|q: int| 0 <= q < row0@.len() implies (#[trigger] row0@[q]) <= mbound - q
            by {}
    }
    rows_rev.push(row0);
    let mut x: usize = n;
    while x > 0
        invariant
            0 <= x <= n,
            n == before@.len(),
            m == after@.len(),
            mbound == m as int,
            rows_rev@.len() == n - x + 1,
            forall|r: int| 0 <= r < rows_rev@.len() ==> (#[trigger] rows_rev@[r])@.len() == m + 1,
            forall|r: int, c: int|
                0 <= r < rows_rev@.len() && 0 <= c < m + 1 ==> (#[trigger] rows_rev@[r]@[c])
                    <= mbound - c,
        decreases x,
    {
        let xi = x - 1;
        let prev_idx = rows_rev.len() - 1;
        let mut cur_rev: Vec<usize> = Vec::new();
        cur_rev.push(0);
        let mut yy: usize = m;
        while yy > 0
            invariant
                0 <= yy <= m,
                n == before@.len(),
                m == after@.len(),
                mbound == m as int,
                0 <= xi < n,
                prev_idx == rows_rev@.len() - 1,
                rows_rev@.len() >= 1,
                forall|r: int| 0 <= r < rows_rev@.len() ==> (#[trigger] rows_rev@[r])@.len() == m
                    + 1,
                forall|r: int, c: int|
                    0 <= r < rows_rev@.len() && 0 <= c < m + 1 ==> (#[trigger] rows_rev@[r]@[c])
                        <= mbound - c,
                cur_rev@.len() == m - yy + 1,
                forall|q: int| 0 <= q < cur_rev@.len() ==> (#[trigger] cur_rev@[q]) <= q,
            decreases yy,
        {
            let y0 = yy - 1;
            let v: usize = if before[xi] == after[y0] {
                let below = rows_rev[prev_idx][y0 + 1];
                below + 1
            } else {
                let a = rows_rev[prev_idx][y0];
                let b = cur_rev[cur_rev.len() - 1];
                if a >= b {
                    a
                } else {
                    b
                }
            };
            cur_rev.push(v);
            yy -= 1;
        }
        let mut cur: Vec<usize> = Vec::new();
        while cur_rev.len() > 0
            invariant
                cur_rev@.len() + cur@.len() == m + 1,
                mbound == m as int,
                forall|q: int| 0 <= q < cur_rev@.len() ==> (#[trigger] cur_rev@[q]) <= q,
                forall|q: int| 0 <= q < cur@.len() ==> (#[trigger] cur@[q]) <= mbound - q,
            decreases cur_rev@.len(),
        {
            let v = cur_rev.pop().unwrap();
            cur.push(v);
        }
        rows_rev.push(cur);
        x = xi;
    }
    let mut tbl: Vec<Vec<usize>> = Vec::new();
    while rows_rev.len() > 0
        invariant
            rows_rev@.len() + tbl@.len() == n + 1,
            forall|r: int| 0 <= r < rows_rev@.len() ==> (#[trigger] rows_rev@[r])@.len() == m + 1,
            forall|r: int| 0 <= r < tbl@.len() ==> (#[trigger] tbl@[r])@.len() == m + 1,
        decreases rows_rev@.len(),
    {
        let row = rows_rev.pop().unwrap();
        tbl.push(row);
    }
    tbl
}

/// Line-diffs two files, given as their lines, with exact line equality.
/// The script restores the left file's lines from its context and removed
/// lines, and the right file's from its context and added lines; equal
/// files yield a script of context lines only.
#[verifier::rlimit(30)]
pub fn diff_lines(before: &Vec<String>, after: &Vec<String>) -> (ops: Vec<DiffLine>)
    ensures
        left_views(ops@) =~= crate::text::views_of(before@),
        right_views(ops@) =~= crate::text::views_of(after@),
        crate::text::views_of(before@) =~= crate::text::views_of(after@) ==> forall|x: int|
            0 <= x < ops@.len() ==> (#[trigger] ops@[x]).kind is Context,
{
    let tbl = lcs_table(before, after);
    let n = before.len();
    let m = after.len();
    let mut ops: Vec<DiffLine> = Vec::new();
    let mut i: usize = 0;
    let mut j: usize = 0;
    while i < n || j < m
        invariant
            0 <= i <= n,
            0 <= j <= m,
            n == before@.len(),
            m == after@.len(),
            tbl@.len() == n + 1,
            forall|x: int| 0 <= x < tbl@.len() ==> (#[trigger] tbl@[x])@.len() == m + 1,
            left_views(ops@) =~= crate::text::views_of(before@).take(i as int),
            right_views(ops@) =~= crate::text::views_of(after@).take(j as int),
            crate::text::views_of(before@) =~= crate::text::views_of(after@) ==> i == j && (forall|
                x: int,
            |
                0 <= x < ops@.len() ==> (#[trigger] ops@[x]).kind is Context),
        decreases n - i + m - j,
    {
        let ghost ops0 = ops@;
        let keep: bool = i < n && j < m && before[i] == after[j] && (tbl[i][j] > tbl[i + 1][j + 1]
            || n - i == m - j);
        proof {
            if crate::text::views_of(before@) =~= crate::text::views_of(after@) {
                assert(n == m && i == j);
                if i < n {
                    assert(crate::text::views_of(before@)[i as int] == crate::text::views_of(
                        after@,
                    )[i as int]);
                    assert(before@[i as int]@ == after@[i as int]@);
                }
            }
        }
        if keep {
            ops.push(DiffLine { kind: LineKind::Context, text: before[i].clone() });
            proof {
                assert(ops@.drop_last() =~= ops0);
                assert(left_views(ops@) =~= left_views(ops0).push(before@[i as int]@));
                assert(right_views(ops@) =~= right_views(ops0).push(before@[i as int]@));
                assert(crate::text::views_of(before@).take(i as int).push(
                    crate::text::views_of(before@)[i as int],
                ) =~= crate::text::views_of(before@).take(i + 1));
                assert(crate::text::views_of(after@).take(j as int).push(
                    crate::text::views_of(after@)[j as int],
                ) =~= crate::text::views_of(after@).take(j + 1));
                assert(before@[i as int]@ == after@[j as int]@);
            }
            i += 1;
            j += 1;
        } else if j >= m || (i < n && tbl[i + 1][j] >= tbl[i][j + 1]) {
            ops.push(DiffLine { kind: LineKind::Removed, text: before[i].clone() });
            proof {
                assert(ops@.drop_last() =~= ops0);
                assert(left_views(ops@) =~= left_views(ops0).push(before@[i as int]@));
                assert(right_views(ops@) =~= right_views(ops0));
                assert(crate::text::views_of(before@).take(i as int).push(
                    crate::text::views_of(before@)[i as int],
                ) =~= crate::text::views_of(before@).take(i + 1));
            }
            i += 1;
        } else {
            ops.push(DiffLine { kind: LineKind::Added, text: after[j].clone() });
            proof {
                assert(ops@.drop_last() =~= ops0);
                assert(right_views(ops@) =~= right_views(ops0).push(after@[j as int]@));
                assert(left_views(ops@) =~= left_views(ops0));
                assert(crate::text::views_of(after@).take(j as int).push(
                    crate::text::views_of(after@)[j as int],
                ) =~= crate::text::views_of(after@).take(j + 1));
            }
            j += 1;
        }
    }
    proof {
        assert(crate::text::views_of(before@).take(n as int) =~= crate::text::views_of(before@));
        assert(crate::text::views_of(after@).take(m as int) =~= crate::text::views_of(after@));
    }
    ops
}

/// A line that changes a file: removed or added.
pub open spec fn is_change(l: DiffLine) -> bool {
    !(l.kind is Context)
}

/// Whether an edit script changes anything.
pub open spec fn has_change(ops: Seq<DiffLine>) -> bool
    decreases ops.len(),
{
    ops.len() > 0 && (is_change(ops.last()) || has_change(ops.drop_last()))
}

pub proof fn lemma_no_change_all_context(ops: Seq<DiffLine>)
    requires
        !has_change(ops),
    ensures
        forall|x: int| 0 <= x < ops.len() ==> (#[trigger] ops[x]).kind is Context,
    decreases ops.len(),
{
    if ops.len() > 0 {
        lemma_no_change_all_context(ops.drop_last());
        assert forall|x: int| 0 <= x < ops.len() implies (#[trigger] ops[x]).kind is Context by {
            if x < ops.len() - 1 {
                assert(ops.drop_last()[x] == ops[x]);
            }
        }
    }
}

pub proof fn lemma_has_change_from_index(ops: Seq<DiffLine>, c: int)
    requires
        0 <= c < ops.len(),
        is_change(ops[c]),
    ensures
        has_change(ops),
    decreases ops.len(),
{
    if c < ops.len() - 1 {
        assert(ops.drop_last()[c] == ops[c]);
        lemma_has_change_from_index(ops.drop_last(), c);
    }
}

/// The added lines of an edit script.
pub open spec fn added_views(ops: Seq<DiffLine>) -> Seq<Seq<char>>
    decreases ops.len(),
{
    if ops.len() == 0 {
        Seq::empty()
    } else if ops.last().kind is Added {
        added_views(ops.drop_last()).push(ops.last().text@)
    } else {
        added_views(ops.drop_last())
    }
}

/// The removed lines of an edit script.
pub open spec fn removed_views(ops: Seq<DiffLine>) -> Seq<Seq<char>>
    decreases ops.len(),
{
    if ops.len() == 0 {
        Seq::empty()
    } else if ops.last().kind is Removed {
        removed_views(ops.drop_last()).push(ops.last().text@)
    } else {
        removed_views(ops.drop_last())
    }
}

/// A contiguous run of diff lines with its 1-based line ranges on the left
/// (before) and right (after) side.
pub struct Hunk {
    pub left_start: usize,
    pub left_len: usize,
    pub right_start: usize,
    pub right_len: usize,
    pub lines: Vec<DiffLine>,
}

/// The added lines of a sequence of hunks, in order.
pub open spec fn hunks_added(hs: Seq<Hunk>) -> Seq<Seq<char>>
    decreases hs.len(),
{
    if hs.len() == 0 {
        Seq::empty()
    } else {
        hunks_added(hs.drop_last()) + added_views(hs.last().lines@)
    }
}

/// The removed lines of a sequence of hunks, in order.
pub open spec fn hunks_removed(hs: Seq<Hunk>) -> Seq<Seq<char>>
    decreases hs.len(),
{
    if hs.len() == 0 {
        Seq::empty()
    } else {
        hunks_removed(hs.drop_last()) + removed_views(hs.last().lines@)
    }
}

/// `hunks` is a grouping of the edit script `ops`: every added and removed
/// line survives, in order; hunks exist exactly when changes do; each hunk
/// is non-empty with line ranges consistent with its lines, and the hunks
/// come in ascending range order.
pub open spec fn hunks_of(hunks: Seq<Hunk>, ops: Seq<DiffLine>) -> bool {
    &&& hunks_added(hunks) =~= added_views(ops)
    &&& hunks_removed(hunks) =~= removed_views(ops)
    &&& (hunks.len() > 0 <==> has_change(ops))
    &&& (forall|x: int|
        0 <= x < hunks.len() ==> {
            &&& (#[trigger] hunks[x]).lines@.len() > 0
            &&& hunks[x].left_len == left_views(hunks[x].lines@).len()
            &&& hunks[x].right_len == right_views(hunks[x].lines@).len()
            &&& hunks[x].left_start >= 1
            &&& hunks[x].right_start >= 1
        })
    &&& (forall|x: int, y: int|
        0 <= x < y < hunks.len() ==> (#[trigger] hunks[x]).left_start <= (
        #[trigger] hunks[y]).left_start && hunks[x].right_start <= hunks[y].right_start)
}

/// `ops` is a line diff of the text `before` against the text `after`: its
/// context and removed lines concatenate back to `before`, its context and
/// added lines to `after`.
pub open spec fn is_line_diff(ops: Seq<DiffLine>, before: Seq<char>, after: Seq<char>) -> bool {
    &&& crate::text::concat_seqs(left_views(ops)) == before
    &&& crate::text::concat_seqs(right_views(ops)) == after
}

/// `text` is a rendered file block for `path` between the texts `before`
/// and `after`: the `diff --git` header, then the rendered hunks of a
/// grouping of some line diff of the two texts.
pub open spec fn is_file_block(
    text: Seq<char>,
    path: Seq<char>,
    before: Seq<char>,
    after: Seq<char>,
) -> bool {
    exists|ops: Seq<DiffLine>, hunks: Seq<Hunk>|
        {
            &&& is_line_diff(ops, before, after)
            &&& #[trigger] hunks_of(hunks, ops)
            &&& text == file_header_spec(path) + render_hunks_spec(hunks)
        }
}

/// Position `k` lies within `context` lines of some change.
pub open spec fn marked_at(ops: Seq<DiffLine>, context: int, k: int) -> bool {
    exists|c: int|
        0 <= c < ops.len() && k - context <= c <= k + context && is_change(#[trigger] ops[c])
}

fn line_is_change(l: &DiffLine) -> (r: bool)
    ensures
        r == is_change(*l),
{
    match l.kind {
        LineKind::Context => false,
        LineKind::Removed => true,
        LineKind::Added => true,
    }
}

fn compute_marks(ops: &Vec<DiffLine>, context: usize) -> (marks: Vec<bool>)
    ensures
        marks@.len() == ops@.len(),
        forall|k: int| 0 <= k < marks@.len() ==> marks@[k] == marked_at(ops@, context as int, k),
{
    let n = ops.len();
    let mut marks: Vec<bool> = Vec::new();
    let mut k: usize = 0;
    while k < n
        invariant
            0 <= k <= n,
            n == ops@.len(),
            marks@.len() == k,
            forall|q: int| 0 <= q < k ==> marks@[q] == marked_at(ops@, context as int, q),
        decreases n - k,
    {
        let lo: usize = if k >= context {
            k - context
        } else {
            0
        };
        let mut c: usize = lo;
        let mut found = false;
        while c < n && (c <= k || c - k <= context)
            invariant
                lo <= c <= n,
                n == ops@.len(),
                0 <= k < n,
                lo == if k >= context {
                    k - context
                } else {
                    0
                },
                found == exists|q: int|
                    lo <= q < c && k - context <= q <= k + context && is_change(
                        #[trigger] ops@[q],
                    ),
            decreases n - c,
        {
            if line_is_change(&ops[c]) {
                found = true;
            }
            c += 1;
        }
        proof {
            if found {
                let q = choose|q: int|
                    lo <= q < c && k - context <= q <= k + context && is_change(
                        #[trigger] ops@[q],
                    );
                assert(0 <= q < ops@.len());
                assert(marked_at(ops@, context as int, k as int));
            } else {
                if marked_at(ops@, context as int, k as int) {
                    let q = choose|q: int|
                        0 <= q < ops@.len() && k - context <= q <= k + context && is_change(
                            #[trigger] ops@[q],
                        );
                    assert(lo <= q < c);
                }
            }
        }
        marks.push(found);
        k += 1;
    }
    marks
}

/// Groups an edit script into hunks, keeping `context` lines of context
/// around every change. All added and removed lines survive grouping, in
/// order; only far-away context is dropped. There are hunks exactly when
/// there are changes.
#[verifier::rlimit(100)]
pub fn group_hunks(ops: &Vec<DiffLine>, context: usize) -> (hunks: Vec<Hunk>)
    ensures
        hunks_of(hunks@, ops@),
{
    let marks = compute_marks(ops, context);
    let n = ops.len();
    let mut hunks: Vec<Hunk> = Vec::new();
    let mut cur_lines: Vec<DiffLine> = Vec::new();
    let mut cur_left_start: usize = 1;
    let mut cur_right_start: usize = 1;
    let mut cur_left_len: usize = 0;
    let mut cur_right_len: usize = 0;
    let mut left_count: usize = 0;
    let mut right_count: usize = 0;
    let mut k: usize = 0;
    while k < n
        invariant
            0 <= k <= n,
            n == ops@.len(),
            marks@.len() == n,
            forall|q: int| 0 <= q < n ==> marks@[q] == marked_at(ops@, context as int, q),
            left_count == left_views(ops@.take(k as int)).len(),
            right_count == right_views(ops@.take(k as int)).len(),
            left_count <= k,
            right_count <= k,
            cur_left_len == left_views(cur_lines@).len(),
            cur_right_len == right_views(cur_lines@).len(),
            cur_left_len <= cur_lines@.len(),
            cur_right_len <= cur_lines@.len(),
            cur_lines@.len() <= k,
            cur_lines@.len() > 0 ==> cur_left_start >= 1 && cur_right_start >= 1,
            cur_lines@.len() > 0 ==> cur_left_start <= left_count + 1 && cur_right_start
                <= right_count + 1,
            hunks_added(hunks@) + added_views(cur_lines@) =~= added_views(ops@.take(k as int)),
            hunks_removed(hunks@) + removed_views(cur_lines@) =~= removed_views(
                ops@.take(k as int),
            ),
            forall|x: int|
                0 <= x < hunks@.len() ==> {
                    &&& (#[trigger] hunks@[x]).lines@.len() > 0
                    &&& hunks@[x].left_len == left_views(hunks@[x].lines@).len()
                    &&& hunks@[x].right_len == right_views(hunks@[x].lines@).len()
                    &&& hunks@[x].left_start >= 1
                    &&& hunks@[x].right_start >= 1
                },
            forall|x: int|
                0 <= x < hunks@.len() ==> (#[trigger] hunks@[x]).left_start <= left_count + 1 && (
                #[trigger] hunks@[x]).right_start <= right_count + 1,
            forall|x: int|
                0 <= x < hunks@.len() && cur_lines@.len() > 0 ==> (#[trigger] hunks@[x]).left_start
                    <= cur_left_start && (#[trigger] hunks@[x]).right_start <= cur_right_start,
            forall|x: int, y: int|
                0 <= x < y < hunks@.len() ==> (#[trigger] hunks@[x]).left_start <= (
                #[trigger] hunks@[y]).left_start && hunks@[x].right_start <= hunks@[y].right_start,
            has_change(ops@.take(k as int)) ==> hunks@.len() > 0 || cur_lines@.len() > 0,
            !has_change(ops@) ==> hunks@.len() == 0 && cur_lines@.len() == 0,
        decreases n - k,
    {
        let ghost take_k = ops@.take(k as int);
        let ghost take_k1 = ops@.take(k as int + 1);
        proof {
            assert(take_k1.drop_last() =~= take_k);
            assert(take_k1.last() == ops@[k as int]);
        }
        let is_ch = line_is_change(&ops[k]);
        if marks[k] {
            proof {
                let q = choose|q: int|
                    0 <= q < ops@.len() && k - context <= q <= k + context && is_change(
                        #[trigger] ops@[q],
                    );
                lemma_has_change_from_index(ops@, q);
            }
            if cur_lines.len() == 0 {
                cur_left_start = left_count + 1;
                cur_right_start = right_count + 1;
                cur_left_len = 0;
                cur_right_len = 0;
            }
            let line = DiffLine { kind: ops[k].kind, text: ops[k].text.clone() };
            proof {
                assert(line == ops@[k as int]);
            }
            let ghost cur0 = cur_lines@;
            cur_lines.push(line);
            proof {
                assert(cur_lines@.drop_last() =~= cur0);
                assert(cur_lines@.last() == ops@[k as int]);
            }
            match ops[k].kind {
                LineKind::Added => {
                    cur_right_len = cur_right_len + 1;
                    right_count = right_count + 1;
                },
                LineKind::Removed => {
                    cur_left_len = cur_left_len + 1;
                    left_count = left_count + 1;
                },
                LineKind::Context => {
                    cur_left_len = cur_left_len + 1;
                    cur_right_len = cur_right_len + 1;
                    left_count = left_count + 1;
                    right_count = right_count + 1;
                },
            }
        } else {
            proof {
                if is_change(ops@[k as int]) {
                    assert(marked_at(ops@, context as int, k as int));
                }
                assert(!(ops@[k as int].kind is Added) && !(ops@[k as int].kind is Removed));
            }
            if cur_lines.len() > 0 {
                let done = Hunk {
                    left_start: cur_left_start,
                    left_len: cur_left_len,
                    right_start: cur_right_start,
                    right_len: cur_right_len,
                    lines: cur_lines,
                };
                let ghost hunks0 = hunks@;
                hunks.push(done);
                cur_lines = Vec::new();
                cur_left_len = 0;
                cur_right_len = 0;
                proof {
                    assert(hunks@.drop_last() =~= hunks0);
                    assert(hunks@.last() == done);
                    assert(added_views(cur_lines@) =~= Seq::<Seq<char>>::empty());
                    assert(hunks_added(hunks@) =~= hunks_added(hunks0) + added_views(
                        done.lines@,
                    ));
                    assert(hunks_removed(hunks@) =~= hunks_removed(hunks0) + removed_views(
                        done.lines@,
                    ));
                }
            }
            left_count = left_count + 1;
            right_count = right_count + 1;
        }
        k += 1;
    }
    proof {
        assert(ops@.take(n as int) =~= ops@);
    }
    if cur_lines.len() > 0 {
        let done = Hunk {
            left_start: cur_left_start,
            left_len: cur_left_len,
            right_start: cur_right_start,
            right_len: cur_right_len,
            lines: cur_lines,
        };
        let ghost hunks0 = hunks@;
        hunks.push(done);
        proof {
            assert(hunks@.drop_last() =~= hunks0);
            assert(hunks@.last() == done);
            assert(hunks_added(hunks@) =~= hunks_added(hunks0) + added_views(done.lines@));
            assert(hunks_removed(hunks@) =~= hunks_removed(hunks0) + removed_views(done.lines@));
        }
    }
    hunks
}

/// The text a diff sees for one side of an entry: the content, or empty
/// where the side is absent.
pub open spec fn opt_resolved(o: Option<String>) -> Seq<char> {
    match o {
        Some(s) => s@,
        None => Seq::empty(),
    }
}

/// Materializes one side of a diff entry: the file's text, or empty where
/// the side is absent.
pub fn resolve_content(side: &Option<String>) -> (r: String)
    ensures
        r@ == opt_resolved(*side),
{
    match side {
        Some(s) => s.clone(),
        None => String::new(),
    }
}

/// The context window kept around every change, in lines.
pub const CONTEXT_LINES: usize = 3;

/// The marker character in front of one diff line.
pub open spec fn line_mark(kind: LineKind) -> char {
    match kind {
        LineKind::Context => ' ',
        LineKind::Removed => '-',
        LineKind::Added => '+',
    }
}

/// The text of a hunk's lines, each prefixed with its marker.
pub open spec fn render_lines_spec(ops: Seq<DiffLine>) -> Seq<char>
    decreases ops.len(),
{
    if ops.len() == 0 {
        Seq::empty()
    } else {
        render_lines_spec(ops.drop_last()) + seq![line_mark(ops.last().kind)] + ops.last().text@
    }
}

/// A hunk's `@@`-header with its 1-based line ranges.
pub open spec fn hunk_header_spec(h: Hunk) -> Seq<char> {
    "@@ -"@ + dec_str(h.left_start as nat) + ","@ + dec_str(h.left_len as nat) + " +"@ + dec_str(
        h.right_start as nat,
    ) + ","@ + dec_str(h.right_len as nat) + " @@\n"@
}

/// A hunk's full text: header, then its marked lines.
pub open spec fn render_hunk_spec(h: Hunk) -> Seq<char> {
    hunk_header_spec(h) + render_lines_spec(h.lines@)
}

/// The text of a sequence of hunks, in order.
pub open spec fn render_hunks_spec(hs: Seq<Hunk>) -> Seq<char>
    decreases hs.len(),
{
    if hs.len() == 0 {
        Seq::empty()
    } else {
        render_hunks_spec(hs.drop_last()) + render_hunk_spec(hs.last())
    }
}

/// The header line opening one file's diff block.
pub open spec fn file_header_spec(path: Seq<char>) -> Seq<char> {
    "diff --git a/"@ + path + " b/"@ + path + "\n"@
}

fn mark_str(kind: LineKind) -> (r: &'static str)
    ensures
        r@ =~= seq![line_mark(kind)],
{
    proof {
        reveal_strlit(" ");
        reveal_strlit("-");
        reveal_strlit("+");
    }
    match kind {
        LineKind::Context => " ",
        LineKind::Removed => "-",
        LineKind::Added => "+",
    }
}

/// Renders one hunk: its header, then every line with its marker.
fn render_hunk(h: &Hunk) -> (r: String)
    ensures
        r@ == render_hunk_spec(*h),
{
    let mut s = "@@ -".to_owned();
    let a = usize_dec_str(h.left_start);
    s.append(a.as_str());
    s.append(",");
    let b = usize_dec_str(h.left_len);
    s.append(b.as_str());
    s.append(" +");
    let c = usize_dec_str(h.right_start);
    s.append(c.as_str());
    s.append(",");
    let d = usize_dec_str(h.right_len);
    s.append(d.as_str());
    s.append(" @@\n");
    proof {
        assert(s@ =~= hunk_header_spec(*h));
    }
    let n = h.lines.len();
    let mut k: usize = 0;
    while k < n
        invariant
            0 <= k <= n,
            n == h.lines@.len(),
            s@ =~= hunk_header_spec(*h) + render_lines_spec(h.lines@.take(k as int)),
        decreases n - k,
    {
        let ghost take_k = h.lines@.take(k as int);
        let ghost take_k1 = h.lines@.take(k as int + 1);
        proof {
            assert(take_k1.drop_last() =~= take_k);
            assert(take_k1.last() == h.lines@[k as int]);
        }
        s.append(mark_str(h.lines[k].kind));
        s.append(h.lines[k].text.as_str());
        proof {
            assert(s@ =~= hunk_header_spec(*h) + render_lines_spec(take_k1));
        }
        k += 1;
    }
    proof {
        assert(h.lines@.take(n as int) =~= h.lines@);
    }
    s
}

proof fn lemma_render_hunk_nonempty(h: Hunk)
    ensures
        render_hunk_spec(h).len() > 0,
{
    reveal_strlit("@@ -");
}

/// Renders one changed entry as its file block: the `diff --git` header,
/// then hunks. An entry whose two sides resolve to the same text yields the
/// bare header; a real difference always yields at least one hunk.
pub fn render_file_block(e: &DiffEntry) -> (r: String)
    ensures
        is_file_block(r@, e.path@, opt_resolved(e.before), opt_resolved(e.after)),
        r@.len() >= file_header_spec(e.path@).len(),
        r@.subrange(0, file_header_spec(e.path@).len() as int) == file_header_spec(e.path@),
        opt_resolved(e.before) == opt_resolved(e.after) <==> r@ == file_header_spec(e.path@),
        opt_resolved(e.before) != opt_resolved(e.after) ==> r@.len() > file_header_spec(
            e.path@,
        ).len(),
{
    let mut s = "diff --git a/".to_owned();
    s.append(e.path.as_str());
    s.append(" b/");
    s.append(e.path.as_str());
    s.append("\n");
    proof {
        assert(s@ =~= file_header_spec(e.path@));
    }
    let before_text = resolve_content(&e.before);
    let after_text = resolve_content(&e.after);
    if before_text == after_text {
        proof {
            let ops_w: Seq<DiffLine> = seq![
                DiffLine { kind: LineKind::Context, text: before_text },
            ];
            assert(ops_w.drop_last() =~= Seq::<DiffLine>::empty());
            assert(ops_w.len() == 1);
            assert(ops_w.last() == (DiffLine { kind: LineKind::Context, text: before_text }));
            assert(ops_w.last().kind is Context);
            assert(left_views(Seq::<DiffLine>::empty()) =~= Seq::<Seq<char>>::empty());
            assert(left_views(ops_w) =~= left_views(ops_w.drop_last()).push(
                ops_w.last().text@,
            ));
            assert(right_views(ops_w) =~= right_views(ops_w.drop_last()).push(
                ops_w.last().text@,
            ));
            assert(left_views(ops_w) =~= seq![before_text@]);
            assert(right_views(ops_w) =~= seq![before_text@]);
            assert(seq![before_text@].drop_last() =~= Seq::<Seq<char>>::empty());
            assert(crate::text::concat_seqs(Seq::<Seq<char>>::empty()) =~= Seq::<char>::empty());
            assert(crate::text::concat_seqs(seq![before_text@]) =~= before_text@);
            assert(is_line_diff(ops_w, opt_resolved(e.before), opt_resolved(e.after)));
            let hunks_w: Seq<Hunk> = Seq::empty();
            assert(!has_change(Seq::<DiffLine>::empty()));
            assert(!has_change(ops_w));
            assert(added_views(Seq::<DiffLine>::empty()) =~= Seq::<Seq<char>>::empty());
            assert(removed_views(Seq::<DiffLine>::empty()) =~= Seq::<Seq<char>>::empty());
            assert(hunks_added(hunks_w) =~= added_views(ops_w));
            assert(hunks_removed(hunks_w) =~= removed_views(ops_w));
            assert(hunks_of(hunks_w, ops_w));
            assert(file_header_spec(e.path@) + render_hunks_spec(hunks_w) =~= s@);
            assert(is_file_block(s@, e.path@, opt_resolved(e.before), opt_resolved(e.after)));
        }
        return s;
    }
    let before_lines = crate::text::split_lines(before_text.as_str());
    let after_lines = crate::text::split_lines(after_text.as_str());
    let ops = diff_lines(&before_lines, &after_lines);
    let hunks = group_hunks(&ops, CONTEXT_LINES);
    proof {
        if !has_change(ops@) {
            lemma_no_change_all_context(ops@);
            lemma_all_context_equal(ops@);
            assert(crate::text::views_of(before_lines@) =~= crate::text::views_of(after_lines@));
            crate::text::lemma_concat_strs_views(before_lines@);
            crate::text::lemma_concat_strs_views(after_lines@);
            assert(before_text@ == after_text@);
            assert(false);
        }
        assert(hunks@.len() > 0);
    }
    let ghost header = file_header_spec(e.path@);
    let m = hunks.len();
    let mut k: usize = 0;
    while k < m
        invariant
            0 <= k <= m,
            m == hunks@.len(),
            header == file_header_spec(e.path@),
            s@ =~= header + render_hunks_spec(hunks@.take(k as int)),
        decreases m - k,
    {
        let ghost take_k = hunks@.take(k as int);
        let ghost take_k1 = hunks@.take(k as int + 1);
        proof {
            assert(take_k1.drop_last() =~= take_k);
            assert(take_k1.last() == hunks@[k as int]);
        }
        let block = render_hunk(&hunks[k]);
        s.append(block.as_str());
        proof {
            assert(s@ =~= header + render_hunks_spec(take_k1));
        }
        k += 1;
    }
    proof {
        assert(hunks@.take(m as int) =~= hunks@);
        assert(render_hunks_spec(hunks@.drop_last()).len() >= 0);
        lemma_render_hunk_nonempty(hunks@.last());
        assert(render_hunks_spec(hunks@).len() > 0);
        assert(s@.subrange(0, header.len() as int) =~= header);
        lemma_diff_round_trip(before_lines@, after_lines@, ops@);
        assert(crate::text::concat_seqs(left_views(ops@)) == before_text@);
        assert(crate::text::concat_seqs(right_views(ops@)) == after_text@);
        assert(is_line_diff(ops@, opt_resolved(e.before), opt_resolved(e.after)));
        assert(hunks_of(hunks@, ops@));
        assert(s@ == header + render_hunks_spec(hunks@));
        assert(is_file_block(s@, e.path@, opt_resolved(e.before), opt_resolved(e.after)));
    }
    s
}

/// Law: the lines of a rendered diff restore both inputs. The context and
/// removed lines, concatenated, give back the before text, and the context
/// and added lines give back the after text.
pub proof fn lemma_diff_round_trip(
    before_lines: Seq<String>,
    after_lines: Seq<String>,
    ops: Seq<DiffLine>,
)
    requires
        left_views(ops) =~= crate::text::views_of(before_lines),
        right_views(ops) =~= crate::text::views_of(after_lines),
    ensures
        crate::text::concat_seqs(left_views(ops)) == crate::text::concat_strs(before_lines),
        crate::text::concat_seqs(right_views(ops)) == crate::text::concat_strs(after_lines),
{
    crate::text::lemma_concat_strs_views(before_lines);
    crate::text::lemma_concat_strs_views(after_lines);
}

/// No path differs between `base` and `target`.
pub open spec fn same_files(base: Seq<FileEntry>, target: Seq<FileEntry>) -> bool {
    forall|p: Seq<char>| #[trigger] lookup_in(base, p) == lookup_in(target, p)
}

/// Every path that differs between `base` and `target` is matched by an
/// ignore pattern, so the rendered patch shows nothing.
pub open spec fn hidden_delta(
    base: Seq<FileEntry>,
    target: Seq<FileEntry>,
    patterns: Seq<String>,
) -> bool {
    forall|p: Seq<char>|
        #[trigger] lookup_in(base, p) != lookup_in(target, p) ==> ignored_path(patterns, p)
}

/// Law: a commit whose tree equals its base tree has a hidden delta — its
/// patch renders as the empty string, whatever the ignore patterns.
pub proof fn lemma_identical_trees_hidden(
    base: Seq<FileEntry>,
    target: Seq<FileEntry>,
    patterns: Seq<String>,
)
    requires
        same_files(base, target),
    ensures
        hidden_delta(base, target, patterns),
{
}

/// The delta of the commit `id` against its base tree is entirely ignored,
/// so its patch renders as the empty string and there is nothing to
/// describe.
pub open spec fn nothing_to_describe(repo: &RepoModel, id: u64, patterns: Seq<String>) -> bool {
    hidden_delta(
        repo.base_files_of(repo.spec_index_of(id)),
        repo.spec_commit(id).tree.files@,
        patterns,
    )
}

/// The pieces of a rendered patch of commit `id` under `patterns`:
/// `entries` are changed, non-ignored paths with their true stored contents
/// — every such path, each exactly once, in ascending path order — and
/// `blocks` holds one rendered file block per entry.
pub open spec fn patch_pieces_ok(
    repo: &RepoModel,
    id: u64,
    patterns: Seq<String>,
    entries: Seq<DiffEntry>,
    blocks: Seq<Seq<char>>,
) -> bool {
    let base = repo.base_files_of(repo.spec_index_of(id));
    let target = repo.spec_commit(id).tree.files@;
    &&& (forall|x: int|
        0 <= x < entries.len() ==> entry_matches(#[trigger] entries[x], base, target)
            && !ignored_path(patterns, entries[x].path@))
    &&& (forall|p: Seq<char>|
        #[trigger] lookup_in(base, p) != lookup_in(target, p) && !ignored_path(patterns, p)
            ==> has_entry_for(entries, p))
    &&& (forall|x: int, y: int|
        0 <= x < y < entries.len() ==> seq_char_lt(
            (#[trigger] entries[x]).path@,
            (#[trigger] entries[y]).path@,
        ))
    &&& blocks.len() == entries.len()
    &&& (forall|x: int|
        0 <= x < entries.len() ==> is_file_block(
            #[trigger] blocks[x],
            entries[x].path@,
            opt_resolved(entries[x].before),
            opt_resolved(entries[x].after),
        ))
    &&& (forall|x: int|
        0 <= x < entries.len() ==> ((opt_resolved((#[trigger] entries[x]).before) == opt_resolved(
            entries[x].after,
        )) <==> blocks[x] == file_header_spec(entries[x].path@)))
}

/// `text` is a rendered patch of commit `id` against its base tree under
/// `patterns`: the concatenation, over the changed and non-ignored paths in
/// ascending order, of one file block per path, each diffing the path's
/// true before and after contents.
pub open spec fn is_rendered_patch(
    repo: &RepoModel,
    id: u64,
    patterns: Seq<String>,
    text: Seq<char>,
) -> bool {
    exists|entries: Seq<DiffEntry>, blocks: Seq<Seq<char>>|
        {
            &&& #[trigger] patch_pieces_ok(repo, id, patterns, entries, blocks)
            &&& text == crate::text::concat_seqs(blocks)
        }
}

/// Renders the patch of the commit `id` against its primary parent (or the
/// empty tree at a root), one block per changed file that no ignore pattern
/// matches. The result is empty exactly when every changed path is ignored,
/// and otherwise opens with a file block's header.
#[verifier::rlimit(60)]
pub fn render_commit_patch(repo: &RepoModel, commit_id: u64, ignore_patterns: &Vec<String>) -> (r:
    String)
    requires
        repo.wf(),
        repo.has_commit(commit_id),
    ensures
        is_rendered_patch(repo, commit_id, ignore_patterns@, r@),
        r@.len() == 0 <==> nothing_to_describe(repo, commit_id, ignore_patterns@),
        r@.len() > 0 ==> r@.len() >= "diff --git a/"@.len() && r@.subrange(
            0,
            "diff --git a/"@.len() as int,
        ) == "diff --git a/"@,
{
    let idx = repo.find_commit(commit_id).unwrap();
    let ghost gi = idx as int;
    let empty_tree = Tree::empty();
    let entries: Vec<DiffEntry> = if repo.commits[idx].parents.len() == 0 {
        proof {
            assert(repo.base_files_of(gi) =~= empty_tree.files@);
        }
        tree_diff(&empty_tree, &repo.commits[idx].tree)
    } else {
        let parent_id = repo.commits[idx].parents[0];
        proof {
            crate::model::lemma_parent_index_lt(repo, gi, 0);
            assert(repo.has_commit(parent_id));
        }
        let pidx = repo.find_commit(parent_id).unwrap();
        proof {
            assert(repo.base_files_of(gi) == repo.commits@[pidx as int].tree.files@);
        }
        tree_diff(&repo.commits[pidx].tree, &repo.commits[idx].tree)
    };
    let ghost base = repo.base_files_of(gi);
    let ghost target = repo.commits@[gi].tree.files@;
    let mut s = String::new();
    let ghost mut survivors: Seq<DiffEntry> = Seq::empty();
    let ghost mut blocks: Seq<Seq<char>> = Seq::empty();
    let ghost mut srcs: Seq<int> = Seq::empty();
    proof {
        assert(crate::text::concat_seqs(blocks) =~= Seq::<char>::empty());
    }
    let n = entries.len();
    let mut k: usize = 0;
    while k < n
        invariant
            0 <= k <= n,
            n == entries@.len(),
            forall|x: int| 0 <= x < n ==> entry_matches(#[trigger] entries@[x], base, target),
            forall|p: Seq<char>|
                #[trigger] lookup_in(base, p) != lookup_in(target, p) ==> has_entry_for(
                    entries@,
                    p,
                ),
            forall|x: int, y: int|
                0 <= x < y < n ==> seq_char_lt(
                    (#[trigger] entries@[x]).path@,
                    (#[trigger] entries@[y]).path@,
                ),
            survivors.len() == blocks.len(),
            srcs.len() == survivors.len(),
            forall|a: int|
                0 <= a < srcs.len() ==> 0 <= #[trigger] srcs[a] < k && survivors[a]
                    == entries@[srcs[a]],
            forall|a: int, b: int| 0 <= a < b < srcs.len() ==> #[trigger] srcs[a] < #[trigger] srcs[b],
            forall|a: int|
                0 <= a < survivors.len() ==> !ignored_path(
                    ignore_patterns@,
                    (#[trigger] survivors[a]).path@,
                ),
            forall|a: int|
                0 <= a < blocks.len() ==> is_file_block(
                    #[trigger] blocks[a],
                    survivors[a].path@,
                    opt_resolved(survivors[a].before),
                    opt_resolved(survivors[a].after),
                ) && blocks[a].len() > 0 && ((opt_resolved(survivors[a].before) == opt_resolved(
                    survivors[a].after,
                )) <==> blocks[a] == file_header_spec(survivors[a].path@)),
            forall|x: int|
                0 <= x < k && !ignored_path(ignore_patterns@, (#[trigger] entries@[x]).path@)
                    ==> has_entry_for(survivors, entries@[x].path@),
            s@ =~= crate::text::concat_seqs(blocks),
            s@.len() == 0 <==> (forall|x: int|
                0 <= x < k ==> ignored_path(ignore_patterns@, (#[trigger] entries@[x]).path@)),
            s@.len() > 0 ==> s@.len() >= "diff --git a/"@.len() && s@.subrange(
                0,
                "diff --git a/"@.len() as int,
            ) == "diff --git a/"@,
        decreases n - k,
    {
        if !path_is_ignored(ignore_patterns, entries[k].path.as_str()) {
            let ghost s0 = s@;
            let block = render_file_block(&entries[k]);
            s.append(block.as_str());
            proof {
                reveal_strlit("diff --git a/");
                let lit = "diff --git a/"@;
                let header = file_header_spec(entries@[k as int].path@);
                assert(header.len() > 0);
                assert(block@.len() > 0);
                assert(s@.len() > 0);
                assert(header.subrange(0, lit.len() as int) =~= lit);
                assert(block@.subrange(0, lit.len() as int) =~= header.subrange(
                    0,
                    lit.len() as int,
                ));
                if s0.len() == 0 {
                    assert(s@ =~= block@);
                    assert(s@.subrange(0, lit.len() as int) =~= lit);
                } else {
                    assert(s@.subrange(0, lit.len() as int) =~= s0.subrange(0, lit.len() as int));
                }
                let ghost survivors0 = survivors;
                let ghost blocks0 = blocks;
                survivors = survivors.push(entries@[k as int]);
                blocks = blocks.push(block@);
                srcs = srcs.push(k as int);
                assert(survivors.drop_last() =~= survivors0);
                assert(blocks.drop_last() =~= blocks0);
                assert forall|a: int| 0 <= a < survivors0.len() implies #[trigger] survivors[a]
                    == survivors0[a] by {}
                assert forall|a: int| 0 <= a < blocks0.len() implies #[trigger] blocks[a]
                    == blocks0[a] by {}
                assert(survivors[survivors0.len() as int] == entries@[k as int]);
                assert(blocks[blocks0.len() as int] == block@);
                assert(crate::text::concat_seqs(blocks) =~= crate::text::concat_seqs(blocks0)
                    + block@);
                assert forall|x: int|
                    0 <= x < k + 1 && !ignored_path(
                        ignore_patterns@,
                        (#[trigger] entries@[x]).path@,
                    ) implies has_entry_for(survivors, entries@[x].path@) by {
                    if x < k {
                        assert(has_entry_for(survivors0, entries@[x].path@));
                    } else {
                        assert(survivors.last().path@ == entries@[x].path@);
                    }
                }
            }
        }
        k += 1;
    }
    proof {
        if s@.len() == 0 {
            assert forall|p: Seq<char>|
                #[trigger] lookup_in(base, p) != lookup_in(target, p) implies ignored_path(
                ignore_patterns@,
                p,
            ) by {
                lemma_has_entry_for_index(entries@, p);
                let x = choose|x: int|
                    0 <= x < entries@.len() && (#[trigger] entries@[x]).path@ == p;
                assert(ignored_path(ignore_patterns@, entries@[x].path@));
            }
        } else {
            let x = choose|x: int|
                0 <= x < entries@.len() && !ignored_path(
                    ignore_patterns@,
                    (#[trigger] entries@[x]).path@,
                );
            assert(entry_matches(entries@[x], base, target));
            assert(!hidden_delta(base, target, ignore_patterns@));
        }
        assert(repo.spec_index_of(commit_id) == gi);
        assert(repo.spec_commit(commit_id).tree.files@ == target);
        assert(repo.base_files_of(repo.spec_index_of(commit_id)) == base);
        assert forall|p: Seq<char>|
            #[trigger] lookup_in(base, p) != lookup_in(target, p) && !ignored_path(
                ignore_patterns@,
                p,
            ) implies has_entry_for(survivors, p) by {
            lemma_has_entry_for_index(entries@, p);
            let x = choose|x: int| 0 <= x < entries@.len() && (#[trigger] entries@[x]).path@ == p;
            assert(has_entry_for(survivors, entries@[x].path@));
        }
        assert forall|a: int, b: int|
            0 <= a < b < survivors.len() implies seq_char_lt(
            (#[trigger] survivors[a]).path@,
            (#[trigger] survivors[b]).path@,
        ) by {
            assert(survivors[a] == entries@[srcs[a]]);
            assert(survivors[b] == entries@[srcs[b]]);
        }
        assert forall|a: int| 0 <= a < survivors.len() implies entry_matches(
            #[trigger] survivors[a],
            base,
            target,
        ) by {
            assert(survivors[a] == entries@[srcs[a]]);
            assert(entry_matches(entries@[srcs[a]], base, target));
        }
        assert(patch_pieces_ok(repo, commit_id, ignore_patterns@, survivors, blocks));
        assert(s@ == crate::text::concat_seqs(blocks));
        assert(is_rendered_patch(repo, commit_id, ignore_patterns@, s@));
    }
    s
}

} // verus!
