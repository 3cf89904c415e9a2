//! The abstract model of the history graph the pipelines operate on:
//! immutable commits with a content identifier, a stable change identity,
//! first-class parent links, a tree snapshot, and a description. The storage
//! collaborator that persists the real graph lives outside the library; the
//! pipelines' decisions are made, and proved, over this model.
use vstd::prelude::*;

use crate::text::seq_char_lt;

verus! {

/// One file of a tree snapshot: a path in internal representation and the
/// file's text.
pub struct FileEntry {
    pub path: String,
    pub content: String,
}

/// A content-addressed snapshot of the file hierarchy at a commit.
pub struct Tree {
    pub files: Vec<FileEntry>,
}

/// The content of the first entry for `path` in `files`, if any.
pub open spec fn lookup_in(files: Seq<FileEntry>, path: Seq<char>) -> Option<Seq<char>>
    decreases files.len(),
{
    if files.len() == 0 {
        None
    } else if files[0].path@ == path {
        Some(files[0].content@)
    } else {
        lookup_in(files.drop_first(), path)
    }
}

/// The text a diff sees for `path`: the file's content, or empty when the
/// path is absent.
pub open spec fn resolved_in(files: Seq<FileEntry>, path: Seq<char>) -> Seq<char> {
    match lookup_in(files, path) {
        Some(c) => c,
        None => Seq::empty(),
    }
}

pub proof fn lemma_lookup_absent(files: Seq<FileEntry>, path: Seq<char>)
    requires
        forall|k: int| 0 <= k < files.len() ==> (#[trigger] files[k].path@) != path,
    ensures
        lookup_in(files, path) is None,
    decreases files.len(),
{
    if files.len() > 0 {
        assert(files[0].path@ != path);
        assert forall|k: int| 0 <= k < files.drop_first().len() implies (#[trigger] files.drop_first()[
            k
        ].path@) != path by {
            assert(files.drop_first()[k] == files[k + 1]);
        }
        lemma_lookup_absent(files.drop_first(), path);
    }
}

pub proof fn lemma_lookup_found(files: Seq<FileEntry>, path: Seq<char>, idx: int)
    requires
        0 <= idx < files.len(),
        files[idx].path@ == path,
        forall|k: int| 0 <= k < idx ==> (#[trigger] files[k].path@) != path,
    ensures
        lookup_in(files, path) == Some(files[idx].content@),
    decreases files.len(),
{
    if idx > 0 {
        assert(files[0].path@ != path);
        assert forall|k: int| 0 <= k < idx - 1 implies (#[trigger] files.drop_first()[k].path@)
            != path by {
            assert(files.drop_first()[k] == files[k + 1]);
        }
        assert(files.drop_first()[idx - 1] == files[idx]);
        lemma_lookup_found(files.drop_first(), path, idx - 1);
    }
}

impl Tree {
    /// Well-formed: paths strictly ascending, hence unique.
    pub open spec fn wf(&self) -> bool {
        forall|i: int, j: int|
            0 <= i < j < self.files@.len() ==> seq_char_lt(
                (#[trigger] self.files@[i]).path@,
                (#[trigger] self.files@[j]).path@,
            )
    }

    /// The content stored for `path`, if any.
    pub open spec fn lookup(&self, path: Seq<char>) -> Option<Seq<char>> {
        lookup_in(self.files@, path)
    }

    /// Trees that store the same content at every path.
    pub open spec fn same_as(&self, other: &Tree) -> bool {
        forall|p: Seq<char>| #[trigger] self.lookup(p) == other.lookup(p)
    }

    /// An empty snapshot, the base tree of a root commit.
    pub fn empty() -> (t: Tree)
        ensures
            t.files@.len() == 0,
            t.wf(),
    {
        Tree { files: Vec::new() }
    }
}

/// The parent `commits[i].parents[k]` is stored at a position before `i`.
pub open spec fn parent_stored_before(commits: Seq<CommitRecord>, i: int, k: int) -> bool {
    exists|j: int| 0 <= j < i && (#[trigger] commits[j]).id == commits[i].parents@[k]
}

/// An immutable node of the history graph.
pub struct CommitRecord {
    /// Content identifier; changes on every rewrite.
    pub id: u64,
    /// Change identity; survives rewrites.
    pub change_id: u64,
    /// Content identifiers of the parents, first parent first.
    pub parents: Vec<u64>,
    /// Snapshot of the files at this commit.
    pub tree: Tree,
    /// The description under rewrite by this library.
    pub description: String,
}

/// The history graph, stored parents-before-children, with the current
/// working position.
pub struct RepoModel {
    /// All commits, topologically ordered: parents stand at lower indices.
    pub commits: Vec<CommitRecord>,
    /// Content identifier of the working-copy commit.
    pub working_copy: u64,
    /// Strict upper bound on all identifiers in use; fresh ones are drawn
    /// from here.
    pub next_id: u64,
}

impl RepoModel {
    /// Whether some commit carries the identifier `id`.
    pub open spec fn has_commit(&self, id: u64) -> bool {
        exists|i: int| 0 <= i < self.commits@.len() && (#[trigger] self.commits@[i]).id == id
    }

    /// The position of the commit with identifier `id`.
    pub open spec fn spec_index_of(&self, id: u64) -> int {
        choose|i: int| 0 <= i < self.commits@.len() && (#[trigger] self.commits@[i]).id == id
    }

    /// The commit with identifier `id`.
    pub open spec fn spec_commit(&self, id: u64) -> CommitRecord {
        self.commits@[self.spec_index_of(id)]
    }

    /// Well-formed: identifiers and change identities unique, parents stored
    /// before children, the working position present, identifiers below
    /// `next_id`, and every tree well-formed.
    pub open spec fn wf(&self) -> bool {
        &&& forall|i: int, j: int|
            0 <= i < j < self.commits@.len() ==> (#[trigger] self.commits@[i]).id != (
            #[trigger] self.commits@[j]).id
        &&& forall|i: int, j: int|
            0 <= i < j < self.commits@.len() ==> (#[trigger] self.commits@[i]).change_id != (
            #[trigger] self.commits@[j]).change_id
        &&& forall|i: int, k: int|
            0 <= i < self.commits@.len() && 0 <= k < self.commits@[i].parents@.len()
                ==> #[trigger] parent_stored_before(self.commits@, i, k)
        &&& self.has_commit(self.working_copy)
        &&& forall|i: int|
            0 <= i < self.commits@.len() ==> (#[trigger] self.commits@[i]).id < self.next_id
        &&& forall|i: int| 0 <= i < self.commits@.len() ==> (#[trigger] self.commits@[i]).tree.wf()
    }

    /// The files of the base tree at position `i`: the first parent's
    /// snapshot, or an empty tree at a root commit.
    pub open spec fn base_files_of(&self, i: int) -> Seq<FileEntry> {
        if self.commits@[i].parents@.len() == 0 {
            Seq::empty()
        } else {
            self.commits@[self.spec_index_of(self.commits@[i].parents@[0])].tree.files@
        }
    }

    /// Finds the position of the commit with identifier `id`.
    pub fn find_commit(&self, id: u64) -> (r: Option<usize>)
        ensures
            r is Some <==> self.has_commit(id),
            r is Some ==> 0 <= r->0 < self.commits@.len() && self.commits@[r->0 as int].id == id,
            r is Some && self.wf() ==> r->0 == self.spec_index_of(id),
    {
        let n = self.commits.len();
        let mut i: usize = 0;
        while i < n
            invariant
                0 <= i <= n,
                n == self.commits@.len(),
                forall|k: int| 0 <= k < i ==> (#[trigger] self.commits@[k]).id != id,
            decreases n - i,
        {
            if self.commits[i].id == id {
                proof {
                    if self.wf() {
                        let j = self.spec_index_of(id);
                        assert(0 <= j < self.commits@.len() && self.commits@[j].id == id);
                    }
                }
                return Some(i);
            }
            i += 1;
        }
        None
    }
}

/// In a well-formed graph, a parent is stored before its child.
pub proof fn lemma_parent_index_lt(repo: &RepoModel, i: int, k: int)
    requires
        repo.wf(),
        0 <= i < repo.commits@.len(),
        0 <= k < repo.commits@[i].parents@.len(),
    ensures
        repo.has_commit(repo.commits@[i].parents@[k]),
        repo.spec_index_of(repo.commits@[i].parents@[k]) < i,
        repo.commits@[repo.spec_index_of(repo.commits@[i].parents@[k])].id
            == repo.commits@[i].parents@[k],
{
    let pid = repo.commits@[i].parents@[k];
    assert(parent_stored_before(repo.commits@, i, k));
    let j = choose|j: int| 0 <= j < i && (#[trigger] repo.commits@[j]).id == pid;
    assert(repo.has_commit(pid));
    let gi = repo.spec_index_of(pid);
    assert(0 <= gi < repo.commits@.len() && repo.commits@[gi].id == pid);
    if gi != j {
        assert(repo.commits@[gi].id != repo.commits@[j].id);
    }
}

} // verus!
