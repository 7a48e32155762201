//! The repository: working tree, staging area, commit graph, references,
//! object store and version store, as one in-memory state.
//!
//! `wf` is the cross-structure invariant every operation preserves: stored
//! nodes hash to their keys, every branch and HEAD resolve, every commit's
//! parents sit strictly earlier in the append-only commit list (so the
//! graph is acyclic by construction), and every tree entry's bytes are in
//! the version store unless the repository is shallow.

use vstd::prelude::*;

use crate::assoc::assoc_find;
use crate::assoc::assoc_index;
use crate::assoc::keys_unique;
use crate::assoc::lemma_assoc_first_hit;
use crate::assoc::lemma_assoc_index;
use crate::assoc::lemma_assoc_push;
use crate::assoc::lemma_assoc_remove;
use crate::error::OxenError;
use crate::model::Branch;
use crate::model::BranchV;
use crate::model::Commit;
use crate::model::CommitV;
use crate::model::CommitEntryV;
use crate::model::Head;
use crate::model::HeadV;
use crate::model::StagedEntry;
use crate::model::StagedEntryV;
use crate::model::branch_at;
use crate::model::branch_exists;
use crate::model::branch_index_of;
use crate::model::commit_at;
use crate::model::commit_exists;
use crate::model::commit_index_of;
use crate::model::lemma_branch_index_of;
use crate::model::lemma_commit_index_of;
use crate::objects::ObjectRecord;
use crate::objects::ObjectRecordV;
use crate::objects::VersionRecord;
use crate::objects::VersionRecordV;
use crate::objects::commit_tree_wf;
use crate::objects::objects_wf;
use crate::objects::tree_entries;
use crate::objects::versions_wf;

verus! {

/// One file of the working tree.
#[derive(Debug)]
pub struct WorkingFile {
    pub path: String,
    pub data: Vec<u8>,
}

pub ghost struct WorkingFileV {
    pub path: Seq<char>,
    pub data: Seq<u8>,
}

impl View for WorkingFile {
    type V = WorkingFileV;

    open spec fn view(&self) -> WorkingFileV {
        WorkingFileV { path: self.path@, data: self.data@ }
    }
}

impl DeepView for WorkingFile {
    type V = WorkingFileV;

    open spec fn deep_view(&self) -> WorkingFileV {
        self.view()
    }
}

/// A branch write lock and the session that holds it.
#[derive(Debug)]
pub struct BranchLock {
    pub branch: String,
    pub holder: String,
}

pub ghost struct BranchLockV {
    pub branch: Seq<char>,
    pub holder: Seq<char>,
}

impl View for BranchLock {
    type V = BranchLockV;

    open spec fn view(&self) -> BranchLockV {
        BranchLockV { branch: self.branch@, holder: self.holder@ }
    }
}

impl DeepView for BranchLock {
    type V = BranchLockV;

    open spec fn deep_view(&self) -> BranchLockV {
        self.view()
    }
}

pub open spec fn working_key() -> spec_fn(WorkingFileV) -> Seq<char> {
    |w: WorkingFileV| w.path
}

pub open spec fn staged_key() -> spec_fn(StagedEntryV) -> Seq<char> {
    |e: StagedEntryV| e.path
}

pub open spec fn entry_key() -> spec_fn(CommitEntryV) -> Seq<char> {
    |e: CommitEntryV| e.path
}

pub open spec fn lock_key() -> spec_fn(BranchLockV) -> Seq<char> {
    |l: BranchLockV| l.branch
}

/// The working-tree bytes at a path.
pub open spec fn working_at(w: Seq<WorkingFileV>, p: Seq<char>) -> Option<Seq<u8>> {
    match assoc_find(w, working_key(), p) {
        Some(f) => Some(f.data),
        None => None,
    }
}

/// The staged entry at a path.
pub open spec fn staged_at(s: Seq<StagedEntryV>, p: Seq<char>) -> Option<StagedEntryV> {
    assoc_find(s, staged_key(), p)
}

/// The first listed entry at a path.
pub open spec fn entry_find(es: Seq<CommitEntryV>, p: Seq<char>) -> Option<CommitEntryV> {
    assoc_find(es, entry_key(), p)
}

/// The lock on a branch, if any.
pub open spec fn lock_at(ls: Seq<BranchLockV>, b: Seq<char>) -> Option<BranchLockV> {
    assoc_find(ls, lock_key(), b)
}

/// The whole engine state.
#[derive(Debug)]
pub struct Repository {
    pub working: Vec<WorkingFile>,
    pub staged: Vec<StagedEntry>,
    pub staged_dirs: Vec<String>,
    pub commits: Vec<Commit>,
    pub branches: Vec<Branch>,
    pub head: Head,
    pub objects: Vec<ObjectRecord>,
    pub versions: Vec<VersionRecord>,
    pub locks: Vec<BranchLock>,
    pub shallow: bool,
    /// Monotone logical clock stamped onto new commits.
    pub clock: u64,
    pub author: String,
    pub email: String,
    /// The identity this process commits and locks under.
    pub session: String,
}

impl Repository {
    /// Where HEAD resolves to, as a commit view.
    pub open spec fn head_commit_spec(self) -> Option<CommitV> {
        match self.head@ {
            HeadV::Branch(n) => if branch_exists(self.branches@, n) {
                let b = branch_at(self.branches@, n);
                if commit_exists(self.commits@, b.commit_id@) {
                    Some(commit_at(self.commits@, b.commit_id@)@)
                } else {
                    None
                }
            } else {
                None
            },
            HeadV::Detached(id) => if commit_exists(self.commits@, id) {
                Some(commit_at(self.commits@, id)@)
            } else {
                None
            },
            HeadV::Unborn(_) => None,
        }
    }

    /// The cross-structure well-formedness invariant.
    pub open spec fn wf(self) -> bool {
        &&& objects_wf(self.objects.deep_view())
        &&& versions_wf(self.versions.deep_view())
        &&& keys_unique(self.working.deep_view(), working_key())
        &&& keys_unique(self.staged.deep_view(), staged_key())
        &&& keys_unique(self.locks.deep_view(), lock_key())
        &&& (forall|i: int, j: int|
            0 <= i < j < self.commits@.len() ==> (#[trigger] self.commits@[i])@.id != (
            #[trigger] self.commits@[j])@.id)
        &&& (forall|i: int, k: int|
            0 <= i < self.commits@.len() && 0 <= k < (
            #[trigger] self.commits@[i])@.parent_ids.len() ==> commit_exists(
                self.commits@.subrange(0, i),
                #[trigger] self.commits@[i]@.parent_ids[k],
            ))
        &&& (forall|i: int, j: int|
            0 <= i < j < self.branches@.len() ==> (#[trigger] self.branches@[i])@.name != (
            #[trigger] self.branches@[j])@.name)
        &&& (forall|i: int|
            0 <= i < self.branches@.len() ==> commit_exists(
                self.commits@,
                (#[trigger] self.branches@[i])@.commit_id,
            ))
        &&& match self.head@ {
            HeadV::Branch(n) => branch_exists(self.branches@, n),
            HeadV::Detached(id) => commit_exists(self.commits@, id),
            HeadV::Unborn(_) => true,
        }
        &&& (forall|i: int|
            0 <= i < self.commits@.len() ==> commit_tree_wf(
                self.objects.deep_view(),
                self.versions.deep_view(),
                (#[trigger] self.commits@[i])@.root_tree_hash,
                self.shallow,
            ))
    }

    /// A bare repository: no commits, no branches, HEAD on an unborn
    /// default branch, empty working tree and staging area.
    pub fn empty(author: String, email: String, session: String) -> (r: Repository)
        ensures
            r.wf(),
            r.commits@.len() == 0,
            r.branches@.len() == 0,
            r.working@.len() == 0,
            r.staged@.len() == 0,
            r.staged_dirs@.len() == 0,
            r.head@ == HeadV::Unborn("main"@),
            r.objects@.len() == 0,
            r.versions@.len() == 0,
            r.locks@.len() == 0,
            !r.shallow,
            r.author == author,
            r.email == email,
            r.session == session,
            r.clock == 0,
    {
        Repository {
            working: Vec::new(),
            staged: Vec::new(),
            staged_dirs: Vec::new(),
            commits: Vec::new(),
            branches: Vec::new(),
            head: Head::Unborn("main".to_owned()),
            objects: Vec::new(),
            versions: Vec::new(),
            locks: Vec::new(),
            shallow: false,
            clock: 0,
            author,
            email,
            session,
        }
    }

    /// The working-tree bytes at a path.
    pub fn read_file(&self, path: &str) -> (r: Option<&Vec<u8>>)
        ensures
            match r {
                Some(b) => working_at(self.working.deep_view(), path@) == Some(b@),
                None => working_at(self.working.deep_view(), path@) is None,
            },
    {
        let ghost wv = self.working.deep_view();
        proof {
            lemma_assoc_index(wv, working_key(), path@);
        }
        let mut i: usize = 0;
        while i < self.working.len()
            invariant
                0 <= i <= self.working@.len(),
                wv == self.working.deep_view(),
                wv.len() == self.working@.len(),
                forall|k: int| 0 <= k < i ==> working_key()(#[trigger] wv[k]) != path@,
            decreases self.working@.len() - i,
        {
            if crate::data_type::str_eq(self.working[i].path.as_str(), path) {
                proof {
                    assert(working_key()(wv[i as int]) == path@);
                    lemma_assoc_first_hit(wv, working_key(), path@, i as int);
                }
                return Some(&self.working[i].data);
            }
            proof {
                assert(working_key()(wv[i as int]) == wv[i as int].path);
            }
            i = i + 1;
        }
        None
    }

    /// Write a file into the working tree, replacing any previous content.
    pub fn write_file(&mut self, path: &str, data: Vec<u8>)
        requires
            old(self).wf(),
        ensures
            final(self).wf(),
            working_at(final(self).working.deep_view(), path@) == Some(data@),
            forall|p: Seq<char>|
                p != path@ ==> working_at(final(self).working.deep_view(), p) == working_at(
                    old(self).working.deep_view(),
                    p,
                ),
            final(self).staged == old(self).staged,
            final(self).staged_dirs == old(self).staged_dirs,
            final(self).commits == old(self).commits,
            final(self).branches == old(self).branches,
            final(self).head == old(self).head,
            final(self).objects == old(self).objects,
            final(self).versions == old(self).versions,
            final(self).locks == old(self).locks,
            final(self).shallow == old(self).shallow,
            final(self).clock == old(self).clock,
            final(self).author == old(self).author,
            final(self).email == old(self).email,
            final(self).session == old(self).session,
    {
        let ghost wv0 = self.working.deep_view();
        proof {
            lemma_assoc_index(wv0, working_key(), path@);
        }
        let idx_opt = working_index(&self.working, path);
        match idx_opt {
            Some(idx) => {
                self.working.remove(idx);
                proof {
                    let wv1 = self.working.deep_view();
                    assert(wv1 =~= wv0.remove(
                        assoc_index(wv0, working_key(), path@),
                    ));
                    lemma_assoc_remove(
                        wv0,
                        working_key(),
                        assoc_index(wv0, working_key(), path@),
                        path@,
                    );
                    assert forall|p: Seq<char>| p != path@ implies assoc_find(
                        wv1,
                        working_key(),
                        p,
                    ) == assoc_find(wv0, working_key(), p) by {
                        lemma_assoc_remove(
                            wv0,
                            working_key(),
                            assoc_index(wv0, working_key(), path@),
                            p,
                        );
                    }
                    assert forall|i: int, j: int|
                        0 <= i < j < wv1.len() implies working_key()(#[trigger] wv1[i])
                        != working_key()(#[trigger] wv1[j]) by {
                        let del = assoc_index(wv0, working_key(), path@);
                        let i0: int = if i < del { i } else { i + 1 };
                        let j0: int = if j < del { j } else { j + 1 };
                        assert(wv1[i] == wv0[i0]);
                        assert(wv1[j] == wv0[j0]);
                    }
                }
            },
            None => {},
        }
        let ghost wv2 = self.working.deep_view();
        let wf_new = WorkingFile { path: path.to_owned(), data };
        let ghost fv = wf_new@;
        self.working.push(wf_new);
        proof {
            assert(self.working.deep_view() =~= wv2.push(fv));
            lemma_assoc_index(wv2, working_key(), path@);
            lemma_assoc_push(wv2, working_key(), fv, path@);
            assert(working_key()(fv) == path@);
            assert forall|p: Seq<char>| p != path@ implies working_at(
                self.working.deep_view(),
                p,
            ) == working_at(old(self).working.deep_view(), p) by {
                lemma_assoc_push(wv2, working_key(), fv, p);
            }
            assert forall|i: int, j: int|
                0 <= i < j < self.working.deep_view().len() implies working_key()(
                #[trigger] self.working.deep_view()[i]) != working_key()(
                #[trigger] self.working.deep_view()[j]) by {
                let wv3 = self.working.deep_view();
                if j == wv3.len() - 1 {
                    assert(wv3[j] == fv);
                    assert(wv3[i] == wv2[i]);
                    lemma_assoc_index(wv2, working_key(), path@);
                } else {
                    assert(wv3[i] == wv2[i]);
                    assert(wv3[j] == wv2[j]);
                }
            }
        }
    }

    /// Remove a file from the working tree if it is there.
    pub fn remove_working_file(&mut self, path: &str)
        requires
            old(self).wf(),
        ensures
            final(self).wf(),
            working_at(final(self).working.deep_view(), path@) is None,
            forall|p: Seq<char>|
                p != path@ ==> working_at(final(self).working.deep_view(), p) == working_at(
                    old(self).working.deep_view(),
                    p,
                ),
            final(self).staged == old(self).staged,
            final(self).staged_dirs == old(self).staged_dirs,
            final(self).commits == old(self).commits,
            final(self).branches == old(self).branches,
            final(self).head == old(self).head,
            final(self).objects == old(self).objects,
            final(self).versions == old(self).versions,
            final(self).locks == old(self).locks,
            final(self).shallow == old(self).shallow,
            final(self).clock == old(self).clock,
            final(self).author == old(self).author,
            final(self).email == old(self).email,
            final(self).session == old(self).session,
    {
        let ghost wv0 = self.working.deep_view();
        proof {
            lemma_assoc_index(wv0, working_key(), path@);
        }
        let idx_opt = working_index(&self.working, path);
        match idx_opt {
            Some(idx) => {
                self.working.remove(idx);
                proof {
                    let wv1 = self.working.deep_view();
                    let del = assoc_index(wv0, working_key(), path@);
                    assert(wv1 =~= wv0.remove(del));
                    lemma_assoc_remove(wv0, working_key(), del, path@);
                    assert forall|p: Seq<char>| p != path@ implies assoc_find(
                        wv1,
                        working_key(),
                        p,
                    ) == assoc_find(wv0, working_key(), p) by {
                        lemma_assoc_remove(wv0, working_key(), del, p);
                    }
                    assert forall|i: int, j: int|
                        0 <= i < j < wv1.len() implies working_key()(#[trigger] wv1[i])
                        != working_key()(#[trigger] wv1[j]) by {
                        let i0: int = if i < del { i } else { i + 1 };
                        let j0: int = if j < del { j } else { j + 1 };
                        assert(wv1[i] == wv0[i0]);
                        assert(wv1[j] == wv0[j0]);
                    }
                }
            },
            None => {},
        }
    }

    /// The commit HEAD resolves to, if any.
    pub fn head_commit(&self) -> (r: Option<Commit>)
        ensures
            match r {
                Some(c) => self.head_commit_spec() == Some(c@),
                None => self.head_commit_spec() is None,
            },
    {
        match &self.head {
            Head::Branch(n) => {
                let b = match find_branch(&self.branches, n.as_str()) {
                    Some(b) => b,
                    None => { return None; },
                };
                find_commit(&self.commits, b.commit_id.as_str())
            },
            Head::Detached(id) => find_commit(&self.commits, id.as_str()),
            Head::Unborn(_) => None,
        }
    }

    /// The branch HEAD sits on, if HEAD names an existing branch.
    pub fn current_branch(&self) -> (r: Option<Branch>)
        ensures
            match r {
                Some(b) => match self.head@ {
                    HeadV::Branch(n) => branch_exists(self.branches@, n) && b@ == branch_at(
                        self.branches@,
                        n,
                    )@,
                    _ => false,
                },
                None => match self.head@ {
                    HeadV::Branch(n) => !branch_exists(self.branches@, n),
                    _ => true,
                },
            },
    {
        match &self.head {
            Head::Branch(n) => {
                match find_branch(&self.branches, n.as_str()) {
                    Some(b) => Some(b.clone()),
                    None => None,
                }
            },
            _ => None,
        }
    }

    /// Every branch, in creation order.
    pub fn list_branches(&self) -> (r: Vec<Branch>)
        ensures
            r.deep_view() =~= self.branches.deep_view(),
    {
        let mut out: Vec<Branch> = Vec::new();
        let mut i: usize = 0;
        while i < self.branches.len()
            invariant
                0 <= i <= self.branches@.len(),
                out.deep_view() =~= self.branches.deep_view().subrange(0, i as int),
            decreases self.branches@.len() - i,
        {
            let ghost prev = out.deep_view();
            let b = self.branches[i].clone();
            proof {
                assert(b@ == self.branches.deep_view()[i as int]);
            }
            out.push(b);
            proof {
                assert(out.deep_view() =~= prev.push(self.branches.deep_view()[i as int]));
                assert(out.deep_view() =~= self.branches.deep_view().subrange(
                    0,
                    i as int + 1,
                ));
            }
            i = i + 1;
        }
        proof {
            assert(self.branches.deep_view().subrange(0, self.branches.deep_view().len() as int)
                =~= self.branches.deep_view());
        }
        out
    }
}

/// The index of the working file at a path.
fn working_index(working: &Vec<WorkingFile>, path: &str) -> (r: Option<usize>)
    ensures
        match r {
            Some(i) => i < working@.len() && assoc_index(
                working.deep_view(),
                working_key(),
                path@,
            ) == i as int,
            None => assoc_index(working.deep_view(), working_key(), path@) == -1,
        },
{
    let ghost wv = working.deep_view();
    proof {
        lemma_assoc_index(wv, working_key(), path@);
    }
    let mut i: usize = 0;
    while i < working.len()
        invariant
            0 <= i <= working@.len(),
            wv == working.deep_view(),
            wv.len() == working@.len(),
            forall|k: int| 0 <= k < i ==> working_key()(#[trigger] wv[k]) != path@,
        decreases working@.len() - i,
    {
        if crate::data_type::str_eq(working[i].path.as_str(), path) {
            proof {
                assert(working_key()(wv[i as int]) == path@);
                lemma_assoc_first_hit(wv, working_key(), path@, i as int);
            }
            return Some(i);
        }
        proof {
            assert(working_key()(wv[i as int]) == wv[i as int].path);
        }
        i = i + 1;
    }
    None
}

/// The branch with this name.
pub fn find_branch<'a>(branches: &'a Vec<Branch>, name: &str) -> (r: Option<&'a Branch>)
    ensures
        match r {
            Some(b) => branch_exists(branches@, name@) && b@ == branch_at(branches@, name@)@
                && b.name@ == name@,
            None => !branch_exists(branches@, name@),
        },
{
    proof {
        lemma_branch_index_of(branches@, name@);
    }
    let mut i: usize = 0;
    while i < branches.len()
        invariant
            0 <= i <= branches@.len(),
            forall|k: int| 0 <= k < i ==> (#[trigger] branches@[k]).name@ != name@,
        decreases branches@.len() - i,
    {
        if crate::data_type::str_eq(branches[i].name.as_str(), name) {
            proof {
                lemma_branch_first_hit(branches@, name@, i as int);
            }
            return Some(&branches[i]);
        }
        i = i + 1;
    }
    None
}

proof fn lemma_branch_first_hit(branches: Seq<Branch>, name: Seq<char>, i: int)
    requires
        0 <= i < branches.len(),
        branches[i].name@ == name,
        forall|k: int| 0 <= k < i ==> (#[trigger] branches[k]).name@ != name,
    ensures
        branch_index_of(branches, name) == i,
    decreases i,
{
    lemma_branch_index_of(branches, name);
    if branches[0].name@ != name {
        lemma_branch_first_hit(branches.drop_first(), name, i - 1);
        assert(forall|k: int|
            1 <= k < branches.len() ==> branches[k] == branches.drop_first()[k - 1]);
    }
}

/// The commit with this id.
pub fn find_commit(commits: &Vec<Commit>, id: &str) -> (r: Option<Commit>)
    ensures
        match r {
            Some(c) => commit_exists(commits@, id@) && c@ == commit_at(commits@, id@)@,
            None => !commit_exists(commits@, id@),
        },
{
    proof {
        lemma_commit_index_of(commits@, id@);
    }
    let mut i: usize = 0;
    while i < commits.len()
        invariant
            0 <= i <= commits@.len(),
            forall|k: int| 0 <= k < i ==> (#[trigger] commits@[k]).id@ != id@,
        decreases commits@.len() - i,
    {
        if crate::data_type::str_eq(commits[i].id.as_str(), id) {
            proof {
                lemma_commit_first_hit(commits@, id@, i as int);
            }
            return Some(commits[i].clone());
        }
        i = i + 1;
    }
    None
}

proof fn lemma_commit_first_hit(commits: Seq<Commit>, id: Seq<char>, i: int)
    requires
        0 <= i < commits.len(),
        commits[i].id@ == id,
        forall|k: int| 0 <= k < i ==> (#[trigger] commits[k]).id@ != id,
    ensures
        commit_index_of(commits, id) == i,
    decreases i,
{
    lemma_commit_index_of(commits, id);
    if commits[0].id@ != id {
        lemma_commit_first_hit(commits.drop_first(), id, i - 1);
        assert(forall|k: int|
            1 <= k < commits.len() ==> commits[k] == commits.drop_first()[k - 1]);
    }
}

} // verus!

verus! {

impl Repository {
    /// Initialize a repository: an empty working tree and staging area, no
    /// commits, and HEAD on the unborn default branch.  History stays empty
    /// until the first commit, which is the user's.
    pub fn init(author: String, email: String, session: String) -> (r: Result<
        Repository,
        OxenError,
    >)
        ensures
            r is Ok,
            match r {
                Ok(repo) => {
                    &&& repo.wf()
                    &&& repo.commits@.len() == 0
                    &&& repo.branches@.len() == 0
                    &&& repo.head@ == HeadV::Unborn("main"@)
                    &&& repo.working@.len() == 0
                    &&& repo.staged@.len() == 0
                    &&& repo.staged_dirs@.len() == 0
                    &&& repo.locks@.len() == 0
                    &&& repo.objects@.len() == 0
                    &&& repo.versions@.len() == 0
                    &&& !repo.shallow
                    &&& repo.clock == 0
                    &&& repo.author@ == author@
                    &&& repo.email@ == email@
                    &&& repo.session@ == session@
                },
                Err(_) => false,
            },
    {
        Ok(Repository::empty(author, email, session))
    }

    /// Create a branch at the current head commit.  Fails with NotFound
    /// when there is no commit yet and with Invalid when the name is
    /// taken.
    pub fn create_branch(&mut self, name: &str) -> (r: Result<Branch, OxenError>)
        requires
            old(self).wf(),
        ensures
            final(self).wf(),
            match r {
                Ok(b) => {
                    &&& old(self).head_commit_spec() matches Some(h)
                    &&& !branch_exists(old(self).branches@, name@)
                    &&& b@.name == name@
                    &&& (old(self).head_commit_spec() matches Some(h) ==> b@.commit_id == h.id)
                    &&& final(self).branches@.len() == old(self).branches@.len() + 1
                    &&& final(self).branches@[final(self).branches@.len() - 1]@ == b@
                    &&& forall|i: int|
                        0 <= i < old(self).branches@.len() ==> final(self).branches@[i] == old(
                            self,
                        ).branches@[i]
                    &&& final(self).commits == old(self).commits
                    &&& final(self).head == old(self).head
                    &&& final(self).working == old(self).working
                    &&& final(self).staged == old(self).staged
                    &&& final(self).staged_dirs == old(self).staged_dirs
                    &&& final(self).objects == old(self).objects
                    &&& final(self).versions == old(self).versions
                    &&& final(self).locks == old(self).locks
                    &&& final(self).shallow == old(self).shallow
                    &&& final(self).clock == old(self).clock
                },
                Err(e) => {
                    &&& *final(self) == *old(self)
                    &&& (e == OxenError::NotFound <==> old(self).head_commit_spec() is None)
                    &&& (e == OxenError::Invalid ==> branch_exists(old(self).branches@, name@))
                },
            },
    {
        let head = match self.head_commit() {
            Some(c) => c,
            None => { return Err(OxenError::NotFound); },
        };
        match find_branch(&self.branches, name) {
            Some(_) => { return Err(OxenError::Invalid); },
            None => {},
        }
        let b = Branch { name: name.to_owned(), commit_id: head.id.clone() };
        let b2 = b.clone();
        let ghost prev = self.branches@;
        let ghost bsnap = b;
        self.branches.push(b);
        proof {
            assert(self.branches@ =~= prev.push(bsnap));
            assert(bsnap.name@ == name@);
            lemma_branch_index_of(prev, name@);
            assert forall|i: int, j: int|
                0 <= i < j < self.branches@.len() implies (
            #[trigger] self.branches@[i])@.name != (#[trigger] self.branches@[j])@.name by {
                if j == self.branches@.len() - 1 {
                    assert(self.branches@[i] == prev[i]);
                    assert(self.branches@[j] == bsnap);
                } else {
                    assert(self.branches@[i] == prev[i]);
                    assert(self.branches@[j] == prev[j]);
                }
            }
            assert forall|i: int| 0 <= i < self.branches@.len() implies commit_exists(
                self.commits@,
                (#[trigger] self.branches@[i])@.commit_id,
            ) by {
                if i < prev.len() {
                    assert(self.branches@[i] == prev[i]);
                } else {
                    assert(self.branches@[i] == bsnap);
                    lemma_head_commit_exists(*old(self));
                    assert(commit_exists(self.commits@, head.id@));
                }
            }
            match self.head@ {
                HeadV::Branch(n) => {
                    lemma_branch_exists_push(prev, bsnap, n);
                },
                _ => {},
            }
        }
        Ok(b2)
    }

    /// Create a branch at the head commit and move HEAD onto it.
    pub fn create_checkout(&mut self, name: &str) -> (r: Result<Branch, OxenError>)
        requires
            old(self).wf(),
        ensures
            final(self).wf(),
            match r {
                Ok(b) => {
                    &&& old(self).head_commit_spec() matches Some(h) && b@.commit_id == h.id
                    &&& !branch_exists(old(self).branches@, name@)
                    &&& b@.name == name@
                    &&& final(self).head@ == HeadV::Branch(name@)
                    &&& final(self).branches@.len() == old(self).branches@.len() + 1
                    &&& final(self).branches@[final(self).branches@.len() - 1]@ == b@
                    &&& (forall|i: int|
                        0 <= i < old(self).branches@.len() ==> final(self).branches@[i]
                            == old(self).branches@[i])
                    &&& final(self).commits == old(self).commits
                    &&& final(self).working == old(self).working
                    &&& final(self).staged == old(self).staged
                    &&& final(self).staged_dirs == old(self).staged_dirs
                    &&& final(self).objects == old(self).objects
                    &&& final(self).versions == old(self).versions
                    &&& final(self).locks == old(self).locks
                    &&& final(self).shallow == old(self).shallow
                    &&& final(self).clock == old(self).clock
                },
                Err(e) => {
                    &&& *final(self) == *old(self)
                    &&& (e == OxenError::NotFound <==> old(self).head_commit_spec() is None)
                },
            },
    {
        let b = match self.create_branch(name) {
            Ok(b) => b,
            Err(e) => { return Err(e); },
        };
        self.head = Head::Branch(name.to_owned());
        proof {
            lemma_branch_index_of(self.branches@, name@);
            assert(self.branches@[self.branches@.len() - 1]@.name == name@);
            if branch_index_of(self.branches@, name@) == -1 {
                assert(self.branches@[self.branches@.len() - 1]@.name != name@);
            }
            assert(branch_exists(self.branches@, name@));
        }
        Ok(b)
    }

    /// Create a branch and check it out, as one step.
    pub fn create_checkout_branch(&mut self, name: &str) -> (r: Result<Branch, OxenError>)
        requires
            old(self).wf(),
        ensures
            final(self).wf(),
            match r {
                Ok(b) => {
                    &&& old(self).head_commit_spec() matches Some(h) && b@.commit_id == h.id
                    &&& !branch_exists(old(self).branches@, name@)
                    &&& b@.name == name@
                    &&& final(self).head@ == HeadV::Branch(name@)
                    &&& final(self).branches@.len() == old(self).branches@.len() + 1
                    &&& final(self).branches@[final(self).branches@.len() - 1]@ == b@
                    &&& (forall|i: int|
                        0 <= i < old(self).branches@.len() ==> final(self).branches@[i]
                            == old(self).branches@[i])
                    &&& final(self).commits == old(self).commits
                    &&& final(self).working == old(self).working
                    &&& final(self).staged == old(self).staged
                    &&& final(self).staged_dirs == old(self).staged_dirs
                    &&& final(self).objects == old(self).objects
                    &&& final(self).versions == old(self).versions
                    &&& final(self).locks == old(self).locks
                    &&& final(self).shallow == old(self).shallow
                    &&& final(self).clock == old(self).clock
                },
                Err(e) => *final(self) == *old(self) && (e == OxenError::NotFound <==> old(
                    self,
                ).head_commit_spec() is None),
            },
    {
        self.create_checkout(name)
    }

    /// Delete a branch.  The branch HEAD sits on cannot be deleted.
    pub fn force_delete_branch(&mut self, name: &str) -> (r: Result<Branch, OxenError>)
        requires
            old(self).wf(),
        ensures
            final(self).wf(),
            match r {
                Ok(b) => {
                    &&& b@.name == name@
                    &&& branch_exists(old(self).branches@, name@)
                    &&& b@ == branch_at(old(self).branches@, name@)@
                    &&& !branch_exists(final(self).branches@, name@)
                    &&& !(old(self).head@ matches HeadV::Branch(n) && n == name@)
                    &&& final(self).commits == old(self).commits
                    &&& final(self).head == old(self).head
                    &&& final(self).working == old(self).working
                    &&& final(self).staged == old(self).staged
                    &&& final(self).objects == old(self).objects
                    &&& final(self).versions == old(self).versions
                    &&& final(self).locks == old(self).locks
                    &&& (forall|m: Seq<char>|
                        m != name@ && #[trigger] branch_exists(old(self).branches@, m)
                            ==> branch_exists(final(self).branches@, m) && branch_at(
                            final(self).branches@,
                            m,
                        )@ == branch_at(old(self).branches@, m)@)
                },
                Err(e) => {
                    &&& *final(self) == *old(self)
                    &&& ((e == OxenError::Conflict && (old(self).head@ matches HeadV::Branch(
                        n,
                    ) && n == name@)) || (e == OxenError::NotFound && !branch_exists(
                        old(self).branches@,
                        name@,
                    ) && !(old(self).head@ matches HeadV::Branch(n) && n == name@)))
                },
            },
    {
        match &self.head {
            Head::Branch(n) => {
                if crate::data_type::str_eq(n.as_str(), name) {
                    return Err(OxenError::Conflict);
                }
            },
            _ => {},
        }
        let ghost prev = self.branches@;
        let mut i: usize = 0;
        while i < self.branches.len()
            invariant
                0 <= i <= self.branches@.len(),
                *self == *old(self),
                old(self).wf(),
                prev == self.branches@,
                forall|k: int| 0 <= k < i ==> (#[trigger] prev[k]).name@ != name@,
                match old(self).head@ {
                    HeadV::Branch(n) => n != name@,
                    _ => true,
                },
            decreases self.branches@.len() - i,
        {
            if crate::data_type::str_eq(self.branches[i].name.as_str(), name) {
                let b = self.branches[i].clone();
                self.branches.remove(i);
                proof {
                    assert(self.branches@ =~= prev.remove(i as int));
                    assert forall|m: int, j: int|
                        0 <= m < j < self.branches@.len() implies (
                    #[trigger] self.branches@[m])@.name != (
                    #[trigger] self.branches@[j])@.name by {
                        let m0: int = if m < i { m } else { m + 1 };
                        let j0: int = if j < i { j } else { j + 1 };
                        assert(self.branches@[m] == prev[m0]);
                        assert(self.branches@[j] == prev[j0]);
                    }
                    assert forall|m: int| 0 <= m < self.branches@.len() implies commit_exists(
                        self.commits@,
                        (#[trigger] self.branches@[m])@.commit_id,
                    ) by {
                        let m0: int = if m < i { m } else { m + 1 };
                        assert(self.branches@[m] == prev[m0]);
                    }
                    lemma_branch_index_of(self.branches@, name@);
                    if branch_index_of(self.branches@, name@) >= 0 {
                        let hit = branch_index_of(self.branches@, name@);
                        let h0: int = if hit < i { hit } else { hit + 1 };
                        assert(self.branches@[hit] == prev[h0]);
                        assert(prev[h0].name@ == name@);
                        assert(h0 != i);
                        assert(false);
                    }
                    match self.head@ {
                        HeadV::Branch(n) => {
                            lemma_branch_index_of(prev, n);
                            let hi = branch_index_of(prev, n);
                            assert(prev[hi].name@ == n);
                            assert(hi != i);
                            let hi2: int = if hi < i { hi } else { hi - 1 };
                            assert(self.branches@[hi2] == prev[hi]);
                            lemma_branch_index_of(self.branches@, n);
                            if branch_index_of(self.branches@, n) == -1 {
                                assert(self.branches@[hi2].name@ != n);
                            }
                        },
                        _ => {},
                    }
                    lemma_branch_first_hit(prev, name@, i as int);
                    assert(branch_exists(prev, name@));
                    assert(branch_at(prev, name@) == prev[i as int]);
                    assert forall|m: Seq<char>|
                        m != name@ && #[trigger] branch_exists(prev, m)
                        implies branch_exists(self.branches@, m) && branch_at(
                        self.branches@,
                        m,
                    )@ == branch_at(prev, m)@ by {
                        lemma_branch_index_of(prev, m);
                        let j = branch_index_of(prev, m);
                        assert(prev[j].name@ == m);
                        assert(j != i);
                        let j2: int = if j < i { j } else { j - 1 };
                        assert(self.branches@[j2] == prev[j]);
                        assert forall|q: int| 0 <= q < j2 implies (
                        #[trigger] self.branches@[q]).name@ != m by {
                            let q0: int = if q < i { q } else { q + 1 };
                            assert(self.branches@[q] == prev[q0]);
                            assert(q0 < j);
                        }
                        lemma_branch_first_hit(self.branches@, m, j2);
                    }
                }
                return Ok(b);
            }
            i = i + 1;
        }
        proof {
            lemma_branch_miss_all(prev, name@);
        }
        Err(OxenError::NotFound)
    }

    /// Delete a branch, refusing the one HEAD sits on.
    pub fn delete_branch(&mut self, name: &str) -> (r: Result<Branch, OxenError>)
        requires
            old(self).wf(),
        ensures
            final(self).wf(),
            match r {
                Ok(b) => {
                    &&& b@.name == name@
                    &&& branch_exists(old(self).branches@, name@)
                    &&& b@ == branch_at(old(self).branches@, name@)@
                    &&& !branch_exists(final(self).branches@, name@)
                    &&& !(old(self).head@ matches HeadV::Branch(n) && n == name@)
                    &&& final(self).commits == old(self).commits
                    &&& final(self).head == old(self).head
                    &&& final(self).working == old(self).working
                    &&& final(self).staged == old(self).staged
                    &&& (forall|m: Seq<char>|
                        m != name@ && #[trigger] branch_exists(old(self).branches@, m)
                            ==> branch_exists(final(self).branches@, m) && branch_at(
                            final(self).branches@,
                            m,
                        )@ == branch_at(old(self).branches@, m)@)
                },
                Err(e) => {
                    &&& *final(self) == *old(self)
                    &&& ((e == OxenError::Conflict && (old(self).head@ matches HeadV::Branch(
                        n,
                    ) && n == name@)) || (e == OxenError::NotFound && !branch_exists(
                        old(self).branches@,
                        name@,
                    ) && !(old(self).head@ matches HeadV::Branch(n) && n == name@)))
                },
            },
    {
        self.force_delete_branch(name)
    }

    /// Rename the branch HEAD sits on.  Fails with NotFound when HEAD is
    /// not on a born branch and Invalid when the new name is taken.
    pub fn rename_current_branch(&mut self, new_name: &str) -> (r: Result<Branch, OxenError>)
        requires
            old(self).wf(),
        ensures
            final(self).wf(),
            match r {
                Ok(b) => {
                    &&& b@.name == new_name@
                    &&& final(self).head@ == HeadV::Branch(new_name@)
                    &&& branch_exists(final(self).branches@, new_name@)
                    &&& (old(self).head@ matches HeadV::Branch(n) ==> !branch_exists(
                        final(self).branches@,
                        n,
                    ) || n == new_name@)
                    &&& final(self).commits == old(self).commits
                    &&& final(self).working == old(self).working
                    &&& final(self).staged == old(self).staged
                    &&& (old(self).head@ matches HeadV::Branch(n) ==> b@.commit_id
                        == branch_at(old(self).branches@, n)@.commit_id)
                },
                Err(e) => {
                    &&& *final(self) == *old(self)
                    &&& ((e == OxenError::NotFound && !(old(self).head@ matches HeadV::Branch(
                        nn,
                    ))) || (e == OxenError::Invalid && (old(self).head@ matches HeadV::Branch(
                        nn,
                    ) && nn != new_name@ && branch_exists(old(self).branches@, new_name@))))
                },
            },
    {
        let cur_name = match &self.head {
            Head::Branch(n) => n.clone(),
            _ => { return Err(OxenError::NotFound); },
        };
        if !crate::data_type::str_eq(cur_name.as_str(), new_name) {
            match find_branch(&self.branches, new_name) {
                Some(_) => { return Err(OxenError::Invalid); },
                None => {},
            }
        } else {
            proof {
                lemma_branch_index_of(self.branches@, new_name@);
            }
            let b = match find_branch(&self.branches, new_name) {
                Some(b) => b.clone(),
                None => { return Err(OxenError::NotFound); },
            };
            return Ok(b);
        }
        let cur = match self.force_delete_branch_for_rename(cur_name.as_str()) {
            Ok(b) => b,
            Err(e) => { return Err(e); },
        };
        let nb = Branch { name: new_name.to_owned(), commit_id: cur.commit_id };
        let nb2 = nb.clone();
        let ghost prev = self.branches@;
        let ghost nbsnap = nb;
        self.branches.push(nb);
        self.head = Head::Branch(new_name.to_owned());
        proof {
            assert(self.branches@ =~= prev.push(nbsnap));
            assert(nbsnap.name@ == new_name@);
            lemma_branch_index_of(old(self).branches@, new_name@);
            assert forall|k: int| 0 <= k < prev.len() implies (
            #[trigger] prev[k]).name@ != new_name@ by {
                let j0 = choose|j0: int|
                    0 <= j0 < old(self).branches@.len() && prev[k] == old(self).branches@[j0];
                assert(old(self).branches@[j0].name@ != new_name@);
            }
            assert forall|i: int, j: int|
                0 <= i < j < self.branches@.len() implies (
            #[trigger] self.branches@[i])@.name != (#[trigger] self.branches@[j])@.name by {
                if j == self.branches@.len() - 1 {
                    assert(self.branches@[i] == prev[i]);
                    assert(self.branches@[j] == nbsnap);
                } else {
                    assert(self.branches@[i] == prev[i]);
                    assert(self.branches@[j] == prev[j]);
                }
            }
            assert forall|i: int| 0 <= i < self.branches@.len() implies commit_exists(
                self.commits@,
                (#[trigger] self.branches@[i])@.commit_id,
            ) by {
                if i < prev.len() {
                    assert(self.branches@[i] == prev[i]);
                } else {
                    assert(self.branches@[i] == nbsnap);
                    assert(nbsnap.commit_id@ == cur.commit_id@);
                }
            }
            lemma_branch_exists_last(self.branches@, new_name@);
            lemma_branch_index_of(self.branches@, cur_name@);
            if cur_name@ != new_name@ && branch_index_of(self.branches@, cur_name@) >= 0 {
                let hit = branch_index_of(self.branches@, cur_name@);
                if hit < prev.len() {
                    assert(self.branches@[hit] == prev[hit]);
                    lemma_branch_index_of(prev, cur_name@);
                    if branch_index_of(prev, cur_name@) == -1 {
                        assert(prev[hit].name@ != cur_name@);
                    }
                }
            }
            lemma_branch_index_of(old(self).branches@, cur_name@);
            let h = branch_index_of(old(self).branches@, cur_name@);
            let j0 = choose|j0: int|
                0 <= j0 < old(self).branches@.len() && cur@ == (#[trigger] old(
                    self,
                ).branches@[j0])@;
            assert(old(self).branches@[j0]@.name == cur_name@);
            if j0 != h {
                assert(old(self).branches@[h]@.name != old(self).branches@[j0]@.name);
            }
            assert(branch_at(old(self).branches@, cur_name@)@.commit_id == cur@.commit_id);
        }
        Ok(nb2)
    }

    /// Delete the given branch record even though HEAD names it; only the
    /// rename path uses this, and it immediately re-points HEAD.
    fn force_delete_branch_for_rename(&mut self, name: &str) -> (r: Result<Branch, OxenError>)
        requires
            old(self).wf(),
        ensures
            match r {
                Ok(b) => {
                    &&& b@.name == name@
                    &&& !branch_exists(final(self).branches@, name@)
                    &&& final(self).commits == old(self).commits
                    &&& final(self).working == old(self).working
                    &&& final(self).head == old(self).head
                    &&& final(self).objects == old(self).objects
                    &&& final(self).versions == old(self).versions
                    &&& final(self).staged == old(self).staged
                    &&& objects_wf(final(self).objects.deep_view())
                    &&& versions_wf(final(self).versions.deep_view())
                    &&& keys_unique(final(self).working.deep_view(), working_key())
                    &&& keys_unique(final(self).staged.deep_view(), staged_key())
                    &&& keys_unique(final(self).locks.deep_view(), lock_key())
                    &&& (forall|i: int, j: int|
                        0 <= i < j < final(self).branches@.len() ==> (
                        #[trigger] final(self).branches@[i])@.name != (
                        #[trigger] final(self).branches@[j])@.name)
                    &&& (forall|i: int|
                        0 <= i < final(self).branches@.len() ==> commit_exists(
                            final(self).commits@,
                            (#[trigger] final(self).branches@[i])@.commit_id,
                        ))
                    &&& (forall|i: int, j: int|
                        0 <= i < j < final(self).commits@.len() ==> (
                        #[trigger] final(self).commits@[i])@.id != (
                        #[trigger] final(self).commits@[j])@.id)
                    &&& (forall|i: int, k: int|
                        0 <= i < final(self).commits@.len() && 0 <= k < (
                        #[trigger] final(self).commits@[i])@.parent_ids.len() ==> commit_exists(
                            final(self).commits@.subrange(0, i),
                            #[trigger] final(self).commits@[i]@.parent_ids[k],
                        ))
                    &&& (forall|i: int|
                        0 <= i < final(self).commits@.len() ==> commit_tree_wf(
                            final(self).objects.deep_view(),
                            final(self).versions.deep_view(),
                            (#[trigger] final(self).commits@[i])@.root_tree_hash,
                            final(self).shallow,
                        ))
                    &&& (forall|j: int|
                        0 <= j < final(self).branches@.len()
                            ==> exists|j0: int|
                            0 <= j0 < old(self).branches@.len()
                                && (#[trigger] final(self).branches@[j]) == old(
                                self,
                            ).branches@[j0])
                    &&& (exists|j0: int|
                        0 <= j0 < old(self).branches@.len() && b@ == (#[trigger] old(
                            self,
                        ).branches@[j0])@)
                },
                Err(e) => *final(self) == *old(self) && e == OxenError::NotFound
                    && !branch_exists(old(self).branches@, name@),
            },
    {
        let ghost prev = self.branches@;
        let mut i: usize = 0;
        while i < self.branches.len()
            invariant
                0 <= i <= self.branches@.len(),
                *self == *old(self),
                old(self).wf(),
                prev == self.branches@,
                forall|k: int| 0 <= k < i ==> (#[trigger] prev[k]).name@ != name@,
            decreases self.branches@.len() - i,
        {
            if crate::data_type::str_eq(self.branches[i].name.as_str(), name) {
                let b = self.branches[i].clone();
                self.branches.remove(i);
                proof {
                    assert(self.branches@ =~= prev.remove(i as int));
                    assert forall|m: int, j: int|
                        0 <= m < j < self.branches@.len() implies (
                    #[trigger] self.branches@[m])@.name != (
                    #[trigger] self.branches@[j])@.name by {
                        let m0: int = if m < i { m } else { m + 1 };
                        let j0: int = if j < i { j } else { j + 1 };
                        assert(self.branches@[m] == prev[m0]);
                        assert(self.branches@[j] == prev[j0]);
                    }
                    assert forall|m: int| 0 <= m < self.branches@.len() implies commit_exists(
                        self.commits@,
                        (#[trigger] self.branches@[m])@.commit_id,
                    ) by {
                        let m0: int = if m < i { m } else { m + 1 };
                        assert(self.branches@[m] == prev[m0]);
                    }
                    lemma_branch_index_of(self.branches@, name@);
                    if branch_index_of(self.branches@, name@) >= 0 {
                        let hit = branch_index_of(self.branches@, name@);
                        let h0: int = if hit < i { hit } else { hit + 1 };
                        assert(self.branches@[hit] == prev[h0]);
                        assert(prev[h0].name@ == name@);
                        assert(h0 != i);
                        assert(false);
                    }
                    assert forall|j: int| 0 <= j < self.branches@.len() implies exists|j0: int|
                        0 <= j0 < prev.len() && #[trigger] self.branches@[j] == prev[j0] by {
                        let j0: int = if j < i { j } else { j + 1 };
                        assert(self.branches@[j] == prev[j0]);
                    }
                    assert(b@ == prev[i as int]@);
                }
                return Ok(b);
            }
            i = i + 1;
        }
        proof {
            lemma_branch_miss_all(prev, name@);
        }
        Err(OxenError::NotFound)
    }

    /// Whether a branch is locked for write.
    pub fn is_branch_locked(&self, name: &str) -> (r: bool)
        ensures
            r == (lock_at(self.locks.deep_view(), name@) is Some),
    {
        let ghost lv = self.locks.deep_view();
        proof {
            lemma_assoc_index(lv, lock_key(), name@);
        }
        let mut i: usize = 0;
        while i < self.locks.len()
            invariant
                0 <= i <= self.locks@.len(),
                lv == self.locks.deep_view(),
                lv.len() == self.locks@.len(),
                forall|k: int| 0 <= k < i ==> lock_key()(#[trigger] lv[k]) != name@,
            decreases self.locks@.len() - i,
        {
            if crate::data_type::str_eq(self.locks[i].branch.as_str(), name) {
                proof {
                    assert(lock_key()(lv[i as int]) == name@);
                    lemma_assoc_first_hit(lv, lock_key(), name@, i as int);
                }
                return true;
            }
            proof {
                assert(lock_key()(lv[i as int]) == lv[i as int].branch);
            }
            i = i + 1;
        }
        false
    }

    /// Whether another session holds the lock on this branch.
    pub fn is_locked_by_other(&self, name: &str) -> (r: bool)
        ensures
            r == (lock_at(self.locks.deep_view(), name@) matches Some(l) && l.holder
                != self.session@),
    {
        let ghost lv = self.locks.deep_view();
        proof {
            lemma_assoc_index(lv, lock_key(), name@);
        }
        let mut i: usize = 0;
        while i < self.locks.len()
            invariant
                0 <= i <= self.locks@.len(),
                lv == self.locks.deep_view(),
                lv.len() == self.locks@.len(),
                forall|k: int| 0 <= k < i ==> lock_key()(#[trigger] lv[k]) != name@,
            decreases self.locks@.len() - i,
        {
            if crate::data_type::str_eq(self.locks[i].branch.as_str(), name) {
                proof {
                    assert(lock_key()(lv[i as int]) == name@);
                    lemma_assoc_first_hit(lv, lock_key(), name@, i as int);
                }
                return !crate::data_type::str_eq(
                    self.locks[i].holder.as_str(),
                    self.session.as_str(),
                );
            }
            proof {
                assert(lock_key()(lv[i as int]) == lv[i as int].branch);
            }
            i = i + 1;
        }
        proof {
            assert(lock_at(lv, name@) is None);
        }
        false
    }

    /// Take the write lock on a branch for this session.  A lock held by
    /// another session is a conflict; re-locking one's own lock is
    /// deliberately idempotent, so a session that crashed after locking
    /// can retry, while a foreign lock still conflicts.
    pub fn lock_branch(&mut self, name: &str) -> (r: Result<(), OxenError>)
        requires
            old(self).wf(),
        ensures
            final(self).wf(),
            match r {
                Ok(()) => {
                    &&& lock_at(final(self).locks.deep_view(), name@) matches Some(l)
                        && l.holder == old(self).session@
                    &&& (lock_at(old(self).locks.deep_view(), name@) is None || (lock_at(
                        old(self).locks.deep_view(),
                        name@,
                    ) matches Some(l0) && l0.holder == old(self).session@))
                    &&& (forall|q: Seq<char>|
                        q != name@ ==> #[trigger] lock_at(final(self).locks.deep_view(), q)
                            == lock_at(old(self).locks.deep_view(), q))
                    &&& final(self).commits == old(self).commits
                    &&& final(self).branches == old(self).branches
                    &&& final(self).working == old(self).working
                    &&& final(self).staged == old(self).staged
                    &&& final(self).staged_dirs == old(self).staged_dirs
                    &&& final(self).head == old(self).head
                    &&& final(self).objects == old(self).objects
                    &&& final(self).versions == old(self).versions
                    &&& final(self).shallow == old(self).shallow
                    &&& final(self).clock == old(self).clock
                    &&& final(self).session == old(self).session
                },
                Err(e) => {
                    &&& *final(self) == *old(self)
                    &&& e == OxenError::Conflict
                    &&& lock_at(old(self).locks.deep_view(), name@) matches Some(l)
                        && l.holder != old(self).session@
                },
            },
    {
        let ghost lv = self.locks.deep_view();
        proof {
            lemma_assoc_index(lv, lock_key(), name@);
        }
        let mut i: usize = 0;
        while i < self.locks.len()
            invariant
                0 <= i <= self.locks@.len(),
                *self == *old(self),
                old(self).wf(),
                lv == self.locks.deep_view(),
                lv.len() == self.locks@.len(),
                forall|k: int| 0 <= k < i ==> lock_key()(#[trigger] lv[k]) != name@,
            decreases self.locks@.len() - i,
        {
            if crate::data_type::str_eq(self.locks[i].branch.as_str(), name) {
                proof {
                    assert(lock_key()(lv[i as int]) == name@);
                    lemma_assoc_first_hit(lv, lock_key(), name@, i as int);
                }
                if crate::data_type::str_eq(self.locks[i].holder.as_str(), self.session.as_str()) {
                    return Ok(());
                } else {
                    return Err(OxenError::Conflict);
                }
            }
            proof {
                assert(lock_key()(lv[i as int]) == lv[i as int].branch);
            }
            i = i + 1;
        }
        proof {
            assert(lock_at(lv, name@) is None);
        }
        let lock = BranchLock { branch: name.to_owned(), holder: self.session.clone() };
        let ghost lockv = lock@;
        self.locks.push(lock);
        proof {
            assert(self.locks.deep_view() =~= lv.push(lockv));
            lemma_assoc_index(lv, lock_key(), name@);
            lemma_assoc_push(lv, lock_key(), lockv, name@);
            assert(lock_key()(lockv) == name@);
            assert forall|q: Seq<char>| q != name@ implies #[trigger] lock_at(
                self.locks.deep_view(),
                q,
            ) == lock_at(lv, q) by {
                lemma_assoc_push(lv, lock_key(), lockv, q);
            }
            assert forall|m: int, j: int|
                0 <= m < j < self.locks.deep_view().len() implies lock_key()(
            #[trigger] self.locks.deep_view()[m]) != lock_key()(
            #[trigger] self.locks.deep_view()[j]) by {
                let nv = self.locks.deep_view();
                if j == nv.len() - 1 {
                    assert(nv[m] == lv[m]);
                    assert(lock_key()(lv[m]) == lv[m].branch);
                } else {
                    assert(nv[m] == lv[m]);
                    assert(nv[j] == lv[j]);
                }
            }
        }
        Ok(())
    }

    /// Release this session's lock on a branch.  Another session's lock
    /// stays put; releasing an absent lock reports NotFound.
    pub fn unlock_branch(&mut self, name: &str) -> (r: Result<(), OxenError>)
        requires
            old(self).wf(),
        ensures
            final(self).wf(),
            match r {
                Ok(()) => {
                    &&& lock_at(final(self).locks.deep_view(), name@) is None
                    &&& lock_at(old(self).locks.deep_view(), name@) matches Some(l)
                        && l.holder == old(self).session@
                    &&& (forall|q: Seq<char>|
                        q != name@ ==> #[trigger] lock_at(final(self).locks.deep_view(), q)
                            == lock_at(old(self).locks.deep_view(), q))
                    &&& final(self).commits == old(self).commits
                    &&& final(self).branches == old(self).branches
                    &&& final(self).working == old(self).working
                    &&& final(self).staged == old(self).staged
                    &&& final(self).staged_dirs == old(self).staged_dirs
                    &&& final(self).head == old(self).head
                    &&& final(self).objects == old(self).objects
                    &&& final(self).versions == old(self).versions
                    &&& final(self).shallow == old(self).shallow
                    &&& final(self).clock == old(self).clock
                    &&& final(self).session == old(self).session
                },
                Err(e) => {
                    &&& *final(self) == *old(self)
                    &&& ((e == OxenError::Conflict && (lock_at(
                        old(self).locks.deep_view(),
                        name@,
                    ) matches Some(l) && l.holder != old(self).session@)) || (e
                        == OxenError::NotFound && lock_at(
                        old(self).locks.deep_view(),
                        name@,
                    ) is None))
                },
            },
    {
        let ghost lv = self.locks.deep_view();
        proof {
            lemma_assoc_index(lv, lock_key(), name@);
        }
        let mut i: usize = 0;
        while i < self.locks.len()
            invariant
                0 <= i <= self.locks@.len(),
                *self == *old(self),
                old(self).wf(),
                lv == self.locks.deep_view(),
                lv.len() == self.locks@.len(),
                forall|k: int| 0 <= k < i ==> lock_key()(#[trigger] lv[k]) != name@,
            decreases self.locks@.len() - i,
        {
            if crate::data_type::str_eq(self.locks[i].branch.as_str(), name) {
                proof {
                    assert(lock_key()(lv[i as int]) == name@);
                    lemma_assoc_first_hit(lv, lock_key(), name@, i as int);
                }
                if !crate::data_type::str_eq(self.locks[i].holder.as_str(), self.session.as_str())
                {
                    return Err(OxenError::Conflict);
                }
                self.locks.remove(i);
                proof {
                    assert(self.locks.deep_view() =~= lv.remove(i as int));
                    lemma_assoc_remove(lv, lock_key(), i as int, name@);
                    assert forall|q: Seq<char>| q != name@ implies #[trigger] lock_at(
                        self.locks.deep_view(),
                        q,
                    ) == lock_at(lv, q) by {
                        lemma_assoc_remove(lv, lock_key(), i as int, q);
                    }
                    assert forall|m: int, j: int|
                        0 <= m < j < self.locks.deep_view().len() implies lock_key()(
                    #[trigger] self.locks.deep_view()[m]) != lock_key()(
                    #[trigger] self.locks.deep_view()[j]) by {
                        let nv = self.locks.deep_view();
                        let m0: int = if m < i { m } else { m + 1 };
                        let j0: int = if j < i { j } else { j + 1 };
                        assert(nv[m] == lv[m0]);
                        assert(nv[j] == lv[j0]);
                    }
                }
                return Ok(());
            }
            proof {
                assert(lock_key()(lv[i as int]) == lv[i as int].branch);
            }
            i = i + 1;
        }
        proof {
            assert(lock_at(lv, name@) is None);
        }
        Err(OxenError::NotFound)
    }
}

/// A resolved head commit's id resolves in the commit store.
proof fn lemma_head_commit_exists(r: Repository)
    requires
        r.head_commit_spec() is Some,
    ensures
        commit_exists(r.commits@, r.head_commit_spec().unwrap().id),
{
    match r.head@ {
        HeadV::Branch(n) => {
            let b = branch_at(r.branches@, n);
            lemma_commit_index_of(r.commits@, b.commit_id@);
        },
        HeadV::Detached(id) => {
            lemma_commit_index_of(r.commits@, id);
        },
        HeadV::Unborn(_) => {},
    }
}

/// After scanning every branch without a hit, the name is absent.
proof fn lemma_branch_miss_all(branches: Seq<Branch>, name: Seq<char>)
    requires
        forall|k: int| 0 <= k < branches.len() ==> (#[trigger] branches[k]).name@ != name,
    ensures
        !branch_exists(branches, name),
{
    lemma_branch_index_of(branches, name);
    if branch_index_of(branches, name) >= 0 {
        assert(branches[branch_index_of(branches, name)].name@ == name);
    }
}

/// A branch pushed at the end keeps every earlier name resolvable.
proof fn lemma_branch_exists_push(branches: Seq<Branch>, b: Branch, name: Seq<char>)
    requires
        branch_exists(branches, name),
    ensures
        branch_exists(branches.push(b), name),
{
    lemma_branch_index_of(branches, name);
    let i = branch_index_of(branches, name);
    assert(branches.push(b)[i] == branches[i]);
    lemma_branch_index_of(branches.push(b), name);
    if branch_index_of(branches.push(b), name) == -1 {
        assert(branches.push(b)[i].name@ != name);
    }
}

/// The last branch's own name resolves.
proof fn lemma_branch_exists_last(branches: Seq<Branch>, name: Seq<char>)
    requires
        branches.len() > 0,
        branches[branches.len() - 1].name@ == name,
    ensures
        branch_exists(branches, name),
{
    lemma_branch_index_of(branches, name);
    if branch_index_of(branches, name) == -1 {
        assert(branches[branches.len() - 1].name@ != name);
    }
}

} // verus!

verus! {

/// What staging a path should record, given the head entries and the
/// file's bytes: nothing when the content matches HEAD, Modified when it
/// differs, Added when HEAD has no such entry.
/// `p` lies under the directory `d`: it begins with `d` followed by a
/// slash.
pub open spec fn path_under(p: Seq<char>, d: Seq<char>) -> bool {
    let pre = d + "/"@;
    pre.len() <= p.len() && p.subrange(0, pre.len() as int) == pre
}

/// Some working file lies under the directory `d`.
pub open spec fn working_has_under(w: Seq<WorkingFileV>, d: Seq<char>) -> bool {
    exists|i: int| 0 <= i < w.len() && path_under((#[trigger] w[i]).path, d)
}

/// The staged-directory list records `d`.
pub open spec fn dir_listed(dirs: Seq<Seq<char>>, d: Seq<char>) -> bool {
    exists|i: int| 0 <= i < dirs.len() && #[trigger] dirs[i] == d
}

pub open spec fn stage_decision(
    he: Seq<CommitEntryV>,
    data: Seq<u8>,
    p: Seq<char>,
) -> Option<StagedEntryV> {
    let h = crate::hash::hash_of_bytes(data);
    match entry_find(he, p) {
        Some(e) => if e.hash == h {
            None
        } else {
            Some(
                StagedEntryV {
                    path: p,
                    hash: h,
                    status: crate::model::StagedEntryStatus::Modified,
                },
            )
        },
        None => Some(
            StagedEntryV { path: p, hash: h, status: crate::model::StagedEntryStatus::Added },
        ),
    }
}

impl Repository {
    /// The entries of the tree HEAD points at; empty before any commit.
    pub open spec fn head_entries_spec(self) -> Seq<CommitEntryV> {
        match self.head_commit_spec() {
            Some(c) => tree_entries(self.objects.deep_view(), c.root_tree_hash),
            None => Seq::empty(),
        }
    }

    /// List the entries of the commit HEAD points at.
    pub fn head_entries(&self) -> (r: Vec<crate::model::CommitEntry>)
        ensures
            r.deep_view() == self.head_entries_spec(),
    {
        match self.head_commit() {
            Some(c) => crate::objects::list_entries(&self.objects, c.root_tree_hash.as_str()),
            None => Vec::new(),
        }
    }

    /// Find a head entry by path.
    pub fn find_entry(entries: &Vec<crate::model::CommitEntry>, path: &str) -> (r: Option<
        crate::model::CommitEntry,
    >)
        ensures
            match r {
                Some(e) => entry_find(entries.deep_view(), path@) == Some(e@),
                None => entry_find(entries.deep_view(), path@) is None,
            },
    {
        let ghost ev = entries.deep_view();
        proof {
            lemma_assoc_index(ev, entry_key(), path@);
        }
        let mut i: usize = 0;
        while i < entries.len()
            invariant
                0 <= i <= entries@.len(),
                ev == entries.deep_view(),
                ev.len() == entries@.len(),
                forall|k: int| 0 <= k < i ==> entry_key()(#[trigger] ev[k]) != path@,
            decreases entries@.len() - i,
        {
            if crate::data_type::str_eq(entries[i].path.as_str(), path) {
                proof {
                    assert(entry_key()(ev[i as int]) == path@);
                    lemma_assoc_first_hit(ev, entry_key(), path@, i as int);
                }
                return Some(entries[i].clone());
            }
            proof {
                assert(entry_key()(ev[i as int]) == ev[i as int].path);
            }
            i = i + 1;
        }
        None
    }

    /// Stage one working file against the given head entries.
    fn stage_path(
        &mut self,
        path: &str,
        head_entries: &Vec<crate::model::CommitEntry>,
    ) -> (r: Result<(), OxenError>)
        requires
            old(self).wf(),
        ensures
            final(self).wf(),
            final(self).working == old(self).working,
            final(self).commits == old(self).commits,
            final(self).branches == old(self).branches,
            final(self).head == old(self).head,
            final(self).objects == old(self).objects,
            final(self).versions == old(self).versions,
            final(self).locks == old(self).locks,
            final(self).staged_dirs == old(self).staged_dirs,
            final(self).shallow == old(self).shallow,
            final(self).clock == old(self).clock,
            final(self).author == old(self).author,
            final(self).email == old(self).email,
            final(self).session == old(self).session,
            match r {
                Ok(()) => {
                    &&& working_at(old(self).working.deep_view(), path@) matches Some(data)
                    &&& match stage_decision(head_entries.deep_view(), working_at(
                        old(self).working.deep_view(),
                        path@,
                    ).unwrap(), path@) {
                        Some(e) => staged_at(final(self).staged.deep_view(), path@) == Some(e)
                            && (forall|q: Seq<char>|
                            q != path@ ==> staged_at(final(self).staged.deep_view(), q)
                                == staged_at(old(self).staged.deep_view(), q)),
                        None => final(self).staged == old(self).staged,
                    }
                },
                Err(e) => {
                    &&& e == OxenError::NotFound
                    &&& working_at(old(self).working.deep_view(), path@) is None
                    &&& *final(self) == *old(self)
                },
            },
    {
        let data_hash = match self.read_file(path) {
            Some(b) => crate::hash::hash_bytes(b.as_slice()),
            None => { return Err(OxenError::NotFound); },
        };
        let ghost wdata = working_at(old(self).working.deep_view(), path@).unwrap();
        proof {
            assert(data_hash@ == crate::hash::hash_of_bytes(wdata));
        }
        let decision: Option<StagedEntry> = match Self::find_entry(head_entries, path) {
            Some(e) => {
                if crate::data_type::str_eq(e.hash.as_str(), data_hash.as_str()) {
                    None
                } else {
                    Some(
                        StagedEntry {
                            path: path.to_owned(),
                            hash: data_hash,
                            status: crate::model::StagedEntryStatus::Modified,
                        },
                    )
                }
            },
            None => Some(
                StagedEntry {
                    path: path.to_owned(),
                    hash: data_hash,
                    status: crate::model::StagedEntryStatus::Added,
                },
            ),
        };
        let entry = match decision {
            Some(e) => e,
            None => { return Ok(()); },
        };
        let ghost sv0 = self.staged.deep_view();
        proof {
            lemma_assoc_index(sv0, staged_key(), path@);
        }
        let idx_opt = staged_index(&self.staged, path);
        match idx_opt {
            Some(idx) => {
                self.staged.remove(idx);
                proof {
                    let sv1 = self.staged.deep_view();
                    let del = assoc_index(sv0, staged_key(), path@);
                    assert(sv1 =~= sv0.remove(del));
                    lemma_assoc_remove(sv0, staged_key(), del, path@);
                    assert forall|q: Seq<char>| q != path@ implies assoc_find(
                        sv1,
                        staged_key(),
                        q,
                    ) == assoc_find(sv0, staged_key(), q) by {
                        lemma_assoc_remove(sv0, staged_key(), del, q);
                    }
                    assert forall|m: int, j: int|
                        0 <= m < j < sv1.len() implies staged_key()(#[trigger] sv1[m])
                        != staged_key()(#[trigger] sv1[j]) by {
                        let m0: int = if m < del { m } else { m + 1 };
                        let j0: int = if j < del { j } else { j + 1 };
                        assert(sv1[m] == sv0[m0]);
                        assert(sv1[j] == sv0[j0]);
                    }
                }
            },
            None => {},
        }
        let ghost sv2 = self.staged.deep_view();
        let ghost ev = entry@;
        self.staged.push(entry);
        proof {
            assert(self.staged.deep_view() =~= sv2.push(ev));
            lemma_assoc_index(sv2, staged_key(), path@);
            lemma_assoc_push(sv2, staged_key(), ev, path@);
            assert(staged_key()(ev) == path@);
            assert forall|q: Seq<char>| q != path@ implies staged_at(
                self.staged.deep_view(),
                q,
            ) == staged_at(sv2, q) by {
                lemma_assoc_push(sv2, staged_key(), ev, q);
            }
            assert forall|m: int, j: int|
                0 <= m < j < self.staged.deep_view().len() implies staged_key()(
            #[trigger] self.staged.deep_view()[m]) != staged_key()(
            #[trigger] self.staged.deep_view()[j]) by {
                let nv = self.staged.deep_view();
                if j == nv.len() - 1 {
                    assert(nv[m] == sv2[m]);
                    assert(staged_key()(sv2[m]) == sv2[m].path);
                } else {
                    assert(nv[m] == sv2[m]);
                    assert(nv[j] == sv2[j]);
                }
            }
            assert(staged_at(self.staged.deep_view(), path@) == Some(ev));
            assert(stage_decision(head_entries.deep_view(), wdata, path@) == Some(ev));
            assert forall|q: Seq<char>| q != path@ implies staged_at(
                self.staged.deep_view(),
                q,
            ) == staged_at(old(self).staged.deep_view(), q) by {
                lemma_assoc_push(sv2, staged_key(), ev, q);
                if assoc_index(sv0, staged_key(), path@) >= 0 {
                    lemma_assoc_remove(
                        sv0,
                        staged_key(),
                        assoc_index(sv0, staged_key(), path@),
                        q,
                    );
                }
            }
        }
        Ok(())
    }

    /// Stage a path: a single file, or every working file under it as a
    /// directory prefix.  A path that names neither a working file nor a
    /// prefix of one is NotFound and changes nothing.
    pub fn add(&mut self, path: &str) -> (r: Result<(), OxenError>)
        requires
            old(self).wf(),
        ensures
            final(self).wf(),
            final(self).working == old(self).working,
            final(self).commits == old(self).commits,
            final(self).branches == old(self).branches,
            final(self).head == old(self).head,
            final(self).objects == old(self).objects,
            final(self).versions == old(self).versions,
            final(self).locks == old(self).locks,
            final(self).shallow == old(self).shallow,
            final(self).clock == old(self).clock,
            match r {
                Ok(()) => {
                    &&& (working_at(old(self).working.deep_view(), path@) is Some
                        || working_has_under(old(self).working.deep_view(), path@))
                    &&& (working_at(old(self).working.deep_view(), path@) matches Some(data)
                        ==> {
                        &&& match stage_decision(old(self).head_entries_spec(), data, path@) {
                            Some(e) => staged_at(final(self).staged.deep_view(), path@)
                                == Some(e),
                            None => staged_at(final(self).staged.deep_view(), path@)
                                == staged_at(old(self).staged.deep_view(), path@),
                        }
                        &&& (forall|q: Seq<char>|
                            q != path@ ==> #[trigger] staged_at(
                                final(self).staged.deep_view(),
                                q,
                            ) == staged_at(old(self).staged.deep_view(), q))
                        &&& final(self).staged_dirs == old(self).staged_dirs
                    })
                    &&& (working_at(old(self).working.deep_view(), path@) is None ==> {
                        &&& (forall|p: Seq<char>|
                            path_under(p, path@) && #[trigger] working_at(
                                old(self).working.deep_view(),
                                p,
                            ) is Some ==> match stage_decision(
                                old(self).head_entries_spec(),
                                working_at(old(self).working.deep_view(), p).unwrap(),
                                p,
                            ) {
                                Some(e) => staged_at(final(self).staged.deep_view(), p)
                                    == Some(e),
                                None => staged_at(final(self).staged.deep_view(), p)
                                    == staged_at(old(self).staged.deep_view(), p),
                            })
                        &&& (forall|q: Seq<char>|
                            !path_under(q, path@) ==> #[trigger] staged_at(
                                final(self).staged.deep_view(),
                                q,
                            ) == staged_at(old(self).staged.deep_view(), q))
                        &&& dir_listed(final(self).staged_dirs.deep_view(), path@)
                    })
                },
                Err(e) => {
                    &&& e == OxenError::NotFound
                    &&& working_at(old(self).working.deep_view(), path@) is None
                    &&& !working_has_under(old(self).working.deep_view(), path@)
                    &&& *final(self) == *old(self)
                },
            },
    {
        let head_entries = self.head_entries();
        let ghost wv = self.working.deep_view();
        let ghost hes = old(self).head_entries_spec();
        if self.read_file(path).is_some() {
            let r = self.stage_path(path, &head_entries);
            proof {
                assert(r is Ok);
            }
            return r;
        }
        let mut prefix = path.to_owned();
        prefix.append("/");
        let mut matched: Vec<String> = Vec::new();
        let mut i: usize = 0;
        while i < self.working.len()
            invariant
                0 <= i <= self.working@.len(),
                *self == *old(self),
                old(self).wf(),
                wv == self.working.deep_view(),
                wv.len() == self.working@.len(),
                prefix@ == path@ + "/"@,
                working_at(wv, path@) is None,
                forall|m: int|
                    0 <= m < matched.deep_view().len() ==> working_at(
                        wv,
                        #[trigger] matched.deep_view()[m],
                    ) is Some && path_under(matched.deep_view()[m], path@),
                forall|j: int|
                    0 <= j < i && path_under((#[trigger] wv[j]).path, path@) ==> exists|m: int|
                        0 <= m < matched.deep_view().len() && #[trigger] matched.deep_view()[m]
                            == wv[j].path,
            decreases self.working@.len() - i,
        {
            if str_starts_with(self.working[i].path.as_str(), prefix.as_str()) {
                let ghost mv0 = matched.deep_view();
                matched.push(self.working[i].path.clone());
                proof {
                    assert(matched.deep_view() =~= mv0.push(wv[i as int].path));
                    lemma_assoc_index(wv, working_key(), wv[i as int].path);
                    if assoc_index(wv, working_key(), wv[i as int].path) == -1 {
                        assert(working_key()(wv[i as int]) != wv[i as int].path);
                    }
                    assert(working_at(wv, wv[i as int].path) is Some);
                    assert forall|j: int|
                        0 <= j < i + 1 && path_under(
                            (#[trigger] wv[j]).path,
                            path@,
                        ) implies exists|m: int|
                        0 <= m < matched.deep_view().len() && #[trigger] matched.deep_view()[m]
                            == wv[j].path by {
                        if j < i {
                            let m = choose|m: int|
                                0 <= m < mv0.len() && #[trigger] mv0[m] == wv[j].path;
                            assert(matched.deep_view()[m] == wv[j].path);
                        } else {
                            assert(matched.deep_view()[mv0.len() as int] == wv[j].path);
                        }
                    }
                }
            }
            i = i + 1;
        }
        if matched.len() == 0 {
            proof {
                assert forall|j: int|
                    0 <= j < wv.len() implies !path_under((#[trigger] wv[j]).path, path@) by {
                    if path_under(wv[j].path, path@) {
                        let m = choose|m: int|
                            0 <= m < matched.deep_view().len()
                                && #[trigger] matched.deep_view()[m] == wv[j].path;
                    }
                }
            }
            return Err(OxenError::NotFound);
        }
        let ghost mv = matched.deep_view();
        let ghost staged0 = old(self).staged.deep_view();
        let mut k: usize = 0;
        while k < matched.len()
            invariant
                0 <= k <= matched@.len(),
                self.wf(),
                self.working == old(self).working,
                self.commits == old(self).commits,
                self.branches == old(self).branches,
                self.head == old(self).head,
                self.objects == old(self).objects,
                self.versions == old(self).versions,
                self.locks == old(self).locks,
                self.staged_dirs == old(self).staged_dirs,
                self.shallow == old(self).shallow,
                self.clock == old(self).clock,
                self.author == old(self).author,
                self.email == old(self).email,
                self.session == old(self).session,
                wv == old(self).working.deep_view(),
                staged0 == old(self).staged.deep_view(),
                mv == matched.deep_view(),
                mv.len() == matched@.len(),
                head_entries.deep_view() == hes,
                forall|m: int|
                    0 <= m < mv.len() ==> working_at(wv, #[trigger] mv[m]) is Some
                        && path_under(mv[m], path@),
                forall|m: int|
                    0 <= m < k ==> match stage_decision(
                        hes,
                        working_at(wv, #[trigger] mv[m]).unwrap(),
                        mv[m],
                    ) {
                        Some(e) => staged_at(self.staged.deep_view(), mv[m]) == Some(e),
                        None => staged_at(self.staged.deep_view(), mv[m]) == staged_at(
                            staged0,
                            mv[m],
                        ),
                    },
                forall|q: Seq<char>|
                    (forall|m: int| 0 <= m < k ==> #[trigger] mv[m] != q)
                        ==> #[trigger] staged_at(self.staged.deep_view(), q) == staged_at(
                        staged0,
                        q,
                    ),
            decreases matched@.len() - k,
        {
            let ghost spre = self.staged.deep_view();
            let rs = self.stage_path(matched[k].as_str(), &head_entries);
            proof {
                assert(working_at(wv, mv[k as int]) is Some);
                assert(rs is Ok);
                assert forall|m: int| 0 <= m < k + 1 implies match stage_decision(
                    hes,
                    working_at(wv, #[trigger] mv[m]).unwrap(),
                    mv[m],
                ) {
                    Some(e) => staged_at(self.staged.deep_view(), mv[m]) == Some(e),
                    None => staged_at(self.staged.deep_view(), mv[m]) == staged_at(
                        staged0,
                        mv[m],
                    ),
                } by {
                    if m < k && mv[m] != mv[k as int] {
                        assert(staged_at(self.staged.deep_view(), mv[m]) == staged_at(
                            spre,
                            mv[m],
                        ));
                    }
                }
                assert forall|q: Seq<char>|
                    (forall|m: int| 0 <= m < k + 1 ==> #[trigger] mv[m] != q)
                    implies #[trigger] staged_at(self.staged.deep_view(), q) == staged_at(
                    staged0,
                    q,
                ) by {
                    assert(mv[k as int] != q);
                    assert(staged_at(self.staged.deep_view(), q) == staged_at(spre, q));
                }
            }
            k = k + 1;
        }
        proof {
            assert forall|p: Seq<char>|
                path_under(p, path@) && #[trigger] working_at(wv, p) is Some implies match
                stage_decision(hes, working_at(wv, p).unwrap(), p) {
                Some(e) => staged_at(self.staged.deep_view(), p) == Some(e),
                None => staged_at(self.staged.deep_view(), p) == staged_at(staged0, p),
            } by {
                lemma_assoc_index(wv, working_key(), p);
                let j = assoc_index(wv, working_key(), p);
                assert(wv[j].path == p);
                let m = choose|m: int|
                    0 <= m < mv.len() && #[trigger] mv[m] == wv[j].path;
                assert(working_at(wv, mv[m]).unwrap() == working_at(wv, p).unwrap());
            }
            assert forall|q: Seq<char>| !path_under(q, path@) implies #[trigger] staged_at(
                self.staged.deep_view(),
                q,
            ) == staged_at(staged0, q) by {
                assert forall|m: int| 0 <= m < mv.len() implies #[trigger] mv[m] != q by {
                    assert(path_under(mv[m], path@));
                }
            }
            assert(working_has_under(wv, path@)) by {
                lemma_assoc_index(wv, working_key(), mv[0]);
                let j = assoc_index(wv, working_key(), mv[0]);
                assert(path_under((wv[j]).path, path@));
            }
        }
        let already = string_listed(&self.staged_dirs, path);
        if !already {
            let ghost dirs0 = self.staged_dirs.deep_view();
            self.staged_dirs.push(path.to_owned());
            proof {
                assert(self.staged_dirs.deep_view() =~= dirs0.push(path@));
                assert(self.staged_dirs.deep_view()[dirs0.len() as int] == path@);
            }
        }
        Ok(())
    }
}

/// Whether a string list holds this exact string.
fn string_listed(items: &Vec<String>, s: &str) -> (r: bool)
    ensures
        r == dir_listed(items.deep_view(), s@),
{
    let ghost iv = items.deep_view();
    let mut d: usize = 0;
    while d < items.len()
        invariant
            0 <= d <= items@.len(),
            iv == items.deep_view(),
            iv.len() == items@.len(),
            forall|k: int| 0 <= k < d ==> #[trigger] iv[k] != s@,
        decreases items@.len() - d,
    {
        if crate::data_type::str_eq(items[d].as_str(), s) {
            proof {
                assert(iv[d as int] == s@);
            }
            return true;
        }
        d = d + 1;
    }
    false
}

/// The index of the staged entry at a path.
fn staged_index(staged: &Vec<StagedEntry>, path: &str) -> (r: Option<usize>)
    ensures
        match r {
            Some(i) => i < staged@.len() && assoc_index(
                staged.deep_view(),
                staged_key(),
                path@,
            ) == i as int,
            None => assoc_index(staged.deep_view(), staged_key(), path@) == -1,
        },
{
    let ghost sv = staged.deep_view();
    proof {
        lemma_assoc_index(sv, staged_key(), path@);
    }
    let mut i: usize = 0;
    while i < staged.len()
        invariant
            0 <= i <= staged@.len(),
            sv == staged.deep_view(),
            sv.len() == staged@.len(),
            forall|k: int| 0 <= k < i ==> staged_key()(#[trigger] sv[k]) != path@,
        decreases staged@.len() - i,
    {
        if crate::data_type::str_eq(staged[i].path.as_str(), path) {
            proof {
                assert(staged_key()(sv[i as int]) == path@);
                lemma_assoc_first_hit(sv, staged_key(), path@, i as int);
            }
            return Some(i);
        }
        proof {
            assert(staged_key()(sv[i as int]) == sv[i as int].path);
        }
        i = i + 1;
    }
    None
}

/// Whether `s` begins with `prefix`.
pub fn str_starts_with(s: &str, prefix: &str) -> (r: bool)
    ensures
        r == (prefix@.len() <= s@.len() && s@.subrange(0, prefix@.len() as int) == prefix@),
{
    let n: usize = s.unicode_len();
    let m: usize = prefix.unicode_len();
    if m > n {
        return false;
    }
    let mut i: usize = 0;
    while i < m
        invariant
            0 <= i <= m,
            m <= n,
            n == s@.len(),
            m == prefix@.len(),
            forall|k: int| 0 <= k < i ==> s@[k] == prefix@[k],
        decreases m - i,
    {
        let a = s.get_char(i);
        let b = prefix.get_char(i);
        if a as u32 != b as u32 {
            proof {
                assert(s@[i as int] != prefix@[i as int]) by {
                    if s@[i as int] == prefix@[i as int] {
                        assert(a as u32 == b as u32);
                    }
                }
                assert(s@.subrange(0, m as int)[i as int] == s@[i as int]);
            }
            return false;
        }
        proof {
            lemma_char_eq_by_u32(a, b);
        }
        i = i + 1;
    }
    proof {
        assert(s@.subrange(0, m as int) =~= prefix@);
    }
    true
}

/// Characters with equal scalar values are equal.
proof fn lemma_char_eq_by_u32(a: char, b: char)
    requires
        a as u32 == b as u32,
    ensures
        a == b,
{
}

} // verus!

verus! {

/// The position of the first slash in a path, from position `i`.
pub open spec fn slash_index_from(p: Seq<char>, i: int) -> int
    decreases p.len() - i,
{
    if i < 0 || i >= p.len() {
        p.len() as int
    } else if p[i] == '/' {
        i
    } else {
        slash_index_from(p, i + 1)
    }
}

/// A path that names something inside a directory.
pub open spec fn is_deep(p: Seq<char>) -> bool {
    slash_index_from(p, 0) < p.len()
}

/// The leading directory segment of a path.
pub open spec fn first_seg(p: Seq<char>) -> Seq<char> {
    p.subrange(0, slash_index_from(p, 0))
}

/// Neither staged nor present in the head tree.
pub open spec fn is_untracked(
    staged: Seq<StagedEntryV>,
    he: Seq<CommitEntryV>,
    p: Seq<char>,
) -> bool {
    staged_at(staged, p) is None && entry_find(he, p) is None
}

/// Top-level untracked working files, in working-tree order.
pub open spec fn untracked_files_spec(
    working: Seq<WorkingFileV>,
    staged: Seq<StagedEntryV>,
    he: Seq<CommitEntryV>,
) -> Seq<Seq<char>>
    decreases working.len(),
{
    if working.len() == 0 {
        Seq::empty()
    } else {
        let rest = untracked_files_spec(working.drop_last(), staged, he);
        let p = working.last().path;
        if !is_deep(p) && is_untracked(staged, he, p) {
            rest.push(p)
        } else {
            rest
        }
    }
}

/// Distinct top-level directories holding untracked working files.
pub open spec fn untracked_dirs_spec(
    working: Seq<WorkingFileV>,
    staged: Seq<StagedEntryV>,
    he: Seq<CommitEntryV>,
) -> Seq<Seq<char>>
    decreases working.len(),
{
    if working.len() == 0 {
        Seq::empty()
    } else {
        let rest = untracked_dirs_spec(working.drop_last(), staged, he);
        let p = working.last().path;
        if is_deep(p) && is_untracked(staged, he, p) && !rest.contains(first_seg(p)) {
            rest.push(first_seg(p))
        } else {
            rest
        }
    }
}

/// The staged paths carrying a given status, in staging order.
pub open spec fn staged_paths_with(
    st: Seq<StagedEntryV>,
    status: crate::model::StagedEntryStatus,
) -> Seq<Seq<char>>
    decreases st.len(),
{
    if st.len() == 0 {
        Seq::empty()
    } else {
        let rest = staged_paths_with(st.drop_last(), status);
        if st.last().status == status {
            rest.push(st.last().path)
        } else {
            rest
        }
    }
}

/// The position of the first slash in a path.
pub fn find_slash(p: &str) -> (r: usize)
    ensures
        r as int == slash_index_from(p@, 0),
        r <= p@.len(),
{
    let n: usize = p.unicode_len();
    let mut i: usize = 0;
    while i < n
        invariant
            0 <= i <= n,
            n == p@.len(),
            slash_index_from(p@, 0) == slash_index_from(p@, i as int),
        decreases n - i,
    {
        let c = p.get_char(i);
        if c as u32 == 47 {
            proof {
                assert(p@[i as int] == c);
                lemma_char_eq_by_u32(c, '/');
            }
            return i;
        }
        proof {
            assert(p@[i as int] != '/') by {
                if p@[i as int] == '/' {
                    assert(c as u32 == 47);
                }
            }
        }
        i = i + 1;
    }
    n
}

/// Whether a string list holds a string.
fn string_list_contains(items: &Vec<String>, s: &str) -> (r: bool)
    ensures
        r == items.deep_view().contains(s@),
{
    let ghost dv = items.deep_view();
    let mut i: usize = 0;
    while i < items.len()
        invariant
            0 <= i <= items@.len(),
            dv == items.deep_view(),
            dv.len() == items@.len(),
            forall|k: int| 0 <= k < i ==> dv[k] != s@,
        decreases items@.len() - i,
    {
        if crate::data_type::str_eq(items[i].as_str(), s) {
            proof {
                assert(dv[i as int] == s@);
            }
            return true;
        }
        i = i + 1;
    }
    proof {
        if dv.contains(s@) {
            let k = choose|k: int| 0 <= k < dv.len() && dv[k] == s@;
            assert(dv[k] != s@);
        }
    }
    false
}

/// Clone a list of strings.
pub fn clone_string_vec(items: &Vec<String>) -> (r: Vec<String>)
    ensures
        r.deep_view() == items.deep_view(),
{
    let mut out: Vec<String> = Vec::new();
    let mut i: usize = 0;
    while i < items.len()
        invariant
            0 <= i <= items@.len(),
            out.deep_view() =~= items.deep_view().subrange(0, i as int),
        decreases items@.len() - i,
    {
        let ghost prev = out.deep_view();
        out.push(items[i].clone());
        proof {
            assert(out.deep_view() =~= prev.push(items.deep_view()[i as int]));
            assert(out.deep_view() =~= items.deep_view().subrange(0, i as int + 1));
        }
        i = i + 1;
    }
    proof {
        assert(items.deep_view().subrange(0, items.deep_view().len() as int)
            =~= items.deep_view());
    }
    out
}

/// Clone the staging area.
fn clone_staged_vec(items: &Vec<StagedEntry>) -> (r: Vec<StagedEntry>)
    ensures
        r.deep_view() == items.deep_view(),
{
    let mut out: Vec<StagedEntry> = Vec::new();
    let mut i: usize = 0;
    while i < items.len()
        invariant
            0 <= i <= items@.len(),
            out.deep_view() =~= items.deep_view().subrange(0, i as int),
        decreases items@.len() - i,
    {
        let ghost prev = out.deep_view();
        let e = items[i].clone();
        proof {
            assert(e@ == items.deep_view()[i as int]);
        }
        out.push(e);
        proof {
            assert(out.deep_view() =~= prev.push(items.deep_view()[i as int]));
            assert(out.deep_view() =~= items.deep_view().subrange(0, i as int + 1));
        }
        i = i + 1;
    }
    proof {
        assert(items.deep_view().subrange(0, items.deep_view().len() as int)
            =~= items.deep_view());
    }
    out
}

impl Repository {
    /// What is staged and what is untracked, against HEAD.
    pub fn status(&self) -> (r: crate::model::StagedData)
        ensures
            r.added_files.deep_view() == self.staged.deep_view(),
            r.added_dirs.deep_view() == self.staged_dirs.deep_view(),
            r.modified_files.deep_view() == staged_paths_with(
                self.staged.deep_view(),
                crate::model::StagedEntryStatus::Modified,
            ),
            r.removed_files.deep_view() == staged_paths_with(
                self.staged.deep_view(),
                crate::model::StagedEntryStatus::Removed,
            ),
            r.untracked_files.deep_view() == untracked_files_spec(
                self.working.deep_view(),
                self.staged.deep_view(),
                self.head_entries_spec(),
            ),
            r.untracked_dirs.deep_view() == untracked_dirs_spec(
                self.working.deep_view(),
                self.staged.deep_view(),
                self.head_entries_spec(),
            ),
    {
        let he = self.head_entries();
        let ghost hev = he.deep_view();
        let ghost sv = self.staged.deep_view();
        let ghost wv = self.working.deep_view();

        let added_files = clone_staged_vec(&self.staged);
        let added_dirs = clone_string_vec(&self.staged_dirs);

        let mut modified_files: Vec<String> = Vec::new();
        let mut removed_files: Vec<String> = Vec::new();
        let mut i: usize = 0;
        while i < self.staged.len()
            invariant
                0 <= i <= self.staged@.len(),
                sv == self.staged.deep_view(),
                sv.len() == self.staged@.len(),
                modified_files.deep_view() =~= staged_paths_with(
                    sv.subrange(0, i as int),
                    crate::model::StagedEntryStatus::Modified,
                ),
                removed_files.deep_view() =~= staged_paths_with(
                    sv.subrange(0, i as int),
                    crate::model::StagedEntryStatus::Removed,
                ),
            decreases self.staged@.len() - i,
        {
            proof {
                let pre = sv.subrange(0, i as int);
                let post = sv.subrange(0, i as int + 1);
                assert(post.drop_last() =~= pre);
                assert(post.last() == sv[i as int]);
            }
            match self.staged[i].status {
                crate::model::StagedEntryStatus::Modified => {
                    let ghost prev = modified_files.deep_view();
                    modified_files.push(self.staged[i].path.clone());
                    proof {
                        assert(modified_files.deep_view() =~= prev.push(sv[i as int].path));
                    }
                },
                crate::model::StagedEntryStatus::Removed => {
                    let ghost prev = removed_files.deep_view();
                    removed_files.push(self.staged[i].path.clone());
                    proof {
                        assert(removed_files.deep_view() =~= prev.push(sv[i as int].path));
                    }
                },
                crate::model::StagedEntryStatus::Added => {},
            }
            proof {
                let post = sv.subrange(0, i as int + 1);
                assert(modified_files.deep_view() =~= staged_paths_with(
                    post,
                    crate::model::StagedEntryStatus::Modified,
                ));
                assert(removed_files.deep_view() =~= staged_paths_with(
                    post,
                    crate::model::StagedEntryStatus::Removed,
                ));
            }
            i = i + 1;
        }
        proof {
            assert(sv.subrange(0, sv.len() as int) =~= sv);
        }

        let mut untracked_files: Vec<String> = Vec::new();
        let mut untracked_dirs: Vec<String> = Vec::new();
        let mut k: usize = 0;
        while k < self.working.len()
            invariant
                0 <= k <= self.working@.len(),
                wv == self.working.deep_view(),
                wv.len() == self.working@.len(),
                sv == self.staged.deep_view(),
                hev == he.deep_view(),
                untracked_files.deep_view() =~= untracked_files_spec(
                    wv.subrange(0, k as int),
                    sv,
                    hev,
                ),
                untracked_dirs.deep_view() =~= untracked_dirs_spec(
                    wv.subrange(0, k as int),
                    sv,
                    hev,
                ),
            decreases self.working@.len() - k,
        {
            proof {
                let pre = wv.subrange(0, k as int);
                let post = wv.subrange(0, k as int + 1);
                assert(post.drop_last() =~= pre);
                assert(post.last() == wv[k as int]);
            }
            let path = &self.working[k].path;
            let n: usize = path.as_str().unicode_len();
            let slash = find_slash(path.as_str());
            let staged_hit = staged_index(&self.staged, path.as_str());
            let entry_hit = Self::find_entry(&he, path.as_str());
            let untracked = staged_hit.is_none() && entry_hit.is_none();
            proof {
                assert(untracked == is_untracked(sv, hev, wv[k as int].path)) by {
                    crate::assoc::lemma_assoc_index(sv, staged_key(), path@);
                }
            }
            if untracked {
                if slash < n {
                    let seg = path.as_str().substring_char(0, slash);
                    proof {
                        assert(seg@ == first_seg(wv[k as int].path));
                    }
                    let present = string_list_contains(&untracked_dirs, seg);
                    if !present {
                        let ghost prev = untracked_dirs.deep_view();
                        untracked_dirs.push(seg.to_owned());
                        proof {
                            assert(untracked_dirs.deep_view() =~= prev.push(
                                first_seg(wv[k as int].path),
                            ));
                        }
                    }
                } else {
                    let ghost prev = untracked_files.deep_view();
                    untracked_files.push(path.clone());
                    proof {
                        assert(!is_deep(wv[k as int].path));
                        assert(untracked_files.deep_view() =~= prev.push(wv[k as int].path));
                    }
                }
            }
            proof {
                let post = wv.subrange(0, k as int + 1);
                assert(untracked_files.deep_view() =~= untracked_files_spec(post, sv, hev));
                assert(untracked_dirs.deep_view() =~= untracked_dirs_spec(post, sv, hev));
            }
            k = k + 1;
        }
        proof {
            assert(wv.subrange(0, wv.len() as int) =~= wv);
        }

        crate::model::StagedData {
            added_dirs,
            added_files,
            modified_files,
            removed_files,
            untracked_dirs,
            untracked_files,
        }
    }
}

} // verus!

verus! {

/// The history read from a commit: the commit itself, then the history of
/// its first parent, following links while they point strictly earlier in
/// the append-only commit list.
pub open spec fn history_from(commits: Seq<Commit>, idx: int) -> Seq<CommitV>
    decreases idx,
    when 0 <= idx < commits.len()
{
    let c = commits[idx]@;
    if c.parent_ids.len() == 0 {
        seq![c]
    } else {
        let pi = commit_index_of(commits, c.parent_ids[0]);
        if 0 <= pi < idx {
            seq![c] + history_from(commits, pi)
        } else {
            seq![c]
        }
    }
}

/// The index of the commit with this id.
fn commit_pos(commits: &Vec<Commit>, id: &str) -> (r: Option<usize>)
    ensures
        match r {
            Some(i) => i < commits@.len() && commit_index_of(commits@, id@) == i as int,
            None => commit_index_of(commits@, id@) == -1,
        },
{
    proof {
        lemma_commit_index_of(commits@, id@);
    }
    let mut i: usize = 0;
    while i < commits.len()
        invariant
            0 <= i <= commits@.len(),
            forall|k: int| 0 <= k < i ==> (#[trigger] commits@[k]).id@ != id@,
        decreases commits@.len() - i,
    {
        if crate::data_type::str_eq(commits[i].id.as_str(), id) {
            proof {
                lemma_commit_first_hit(commits@, id@, i as int);
            }
            return Some(i);
        }
        i = i + 1;
    }
    None
}

impl Repository {
    /// The history HEAD sees, newest first: empty until the first commit.
    pub fn log(&self) -> (r: Vec<Commit>)
        ensures
            r.deep_view() == match self.head_commit_spec() {
                Some(c) => history_from(self.commits@, commit_index_of(self.commits@, c.id)),
                None => Seq::<CommitV>::empty(),
            },
    {
        let mut out: Vec<Commit> = Vec::new();
        let head_c = match self.head_commit() {
            Some(c) => c,
            None => { return out; },
        };
        proof {
            lemma_head_commit_exists(*self);
            lemma_commit_index_of(self.commits@, head_c.id@);
        }
        let mut idx: usize = match commit_pos(&self.commits, head_c.id.as_str()) {
            Some(i) => i,
            None => { return out; },
        };
        let ghost expected = history_from(self.commits@, idx as int);
        let mut done = false;
        while !done
            invariant
                0 <= idx < self.commits@.len(),
                !done ==> expected =~= out.deep_view() + history_from(
                    self.commits@,
                    idx as int,
                ),
                done ==> expected =~= out.deep_view(),
            decreases (if done { 0int } else { 1int }), idx,
        {
            let cur = self.commits[idx].clone();
            let ghost prev = out.deep_view();
            out.push(cur);
            proof {
                assert(out.deep_view() =~= prev.push(self.commits@[idx as int]@));
            }
            if self.commits[idx].parent_ids.len() == 0 {
                proof {
                    assert(history_from(self.commits@, idx as int) =~= seq![
                        self.commits@[idx as int]@,
                    ]);
                    assert(expected =~= out.deep_view());
                }
                done = true;
            } else {
                let pid = self.commits[idx].parent_ids[0].clone();
                proof {
                    assert(pid@ == self.commits@[idx as int]@.parent_ids[0]);
                }
                let pi_opt = commit_pos(&self.commits, pid.as_str());
                match pi_opt {
                    Some(pi) => {
                        if pi < idx {
                            proof {
                                assert(history_from(self.commits@, idx as int) =~= seq![
                                    self.commits@[idx as int]@,
                                ] + history_from(self.commits@, pi as int));
                                assert(expected =~= out.deep_view() + history_from(
                                    self.commits@,
                                    pi as int,
                                ));
                            }
                            idx = pi;
                        } else {
                            proof {
                                assert(history_from(self.commits@, idx as int) =~= seq![
                                    self.commits@[idx as int]@,
                                ]);
                                assert(expected =~= out.deep_view());
                            }
                            done = true;
                        }
                    },
                    None => {
                        proof {
                            assert(history_from(self.commits@, idx as int) =~= seq![
                                self.commits@[idx as int]@,
                            ]);
                            assert(expected =~= out.deep_view());
                        }
                        done = true;
                    },
                }
            }
        }
        proof {
            assert(out.deep_view() =~= expected);
        }
        out
    }
}

} // verus!

verus! {

/// Clone a byte buffer.
pub fn clone_bytes(b: &Vec<u8>) -> (r: Vec<u8>)
    ensures
        r@ == b@,
{
    let mut out: Vec<u8> = Vec::new();
    let mut i: usize = 0;
    while i < b.len()
        invariant
            0 <= i <= b@.len(),
            out@ =~= b@.subrange(0, i as int),
        decreases b@.len() - i,
    {
        out.push(b[i]);
        proof {
            assert(out@ =~= b@.subrange(0, i as int + 1));
        }
        i = i + 1;
    }
    proof {
        assert(b@.subrange(0, b@.len() as int) =~= b@);
    }
    out
}

/// The entry a commit writes for a staged path: the working bytes' hash
/// and size, stamped with the new commit's id and timestamp.
pub open spec fn updated_entry(
    working: Seq<WorkingFileV>,
    p: Seq<char>,
    id: Seq<char>,
    ts: u64,
) -> CommitEntryV {
    let data = working_at(working, p).unwrap();
    CommitEntryV {
        path: p,
        hash: crate::hash::hash_of_bytes(data),
        num_bytes: data.len() as u64,
        last_modified: ts,
        commit_id: id,
    }
}

/// Base entries carried over into a new commit: the head entries whose
/// paths are not staged, in head order.
fn collect_base_entries(
    staged: &Vec<StagedEntry>,
    he: &Vec<crate::model::CommitEntry>,
) -> (out: Vec<crate::model::CommitEntry>)
    ensures
        forall|p: Seq<char>|
            staged_at(staged.deep_view(), p) is Some ==> #[trigger] entry_find(
                out.deep_view(),
                p,
            ) is None,
        forall|p: Seq<char>|
            staged_at(staged.deep_view(), p) is None ==> #[trigger] entry_find(
                out.deep_view(),
                p,
            ) == entry_find(he.deep_view(), p),
        forall|k: int|
            0 <= k < out.deep_view().len() ==> exists|m: int|
                0 <= m < he.deep_view().len() && (#[trigger] out.deep_view()[k])
                    == he.deep_view()[m],
{
    let ghost hev = he.deep_view();
    let ghost sv = staged.deep_view();
    let mut out: Vec<crate::model::CommitEntry> = Vec::new();
    let mut i: usize = 0;
    while i < he.len()
        invariant
            0 <= i <= he.len(),
            hev == he.deep_view(),
            hev.len() == he@.len(),
            sv == staged.deep_view(),
            forall|p: Seq<char>|
                staged_at(sv, p) is Some ==> #[trigger] entry_find(out.deep_view(), p)
                    is None,
            forall|p: Seq<char>|
                staged_at(sv, p) is None ==> #[trigger] entry_find(out.deep_view(), p)
                    == entry_find(hev.subrange(0, i as int), p),
            forall|k: int|
                0 <= k < out.deep_view().len() ==> exists|m: int|
                    0 <= m < hev.len() && (#[trigger] out.deep_view()[k]) == hev[m],
        decreases he.len() - i,
    {
        let ghost outv = out.deep_view();
        let path = he[i].path.clone();
        let hit = staged_index(staged, path.as_str());
        proof {
            let pre = hev.subrange(0, i as int);
            let post = hev.subrange(0, i as int + 1);
            assert(post.drop_last() =~= pre);
            assert(post.last() == hev[i as int]);
            assert(path@ == hev[i as int].path);
        }
        match hit {
            Some(_) => {
                proof {
                    lemma_assoc_index(sv, staged_key(), path@);
                    assert(staged_at(sv, hev[i as int].path) is Some);
                    assert forall|p: Seq<char>| staged_at(sv, p) is None implies
                        #[trigger] entry_find(out.deep_view(), p) == entry_find(
                        hev.subrange(0, i as int + 1),
                        p,
                    ) by {
                        lemma_assoc_push(
                            hev.subrange(0, i as int),
                            entry_key(),
                            hev[i as int],
                            p,
                        );
                        assert(hev.subrange(0, i as int + 1) =~= hev.subrange(
                            0,
                            i as int,
                        ).push(hev[i as int]));
                        assert(entry_key()(hev[i as int]) == hev[i as int].path);
                        assert(hev[i as int].path != p);
                    }
                }
            },
            None => {
                let e = he[i].clone();
                proof {
                    assert(e@ == hev[i as int]);
                }
                out.push(e);
                proof {
                    assert(out.deep_view() =~= outv.push(hev[i as int]));
                    lemma_assoc_index(sv, staged_key(), path@);
                    assert(staged_at(sv, hev[i as int].path) is None);
                    assert forall|p: Seq<char>| staged_at(sv, p) is Some implies
                        #[trigger] entry_find(out.deep_view(), p) is None by {
                        assert(entry_find(outv, p) is None);
                        lemma_assoc_push(outv, entry_key(), hev[i as int], p);
                        assert(entry_key()(hev[i as int]) == hev[i as int].path);
                        assert(hev[i as int].path != p);
                        assert(out.deep_view() == outv.push(hev[i as int]));
                    }
                    assert forall|p: Seq<char>| staged_at(sv, p) is None implies
                        #[trigger] entry_find(out.deep_view(), p) == entry_find(
                        hev.subrange(0, i as int + 1),
                        p,
                    ) by {
                        assert(entry_find(outv, p) == entry_find(
                            hev.subrange(0, i as int),
                            p,
                        ));
                        lemma_assoc_push(outv, entry_key(), hev[i as int], p);
                        lemma_assoc_push(
                            hev.subrange(0, i as int),
                            entry_key(),
                            hev[i as int],
                            p,
                        );
                        assert(hev.subrange(0, i as int + 1) =~= hev.subrange(
                            0,
                            i as int,
                        ).push(hev[i as int]));
                        assert(entry_key()(hev[i as int]) == hev[i as int].path);
                        assert(out.deep_view() == outv.push(hev[i as int]));
                    }
                    assert forall|k: int| 0 <= k < out.deep_view().len() implies exists|m: int|
                        0 <= m < hev.len() && (#[trigger] out.deep_view()[k]) == hev[m] by {
                        if k < outv.len() {
                            assert(out.deep_view()[k] == outv[k]);
                        } else {
                            assert(out.deep_view()[k] == hev[i as int]);
                        }
                    }
                }
            },
        }
        i = i + 1;
    }
    proof {
        assert(hev.subrange(0, hev.len() as int) =~= hev);
    }
    out
}

impl Repository {
    /// Store the bytes of every staged addition or modification and
    /// append the corresponding entries to `out`.
    fn stage_versions(
        &mut self,
        out: &mut Vec<crate::model::CommitEntry>,
        new_id: &String,
        timestamp: u64,
    ) -> (r: Result<(), OxenError>)
        requires
            crate::objects::versions_wf(old(self).versions.deep_view()),
            forall|p: Seq<char>|
                staged_at(old(self).staged.deep_view(), p) is Some ==> #[trigger] entry_find(
                    old(out).deep_view(),
                    p,
                ) is None,
            keys_unique(old(self).staged.deep_view(), staged_key()),
            keys_unique(old(self).working.deep_view(), working_key()),
        ensures
            final(self).working == old(self).working,
            final(self).commits == old(self).commits,
            final(self).branches == old(self).branches,
            final(self).head == old(self).head,
            final(self).objects == old(self).objects,
            final(self).staged == old(self).staged,
            final(self).staged_dirs == old(self).staged_dirs,
            final(self).locks == old(self).locks,
            final(self).shallow == old(self).shallow,
            final(self).clock == old(self).clock,
            final(self).author == old(self).author,
            final(self).email == old(self).email,
            final(self).session == old(self).session,
            crate::objects::versions_wf(final(self).versions.deep_view()),
            crate::objects::versions_extend(
                old(self).versions.deep_view(),
                final(self).versions.deep_view(),
            ),
            match r {
                Ok(()) => {
                    &&& (forall|p: Seq<char>|
                        staged_at(old(self).staged.deep_view(), p) is None
                            ==> #[trigger] entry_find(final(out).deep_view(), p) == entry_find(
                            old(out).deep_view(),
                            p,
                        ))
                    &&& (forall|k: int|
                        0 <= k < old(self).staged.deep_view().len() && (
                        #[trigger] old(self).staged.deep_view()[k]).status
                            != crate::model::StagedEntryStatus::Removed ==> working_at(
                            old(self).working.deep_view(),
                            old(self).staged.deep_view()[k].path,
                        ) is Some && entry_find(
                            final(out).deep_view(),
                            old(self).staged.deep_view()[k].path,
                        ) == Some(
                            updated_entry(
                                old(self).working.deep_view(),
                                old(self).staged.deep_view()[k].path,
                                new_id@,
                                timestamp,
                            ),
                        ))
                    &&& (forall|k: int|
                        0 <= k < old(self).staged.deep_view().len() && (
                        #[trigger] old(self).staged.deep_view()[k]).status
                            == crate::model::StagedEntryStatus::Removed ==> entry_find(
                            final(out).deep_view(),
                            old(self).staged.deep_view()[k].path,
                        ) is None)
                    &&& (forall|k: int|
                        old(out).deep_view().len() <= k < final(out).deep_view().len()
                            ==> crate::objects::version_at(
                            final(self).versions.deep_view(),
                            (#[trigger] final(out).deep_view()[k]).hash,
                        ) is Some)
                    &&& (forall|k: int|
                        0 <= k < old(self).staged.deep_view().len() && (
                        #[trigger] old(self).staged.deep_view()[k]).status
                            != crate::model::StagedEntryStatus::Removed
                            ==> crate::objects::version_at(
                            final(self).versions.deep_view(),
                            crate::hash::hash_of_bytes(
                                working_at(
                                    old(self).working.deep_view(),
                                    old(self).staged.deep_view()[k].path,
                                ).unwrap(),
                            ),
                        ) == Some(
                            working_at(
                                old(self).working.deep_view(),
                                old(self).staged.deep_view()[k].path,
                            ).unwrap(),
                        ))
                    &&& (forall|k: int|
                        0 <= k < old(out).deep_view().len() ==> final(out).deep_view()[k]
                            == old(out).deep_view()[k])
                },
                Err(e) => {
                    &&& (e == OxenError::NotFound || e == OxenError::Corruption)
                    &&& (e == OxenError::NotFound ==> exists|k: int|
                        0 <= k < old(self).staged.deep_view().len() && (#[trigger] old(
                            self,
                        ).staged.deep_view()[k]).status
                            != crate::model::StagedEntryStatus::Removed && working_at(
                            old(self).working.deep_view(),
                            old(self).staged.deep_view()[k].path,
                        ) is None)
                    &&& (e == OxenError::Corruption ==> crate::hash::hash_collision())
                },
            },
    {
        let ghost sv = self.staged.deep_view();
        let ghost out0 = out.deep_view();
        let ghost versions0 = self.versions.deep_view();
        let mut j: usize = 0;
        while j < self.staged.len()
            invariant
                0 <= j <= self.staged@.len(),
                *self == *old(self) || true,
                self.working == old(self).working,
                self.commits == old(self).commits,
                self.branches == old(self).branches,
                self.head == old(self).head,
                self.objects == old(self).objects,
                self.staged == old(self).staged,
                self.staged_dirs == old(self).staged_dirs,
                self.locks == old(self).locks,
                self.shallow == old(self).shallow,
                self.clock == old(self).clock,
                self.author == old(self).author,
                self.email == old(self).email,
                self.session == old(self).session,
                sv == self.staged.deep_view(),
                sv.len() == self.staged@.len(),
                out0 == old(out).deep_view(),
                versions0 == old(self).versions.deep_view(),
                keys_unique(sv, staged_key()),
                keys_unique(old(self).working.deep_view(), working_key()),
                crate::objects::versions_wf(self.versions.deep_view()),
                crate::objects::versions_extend(versions0, self.versions.deep_view()),
                forall|p: Seq<char>|
                    staged_at(sv, p) is Some && (forall|k: int|
                        0 <= k < j ==> (#[trigger] sv[k]).path != p) ==> #[trigger] entry_find(
                        out.deep_view(),
                        p,
                    ) is None,
                forall|p: Seq<char>|
                    staged_at(sv, p) is None ==> #[trigger] entry_find(out.deep_view(), p)
                        == entry_find(out0, p),
                forall|k: int|
                    0 <= k < sv.len() && (#[trigger] sv[k]).status
                        != crate::model::StagedEntryStatus::Removed && k < j ==> working_at(
                        old(self).working.deep_view(),
                        sv[k].path,
                    ) is Some && entry_find(out.deep_view(), sv[k].path) == Some(
                        updated_entry(
                            old(self).working.deep_view(),
                            sv[k].path,
                            new_id@,
                            timestamp,
                        ),
                    ),
                forall|k: int|
                    0 <= k < sv.len() && k < j && (#[trigger] sv[k]).status
                        == crate::model::StagedEntryStatus::Removed ==> entry_find(
                        out.deep_view(),
                        sv[k].path,
                    ) is None,
                forall|k: int|
                    out0.len() <= k < out.deep_view().len() ==> crate::objects::version_at(
                        self.versions.deep_view(),
                        (#[trigger] out.deep_view()[k]).hash,
                    ) is Some,
                forall|k: int|
                    0 <= k < sv.len() && (#[trigger] sv[k]).status
                        != crate::model::StagedEntryStatus::Removed && k < j
                        ==> crate::objects::version_at(
                        self.versions.deep_view(),
                        crate::hash::hash_of_bytes(
                            working_at(old(self).working.deep_view(), sv[k].path).unwrap(),
                        ),
                    ) == Some(
                        working_at(old(self).working.deep_view(), sv[k].path).unwrap(),
                    ),
                forall|k: int|
                    0 <= k < out0.len() ==> out.deep_view()[k] == out0[k],
                out.deep_view().len() >= out0.len(),
            decreases self.staged@.len() - j,
        {
            let ghost outv = out.deep_view();
            let status = self.staged[j].status;
            proof {
                assert(sv[j as int].status == status);
            }
            match status {
                crate::model::StagedEntryStatus::Removed => {
                    proof {
                        lemma_sv_member_staged(sv, j as int);
                        assert(forall|k: int| 0 <= k < j + 1 && (#[trigger] sv[k]).path
                            == sv[j as int].path ==> k == j as int) by {
                            assert(forall|k: int|
                                0 <= k < sv.len() && k != j as int ==> staged_key()(
                                    #[trigger] sv[k],
                                ) != staged_key()(sv[j as int]));
                        }
                        assert(entry_find(out.deep_view(), sv[j as int].path) is None);
                    }
                },
                _ => {
                    let path = self.staged[j].path.clone();
                    let data = match self.read_file(path.as_str()) {
                        Some(b) => clone_bytes(b),
                        None => {
                            proof {
                                lemma_sv_member_staged(sv, j as int);
                                assert(working_at(
                                    old(self).working.deep_view(),
                                    sv[j as int].path,
                                ) is None);
                            }
                            return Err(OxenError::NotFound);
                        },
                    };
                    let ghost datav = data@;
                    let num_bytes = data.len() as u64;
                    let ghost vpre = self.versions.deep_view();
                    let h = match crate::objects::put_version(&mut self.versions, data) {
                        Ok(h) => h,
                        Err(e) => {
                            proof {
                                assert(crate::objects::versions_extend(
                                    versions0,
                                    self.versions.deep_view(),
                                ));
                            }
                            return Err(e);
                        },
                    };
                    let entry = crate::model::CommitEntry {
                        path: path.clone(),
                        hash: h.clone(),
                        num_bytes,
                        last_modified: timestamp,
                        commit_id: new_id.clone(),
                    };
                    let ghost entv = entry@;
                    out.push(entry);
                    proof {
                        assert(out.deep_view() =~= outv.push(entv));
                        assert(entv.path == sv[j as int].path);
                        assert(working_at(old(self).working.deep_view(), sv[j as int].path)
                            == Some(datav));
                        assert(entv == updated_entry(
                            old(self).working.deep_view(),
                            sv[j as int].path,
                            new_id@,
                            timestamp,
                        ));
                        assert forall|hh: Seq<char>|
                            #[trigger] crate::objects::version_at(versions0, hh)
                            is Some implies crate::objects::version_at(
                            self.versions.deep_view(),
                            hh,
                        ) == crate::objects::version_at(versions0, hh) by {
                            assert(crate::objects::version_at(vpre, hh)
                                == crate::objects::version_at(versions0, hh));
                        }
                        assert(crate::objects::version_at(
                            self.versions.deep_view(),
                            crate::hash::hash_of_bytes(datav),
                        ) == Some(datav));
                        lemma_sv_member_staged(sv, j as int);
                        assert(entry_find(out.deep_view(), sv[j as int].path) == Some(entv))
                            by {
                            assert(entry_find(outv, sv[j as int].path) is None) by {
                                assert(forall|k: int|
                                    0 <= k < j ==> (#[trigger] sv[k]).path != sv[
                                    j as int].path) by {
                                    assert(forall|k: int|
                                        0 <= k < sv.len() && k != j as int ==> staged_key()(
                                            #[trigger] sv[k],
                                        ) != staged_key()(sv[j as int]));
                                }
                            }
                            lemma_assoc_push(outv, entry_key(), entv, sv[j as int].path);
                            assert(entry_key()(entv) == entv.path);
                        }
                        assert forall|p: Seq<char>| p != sv[j as int].path implies
                            #[trigger] entry_find(out.deep_view(), p) == entry_find(outv, p) by {
                            lemma_assoc_push(outv, entry_key(), entv, p);
                            assert(entry_key()(entv) == entv.path);
                        }
                    }
                },
            }
            proof {
                assert(forall|k: int|
                    0 <= k < sv.len() && k != j as int ==> staged_key()(#[trigger] sv[k])
                        != staged_key()(sv[j as int]));
            }
            j = j + 1;
        }
        Ok(())
    }
}

} // verus!


verus! {

/// The head commit's tree is well formed (an instance of `wf`).
proof fn lemma_head_tree_wf(r: Repository)
    requires
        r.wf(),
        r.head_commit_spec() is Some,
    ensures
        commit_tree_wf(
            r.objects.deep_view(),
            r.versions.deep_view(),
            r.head_commit_spec().unwrap().root_tree_hash,
            r.shallow,
        ),
{
    match r.head@ {
        HeadV::Branch(n) => {
            let b = branch_at(r.branches@, n);
            lemma_commit_index_of(r.commits@, b.commit_id@);
        },
        HeadV::Detached(id) => {
            lemma_commit_index_of(r.commits@, id);
        },
        HeadV::Unborn(_) => {},
    }
}

/// A staged entry's own path is staged.
proof fn lemma_sv_member_staged(sv: Seq<StagedEntryV>, j: int)
    requires
        0 <= j < sv.len(),
    ensures
        staged_at(sv, sv[j].path) is Some,
{
    lemma_assoc_index(sv, staged_key(), sv[j].path);
    if assoc_index(sv, staged_key(), sv[j].path) == -1 {
        assert(staged_key()(sv[j]) != sv[j].path);
    }
}

impl Repository {
    /// Point an existing branch at a commit id.
    pub(crate) fn set_branch_commit(&mut self, name: &str, id: &str)
        requires
            branch_exists(old(self).branches@, name@),
            forall|i: int, j: int|
                0 <= i < j < old(self).branches@.len() ==> (
                #[trigger] old(self).branches@[i])@.name != (
                #[trigger] old(self).branches@[j])@.name,
        ensures
            final(self).working == old(self).working,
            final(self).staged == old(self).staged,
            final(self).staged_dirs == old(self).staged_dirs,
            final(self).commits == old(self).commits,
            final(self).head == old(self).head,
            final(self).objects == old(self).objects,
            final(self).versions == old(self).versions,
            final(self).locks == old(self).locks,
            final(self).shallow == old(self).shallow,
            final(self).clock == old(self).clock,
            final(self).author == old(self).author,
            final(self).email == old(self).email,
            final(self).session == old(self).session,
            branch_exists(final(self).branches@, name@),
            branch_at(final(self).branches@, name@)@.commit_id == id@,
            forall|m: Seq<char>|
                m != name@ ==> branch_exists(final(self).branches@, m) == branch_exists(
                    old(self).branches@,
                    m,
                ) && (branch_exists(old(self).branches@, m) ==> branch_at(
                    final(self).branches@,
                    m,
                )@ == branch_at(old(self).branches@, m)@),
            forall|i: int, j: int|
                0 <= i < j < final(self).branches@.len() ==> (
                #[trigger] final(self).branches@[i])@.name != (
                #[trigger] final(self).branches@[j])@.name,
            forall|i: int|
                0 <= i < final(self).branches@.len() ==> (
                #[trigger] final(self).branches@[i])@.commit_id == id@ || exists|j: int|
                    0 <= j < old(self).branches@.len() && final(self).branches@[i] == old(
                        self,
                    ).branches@[j],
            final(self).branches@.len() == old(self).branches@.len(),
    {
        let ghost prev = self.branches@;
        proof {
            lemma_branch_index_of(prev, name@);
        }
        let mut i: usize = 0;
        while i < self.branches.len()
            invariant
                0 <= i <= self.branches@.len(),
                *self == *old(self),
                prev == self.branches@,
                branch_exists(prev, name@),
                forall|mi: int, mj: int|
                    0 <= mi < mj < prev.len() ==> (#[trigger] prev[mi])@.name != (
                    #[trigger] prev[mj])@.name,
                forall|k: int| 0 <= k < i ==> (#[trigger] prev[k]).name@ != name@,
            decreases self.branches@.len() - i,
        {
            if crate::data_type::str_eq(self.branches[i].name.as_str(), name) {
                self.branches.remove(i);
                let nb = Branch { name: name.to_owned(), commit_id: id.to_owned() };
                let ghost nbv = nb;
                let ghost mid = self.branches@;
                self.branches.push(nb);
                proof {
                    assert(mid =~= prev.remove(i as int));
                    assert(self.branches@ =~= mid.push(nbv));
                    assert(nbv.name@ == name@);
                    assert(nbv.commit_id@ == id@);
                    // Uniqueness: removed entries keep distinct names, and
                    // the re-added name was unique in `prev`.
                    assert forall|m: int, j: int|
                        0 <= m < j < self.branches@.len() implies (
                    #[trigger] self.branches@[m])@.name != (
                    #[trigger] self.branches@[j])@.name by {
                        let nv = self.branches@;
                        if j == nv.len() - 1 {
                            assert(nv[j] == nbv);
                            let m0: int = if m < i { m } else { m + 1 };
                            assert(nv[m] == prev[m0]);
                            assert(m0 != i);
                            assert(prev[m0].name@ != prev[i as int].name@);
                        } else {
                            let m0: int = if m < i { m } else { m + 1 };
                            let j0: int = if j < i { j } else { j + 1 };
                            assert(nv[m] == prev[m0]);
                            assert(nv[j] == prev[j0]);
                        }
                    }
                    // The updated branch resolves to the new id.
                    lemma_branch_exists_last(self.branches@, name@);
                    lemma_branch_index_of(self.branches@, name@);
                    let hit = branch_index_of(self.branches@, name@);
                    assert(self.branches@[hit].name@ == name@);
                    if hit < self.branches@.len() - 1 {
                        let h0: int = if hit < i { hit } else { hit + 1 };
                        assert(self.branches@[hit] == prev[h0]);
                        assert(h0 != i);
                        assert(prev[h0].name@ != prev[i as int].name@);
                        assert(false);
                    }
                    assert(branch_at(self.branches@, name@) == nbv);
                    // Other names are untouched.
                    assert forall|m: Seq<char>| m != name@ implies branch_exists(
                        self.branches@,
                        m,
                    ) == branch_exists(prev, m) && (branch_exists(prev, m) ==> branch_at(
                        self.branches@,
                        m,
                    )@ == branch_at(prev, m)@) by {
                        lemma_branch_index_of(prev, m);
                        lemma_branch_index_of(self.branches@, m);
                        if branch_exists(prev, m) {
                            let oj = branch_index_of(prev, m);
                            assert(prev[oj].name@ == m);
                            assert(oj != i);
                            let nj: int = if oj < i { oj } else { oj - 1 };
                            assert(self.branches@[nj] == prev[oj]);
                            assert forall|q: int| 0 <= q < nj implies (
                            #[trigger] self.branches@[q]).name@ != m by {
                                let q0: int = if q < i { q } else { q + 1 };
                                assert(self.branches@[q] == prev[q0]);
                                assert(q0 < oj);
                            }
                            lemma_branch_first_hit(self.branches@, m, nj);
                        } else {
                            if branch_exists(self.branches@, m) {
                                let nj = branch_index_of(self.branches@, m);
                                assert(self.branches@[nj].name@ == m);
                                if nj == self.branches@.len() - 1 {
                                    assert(self.branches@[nj] == nbv);
                                } else {
                                    let j0: int = if nj < i { nj } else { nj + 1 };
                                    assert(self.branches@[nj] == prev[j0]);
                                    assert(prev[j0].name@ != m);
                                }
                            }
                        }
                    }
                    // Every final branch is the update or an old record.
                    assert forall|m: int| 0 <= m < self.branches@.len() implies (
                    #[trigger] self.branches@[m])@.commit_id == id@ || exists|j: int|
                        0 <= j < prev.len() && self.branches@[m] == prev[j] by {
                        if m < self.branches@.len() - 1 {
                            let m0: int = if m < i { m } else { m + 1 };
                            assert(self.branches@[m] == prev[m0]);
                        } else {
                            assert(self.branches@[m] == nbv);
                        }
                    }
                }
                return ;
            }
            i = i + 1;
        }
        proof {
            lemma_branch_index_of(prev, name@);
            let hit = branch_index_of(prev, name@);
            assert(prev[hit].name@ == name@);
            assert(false);
        }
    }
}

} // verus!

verus! {

impl Repository {
    /// The parent list a commit made now would carry: the resolved head
    /// commit's id, or nothing on an unborn branch.
    pub open spec fn commit_parents_spec(self) -> Seq<Seq<char>> {
        match self.head_commit_spec() {
            Some(h) => seq![h.id],
            None => Seq::<Seq<char>>::empty(),
        }
    }

    /// Write a commit from the staging area: version bytes first, then
    /// tree nodes, then the commit record, then the branch pointer, and
    /// only then clear staging.  With nothing staged, no commit is made.
    /// A branch lock held by another session is a conflict and changes
    /// nothing; the only other failure is a witnessed hash collision.
    #[verifier::rlimit(100)]
    pub fn commit(&mut self, message: &str) -> (r: Result<Option<Commit>, OxenError>)
        requires
            old(self).wf(),
            old(self).clock < 0xffffffffffffffffu64,
        ensures
            final(self).wf(),
            final(self).locks == old(self).locks,
            final(self).shallow == old(self).shallow,
            final(self).author == old(self).author,
            final(self).email == old(self).email,
            final(self).session == old(self).session,
            crate::objects::store_extends(
                old(self).objects.deep_view(),
                final(self).objects.deep_view(),
            ),
            crate::objects::versions_extend(
                old(self).versions.deep_view(),
                final(self).versions.deep_view(),
            ),
            old(self).staged@.len() == 0 ==> r == Ok::<Option<Commit>, OxenError>(
                Option::<Commit>::None,
            ),
            (old(self).staged@.len() > 0 && (old(self).head@ matches HeadV::Branch(n)
                && (lock_at(old(self).locks.deep_view(), n) matches Some(l) && l.holder != old(
                self,
            ).session@))) ==> r == Err::<Option<Commit>, OxenError>(OxenError::Conflict),
            match r {
                Ok(opt) => match opt {
                    None => old(self).staged@.len() == 0 && *final(self) == *old(self),
                    Some(c) => {
                        &&& old(self).staged@.len() > 0
                        &&& c@.message == message@
                        &&& c@.timestamp == old(self).clock
                        &&& c@.author == old(self).author@
                        &&& c@.email == old(self).email@
                        &&& c@.parent_ids == old(self).commit_parents_spec()
                        &&& c@.id == crate::model::commit_id_spec(
                            c@.parent_ids,
                            message@,
                            old(self).author@,
                            old(self).email@,
                            old(self).clock,
                        )
                        &&& crate::hash::is_hash(c@.id)
                        &&& final(self).clock == old(self).clock + 1
                        &&& (old(self).head@ matches HeadV::Branch(n) ==> {
                            &&& final(self).head == old(self).head
                            &&& final(self).branches@.len() == old(self).branches@.len()
                            &&& (forall|m: Seq<char>|
                                #[trigger] branch_exists(final(self).branches@, m)
                                    == branch_exists(old(self).branches@, m))
                            &&& (forall|m: Seq<char>|
                                m != n && #[trigger] branch_exists(old(self).branches@, m)
                                    ==> branch_at(final(self).branches@, m)@ == branch_at(
                                    old(self).branches@,
                                    m,
                                )@)
                            &&& branch_at(final(self).branches@, n)@.commit_id == c@.id
                        })
                        &&& (old(self).head@ matches HeadV::Detached(_) ==> {
                            &&& final(self).branches == old(self).branches
                            &&& final(self).head@ == HeadV::Detached(c@.id)
                        })
                        &&& (old(self).head@ matches HeadV::Unborn(n) ==> {
                            &&& final(self).head@ == HeadV::Branch(n)
                            &&& branch_exists(final(self).branches@, n)
                            &&& branch_at(final(self).branches@, n)@.commit_id == c@.id
                            &&& (forall|m: Seq<char>|
                                m != n && #[trigger] branch_exists(old(self).branches@, m)
                                    ==> branch_exists(final(self).branches@, m) && branch_at(
                                    final(self).branches@,
                                    m,
                                )@ == branch_at(old(self).branches@, m)@)
                        })
                        &&& final(self).commits@.len() == old(self).commits@.len() + 1
                        &&& final(self).commits@[final(self).commits@.len() - 1]@ == c@
                        &&& (forall|i: int|
                            0 <= i < old(self).commits@.len() ==> final(self).commits@[i]
                                == old(self).commits@[i])
                        &&& final(self).staged@.len() == 0
                        &&& final(self).staged_dirs@.len() == 0
                        &&& final(self).working == old(self).working
                        &&& final(self).head_commit_spec() == Some(c@)
                        &&& (forall|k: int|
                            0 <= k < old(self).staged.deep_view().len() && (
                            #[trigger] old(self).staged.deep_view()[k]).status
                                != crate::model::StagedEntryStatus::Removed ==> working_at(
                                old(self).working.deep_view(),
                                old(self).staged.deep_view()[k].path,
                            ) is Some && entry_find(
                                tree_entries(
                                    final(self).objects.deep_view(),
                                    c@.root_tree_hash,
                                ),
                                old(self).staged.deep_view()[k].path,
                            ) == Some(
                                updated_entry(
                                    old(self).working.deep_view(),
                                    old(self).staged.deep_view()[k].path,
                                    c@.id,
                                    c@.timestamp,
                                ),
                            ))
                        &&& (forall|k: int|
                            0 <= k < old(self).staged.deep_view().len() && (
                            #[trigger] old(self).staged.deep_view()[k]).status
                                == crate::model::StagedEntryStatus::Removed ==> entry_find(
                                tree_entries(
                                    final(self).objects.deep_view(),
                                    c@.root_tree_hash,
                                ),
                                old(self).staged.deep_view()[k].path,
                            ) is None)
                        &&& (forall|p: Seq<char>|
                            staged_at(old(self).staged.deep_view(), p) is None
                                ==> #[trigger] entry_find(
                                tree_entries(
                                    final(self).objects.deep_view(),
                                    c@.root_tree_hash,
                                ),
                                p,
                            ) == entry_find(old(self).head_entries_spec(), p))
                        &&& (forall|k: int|
                            0 <= k < old(self).staged.deep_view().len() && (
                            #[trigger] old(self).staged.deep_view()[k]).status
                                != crate::model::StagedEntryStatus::Removed
                                ==> crate::objects::version_at(
                                final(self).versions.deep_view(),
                                crate::hash::hash_of_bytes(
                                    working_at(
                                        old(self).working.deep_view(),
                                        old(self).staged.deep_view()[k].path,
                                    ).unwrap(),
                                ),
                            ) == Some(
                                working_at(
                                    old(self).working.deep_view(),
                                    old(self).staged.deep_view()[k].path,
                                ).unwrap(),
                            ))
                    },
                },
                Err(e) => {
                    &&& final(self).commits == old(self).commits
                    &&& final(self).branches == old(self).branches
                    &&& final(self).head == old(self).head
                    &&& final(self).staged == old(self).staged
                    &&& final(self).staged_dirs == old(self).staged_dirs
                    &&& final(self).working == old(self).working
                    &&& final(self).clock == old(self).clock
                    &&& old(self).staged@.len() > 0
                    &&& (e == OxenError::Conflict || e == OxenError::Corruption || e
                        == OxenError::NotFound)
                    &&& (e == OxenError::NotFound ==> exists|k: int|
                        0 <= k < old(self).staged.deep_view().len() && (#[trigger] old(
                            self,
                        ).staged.deep_view()[k]).status
                            != crate::model::StagedEntryStatus::Removed && working_at(
                            old(self).working.deep_view(),
                            old(self).staged.deep_view()[k].path,
                        ) is None)
                    &&& (e == OxenError::Conflict ==> *final(self) == *old(self) && (old(
                        self,
                    ).head@ matches HeadV::Branch(n) && (lock_at(
                        old(self).locks.deep_view(),
                        n,
                    ) matches Some(l) && l.holder != old(self).session@)))
                    &&& (e == OxenError::Corruption ==> crate::hash::hash_collision()
                        || commit_exists(
                        old(self).commits@,
                        crate::model::commit_id_spec(
                            old(self).commit_parents_spec(),
                            message@,
                            old(self).author@,
                            old(self).email@,
                            old(self).clock,
                        ),
                    ))
                },
            },
    {
        if self.staged.len() == 0 {
            return Ok(None);
        }
        let head_name: Option<String> = match &self.head {
            Head::Branch(n) => Some(n.clone()),
            _ => None,
        };
        match &head_name {
            Some(n) => {
                if self.is_locked_by_other(n.as_str()) {
                    return Err(OxenError::Conflict);
                }
            },
            None => {},
        }
        let he = self.head_entries();
        let ghost hev = he.deep_view();
        let ghost sv = self.staged.deep_view();
        let parent_commit = self.head_commit();
        let mut parents: Vec<String> = Vec::new();
        match &parent_commit {
            Some(c) => {
                parents.push(c.id.clone());
            },
            None => {},
        }
        proof {
            match old(self).head_commit_spec() {
                Some(h) => {
                    assert(parents.deep_view() =~= seq![h.id]);
                },
                None => {
                    assert(parents.deep_view() =~= Seq::<Seq<char>>::empty());
                },
            }
        }
        let timestamp = self.clock;
        proof {
            assert(parents.deep_view() == old(self).commit_parents_spec());
        }
        let new_id = crate::model::compute_commit_id(
            &parents,
            message,
            self.author.as_str(),
            self.email.as_str(),
            timestamp,
        );
        match commit_pos(&self.commits, new_id.as_str()) {
            Some(_) => {
                proof {
                    lemma_commit_index_of(self.commits@, new_id@);
                }
                return Err(OxenError::Corruption);
            },
            None => {},
        }
        let mut out = collect_base_entries(&self.staged, &he);
        let ghost base_out = out.deep_view();
        let ghost versions0 = self.versions.deep_view();
        let ghost objects0 = self.objects.deep_view();
        match self.stage_versions(&mut out, &new_id, timestamp) {
            Ok(()) => {},
            Err(e) => {
                proof {
                    let fobj = self.objects.deep_view();
                    let fver = self.versions.deep_view();
                    assert(fobj == objects0);
                    assert forall|a: int| 0 <= a < self.commits@.len() implies commit_tree_wf(
                        fobj,
                        fver,
                        (#[trigger] self.commits@[a])@.root_tree_hash,
                        self.shallow,
                    ) by {
                        assert(crate::objects::store_extends(objects0, fobj)) by {
                            assert forall|hh: Seq<char>|
                                #[trigger] crate::objects::node_at(objects0, hh)
                                is Some implies crate::objects::node_at(fobj, hh)
                                == crate::objects::node_at(objects0, hh) by {}
                        }
                        crate::objects::lemma_commit_tree_wf_stable(
                            objects0,
                            fobj,
                            versions0,
                            fver,
                            self.commits@[a]@.root_tree_hash,
                            self.shallow,
                        );
                    }
                    assert(self.wf());
                }
                return Err(e);
            },
        }
        // Every carried-over entry keeps readable bytes; every new entry
        // was just stored.
        proof {
            if !self.shallow {
                match old(self).head_commit_spec() {
                    Some(c0) => {
                        lemma_head_tree_wf(*old(self));
                    },
                    None => {},
                }
            }
            assert forall|k: int|
                0 <= k < out.deep_view().len() implies crate::objects::version_at(
                self.versions.deep_view(),
                (#[trigger] out.deep_view()[k]).hash,
            ) is Some || self.shallow by {
                if !self.shallow {
                    if k < base_out.len() {
                        assert(out.deep_view()[k] == base_out[k]);
                        let m = choose|m: int|
                            0 <= m < hev.len() && base_out[k] == hev[m];
                        match old(self).head_commit_spec() {
                            Some(c0) => {
                                assert(hev == tree_entries(objects0, c0.root_tree_hash));
                                assert(crate::objects::version_at(versions0, hev[m].hash)
                                    is Some);
                            },
                            None => {
                                assert(hev.len() == 0);
                            },
                        }
                    }
                }
            }
        }
        let root = match crate::objects::build_tree(&mut self.objects, &out) {
            Ok(h) => h,
            Err(e) => {
                proof {
                    let fobj = self.objects.deep_view();
                    let fver = self.versions.deep_view();
                    assert forall|a: int| 0 <= a < self.commits@.len() implies commit_tree_wf(
                        fobj,
                        fver,
                        (#[trigger] self.commits@[a])@.root_tree_hash,
                        self.shallow,
                    ) by {
                        crate::objects::lemma_commit_tree_wf_stable(
                            objects0,
                            fobj,
                            versions0,
                            fver,
                            self.commits@[a]@.root_tree_hash,
                            self.shallow,
                        );
                    }
                    assert(self.wf());
                }
                return Err(e);
            },
        };
        let commit = Commit {
            id: new_id.clone(),
            parent_ids: parents,
            message: message.to_owned(),
            author: self.author.clone(),
            email: self.email.clone(),
            timestamp,
            root_tree_hash: root.clone(),
        };
        let c2 = commit.clone();
        let ghost cv = commit@;
        let ghost commits0 = self.commits@;
        self.commits.push(commit);
        proof {
            assert(self.commits@ =~= commits0.push(self.commits@.last()));
            assert(self.commits@.last()@ == cv);
        }
        let head_snapshot = self.head.clone();
        match head_snapshot {
            Head::Branch(n) => {
                self.set_branch_commit(n.as_str(), new_id.as_str());
            },
            Head::Detached(_) => {
                self.head = Head::Detached(new_id.clone());
            },
            Head::Unborn(n) => {
                match find_branch(&self.branches, n.as_str()) {
                    Some(_) => {
                        self.set_branch_commit(n.as_str(), new_id.as_str());
                    },
                    None => {
                        let ghost bprev = self.branches@;
                        let nb = Branch { name: n.clone(), commit_id: new_id.clone() };
                        let ghost nbv = nb;
                        self.branches.push(nb);
                        proof {
                            assert(self.branches@ =~= bprev.push(nbv));
                            lemma_branch_index_of(bprev, n@);
                            lemma_branch_exists_last(self.branches@, n@);
                            assert forall|k: int| 0 <= k < bprev.len() implies (
                            #[trigger] self.branches@[k]).name@ != n@ by {
                                assert(self.branches@[k] == bprev[k]);
                            }
                            lemma_branch_first_hit(self.branches@, n@, bprev.len() as int);
                            assert(branch_at(self.branches@, n@) == nbv);
                            assert forall|a: int, b: int|
                                0 <= a < b < self.branches@.len() implies (
                            #[trigger] self.branches@[a])@.name != (
                            #[trigger] self.branches@[b])@.name by {
                                if b == self.branches@.len() - 1 {
                                    assert(self.branches@[a] == bprev[a]);
                                    assert(self.branches@[b] == nbv);
                                } else {
                                    assert(self.branches@[a] == bprev[a]);
                                    assert(self.branches@[b] == bprev[b]);
                                }
                            }
                        }
                    },
                }
                self.head = Head::Branch(n);
            },
        }
        self.staged = Vec::new();
        self.staged_dirs = Vec::new();
        self.clock = self.clock + 1;
        proof {
            let oldc = commits0;
            let newc = self.commits@;
            let fobj = self.objects.deep_view();
            let fver = self.versions.deep_view();
            lemma_commit_index_of(oldc, new_id@);
            assert forall|a: int, b: int| 0 <= a < b < newc.len() implies (
            #[trigger] newc[a])@.id != (#[trigger] newc[b])@.id by {
                if b == newc.len() - 1 {
                    assert(newc[a] == oldc[a]);
                    assert(oldc[a].id@ != new_id@);
                } else {
                    assert(newc[a] == oldc[a]);
                    assert(newc[b] == oldc[b]);
                }
            }
            assert forall|a: int, k: int|
                0 <= a < newc.len() && 0 <= k < (#[trigger] newc[a])@.parent_ids.len()
                implies commit_exists(newc.subrange(0, a), #[trigger] newc[a]@.parent_ids[k])
                by {
                if a < oldc.len() {
                    assert(newc[a] == oldc[a]);
                    assert(newc.subrange(0, a) =~= oldc.subrange(0, a));
                } else {
                    assert(newc[a]@ == cv);
                    match old(self).head_commit_spec() {
                        Some(h) => {
                            assert(cv.parent_ids == seq![h.id]);
                            lemma_head_commit_exists(*old(self));
                            assert(newc.subrange(0, a) =~= oldc);
                        },
                        None => {
                            assert(cv.parent_ids.len() == 0);
                        },
                    }
                }
            }
            assert forall|a: int| 0 <= a < self.branches@.len() implies commit_exists(
                newc,
                (#[trigger] self.branches@[a])@.commit_id,
            ) by {
                let cid = self.branches@[a]@.commit_id;
                if cid == new_id@ {
                    crate::model::lemma_commit_index_of_push(oldc, newc.last(), cid);
                } else {
                    match old(self).head@ {
                        HeadV::Branch(_) => {
                            let j = choose|j: int|
                                0 <= j < old(self).branches@.len() && self.branches@[a]
                                    == old(self).branches@[j];
                            assert(commit_exists(oldc, cid));
                        },
                        HeadV::Detached(_) => {
                            assert(self.branches@[a] == old(self).branches@[a]);
                            assert(commit_exists(oldc, cid));
                        },
                        HeadV::Unborn(_) => {
                            if a < old(self).branches@.len()
                                && self.branches@[a] == old(self).branches@[a] {
                                assert(commit_exists(oldc, cid));
                            } else {
                                let j = choose|j: int|
                                    0 <= j < old(self).branches@.len() && self.branches@[a]
                                        == old(self).branches@[j];
                                if 0 <= j < old(self).branches@.len() && self.branches@[a]
                                    == old(self).branches@[j] {
                                    assert(commit_exists(oldc, cid));
                                } else {
                                    assert(self.branches@[a]@.commit_id == new_id@);
                                }
                            }
                        },
                    }
                    crate::model::lemma_commit_index_of_push(oldc, newc.last(), cid);
                }
            }
            crate::model::lemma_commit_index_of_push(oldc, newc.last(), new_id@);
            assert(commit_exists(newc, new_id@));
            assert(commit_at(newc, new_id@)@ == cv);
            assert forall|a: int| 0 <= a < newc.len() implies commit_tree_wf(
                fobj,
                fver,
                (#[trigger] newc[a])@.root_tree_hash,
                self.shallow,
            ) by {
                if a < oldc.len() {
                    assert(newc[a] == oldc[a]);
                    crate::objects::lemma_commit_tree_wf_stable(
                        objects0,
                        fobj,
                        versions0,
                        fver,
                        oldc[a]@.root_tree_hash,
                        self.shallow,
                    );
                } else {
                    assert(newc[a]@.root_tree_hash == root@);
                    assert(tree_entries(fobj, root@) == out.deep_view());
                    assert forall|k: int|
                        0 <= k < tree_entries(fobj, root@).len() implies self.shallow
                        || crate::objects::version_at(
                        fver,
                        (#[trigger] tree_entries(fobj, root@)[k]).hash,
                    ) is Some by {
                        assert(tree_entries(fobj, root@)[k] == out.deep_view()[k]);
                    }
                }
            }
            match self.head@ {
                HeadV::Branch(n) => {
                    assert(branch_exists(self.branches@, n));
                    assert(branch_at(self.branches@, n)@.commit_id == new_id@);
                },
                HeadV::Detached(id) => {
                    assert(id == new_id@);
                },
                HeadV::Unborn(_) => {
                    assert(false);
                },
            }
            assert(self.head_commit_spec() == Some(cv));
            assert(self.wf());
            assert(cv.root_tree_hash == root@);
            assert(cv.id == new_id@);
            assert(cv.timestamp == old(self).clock);
            assert(tree_entries(fobj, cv.root_tree_hash) == out.deep_view());
            match old(self).head@ {
                HeadV::Branch(n) => {
                    assert forall|m: Seq<char>| #[trigger] branch_exists(self.branches@, m)
                        == branch_exists(old(self).branches@, m) by {
                        if m == n {
                            assert(branch_exists(old(self).branches@, n));
                            assert(branch_exists(self.branches@, n));
                        }
                    }
                },
                HeadV::Detached(_) => {},
                HeadV::Unborn(n) => {
                    if !branch_exists(old(self).branches@, n) {
                        assert forall|m: Seq<char>|
                            m != n && #[trigger] branch_exists(old(self).branches@, m)
                            implies branch_exists(self.branches@, m) && branch_at(
                            self.branches@,
                            m,
                        )@ == branch_at(old(self).branches@, m)@ by {
                            lemma_branch_index_of(old(self).branches@, m);
                            let i = branch_index_of(old(self).branches@, m);
                            assert(self.branches@[i] == old(self).branches@[i]);
                            assert forall|k: int| 0 <= k < i implies (
                            #[trigger] self.branches@[k]).name@ != m by {
                                assert(self.branches@[k] == old(self).branches@[k]);
                            }
                            lemma_branch_first_hit(self.branches@, m, i);
                        }
                    }
                },
            }
        }
        Ok(Some(c2))
    }
}

} // verus!

verus! {

impl Repository {
    /// The entries of the tree a branch points at.
    pub open spec fn branch_entries_spec(self, name: Seq<char>) -> Seq<CommitEntryV> {
        let b = branch_at(self.branches@, name);
        let c = commit_at(self.commits@, b.commit_id@);
        tree_entries(self.objects.deep_view(), c@.root_tree_hash)
    }

    /// The working tree after materializing listing `te` where `he` was
    /// tracked before: every listed entry holds its stored bytes, paths
    /// only `he` tracked are gone, and untracked paths are untouched.
    pub open spec fn restored_working(
        w_new: Seq<WorkingFileV>,
        w_old: Seq<WorkingFileV>,
        versions: Seq<crate::objects::VersionRecordV>,
        te: Seq<CommitEntryV>,
        he: Seq<CommitEntryV>,
    ) -> bool {
        &&& (forall|p: Seq<char>|
            #[trigger] entry_find(te, p) matches Some(e) ==> working_at(w_new, p)
                == crate::objects::version_at(versions, e.hash))
        &&& (forall|p: Seq<char>|
            #[trigger] entry_find(he, p) is Some && entry_find(te, p) is None ==> working_at(
                w_new,
                p,
            ) is None)
        &&& (forall|p: Seq<char>|
            entry_find(he, p) is None && #[trigger] entry_find(te, p) is None ==> working_at(
                w_new,
                p,
            ) == working_at(w_old, p))
    }

    /// Switch HEAD to a branch and materialize its tree: files the current
    /// commit tracks but the target does not are removed, every target
    /// entry's bytes are copied from the version store, and untracked
    /// files are left alone.  Checking out the current branch changes
    /// nothing.
    #[verifier::rlimit(100)]
    pub fn checkout_branch(&mut self, name: &str) -> (r: Result<(), OxenError>)
        requires
            old(self).wf(),
        ensures
            final(self).wf(),
            final(self).commits == old(self).commits,
            final(self).branches == old(self).branches,
            final(self).objects == old(self).objects,
            final(self).versions == old(self).versions,
            final(self).staged == old(self).staged,
            final(self).staged_dirs == old(self).staged_dirs,
            final(self).locks == old(self).locks,
            final(self).shallow == old(self).shallow,
            final(self).clock == old(self).clock,
            final(self).author == old(self).author,
            final(self).email == old(self).email,
            final(self).session == old(self).session,
            match r {
                Ok(()) => {
                    &&& branch_exists(old(self).branches@, name@)
                    &&& ((old(self).head@ matches HeadV::Branch(cur) && cur == name@)
                        ==> *final(self) == *old(self))
                    &&& (!(old(self).head@ matches HeadV::Branch(cur) && cur == name@) ==> {
                        &&& final(self).head@ == HeadV::Branch(name@)
                        &&& Self::restored_working(
                            final(self).working.deep_view(),
                            old(self).working.deep_view(),
                            old(self).versions.deep_view(),
                            old(self).branch_entries_spec(name@),
                            old(self).head_entries_spec(),
                        )
                    })
                },
                Err(e) => {
                    &&& ((e == OxenError::NotFound && !branch_exists(
                        old(self).branches@,
                        name@,
                    ) && *final(self) == *old(self)) || (e == OxenError::Transient && old(
                        self,
                    ).shallow && branch_exists(old(self).branches@, name@) && !(old(
                        self,
                    ).head@ matches HeadV::Branch(cur) && cur == name@)))
                    &&& final(self).head == old(self).head
                },
            },
    {
        let target_branch = match find_branch(&self.branches, name) {
            Some(b) => b.clone(),
            None => { return Err(OxenError::NotFound); },
        };
        match &self.head {
            Head::Branch(cur) => {
                if crate::data_type::str_eq(cur.as_str(), name) {
                    return Ok(());
                }
            },
            _ => {},
        }
        let target_commit = match find_commit(&self.commits, target_branch.commit_id.as_str()) {
            Some(c) => c,
            None => {
                proof {
                    lemma_branch_index_of(self.branches@, name@);
                    lemma_commit_index_of(self.commits@, target_branch.commit_id@);
                    assert(false);
                }
                return Err(OxenError::Corruption);
            },
        };
        let te_vec = crate::objects::list_entries(
            &self.objects,
            target_commit.root_tree_hash.as_str(),
        );
        proof {
            assert(te_vec.deep_view() == old(self).branch_entries_spec(name@));
            assert forall|k: int|
                0 <= k < te_vec.deep_view().len() implies self.shallow
                || crate::objects::version_at(
                self.versions.deep_view(),
                (#[trigger] te_vec.deep_view()[k]).hash,
            ) is Some by {
                if !self.shallow {
                    lemma_branch_index_of(self.branches@, name@);
                    lemma_commit_index_of(self.commits@, target_branch.commit_id@);
                    let ci = commit_index_of(self.commits@, target_branch.commit_id@);
                    assert(0 <= ci < self.commits@.len());
                    assert(self.commits@[ci]@.root_tree_hash == target_commit.root_tree_hash@);
                    assert(crate::objects::commit_tree_wf(
                        self.objects.deep_view(),
                        self.versions.deep_view(),
                        (#[trigger] self.commits@[ci])@.root_tree_hash,
                        self.shallow,
                    ));
                }
            }
        }
        match self.materialize_tree(&te_vec) {
            Ok(()) => {},
            Err(e) => {
                return Err(e);
            },
        }
        self.head = Head::Branch(name.to_owned());
        proof {
            lemma_branch_index_of(self.branches@, name@);
            assert(branch_exists(self.branches@, name@));
            assert(self.wf());
        }
        Ok(())
    }

    /// Rewrite the working tree's tracked files to a target listing:
    /// files the current head tracks but the listing does not are removed,
    /// every listed entry's bytes are copied from the version store, and
    /// untracked files are left alone.  A listed entry without stored
    /// bytes, possible only on a shallow clone, is Transient.
    #[verifier::rlimit(100)]
    fn materialize_tree(&mut self, te_vec: &Vec<crate::model::CommitEntry>) -> (r: Result<
        (),
        OxenError,
    >)
        requires
            old(self).wf(),
            forall|k: int|
                0 <= k < te_vec.deep_view().len() ==> old(self).shallow
                    || crate::objects::version_at(
                    old(self).versions.deep_view(),
                    (#[trigger] te_vec.deep_view()[k]).hash,
                ) is Some,
        ensures
            final(self).wf(),
            final(self).commits == old(self).commits,
            final(self).branches == old(self).branches,
            final(self).objects == old(self).objects,
            final(self).versions == old(self).versions,
            final(self).staged == old(self).staged,
            final(self).staged_dirs == old(self).staged_dirs,
            final(self).locks == old(self).locks,
            final(self).head == old(self).head,
            final(self).shallow == old(self).shallow,
            final(self).clock == old(self).clock,
            final(self).author == old(self).author,
            final(self).email == old(self).email,
            final(self).session == old(self).session,
            match r {
                Ok(()) => Self::restored_working(
                    final(self).working.deep_view(),
                    old(self).working.deep_view(),
                    old(self).versions.deep_view(),
                    te_vec.deep_view(),
                    old(self).head_entries_spec(),
                ),
                Err(e) => e == OxenError::Transient && old(self).shallow,
            },
    {
        let he_vec = self.head_entries();
        let ghost te = te_vec.deep_view();
        let ghost he = he_vec.deep_view();
        let ghost working0 = self.working.deep_view();

        // Remove files the current commit tracks but the target does not.
        let mut i: usize = 0;
        while i < he_vec.len()
            invariant
                0 <= i <= he.len(),
                old(self).wf(),
                self.wf(),
                he == he_vec.deep_view(),
                he.len() == he_vec@.len(),
                te == te_vec.deep_view(),
                self.commits == old(self).commits,
                self.branches == old(self).branches,
                self.objects == old(self).objects,
                self.versions == old(self).versions,
                self.staged == old(self).staged,
                self.staged_dirs == old(self).staged_dirs,
                self.locks == old(self).locks,
                self.head == old(self).head,
                self.shallow == old(self).shallow,
                self.clock == old(self).clock,
                self.author == old(self).author,
                self.email == old(self).email,
                self.session == old(self).session,
                forall|k2: int|
                    0 <= k2 < te.len() ==> old(self).shallow || crate::objects::version_at(
                        old(self).versions.deep_view(),
                        (#[trigger] te[k2]).hash,
                    ) is Some,
                working0 == old(self).working.deep_view(),
                forall|p: Seq<char>|
                    ((exists|m: int|
                        0 <= m < i && (#[trigger] he[m]).path == p) && entry_find(te, p)
                        is None) ==> working_at(self.working.deep_view(), p) is None,
                forall|p: Seq<char>|
                    !((exists|m: int|
                        0 <= m < i && (#[trigger] he[m]).path == p) && entry_find(te, p)
                        is None) ==> #[trigger] working_at(self.working.deep_view(), p)
                        == working_at(working0, p),
            decreases he.len() - i,
        {
            let ghost wpre = self.working.deep_view();
            let path = he_vec[i].path.clone();
            let hit = Self::find_entry(&te_vec, path.as_str());
            match hit {
                None => {
                    self.remove_working_file(path.as_str());
                    proof {
                        assert forall|p: Seq<char>|
                            ((exists|m: int|
                                0 <= m < i + 1 && (#[trigger] he[m]).path == p) && entry_find(
                                te,
                                p,
                            ) is None) implies working_at(self.working.deep_view(), p)
                            is None by {
                            if p == path@ {
                            } else {
                                let m = choose|m: int|
                                    0 <= m < i + 1 && (#[trigger] he[m]).path == p;
                                assert(0 <= m < i);
                            }
                        }
                        assert forall|p: Seq<char>|
                            !((exists|m: int|
                                0 <= m < i + 1 && (#[trigger] he[m]).path == p) && entry_find(
                                te,
                                p,
                            ) is None) implies working_at(self.working.deep_view(), p)
                            == working_at(working0, p) by {
                            assert(he[i as int].path == path@);
                            if p == path@ {
                                assert(false);
                            }
                            assert(working_at(self.working.deep_view(), p) == working_at(
                                wpre,
                                p,
                            ));
                            if (exists|m: int|
                                0 <= m < i && (#[trigger] he[m]).path == p) && entry_find(
                                te,
                                p,
                            ) is None {
                                let m = choose|m: int|
                                    0 <= m < i && (#[trigger] he[m]).path == p;
                                assert(0 <= m < i + 1 && he[m].path == p);
                                assert(false);
                            }
                            assert(working_at(wpre, p) == working_at(working0, p));
                        }
                    }
                },
                Some(_) => {
                    proof {
                        assert forall|p: Seq<char>|
                            ((exists|m: int|
                                0 <= m < i + 1 && (#[trigger] he[m]).path == p) && entry_find(
                                te,
                                p,
                            ) is None) implies working_at(self.working.deep_view(), p)
                            is None by {
                            let m = choose|m: int|
                                0 <= m < i + 1 && (#[trigger] he[m]).path == p;
                            if m == i {
                                assert(he[m].path == path@);
                                assert(entry_find(te, p) is Some);
                            } else {
                                assert(0 <= m < i);
                            }
                        }
                        assert forall|p: Seq<char>|
                            !((exists|m: int|
                                0 <= m < i + 1 && (#[trigger] he[m]).path == p) && entry_find(
                                te,
                                p,
                            ) is None) implies working_at(self.working.deep_view(), p)
                            == working_at(working0, p) by {
                            assert(working_at(self.working.deep_view(), p) == working_at(
                                wpre,
                                p,
                            ));
                            if (exists|m: int|
                                0 <= m < i && (#[trigger] he[m]).path == p) && entry_find(
                                te,
                                p,
                            ) is None {
                                let m = choose|m: int|
                                    0 <= m < i && (#[trigger] he[m]).path == p;
                                assert(0 <= m < i + 1 && he[m].path == p);
                                assert(false);
                            }
                            assert(working_at(wpre, p) == working_at(working0, p));
                        }
                    }
                },
            }
            i = i + 1;
        }

        // Materialize every target entry from the version store.
        let ghost working1 = self.working.deep_view();
        let mut k: usize = 0;
        while k < te_vec.len()
            invariant
                0 <= k <= te.len(),
                old(self).wf(),
                self.wf(),
                te == te_vec.deep_view(),
                te.len() == te_vec@.len(),
                self.commits == old(self).commits,
                self.branches == old(self).branches,
                self.objects == old(self).objects,
                self.versions == old(self).versions,
                self.staged == old(self).staged,
                self.staged_dirs == old(self).staged_dirs,
                self.locks == old(self).locks,
                self.head == old(self).head,
                self.shallow == old(self).shallow,
                self.clock == old(self).clock,
                self.author == old(self).author,
                self.email == old(self).email,
                self.session == old(self).session,
                forall|k2: int|
                    0 <= k2 < te.len() ==> old(self).shallow || crate::objects::version_at(
                        old(self).versions.deep_view(),
                        (#[trigger] te[k2]).hash,
                    ) is Some,
                working1 == self.working.deep_view() || true,
                forall|p: Seq<char>|
                    ((exists|m: int|
                        0 <= m < k && (#[trigger] te[m]).path == p)) ==> working_at(
                        self.working.deep_view(),
                        p,
                    ) == match entry_find(te, p) {
                        Some(e) => crate::objects::version_at(
                            old(self).versions.deep_view(),
                            e.hash,
                        ),
                        None => None,
                    },
                forall|p: Seq<char>|
                    !(exists|m: int|
                        0 <= m < k && (#[trigger] te[m]).path == p)
                        ==> #[trigger] working_at(self.working.deep_view(), p) == working_at(
                        working1,
                        p,
                    ),
            decreases te.len() - k,
        {
            let ghost wpre2 = self.working.deep_view();
            let path = te_vec[k].path.clone();
            let first = match Self::find_entry(&te_vec, path.as_str()) {
                Some(e) => e,
                None => {
                    proof {
                        lemma_assoc_index(te, entry_key(), path@);
                        assert(entry_key()(te[k as int]) == path@);
                        assert(false);
                    }
                    return Err(OxenError::Corruption);
                },
            };
            let data = match crate::objects::get_version(&self.versions, first.hash.as_str()) {
                Some(b) => clone_bytes(b),
                None => {
                    proof {
                        // A materialized listing keeps every entry's
                        // bytes, so only a shallow clone can miss.
                        if !self.shallow {
                            lemma_assoc_index(te, entry_key(), path@);
                            let idx = assoc_index(te, entry_key(), path@);
                            assert(0 <= idx < te.len());
                            assert(te[idx] == first@);
                            assert(crate::objects::version_at(
                                old(self).versions.deep_view(),
                                (te[idx]).hash,
                            ) is Some);
                            assert(false);
                        }
                    }
                    return Err(OxenError::Transient);
                },
            };
            self.write_file(path.as_str(), data);
            proof {
                assert forall|p: Seq<char>|
                    ((exists|m: int|
                        0 <= m < k + 1 && (#[trigger] te[m]).path == p)) implies working_at(
                    self.working.deep_view(),
                    p,
                ) == match entry_find(te, p) {
                    Some(e) => crate::objects::version_at(
                        old(self).versions.deep_view(),
                        e.hash,
                    ),
                    None => None,
                } by {
                    if p == path@ {
                        assert(working_at(self.working.deep_view(), p) == Some(
                            crate::objects::version_at(
                                old(self).versions.deep_view(),
                                first@.hash,
                            ).unwrap(),
                        ));
                    } else {
                        let m = choose|m: int|
                            0 <= m < k + 1 && (#[trigger] te[m]).path == p;
                        assert(0 <= m < k);
                    }
                }
                assert forall|p: Seq<char>|
                    !(exists|m: int|
                        0 <= m < k + 1 && (#[trigger] te[m]).path == p)
                    implies working_at(self.working.deep_view(), p) == working_at(
                    working1,
                    p,
                ) by {
                    assert(te[k as int].path == path@);
                    if p == path@ {
                        assert(false);
                    }
                    assert(working_at(self.working.deep_view(), p) == working_at(wpre2, p));
                    if exists|m: int| 0 <= m < k && (#[trigger] te[m]).path == p {
                        let m = choose|m: int|
                            0 <= m < k && (#[trigger] te[m]).path == p;
                        assert(0 <= m < k + 1 && te[m].path == p);
                        assert(false);
                    }
                    assert(working_at(wpre2, p) == working_at(working1, p));
                }
            }
            k = k + 1;
        }
        proof {
            assert(self.wf());
            assert forall|p: Seq<char>| #[trigger] entry_find(te, p) is Some
                implies working_at(self.working.deep_view(), p)
                == crate::objects::version_at(
                old(self).versions.deep_view(),
                entry_find(te, p).unwrap().hash,
            ) by {
                lemma_assoc_index(te, entry_key(), p);
                let idx = assoc_index(te, entry_key(), p);
                assert(entry_key()(te[idx]) == te[idx].path);
                assert(te[idx].path == p);
            }
            assert forall|p: Seq<char>|
                #[trigger] entry_find(he, p) is Some && entry_find(te, p) is None
                implies working_at(self.working.deep_view(), p) is None by {
                lemma_assoc_index(he, entry_key(), p);
                let idx = assoc_index(he, entry_key(), p);
                assert(entry_key()(he[idx]) == he[idx].path);
                assert(working_at(working1, p) is None);
                if exists|m: int| 0 <= m < te.len() && (#[trigger] te[m]).path == p {
                    let m = choose|m: int|
                        0 <= m < te.len() && (#[trigger] te[m]).path == p;
                    lemma_assoc_index(te, entry_key(), p);
                    assert(entry_key()(te[m]) == te[m].path);
                    assert(false);
                }
            }
            assert forall|p: Seq<char>|
                entry_find(he, p) is None && #[trigger] entry_find(te, p) is None
                implies working_at(self.working.deep_view(), p) == working_at(working0, p) by {
                if exists|m: int| 0 <= m < te.len() && (#[trigger] te[m]).path == p {
                    let m = choose|m: int|
                        0 <= m < te.len() && (#[trigger] te[m]).path == p;
                    lemma_assoc_index(te, entry_key(), p);
                    assert(entry_key()(te[m]) == te[m].path);
                    assert(false);
                }
                if exists|m: int| 0 <= m < he.len() && (#[trigger] he[m]).path == p {
                    let m = choose|m: int|
                        0 <= m < he.len() && (#[trigger] he[m]).path == p;
                    lemma_assoc_index(he, entry_key(), p);
                    assert(entry_key()(he[m]) == he[m].path);
                    assert(false);
                }
                assert(working_at(working1, p) == working_at(working0, p));
            }
        }
        Ok(())
    }

    /// Detach HEAD at a commit and materialize its tree.  An unknown id
    /// is NotFound and changes nothing.
    pub fn checkout_commit(&mut self, id: &str) -> (r: Result<(), OxenError>)
        requires
            old(self).wf(),
        ensures
            final(self).wf(),
            final(self).commits == old(self).commits,
            final(self).branches == old(self).branches,
            final(self).objects == old(self).objects,
            final(self).versions == old(self).versions,
            final(self).staged == old(self).staged,
            final(self).staged_dirs == old(self).staged_dirs,
            final(self).locks == old(self).locks,
            final(self).shallow == old(self).shallow,
            final(self).clock == old(self).clock,
            final(self).author == old(self).author,
            final(self).email == old(self).email,
            final(self).session == old(self).session,
            match r {
                Ok(()) => {
                    &&& commit_exists(old(self).commits@, id@)
                    &&& final(self).head@ == HeadV::Detached(id@)
                    &&& Self::restored_working(
                        final(self).working.deep_view(),
                        old(self).working.deep_view(),
                        old(self).versions.deep_view(),
                        tree_entries(
                            old(self).objects.deep_view(),
                            commit_at(old(self).commits@, id@)@.root_tree_hash,
                        ),
                        old(self).head_entries_spec(),
                    )
                },
                Err(e) => {
                    &&& final(self).head == old(self).head
                    &&& ((e == OxenError::NotFound && !commit_exists(old(self).commits@, id@)
                        && *final(self) == *old(self)) || (e == OxenError::Transient && old(
                        self,
                    ).shallow && commit_exists(old(self).commits@, id@)))
                },
            },
    {
        let target_commit = match find_commit(&self.commits, id) {
            Some(c) => c,
            None => {
                return Err(OxenError::NotFound);
            },
        };
        let te_vec = crate::objects::list_entries(
            &self.objects,
            target_commit.root_tree_hash.as_str(),
        );
        proof {
            assert forall|k: int|
                0 <= k < te_vec.deep_view().len() implies self.shallow
                || crate::objects::version_at(
                self.versions.deep_view(),
                (#[trigger] te_vec.deep_view()[k]).hash,
            ) is Some by {
                if !self.shallow {
                    lemma_commit_index_of(self.commits@, id@);
                    let ci = commit_index_of(self.commits@, id@);
                    assert(0 <= ci < self.commits@.len());
                    assert(self.commits@[ci]@.root_tree_hash
                        == target_commit.root_tree_hash@);
                    assert(crate::objects::commit_tree_wf(
                        self.objects.deep_view(),
                        self.versions.deep_view(),
                        (#[trigger] self.commits@[ci])@.root_tree_hash,
                        self.shallow,
                    ));
                }
            }
        }
        match self.materialize_tree(&te_vec) {
            Ok(()) => {},
            Err(e) => {
                return Err(e);
            },
        }
        self.head = Head::Detached(id.to_owned());
        proof {
            lemma_commit_index_of(self.commits@, id@);
            assert(commit_exists(self.commits@, id@));
            assert(te_vec.deep_view() == tree_entries(
                old(self).objects.deep_view(),
                commit_at(old(self).commits@, id@)@.root_tree_hash,
            ));
            assert(self.wf());
        }
        Ok(())
    }

    /// Check out a revision: the branch of that name when one exists,
    /// else the commit with that id, detached.
    pub fn checkout(&mut self, revision: &str) -> (r: Result<(), OxenError>)
        requires
            old(self).wf(),
        ensures
            final(self).wf(),
            final(self).commits == old(self).commits,
            final(self).branches == old(self).branches,
            final(self).objects == old(self).objects,
            final(self).versions == old(self).versions,
            final(self).staged == old(self).staged,
            final(self).staged_dirs == old(self).staged_dirs,
            final(self).locks == old(self).locks,
            final(self).shallow == old(self).shallow,
            final(self).clock == old(self).clock,
            final(self).author == old(self).author,
            final(self).email == old(self).email,
            final(self).session == old(self).session,
            match r {
                Ok(()) => {
                    &&& (branch_exists(old(self).branches@, revision@) ==> {
                        &&& ((old(self).head@ matches HeadV::Branch(cur) && cur == revision@)
                            ==> *final(self) == *old(self))
                        &&& (!(old(self).head@ matches HeadV::Branch(cur) && cur
                            == revision@) ==> {
                            &&& final(self).head@ == HeadV::Branch(revision@)
                            &&& Self::restored_working(
                                final(self).working.deep_view(),
                                old(self).working.deep_view(),
                                old(self).versions.deep_view(),
                                old(self).branch_entries_spec(revision@),
                                old(self).head_entries_spec(),
                            )
                        })
                    })
                    &&& (!branch_exists(old(self).branches@, revision@) ==> {
                        &&& commit_exists(old(self).commits@, revision@)
                        &&& final(self).head@ == HeadV::Detached(revision@)
                        &&& Self::restored_working(
                            final(self).working.deep_view(),
                            old(self).working.deep_view(),
                            old(self).versions.deep_view(),
                            tree_entries(
                                old(self).objects.deep_view(),
                                commit_at(old(self).commits@, revision@)@.root_tree_hash,
                            ),
                            old(self).head_entries_spec(),
                        )
                    })
                },
                Err(e) => {
                    &&& final(self).head == old(self).head
                    &&& ((e == OxenError::NotFound && !branch_exists(
                        old(self).branches@,
                        revision@,
                    ) && !commit_exists(old(self).commits@, revision@) && *final(self) == *old(
                        self,
                    )) || (e == OxenError::Transient && old(self).shallow))
                },
            },
    {
        let on_branch = match find_branch(&self.branches, revision) {
            Some(_) => true,
            None => false,
        };
        if on_branch {
            self.checkout_branch(revision)
        } else {
            self.checkout_commit(revision)
        }
    }
}

} // verus!

verus! {

impl Repository {
    /// The entries of a commit's tree whose bytes are absent from the
    /// version store.  A materialized repository always validates clean;
    /// a shallow clone lists exactly its unfetched entries.
    pub fn list_missing_entries(&self, commit_id: &str) -> (r: Result<
        Vec<crate::model::CommitEntry>,
        OxenError,
    >)
        requires
            self.wf(),
        ensures
            match r {
                Ok(v) => {
                    &&& commit_exists(self.commits@, commit_id@)
                    &&& v.deep_view() == crate::objects::missing_entries(
                        tree_entries(
                            self.objects.deep_view(),
                            commit_at(self.commits@, commit_id@)@.root_tree_hash,
                        ),
                        self.versions.deep_view(),
                    )
                    &&& (!self.shallow ==> v@.len() == 0)
                },
                Err(e) => e == OxenError::NotFound && !commit_exists(
                    self.commits@,
                    commit_id@,
                ),
            },
    {
        let target = match find_commit(&self.commits, commit_id) {
            Some(c) => c,
            None => {
                return Err(OxenError::NotFound);
            },
        };
        let entries = crate::objects::list_entries(&self.objects, target.root_tree_hash.as_str());
        let ghost ev = entries.deep_view();
        let mut out: Vec<crate::model::CommitEntry> = Vec::new();
        let mut i: usize = 0;
        while i < entries.len()
            invariant
                0 <= i <= entries@.len(),
                ev == entries.deep_view(),
                ev.len() == entries@.len(),
                self.wf(),
                out.deep_view() =~= crate::objects::missing_entries(
                    ev.subrange(0, i as int),
                    self.versions.deep_view(),
                ),
            decreases entries@.len() - i,
        {
            proof {
                let pre = ev.subrange(0, i as int);
                let post = ev.subrange(0, i as int + 1);
                assert(post.drop_last() =~= pre);
                assert(post.last() == ev[i as int]);
            }
            match crate::objects::get_version(&self.versions, entries[i].hash.as_str()) {
                Some(_) => {},
                None => {
                    let ghost prev = out.deep_view();
                    out.push(entries[i].clone());
                    proof {
                        assert(out.deep_view() =~= prev.push(ev[i as int]));
                    }
                },
            }
            i = i + 1;
        }
        proof {
            assert(ev.subrange(0, ev.len() as int) =~= ev);
            if !self.shallow {
                lemma_commit_index_of(self.commits@, commit_id@);
                let ci = commit_index_of(self.commits@, commit_id@);
                assert(0 <= ci < self.commits@.len());
                assert(self.commits@[ci]@.root_tree_hash == target.root_tree_hash@);
                assert(crate::objects::commit_tree_wf(
                    self.objects.deep_view(),
                    self.versions.deep_view(),
                    (#[trigger] self.commits@[ci])@.root_tree_hash,
                    self.shallow,
                ));
                crate::objects::lemma_missing_entries_empty(ev, self.versions.deep_view());
            }
            assert(ev == tree_entries(
                self.objects.deep_view(),
                commit_at(self.commits@, commit_id@)@.root_tree_hash,
            ));
        }
        Ok(out)
    }

    /// Whether every commit's tree has all of its payloads stored.  A
    /// materialized repository always does; a shallow clone reports true
    /// only once every payload has been fetched.
    pub fn is_synced(&self) -> (r: bool)
        requires
            self.wf(),
        ensures
            r == (forall|i: int, k: int|
                0 <= i < self.commits@.len() && 0 <= k < tree_entries(
                    self.objects.deep_view(),
                    (#[trigger] self.commits@[i])@.root_tree_hash,
                ).len() ==> crate::objects::version_at(
                    self.versions.deep_view(),
                    (#[trigger] tree_entries(
                        self.objects.deep_view(),
                        self.commits@[i]@.root_tree_hash,
                    )[k]).hash,
                ) is Some),
            !self.shallow ==> r,
    {
        let ghost cv = self.commits@;
        let mut i: usize = 0;
        while i < self.commits.len()
            invariant
                0 <= i <= self.commits@.len(),
                self.wf(),
                cv == self.commits@,
                forall|i2: int, k: int|
                    0 <= i2 < i && 0 <= k < tree_entries(
                        self.objects.deep_view(),
                        (#[trigger] cv[i2])@.root_tree_hash,
                    ).len() ==> crate::objects::version_at(
                        self.versions.deep_view(),
                        (#[trigger] tree_entries(
                            self.objects.deep_view(),
                            cv[i2]@.root_tree_hash,
                        )[k]).hash,
                    ) is Some,
            decreases self.commits@.len() - i,
        {
            let entries = crate::objects::list_entries(
                &self.objects,
                self.commits[i].root_tree_hash.as_str(),
            );
            let ghost ev = entries.deep_view();
            let mut k: usize = 0;
            while k < entries.len()
                invariant
                    0 <= k <= entries@.len(),
                    0 <= (i as int) < cv.len(),
                    self.wf(),
                    cv == self.commits@,
                    ev == entries.deep_view(),
                    ev.len() == entries@.len(),
                    ev == tree_entries(
                        self.objects.deep_view(),
                        cv[i as int]@.root_tree_hash,
                    ),
                    forall|k2: int|
                        0 <= k2 < k ==> crate::objects::version_at(
                            self.versions.deep_view(),
                            (#[trigger] ev[k2]).hash,
                        ) is Some,
                    forall|i2: int, k2: int|
                        0 <= i2 < i && 0 <= k2 < tree_entries(
                            self.objects.deep_view(),
                            (#[trigger] cv[i2])@.root_tree_hash,
                        ).len() ==> crate::objects::version_at(
                            self.versions.deep_view(),
                            (#[trigger] tree_entries(
                                self.objects.deep_view(),
                                cv[i2]@.root_tree_hash,
                            )[k2]).hash,
                        ) is Some,
                decreases entries@.len() - k,
            {
                match crate::objects::get_version(&self.versions, entries[k].hash.as_str()) {
                    Some(_) => {},
                    None => {
                        proof {
                            assert(crate::objects::version_at(
                                self.versions.deep_view(),
                                (tree_entries(
                                    self.objects.deep_view(),
                                    cv[i as int]@.root_tree_hash,
                                )[k as int]).hash,
                            ) is None);
                        }
                        return false;
                    },
                }
                k = k + 1;
            }
            i = i + 1;
        }
        true
    }

    /// Remove a tracked file: drop it from the working tree and stage
    /// its removal for the next commit.  An untracked path is NotFound.
    pub fn rm(&mut self, path: &str) -> (r: Result<(), OxenError>)
        requires
            old(self).wf(),
        ensures
            final(self).wf(),
            final(self).commits == old(self).commits,
            final(self).branches == old(self).branches,
            final(self).head == old(self).head,
            final(self).objects == old(self).objects,
            final(self).versions == old(self).versions,
            match r {
                Ok(()) => {
                    &&& entry_find(old(self).head_entries_spec(), path@) is Some
                    &&& working_at(final(self).working.deep_view(), path@) is None
                    &&& staged_at(final(self).staged.deep_view(), path@) matches Some(e)
                        && e.status == crate::model::StagedEntryStatus::Removed
                    &&& (forall|q: Seq<char>|
                        q != path@ ==> staged_at(final(self).staged.deep_view(), q)
                            == staged_at(old(self).staged.deep_view(), q))
                    &&& (forall|q: Seq<char>|
                        q != path@ ==> working_at(final(self).working.deep_view(), q)
                            == working_at(old(self).working.deep_view(), q))
                },
                Err(e) => {
                    &&& e == OxenError::NotFound
                    &&& entry_find(old(self).head_entries_spec(), path@) is None
                    &&& *final(self) == *old(self)
                },
            },
    {
        let he = self.head_entries();
        match Self::find_entry(&he, path) {
            Some(_) => {},
            None => { return Err(OxenError::NotFound); },
        }
        self.remove_working_file(path);
        let entry = StagedEntry {
            path: path.to_owned(),
            hash: String::new(),
            status: crate::model::StagedEntryStatus::Removed,
        };
        let ghost sv0 = self.staged.deep_view();
        proof {
            lemma_assoc_index(sv0, staged_key(), path@);
        }
        let idx_opt = staged_index(&self.staged, path);
        match idx_opt {
            Some(idx) => {
                self.staged.remove(idx);
                proof {
                    let sv1 = self.staged.deep_view();
                    let del = assoc_index(sv0, staged_key(), path@);
                    assert(sv1 =~= sv0.remove(del));
                    lemma_assoc_remove(sv0, staged_key(), del, path@);
                    assert forall|q: Seq<char>| q != path@ implies assoc_find(
                        sv1,
                        staged_key(),
                        q,
                    ) == assoc_find(sv0, staged_key(), q) by {
                        lemma_assoc_remove(sv0, staged_key(), del, q);
                    }
                    assert forall|m: int, j: int|
                        0 <= m < j < sv1.len() implies staged_key()(#[trigger] sv1[m])
                        != staged_key()(#[trigger] sv1[j]) by {
                        let m0: int = if m < del { m } else { m + 1 };
                        let j0: int = if j < del { j } else { j + 1 };
                        assert(sv1[m] == sv0[m0]);
                        assert(sv1[j] == sv0[j0]);
                    }
                }
            },
            None => {},
        }
        let ghost sv2 = self.staged.deep_view();
        let ghost ev = entry@;
        self.staged.push(entry);
        proof {
            assert(self.staged.deep_view() =~= sv2.push(ev));
            lemma_assoc_index(sv2, staged_key(), path@);
            lemma_assoc_push(sv2, staged_key(), ev, path@);
            assert(staged_key()(ev) == path@);
            assert forall|q: Seq<char>| q != path@ implies staged_at(
                self.staged.deep_view(),
                q,
            ) == staged_at(old(self).staged.deep_view(), q) by {
                lemma_assoc_push(sv2, staged_key(), ev, q);
                if assoc_index(sv0, staged_key(), path@) >= 0 {
                    lemma_assoc_remove(
                        sv0,
                        staged_key(),
                        assoc_index(sv0, staged_key(), path@),
                        q,
                    );
                }
            }
            assert forall|m: int, j: int|
                0 <= m < j < self.staged.deep_view().len() implies staged_key()(
            #[trigger] self.staged.deep_view()[m]) != staged_key()(
            #[trigger] self.staged.deep_view()[j]) by {
                let nv = self.staged.deep_view();
                if j == nv.len() - 1 {
                    assert(nv[m] == sv2[m]);
                    assert(staged_key()(sv2[m]) == sv2[m].path);
                } else {
                    assert(nv[m] == sv2[m]);
                    assert(nv[j] == sv2[j]);
                }
            }
        }
        Ok(())
    }
}

} // verus!
