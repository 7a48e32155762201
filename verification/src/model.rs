//! The repository data model: commits, branches, remotes, entries and the
//! staging area, as plain values with mathematical views.

use vstd::prelude::*;

use crate::codec;

verus! {

// ---------------------------------------------------------------------
// Field and Schema live in schema.rs; here are the repository records.
// ---------------------------------------------------------------------
/// A commit record.  `id` is the content hash of the record's encoding.
#[derive(Debug)]
pub struct Commit {
    pub id: String,
    pub parent_ids: Vec<String>,
    pub message: String,
    pub author: String,
    pub email: String,
    pub timestamp: u64,
    pub root_tree_hash: String,
}

pub ghost struct CommitV {
    pub id: Seq<char>,
    pub parent_ids: Seq<Seq<char>>,
    pub message: Seq<char>,
    pub author: Seq<char>,
    pub email: Seq<char>,
    pub timestamp: u64,
    pub root_tree_hash: Seq<char>,
}

impl View for Commit {
    type V = CommitV;

    open spec fn view(&self) -> CommitV {
        CommitV {
            id: self.id@,
            parent_ids: self.parent_ids.deep_view(),
            message: self.message@,
            author: self.author@,
            email: self.email@,
            timestamp: self.timestamp,
            root_tree_hash: self.root_tree_hash@,
        }
    }
}

impl DeepView for Commit {
    type V = CommitV;

    open spec fn deep_view(&self) -> CommitV {
        self.view()
    }
}

impl Clone for Commit {
    fn clone(&self) -> (r: Commit)
        ensures
            r@ == self@,
    {
        let mut parent_ids: Vec<String> = Vec::new();
        let mut i: usize = 0;
        while i < self.parent_ids.len()
            invariant
                0 <= i <= self.parent_ids@.len(),
                parent_ids.deep_view() =~= self.parent_ids.deep_view().subrange(0, i as int),
            decreases self.parent_ids@.len() - i,
        {
            let ghost prev = parent_ids.deep_view();
            parent_ids.push(self.parent_ids[i].clone());
            proof {
                assert(parent_ids.deep_view() =~= prev.push(self.parent_ids@[i as int]@));
                assert(parent_ids.deep_view() =~= self.parent_ids.deep_view().subrange(
                    0,
                    i as int + 1,
                ));
            }
            i = i + 1;
        }
        proof {
            assert(self.parent_ids.deep_view().subrange(
                0,
                self.parent_ids.deep_view().len() as int,
            ) =~= self.parent_ids.deep_view());
        }
        Commit {
            id: self.id.clone(),
            parent_ids,
            message: self.message.clone(),
            author: self.author.clone(),
            email: self.email.clone(),
            timestamp: self.timestamp,
            root_tree_hash: self.root_tree_hash.clone(),
        }
    }
}

/// A branch: a named pointer at a commit.
#[derive(Debug)]
pub struct Branch {
    pub name: String,
    pub commit_id: String,
}

pub ghost struct BranchV {
    pub name: Seq<char>,
    pub commit_id: Seq<char>,
}

impl View for Branch {
    type V = BranchV;

    open spec fn view(&self) -> BranchV {
        BranchV { name: self.name@, commit_id: self.commit_id@ }
    }
}

impl DeepView for Branch {
    type V = BranchV;

    open spec fn deep_view(&self) -> BranchV {
        self.view()
    }
}

impl Clone for Branch {
    fn clone(&self) -> (r: Branch)
        ensures
            r@ == self@,
    {
        Branch { name: self.name.clone(), commit_id: self.commit_id.clone() }
    }
}

/// A named remote and its URL.
#[derive(Debug)]
pub struct Remote {
    pub name: String,
    pub url: String,
}

pub ghost struct RemoteV {
    pub name: Seq<char>,
    pub url: Seq<char>,
}

impl View for Remote {
    type V = RemoteV;

    open spec fn view(&self) -> RemoteV {
        RemoteV { name: self.name@, url: self.url@ }
    }
}

impl DeepView for Remote {
    type V = RemoteV;

    open spec fn deep_view(&self) -> RemoteV {
        self.view()
    }
}

impl Clone for Remote {
    fn clone(&self) -> (r: Remote)
        ensures
            r@ == self@,
    {
        Remote { name: self.name.clone(), url: self.url.clone() }
    }
}

/// Where HEAD points: at a branch by name, or detached at a commit.
#[derive(Debug)]
pub enum Head {
    Branch(String),
    Detached(String),
    /// HEAD names a branch that has no commit yet.
    Unborn(String),
}

pub ghost enum HeadV {
    Branch(Seq<char>),
    Detached(Seq<char>),
    Unborn(Seq<char>),
}

impl View for Head {
    type V = HeadV;

    open spec fn view(&self) -> HeadV {
        match self {
            Head::Branch(n) => HeadV::Branch(n@),
            Head::Detached(id) => HeadV::Detached(id@),
            Head::Unborn(n) => HeadV::Unborn(n@),
        }
    }
}

impl Clone for Head {
    fn clone(&self) -> (r: Head)
        ensures
            r@ == self@,
    {
        match self {
            Head::Branch(n) => Head::Branch(n.clone()),
            Head::Detached(id) => Head::Detached(id.clone()),
            Head::Unborn(n) => Head::Unborn(n.clone()),
        }
    }
}

/// A committed leaf: one tracked file at one commit.
#[derive(Debug)]
pub struct CommitEntry {
    pub path: String,
    /// Content hash of the file's bytes.
    pub hash: String,
    pub num_bytes: u64,
    pub last_modified: u64,
    /// The commit that introduced this version of the file.
    pub commit_id: String,
}

pub ghost struct CommitEntryV {
    pub path: Seq<char>,
    pub hash: Seq<char>,
    pub num_bytes: u64,
    pub last_modified: u64,
    pub commit_id: Seq<char>,
}

impl View for CommitEntry {
    type V = CommitEntryV;

    open spec fn view(&self) -> CommitEntryV {
        CommitEntryV {
            path: self.path@,
            hash: self.hash@,
            num_bytes: self.num_bytes,
            last_modified: self.last_modified,
            commit_id: self.commit_id@,
        }
    }
}

impl DeepView for CommitEntry {
    type V = CommitEntryV;

    open spec fn deep_view(&self) -> CommitEntryV {
        self.view()
    }
}

impl Clone for CommitEntry {
    fn clone(&self) -> (r: CommitEntry)
        ensures
            r@ == self@,
    {
        CommitEntry {
            path: self.path.clone(),
            hash: self.hash.clone(),
            num_bytes: self.num_bytes,
            last_modified: self.last_modified,
            commit_id: self.commit_id.clone(),
        }
    }
}

/// How a staged path differs from HEAD.
#[derive(Clone, Copy, Debug, PartialEq, Eq, Structural)]
pub enum StagedEntryStatus {
    Added,
    Modified,
    Removed,
}

/// One staged path with its status and content hash.
#[derive(Debug)]
pub struct StagedEntry {
    pub path: String,
    pub hash: String,
    pub status: StagedEntryStatus,
}

pub ghost struct StagedEntryV {
    pub path: Seq<char>,
    pub hash: Seq<char>,
    pub status: StagedEntryStatus,
}

impl View for StagedEntry {
    type V = StagedEntryV;

    open spec fn view(&self) -> StagedEntryV {
        StagedEntryV { path: self.path@, hash: self.hash@, status: self.status }
    }
}

impl DeepView for StagedEntry {
    type V = StagedEntryV;

    open spec fn deep_view(&self) -> StagedEntryV {
        self.view()
    }
}

impl Clone for StagedEntry {
    fn clone(&self) -> (r: StagedEntry)
        ensures
            r@ == self@,
    {
        StagedEntry { path: self.path.clone(), hash: self.hash.clone(), status: self.status }
    }
}

/// What `status` reports: staged entries plus untracked paths.
#[derive(Debug)]
pub struct StagedData {
    pub added_dirs: Vec<String>,
    pub added_files: Vec<StagedEntry>,
    pub modified_files: Vec<String>,
    pub removed_files: Vec<String>,
    pub untracked_dirs: Vec<String>,
    pub untracked_files: Vec<String>,
}

impl StagedData {
    /// A report with nothing staged and nothing untracked.
    pub fn empty() -> (r: StagedData)
        ensures
            r.added_dirs@.len() == 0,
            r.added_files@.len() == 0,
            r.modified_files@.len() == 0,
            r.removed_files@.len() == 0,
            r.untracked_dirs@.len() == 0,
            r.untracked_files@.len() == 0,
    {
        StagedData {
            added_dirs: Vec::new(),
            added_files: Vec::new(),
            modified_files: Vec::new(),
            removed_files: Vec::new(),
            untracked_dirs: Vec::new(),
            untracked_files: Vec::new(),
        }
    }

    pub open spec fn spec_is_clean(self) -> bool {
        self.added_dirs@.len() == 0 && self.added_files@.len() == 0
            && self.modified_files@.len() == 0 && self.removed_files@.len() == 0
            && self.untracked_dirs@.len() == 0 && self.untracked_files@.len() == 0
    }

    /// True when nothing is staged and nothing is untracked.
    pub fn is_clean(&self) -> (r: bool)
        ensures
            r == self.spec_is_clean(),
    {
        self.added_dirs.len() == 0 && self.added_files.len() == 0 && self.modified_files.len()
            == 0 && self.removed_files.len() == 0 && self.untracked_dirs.len() == 0
            && self.untracked_files.len() == 0
    }
}

// ---------------------------------------------------------------------
// Lookup helpers over sequences of records
// ---------------------------------------------------------------------
/// The index of the commit with this id, or -1.
pub open spec fn commit_index_of(commits: Seq<Commit>, id: Seq<char>) -> int
    decreases commits.len(),
{
    if commits.len() == 0 {
        -1
    } else if commits[0].id@ == id {
        0
    } else {
        let rest = commit_index_of(commits.drop_first(), id);
        if rest == -1 {
            -1
        } else {
            rest + 1
        }
    }
}

pub open spec fn commit_exists(commits: Seq<Commit>, id: Seq<char>) -> bool {
    commit_index_of(commits, id) >= 0
}

pub open spec fn commit_at(commits: Seq<Commit>, id: Seq<char>) -> Commit {
    commits[commit_index_of(commits, id)]
}

/// The index bounds and found commit of `commit_index_of`.
pub proof fn lemma_commit_index_of(commits: Seq<Commit>, id: Seq<char>)
    ensures
        -1 <= commit_index_of(commits, id) < commits.len(),
        commit_index_of(commits, id) >= 0 ==> commits[commit_index_of(commits, id)].id@ == id,
        commit_index_of(commits, id) == -1 ==> forall|i: int|
            0 <= i < commits.len() ==> commits[i].id@ != id,
        commit_index_of(commits, id) >= 0 ==> forall|i: int|
            0 <= i < commit_index_of(commits, id) ==> commits[i].id@ != id,
    decreases commits.len(),
{
    if commits.len() > 0 && commits[0].id@ != id {
        lemma_commit_index_of(commits.drop_first(), id);
        assert(forall|i: int|
            1 <= i < commits.len() ==> commits[i] == commits.drop_first()[i - 1]);
    }
}

/// Looking up in a longer history agrees with the prefix where it hit.
pub proof fn lemma_commit_index_of_push(commits: Seq<Commit>, c: Commit, id: Seq<char>)
    ensures
        commit_exists(commits, id) ==> commit_index_of(commits.push(c), id) == commit_index_of(
            commits,
            id,
        ),
        !commit_exists(commits, id) && c.id@ == id ==> commit_index_of(commits.push(c), id)
            == commits.len(),
        !commit_exists(commits, id) && c.id@ != id ==> commit_index_of(commits.push(c), id)
            == -1,
    decreases commits.len(),
{
    if commits.len() == 0 {
        assert(commits.push(c)[0] == c);
        if c.id@ != id {
            assert(commit_index_of(commits.push(c).drop_first(), id) == -1);
        }
    } else {
        lemma_commit_index_of_push(commits.drop_first(), c, id);
        assert(commits.push(c).drop_first() =~= commits.drop_first().push(c));
    }
}

/// The index of the branch with this name, or -1.
pub open spec fn branch_index_of(branches: Seq<Branch>, name: Seq<char>) -> int
    decreases branches.len(),
{
    if branches.len() == 0 {
        -1
    } else if branches[0].name@ == name {
        0
    } else {
        let rest = branch_index_of(branches.drop_first(), name);
        if rest == -1 {
            -1
        } else {
            rest + 1
        }
    }
}

pub open spec fn branch_exists(branches: Seq<Branch>, name: Seq<char>) -> bool {
    branch_index_of(branches, name) >= 0
}

pub open spec fn branch_at(branches: Seq<Branch>, name: Seq<char>) -> Branch {
    branches[branch_index_of(branches, name)]
}

/// The index bounds and found branch of `branch_index_of`.
pub proof fn lemma_branch_index_of(branches: Seq<Branch>, name: Seq<char>)
    ensures
        -1 <= branch_index_of(branches, name) < branches.len(),
        branch_index_of(branches, name) >= 0 ==> branches[branch_index_of(
            branches,
            name,
        )].name@ == name,
        branch_index_of(branches, name) == -1 ==> forall|i: int|
            0 <= i < branches.len() ==> branches[i].name@ != name,
        branch_index_of(branches, name) >= 0 ==> forall|i: int|
            0 <= i < branch_index_of(branches, name) ==> branches[i].name@ != name,
    decreases branches.len(),
{
    if branches.len() > 0 && branches[0].name@ != name {
        lemma_branch_index_of(branches.drop_first(), name);
        assert(forall|i: int|
            1 <= i < branches.len() ==> branches[i] == branches.drop_first()[i - 1]);
    }
}

// ---------------------------------------------------------------------
// Canonical encodings, for commit ids and the archive
// ---------------------------------------------------------------------
/// The canonical encoding of the hashed fields of a commit: everything but
/// the id, which is the hash of this encoding.
pub open spec fn enc_commit_fields(c: CommitV) -> Seq<u8> {
    codec::enc_str_list(c.parent_ids) + codec::enc_str(c.message) + codec::enc_str(c.author)
        + codec::enc_str(c.email) + codec::le8(c.timestamp) + codec::enc_str(c.root_tree_hash)
}

/// The canonical encoding of a full commit record.
pub open spec fn enc_commit(c: CommitV) -> Seq<u8> {
    codec::enc_str(c.id) + enc_commit_fields(c)
}

/// Append the canonical encoding of the hashed fields of a commit.
pub fn push_commit_fields(out: &mut Vec<u8>, c: &Commit)
    ensures
        final(out)@ == old(out)@ + enc_commit_fields(c@),
{
    codec::push_str_list(out, &c.parent_ids);
    codec::push_string(out, c.message.as_str());
    codec::push_string(out, c.author.as_str());
    codec::push_string(out, c.email.as_str());
    codec::push_u64(out, c.timestamp);
    codec::push_string(out, c.root_tree_hash.as_str());
}

/// Append the canonical encoding of a full commit record.
pub fn push_commit(out: &mut Vec<u8>, c: &Commit)
    ensures
        final(out)@ == old(out)@ + enc_commit(c@),
{
    codec::push_string(out, c.id.as_str());
    push_commit_fields(out, c);
}

} // verus!

verus! {

/// The id of a commit: the content hash of the canonical encoding of its
/// parents, message, author, email and timestamp.
///
/// The root tree hash cannot enter the id: the tree's File nodes record
/// the id of the commit that introduced them, so the id must exist before
/// the tree nodes are hashed.  The tree is bound to the commit by the
/// stored `root_tree_hash` instead, and the writer refuses to reuse an id
/// that is already taken, so an id still names one commit record.
pub open spec fn commit_id_spec(
    parent_ids: Seq<Seq<char>>,
    message: Seq<char>,
    author: Seq<char>,
    email: Seq<char>,
    timestamp: u64,
) -> Seq<char> {
    crate::hash::hash_of_bytes(
        codec::enc_str_list(parent_ids) + codec::enc_str(message) + codec::enc_str(author)
            + codec::enc_str(email) + codec::le8(timestamp),
    )
}

/// Compute a commit id from its hashed fields.
pub fn compute_commit_id(
    parent_ids: &Vec<String>,
    message: &str,
    author: &str,
    email: &str,
    timestamp: u64,
) -> (r: String)
    ensures
        r@ == commit_id_spec(parent_ids.deep_view(), message@, author@, email@, timestamp),
        crate::hash::is_hash(r@),
{
    let mut buf: Vec<u8> = Vec::new();
    codec::push_str_list(&mut buf, parent_ids);
    codec::push_string(&mut buf, message);
    codec::push_string(&mut buf, author);
    codec::push_string(&mut buf, email);
    codec::push_u64(&mut buf, timestamp);
    proof {
        assert(buf@ =~= codec::enc_str_list(parent_ids.deep_view()) + codec::enc_str(message@)
            + codec::enc_str(author@) + codec::enc_str(email@) + codec::le8(timestamp));
    }
    crate::hash::hash_bytes(buf.as_slice())
}

} // verus!

verus! {

/// Every piece of a commit record fits the length prefixes of the wire
/// encoding.
pub open spec fn commit_bounded(c: CommitV) -> bool {
    &&& c.id.len() < 0x10000000000000000
    &&& c.parent_ids.len() < 0x10000000000000000
    &&& (forall|i: int|
        0 <= i < c.parent_ids.len() ==> #[trigger] c.parent_ids[i].len()
            < 0x10000000000000000)
    &&& c.message.len() < 0x10000000000000000
    &&& c.author.len() < 0x10000000000000000
    &&& c.email.len() < 0x10000000000000000
    &&& c.root_tree_hash.len() < 0x10000000000000000
}

/// A commit record's wire encoding determines the record and the rest of
/// the stream: two records with the same encoding are the same record.
#[verifier::rlimit(100)]
pub proof fn lemma_enc_commit_unambiguous(a: CommitV, b: CommitV, ra: Seq<u8>, rb: Seq<u8>)
    requires
        commit_bounded(a),
        commit_bounded(b),
        enc_commit(a) + ra == enc_commit(b) + rb,
    ensures
        a == b,
        ra == rb,
{
    let ta = enc_commit(a) + ra;
    let tb = enc_commit(b) + rb;
    let ra1 = codec::enc_str_list(a.parent_ids) + codec::enc_str(a.message) + codec::enc_str(
        a.author,
    ) + codec::enc_str(a.email) + codec::le8(a.timestamp) + codec::enc_str(a.root_tree_hash)
        + ra;
    let rb1 = codec::enc_str_list(b.parent_ids) + codec::enc_str(b.message) + codec::enc_str(
        b.author,
    ) + codec::enc_str(b.email) + codec::le8(b.timestamp) + codec::enc_str(b.root_tree_hash)
        + rb;
    assert(codec::enc_str(a.id) + ra1 =~= ta);
    assert(codec::enc_str(b.id) + rb1 =~= tb);
    codec::lemma_enc_str_unambiguous(a.id, b.id, ra1, rb1);
    let ra2 = codec::enc_str(a.message) + codec::enc_str(a.author) + codec::enc_str(a.email)
        + codec::le8(a.timestamp) + codec::enc_str(a.root_tree_hash) + ra;
    let rb2 = codec::enc_str(b.message) + codec::enc_str(b.author) + codec::enc_str(b.email)
        + codec::le8(b.timestamp) + codec::enc_str(b.root_tree_hash) + rb;
    assert(codec::enc_list(a.parent_ids, codec::enc_str_fn()) + ra2 =~= ra1);
    assert(codec::enc_list(b.parent_ids, codec::enc_str_fn()) + rb2 =~= rb1);
    assert forall|i: int, j: int|
        0 <= i < a.parent_ids.len() && 0 <= j < b.parent_ids.len() implies codec::pair_unamb(
        codec::enc_str_fn(),
        #[trigger] a.parent_ids[i],
        #[trigger] b.parent_ids[j],
    ) by {
        codec::lemma_str_pair_unamb(a.parent_ids[i], b.parent_ids[j]);
    }
    codec::lemma_enc_list_unambiguous(codec::enc_str_fn(), a.parent_ids, b.parent_ids, ra2, rb2);
    let ra3 = codec::enc_str(a.author) + codec::enc_str(a.email) + codec::le8(a.timestamp)
        + codec::enc_str(a.root_tree_hash) + ra;
    let rb3 = codec::enc_str(b.author) + codec::enc_str(b.email) + codec::le8(b.timestamp)
        + codec::enc_str(b.root_tree_hash) + rb;
    assert(codec::enc_str(a.message) + ra3 =~= ra2);
    assert(codec::enc_str(b.message) + rb3 =~= rb2);
    codec::lemma_enc_str_unambiguous(a.message, b.message, ra3, rb3);
    let ra4 = codec::enc_str(a.email) + codec::le8(a.timestamp) + codec::enc_str(
        a.root_tree_hash,
    ) + ra;
    let rb4 = codec::enc_str(b.email) + codec::le8(b.timestamp) + codec::enc_str(
        b.root_tree_hash,
    ) + rb;
    assert(codec::enc_str(a.author) + ra4 =~= ra3);
    assert(codec::enc_str(b.author) + rb4 =~= rb3);
    codec::lemma_enc_str_unambiguous(a.author, b.author, ra4, rb4);
    let ra5 = codec::le8(a.timestamp) + codec::enc_str(a.root_tree_hash) + ra;
    let rb5 = codec::le8(b.timestamp) + codec::enc_str(b.root_tree_hash) + rb;
    assert(codec::enc_str(a.email) + ra5 =~= ra4);
    assert(codec::enc_str(b.email) + rb5 =~= rb4);
    codec::lemma_enc_str_unambiguous(a.email, b.email, ra5, rb5);
    assert(codec::le8(a.timestamp) =~= ra5.subrange(0, 8));
    assert(codec::le8(b.timestamp) =~= rb5.subrange(0, 8));
    codec::lemma_le8_injective(a.timestamp, b.timestamp);
    let ra6 = ra5.subrange(8, ra5.len() as int);
    let rb6 = rb5.subrange(8, rb5.len() as int);
    assert(codec::enc_str(a.root_tree_hash) + ra =~= ra6);
    assert(codec::enc_str(b.root_tree_hash) + rb =~= rb6);
    assert(ra6 =~= rb6);
    codec::lemma_enc_str_unambiguous(a.root_tree_hash, b.root_tree_hash, ra, rb);
}

/// The stream after a commit's first `k` encoded fields: the remaining
/// fields' encodings, then the rest of the data.
proof fn lemma_commit_field_alignment(data: Seq<u8>, pos: int, q: int, c: CommitV)
    requires
        commit_bounded(c),
        0 <= pos <= q <= data.len(),
        data.subrange(pos, q) == enc_commit(c),
    ensures
        data.subrange(pos, data.len() as int) == codec::enc_str(c.id) + (codec::enc_str_list(
            c.parent_ids,
        ) + (codec::enc_str(c.message) + (codec::enc_str(c.author) + (codec::enc_str(c.email)
            + (codec::le8(c.timestamp) + (codec::enc_str(c.root_tree_hash) + data.subrange(
            q,
            data.len() as int,
        ))))))),
{
    assert(data.subrange(pos, data.len() as int) =~= data.subrange(pos, q) + data.subrange(
        q,
        data.len() as int,
    ));
    assert(data.subrange(pos, data.len() as int) =~= codec::enc_str(c.id) + (
    codec::enc_str_list(c.parent_ids) + (codec::enc_str(c.message) + (codec::enc_str(c.author)
        + (codec::enc_str(c.email) + (codec::le8(c.timestamp) + (codec::enc_str(
        c.root_tree_hash,
    ) + data.subrange(q, data.len() as int))))))));
}

/// After a decoded id and parent list, the stream holds the remaining
/// field encodings of any commit whose encoding starts at `pos`.
proof fn lemma_read_commit_align2(
    data: Seq<u8>,
    pos: int,
    q: int,
    c: CommitV,
    sid: Seq<char>,
    pl: Seq<Seq<char>>,
    p1: int,
    p2: int,
)
    requires
        commit_bounded(c),
        0 <= pos <= p1 <= p2 <= data.len(),
        pos <= q <= data.len(),
        data.subrange(pos, q) == enc_commit(c),
        data.subrange(pos, p1) == codec::enc_str(sid),
        data.subrange(p1, p2) == codec::enc_str_list(pl),
        sid.len() < 0x10000000000000000,
        pl.len() < 0x10000000000000000,
        forall|k: int| 0 <= k < pl.len() ==> (#[trigger] pl[k]).len() < 0x10000000000000000,
    ensures
        data.subrange(p2, data.len() as int) == codec::enc_str(c.message) + (codec::enc_str(
            c.author,
        ) + (codec::enc_str(c.email) + (codec::le8(c.timestamp) + (codec::enc_str(
            c.root_tree_hash,
        ) + data.subrange(q, data.len() as int))))),
{
    let dl = data.len() as int;
    lemma_commit_field_alignment(data, pos, q, c);
    assert(codec::enc_str(sid) + data.subrange(p1, dl) =~= data.subrange(pos, dl));
    let rest2 = codec::enc_str(c.message) + (codec::enc_str(c.author) + (codec::enc_str(
        c.email,
    ) + (codec::le8(c.timestamp) + (codec::enc_str(c.root_tree_hash) + data.subrange(q, dl)))));
    codec::lemma_enc_str_unambiguous(
        sid,
        c.id,
        data.subrange(p1, dl),
        codec::enc_str_list(c.parent_ids) + rest2,
    );
    assert(codec::enc_list(pl, codec::enc_str_fn()) + data.subrange(p2, dl) =~= data.subrange(
        p1,
        dl,
    ));
    assert(codec::enc_list(c.parent_ids, codec::enc_str_fn()) + rest2 =~= data.subrange(
        p1,
        dl,
    ));
    assert forall|i: int, j: int|
        0 <= i < pl.len() && 0 <= j < c.parent_ids.len() implies codec::pair_unamb(
        codec::enc_str_fn(),
        #[trigger] pl[i],
        #[trigger] c.parent_ids[j],
    ) by {
        codec::lemma_str_pair_unamb(pl[i], c.parent_ids[j]);
    }
    codec::lemma_enc_list_unambiguous(
        codec::enc_str_fn(),
        pl,
        c.parent_ids,
        data.subrange(p2, dl),
        rest2,
    );
}

/// After five decoded fields, the stream holds the timestamp and root
/// hash encodings of any commit whose encoding starts at `pos`.
proof fn lemma_read_commit_align5(
    data: Seq<u8>,
    pos: int,
    q: int,
    c: CommitV,
    sid: Seq<char>,
    pl: Seq<Seq<char>>,
    msg: Seq<char>,
    author: Seq<char>,
    email: Seq<char>,
    p1: int,
    p2: int,
    p3: int,
    p4: int,
    p5: int,
)
    requires
        commit_bounded(c),
        0 <= pos <= p1 <= p2 <= p3 <= p4 <= p5 <= data.len(),
        pos <= q <= data.len(),
        data.subrange(pos, q) == enc_commit(c),
        data.subrange(pos, p1) == codec::enc_str(sid),
        data.subrange(p1, p2) == codec::enc_str_list(pl),
        data.subrange(p2, p3) == codec::enc_str(msg),
        data.subrange(p3, p4) == codec::enc_str(author),
        data.subrange(p4, p5) == codec::enc_str(email),
        sid.len() < 0x10000000000000000,
        pl.len() < 0x10000000000000000,
        forall|k: int| 0 <= k < pl.len() ==> (#[trigger] pl[k]).len() < 0x10000000000000000,
        msg.len() < 0x10000000000000000,
        author.len() < 0x10000000000000000,
        email.len() < 0x10000000000000000,
    ensures
        data.subrange(p5, data.len() as int) == codec::le8(c.timestamp) + (codec::enc_str(
            c.root_tree_hash,
        ) + data.subrange(q, data.len() as int)),
{
    let dl = data.len() as int;
    lemma_read_commit_align2(data, pos, q, c, sid, pl, p1, p2);
    assert(codec::enc_str(msg) + data.subrange(p3, dl) =~= data.subrange(p2, dl));
    codec::lemma_enc_str_unambiguous(
        msg,
        c.message,
        data.subrange(p3, dl),
        codec::enc_str(c.author) + (codec::enc_str(c.email) + (codec::le8(c.timestamp) + (
        codec::enc_str(c.root_tree_hash) + data.subrange(q, dl)))),
    );
    assert(codec::enc_str(author) + data.subrange(p4, dl) =~= data.subrange(p3, dl));
    codec::lemma_enc_str_unambiguous(
        author,
        c.author,
        data.subrange(p4, dl),
        codec::enc_str(c.email) + (codec::le8(c.timestamp) + (codec::enc_str(c.root_tree_hash)
            + data.subrange(q, dl))),
    );
    assert(codec::enc_str(email) + data.subrange(p5, dl) =~= data.subrange(p4, dl));
    codec::lemma_enc_str_unambiguous(
        email,
        c.email,
        data.subrange(p5, dl),
        codec::le8(c.timestamp) + (codec::enc_str(c.root_tree_hash) + data.subrange(q, dl)),
    );
}

/// Read a commit record from the wire: the consumed bytes are exactly
/// its encoding, so by unambiguity they determine the record, and a miss
/// means no commit encoding starts at the position.
#[verifier::rlimit(100)]
pub fn read_commit(data: &Vec<u8>, pos: usize) -> (r: Option<(Commit, usize)>)
    ensures
        match r {
            Some((c, p)) => pos <= p <= data@.len() && data@.subrange(pos as int, p as int)
                =~= enc_commit(c@) && commit_bounded(c@),
            None => forall|c: CommitV, q: int|
                pos <= q <= data@.len() && commit_bounded(c) ==> data@.subrange(pos as int, q)
                    != enc_commit(c),
        },
{
    let ghost dlen = data@.len() as int;
    let (id, p1) = match codec::read_string(data, pos) {
        Some(x) => x,
        None => {
            proof {
                assert forall|c: CommitV, q: int|
                    pos <= q <= data@.len() && commit_bounded(c) implies data@.subrange(
                    pos as int,
                    q,
                ) != enc_commit(c) by {
                    if data@.subrange(pos as int, q) == enc_commit(c) {
                        lemma_commit_field_alignment(data@, pos as int, q, c);
                        codec::lemma_enc_str_len(c.id);
                        let el = 8 + 4 * c.id.len() as int;
                        assert(enc_commit(c) == codec::enc_str(c.id) + enc_commit_fields(c));
                        assert(enc_commit(c).len() == el + enc_commit_fields(c).len());
                        assert(q - pos == enc_commit(c).len());
                        assert(pos + el <= dlen);
                        assert(data@.subrange(pos as int, pos as int + el) =~= data@.subrange(
                            pos as int,
                            dlen,
                        ).subrange(0, el));
                        assert(data@.subrange(pos as int, pos as int + el) =~= codec::enc_str(
                            c.id,
                        ));
                        assert(false);
                    }
                }
            }
            return None;
        },
    };
    let (parent_ids, p2) = match codec::read_str_list(data, p1) {
        Some(x) => x,
        None => {
            proof {
                assert forall|c: CommitV, q: int|
                    pos <= q <= data@.len() && commit_bounded(c) implies data@.subrange(
                    pos as int,
                    q,
                ) != enc_commit(c) by {
                    if data@.subrange(pos as int, q) == enc_commit(c) {
                        lemma_commit_field_alignment(data@, pos as int, q, c);
                        assert(codec::enc_str(id@) + data@.subrange(p1 as int, dlen)
                            =~= data@.subrange(pos as int, dlen));
                        codec::lemma_enc_str_unambiguous(
                            id@,
                            c.id,
                            data@.subrange(p1 as int, dlen),
                            codec::enc_str_list(c.parent_ids) + (codec::enc_str(c.message) + (
                            codec::enc_str(c.author) + (codec::enc_str(c.email) + (codec::le8(
                                c.timestamp,
                            ) + (codec::enc_str(c.root_tree_hash) + data@.subrange(
                                q,
                                dlen,
                            )))))),
                        );
                        codec::lemma_enc_each_str_min(c.parent_ids);
                        let ll = 8 + codec::enc_each(c.parent_ids, codec::enc_str_fn()).len()
                            as int;
                        assert(codec::le8(c.parent_ids.len() as u64).len() == 8);
                        assert(codec::enc_str_list(c.parent_ids) == codec::le8(
                            c.parent_ids.len() as u64,
                        ) + codec::enc_each(c.parent_ids, codec::enc_str_fn()));
                        assert(codec::enc_str_list(c.parent_ids).len() == ll);
                        let rest2 = codec::enc_str(c.message) + (codec::enc_str(c.author) + (
                        codec::enc_str(c.email) + (codec::le8(c.timestamp) + (codec::enc_str(
                            c.root_tree_hash,
                        ) + data@.subrange(q, dlen)))));
                        assert(data@.subrange(p1 as int, dlen) == codec::enc_str_list(
                            c.parent_ids,
                        ) + rest2);
                        assert((codec::enc_str_list(c.parent_ids) + rest2).len()
                            == codec::enc_str_list(c.parent_ids).len() + rest2.len());
                        assert(p1 + ll <= dlen);
                        assert(data@.subrange(p1 as int, p1 as int + ll) =~= data@.subrange(
                            p1 as int,
                            dlen,
                        ).subrange(0, ll));
                        assert(data@.subrange(p1 as int, p1 as int + ll)
                            =~= codec::enc_str_list(c.parent_ids));
                        assert(false);
                    }
                }
            }
            return None;
        },
    };
    let (message, p3) = match codec::read_string(data, p2) {
        Some(x) => x,
        None => {
            proof {
                assert forall|c: CommitV, q: int|
                    pos <= q <= data@.len() && commit_bounded(c) implies data@.subrange(
                    pos as int,
                    q,
                ) != enc_commit(c) by {
                    if data@.subrange(pos as int, q) == enc_commit(c) {
                        lemma_read_commit_align2(
                            data@,
                            pos as int,
                            q,
                            c,
                            id@,
                            parent_ids.deep_view(),
                            p1 as int,
                            p2 as int,
                        );
                        codec::lemma_enc_str_len(c.message);
                        let el = 8 + 4 * c.message.len() as int;
                        let restm = codec::enc_str(c.author) + (codec::enc_str(c.email) + (
                        codec::le8(c.timestamp) + (codec::enc_str(c.root_tree_hash)
                            + data@.subrange(q, dlen))));
                        assert(data@.subrange(p2 as int, dlen) == codec::enc_str(c.message)
                            + restm);
                        assert((codec::enc_str(c.message) + restm).len() == codec::enc_str(
                            c.message,
                        ).len() + restm.len());
                        assert(p2 + el <= dlen);
                        assert(data@.subrange(p2 as int, p2 as int + el) =~= data@.subrange(
                            p2 as int,
                            dlen,
                        ).subrange(0, el));
                        assert(data@.subrange(p2 as int, p2 as int + el) =~= codec::enc_str(
                            c.message,
                        ));
                        assert(false);
                    }
                }
            }
            return None;
        },
    };
    let (author, p4) = match codec::read_string(data, p3) {
        Some(x) => x,
        None => {
            proof {
                assert forall|c: CommitV, q: int|
                    pos <= q <= data@.len() && commit_bounded(c) implies data@.subrange(
                    pos as int,
                    q,
                ) != enc_commit(c) by {
                    if data@.subrange(pos as int, q) == enc_commit(c) {
                        lemma_read_commit_align2(
                            data@,
                            pos as int,
                            q,
                            c,
                            id@,
                            parent_ids.deep_view(),
                            p1 as int,
                            p2 as int,
                        );
                        assert(codec::enc_str(message@) + data@.subrange(p3 as int, dlen)
                            =~= data@.subrange(p2 as int, dlen));
                        codec::lemma_enc_str_unambiguous(
                            message@,
                            c.message,
                            data@.subrange(p3 as int, dlen),
                            codec::enc_str(c.author) + (codec::enc_str(c.email) + (codec::le8(
                                c.timestamp,
                            ) + (codec::enc_str(c.root_tree_hash) + data@.subrange(
                                q,
                                dlen,
                            )))),
                        );
                        codec::lemma_enc_str_len(c.author);
                        let el = 8 + 4 * c.author.len() as int;
                        let resta = codec::enc_str(c.email) + (codec::le8(c.timestamp) + (
                        codec::enc_str(c.root_tree_hash) + data@.subrange(q, dlen)));
                        assert(data@.subrange(p3 as int, dlen) == codec::enc_str(c.author)
                            + resta);
                        assert((codec::enc_str(c.author) + resta).len() == codec::enc_str(
                            c.author,
                        ).len() + resta.len());
                        assert(p3 + el <= dlen);
                        assert(data@.subrange(p3 as int, p3 as int + el) =~= data@.subrange(
                            p3 as int,
                            dlen,
                        ).subrange(0, el));
                        assert(data@.subrange(p3 as int, p3 as int + el) =~= codec::enc_str(
                            c.author,
                        ));
                        assert(false);
                    }
                }
            }
            return None;
        },
    };
    let (email, p5) = match codec::read_string(data, p4) {
        Some(x) => x,
        None => {
            proof {
                assert forall|c: CommitV, q: int|
                    pos <= q <= data@.len() && commit_bounded(c) implies data@.subrange(
                    pos as int,
                    q,
                ) != enc_commit(c) by {
                    if data@.subrange(pos as int, q) == enc_commit(c) {
                        lemma_read_commit_align2(
                            data@,
                            pos as int,
                            q,
                            c,
                            id@,
                            parent_ids.deep_view(),
                            p1 as int,
                            p2 as int,
                        );
                        assert(codec::enc_str(message@) + data@.subrange(p3 as int, dlen)
                            =~= data@.subrange(p2 as int, dlen));
                        codec::lemma_enc_str_unambiguous(
                            message@,
                            c.message,
                            data@.subrange(p3 as int, dlen),
                            codec::enc_str(c.author) + (codec::enc_str(c.email) + (codec::le8(
                                c.timestamp,
                            ) + (codec::enc_str(c.root_tree_hash) + data@.subrange(
                                q,
                                dlen,
                            )))),
                        );
                        assert(codec::enc_str(author@) + data@.subrange(p4 as int, dlen)
                            =~= data@.subrange(p3 as int, dlen));
                        codec::lemma_enc_str_unambiguous(
                            author@,
                            c.author,
                            data@.subrange(p4 as int, dlen),
                            codec::enc_str(c.email) + (codec::le8(c.timestamp) + (
                            codec::enc_str(c.root_tree_hash) + data@.subrange(q, dlen))),
                        );
                        codec::lemma_enc_str_len(c.email);
                        let el = 8 + 4 * c.email.len() as int;
                        let reste = codec::le8(c.timestamp) + (codec::enc_str(
                            c.root_tree_hash,
                        ) + data@.subrange(q, dlen));
                        assert(data@.subrange(p4 as int, dlen) == codec::enc_str(c.email)
                            + reste);
                        assert((codec::enc_str(c.email) + reste).len() == codec::enc_str(
                            c.email,
                        ).len() + reste.len());
                        assert(p4 + el <= dlen);
                        assert(data@.subrange(p4 as int, p4 as int + el) =~= data@.subrange(
                            p4 as int,
                            dlen,
                        ).subrange(0, el));
                        assert(data@.subrange(p4 as int, p4 as int + el) =~= codec::enc_str(
                            c.email,
                        ));
                        assert(false);
                    }
                }
            }
            return None;
        },
    };
    let (timestamp, p6) = match codec::read_u64(data, p5) {
        Some(x) => x,
        None => {
            proof {
                assert forall|c: CommitV, q: int|
                    pos <= q <= data@.len() && commit_bounded(c) implies data@.subrange(
                    pos as int,
                    q,
                ) != enc_commit(c) by {
                    if data@.subrange(pos as int, q) == enc_commit(c) {
                        lemma_read_commit_align5(
                            data@,
                            pos as int,
                            q,
                            c,
                            id@,
                            parent_ids.deep_view(),
                            message@,
                            author@,
                            email@,
                            p1 as int,
                            p2 as int,
                            p3 as int,
                            p4 as int,
                            p5 as int,
                        );
                        assert(codec::le8(c.timestamp).len() == 8);
                        let restt = codec::enc_str(c.root_tree_hash) + data@.subrange(q, dlen);
                        assert(data@.subrange(p5 as int, dlen) == codec::le8(c.timestamp)
                            + restt);
                        assert((codec::le8(c.timestamp) + restt).len() == 8 + restt.len());
                        assert(p5 + 8 <= dlen);
                        assert(false);
                    }
                }
            }
            return None;
        },
    };
    let (root_tree_hash, p7) = match codec::read_string(data, p6) {
        Some(x) => x,
        None => {
            proof {
                assert forall|c: CommitV, q: int|
                    pos <= q <= data@.len() && commit_bounded(c) implies data@.subrange(
                    pos as int,
                    q,
                ) != enc_commit(c) by {
                    if data@.subrange(pos as int, q) == enc_commit(c) {
                        lemma_read_commit_align5(
                            data@,
                            pos as int,
                            q,
                            c,
                            id@,
                            parent_ids.deep_view(),
                            message@,
                            author@,
                            email@,
                            p1 as int,
                            p2 as int,
                            p3 as int,
                            p4 as int,
                            p5 as int,
                        );
                        assert(codec::le8(c.timestamp).len() == 8);
                        let restr = codec::enc_str(c.root_tree_hash) + data@.subrange(q, dlen);
                        assert(data@.subrange(p5 as int, dlen) == codec::le8(c.timestamp)
                            + restr);
                        assert(data@.subrange(p5 as int, dlen).subrange(8, dlen - p5 as int)
                            =~= data@.subrange(p6 as int, dlen));
                        assert((codec::le8(c.timestamp) + restr).subrange(8, dlen - p5 as int)
                            =~= restr);
                        assert(data@.subrange(p6 as int, dlen) =~= codec::enc_str(
                            c.root_tree_hash,
                        ) + data@.subrange(q, dlen));
                        codec::lemma_enc_str_len(c.root_tree_hash);
                        let el = 8 + 4 * c.root_tree_hash.len() as int;
                        assert((codec::enc_str(c.root_tree_hash) + data@.subrange(q, dlen)).len()
                            == codec::enc_str(c.root_tree_hash).len() + (dlen - q));
                        assert(p6 + el <= dlen);
                        assert(data@.subrange(p6 as int, p6 as int + el) =~= data@.subrange(
                            p6 as int,
                            dlen,
                        ).subrange(0, el));
                        assert(data@.subrange(p6 as int, p6 as int + el) =~= codec::enc_str(
                            c.root_tree_hash,
                        ));
                        assert(false);
                    }
                }
            }
            return None;
        },
    };
    let n_id: usize = id.as_str().unicode_len();
    let n_msg: usize = message.as_str().unicode_len();
    let n_author: usize = author.as_str().unicode_len();
    let n_email: usize = email.as_str().unicode_len();
    let n_root: usize = root_tree_hash.as_str().unicode_len();
    let mut k: usize = 0;
    while k < parent_ids.len()
        invariant
            0 <= k <= parent_ids@.len(),
            forall|i: int|
                0 <= i < k ==> #[trigger] parent_ids.deep_view()[i].len()
                    < 0x10000000000000000,
        decreases parent_ids@.len() - k,
    {
        let n: usize = parent_ids[k].as_str().unicode_len();
        proof {
            assert(parent_ids.deep_view()[k as int].len() == n);
        }
        k = k + 1;
    }
    let c = Commit { id, parent_ids, message, author, email, timestamp, root_tree_hash };
    proof {
        assert(data@.subrange(pos as int, p7 as int) =~= data@.subrange(pos as int, p1 as int)
            + data@.subrange(p1 as int, p2 as int) + data@.subrange(p2 as int, p3 as int)
            + data@.subrange(p3 as int, p4 as int) + data@.subrange(p4 as int, p5 as int)
            + data@.subrange(p5 as int, p6 as int) + data@.subrange(p6 as int, p7 as int));
        assert(data@.subrange(pos as int, p7 as int) =~= enc_commit(c@));
    }
    Some((c, p7))
}

} // verus!
