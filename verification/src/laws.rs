//! The engine's cross-cutting guarantees, stated once as proof functions
//! over well-formed repositories.

use vstd::prelude::*;

use crate::hash;
use crate::model::branch_exists;
use crate::model::commit_exists;
use crate::model::commit_index_of;
use crate::model::lemma_commit_index_of;
use crate::model::HeadV;
use crate::objects::commit_tree_wf;
use crate::tree::node_hash;
use crate::objects::tree_entries;
use crate::objects::version_at;
use crate::objects::versions_wf;
use crate::objects::VersionRecordV;
use crate::repository::entry_find;
use crate::repository::updated_entry;
use crate::repository::working_at;
use crate::repository::Repository;
use crate::repository::WorkingFileV;
use crate::model::CommitEntryV;

verus! {

/// Every stored tree node sits under the content hash of its canonical
/// serialization: recomputing a stored node's hash reproduces its key.
pub proof fn lemma_stored_nodes_hash_to_key(r: Repository)
    requires
        r.wf(),
    ensures
        forall|i: int|
            0 <= i < r.objects.deep_view().len() ==> (
            #[trigger] r.objects.deep_view()[i]).hash == node_hash(
                r.objects.deep_view()[i].node,
            ),
{
}

/// A successful version lookup returns bytes that hash to the key.
pub proof fn lemma_version_bytes_match_key(versions: Seq<VersionRecordV>, h: Seq<char>)
    requires
        versions_wf(versions),
        version_at(versions, h) is Some,
    ensures
        hash::hash_of_bytes(version_at(versions, h).unwrap()) == h,
    decreases versions.len(),
{
    if versions.len() > 0 && versions[0].hash != h {
        assert(forall|i: int|
            0 <= i < versions.drop_first().len() ==> versions.drop_first()[i] == versions[i
                + 1]);
        lemma_version_bytes_match_key(versions.drop_first(), h);
    }
}

/// In a non-shallow repository, every entry reachable from any commit's
/// tree has its bytes present in the version store, and those bytes hash
/// to the entry's hash.
pub proof fn lemma_tree_entries_materialized(r: Repository, i: int, k: int)
    requires
        r.wf(),
        !r.shallow,
        0 <= i < r.commits@.len(),
        0 <= k < tree_entries(r.objects.deep_view(), r.commits@[i]@.root_tree_hash).len(),
    ensures
        ({
            let e = tree_entries(r.objects.deep_view(), r.commits@[i]@.root_tree_hash)[k];
            &&& version_at(r.versions.deep_view(), e.hash) is Some
            &&& hash::hash_of_bytes(version_at(r.versions.deep_view(), e.hash).unwrap())
                == e.hash
        }),
{
    assert(commit_tree_wf(
        r.objects.deep_view(),
        r.versions.deep_view(),
        r.commits@[i]@.root_tree_hash,
        r.shallow,
    ));
    let e = tree_entries(r.objects.deep_view(), r.commits@[i]@.root_tree_hash)[k];
    lemma_version_bytes_match_key(r.versions.deep_view(), e.hash);
}

/// Every branch's commit id resolves in the commit store.
pub proof fn lemma_branches_resolve(r: Repository, i: int)
    requires
        r.wf(),
        0 <= i < r.branches@.len(),
    ensures
        commit_exists(r.commits@, r.branches@[i]@.commit_id),
{
}

/// HEAD resolves: on a born branch it names an existing branch whose
/// commit exists; detached, it names an existing commit.
pub proof fn lemma_head_resolves(r: Repository)
    requires
        r.wf(),
        !(r.head@ is Unborn),
    ensures
        r.head_commit_spec() is Some,
        match r.head@ {
            HeadV::Branch(n) => branch_exists(r.branches@, n),
            HeadV::Detached(id) => commit_exists(r.commits@, id),
            HeadV::Unborn(_) => true,
        },
{
    match r.head@ {
        HeadV::Branch(n) => {
            crate::model::lemma_branch_index_of(r.branches@, n);
            let b = crate::model::branch_at(r.branches@, n);
            assert(commit_exists(r.commits@, b.commit_id@));
        },
        HeadV::Detached(_) => {},
        HeadV::Unborn(_) => {},
    }
}

/// Every parent of every commit resolves, and at a strictly earlier
/// position in the append-only commit list.  A cycle through `parent_ids`
/// would need some commit to reach itself through ever-earlier positions,
/// so the transitive closure of the parent relation is acyclic.
pub proof fn lemma_parents_resolve_earlier(r: Repository, i: int, k: int)
    requires
        r.wf(),
        0 <= i < r.commits@.len(),
        0 <= k < r.commits@[i]@.parent_ids.len(),
    ensures
        commit_exists(r.commits@, r.commits@[i]@.parent_ids[k]),
        0 <= commit_index_of(r.commits@, r.commits@[i]@.parent_ids[k]) < i,
{
    let pid = r.commits@[i]@.parent_ids[k];
    let pre = r.commits@.subrange(0, i);
    assert(commit_exists(pre, pid));
    lemma_commit_index_of(pre, pid);
    let j = commit_index_of(pre, pid);
    assert(pre[j].id@ == pid);
    assert(pre[j] == r.commits@[j]);
    lemma_commit_index_of(r.commits@, pid);
    if commit_index_of(r.commits@, pid) == -1 {
        assert(r.commits@[j].id@ != pid);
    }
    let full = commit_index_of(r.commits@, pid);
    if full >= i {
        assert(r.commits@[full].id@ == pid);
        assert(r.commits@[j]@.id == r.commits@[full]@.id);
        assert(j < full);
        assert(false);
    }
}

/// Committing a file and then materializing that commit's tree restores
/// the working bytes exactly: what `commit` writes into the version store
/// for a staged path is what a later checkout of that commit writes back.
pub proof fn lemma_checkout_restores_committed_file(
    te: Seq<CommitEntryV>,
    versions: Seq<VersionRecordV>,
    working_before: Seq<WorkingFileV>,
    working_after: Seq<WorkingFileV>,
    p: Seq<char>,
    id: Seq<char>,
    ts: u64,
)
    requires
        working_at(working_before, p) is Some,
        entry_find(te, p) == Some(updated_entry(working_before, p, id, ts)),
        version_at(versions, hash::hash_of_bytes(working_at(working_before, p).unwrap()))
            == Some(working_at(working_before, p).unwrap()),
        forall|q: Seq<char>|
            #[trigger] entry_find(te, q) is Some ==> working_at(working_after, q)
                == version_at(versions, entry_find(te, q).unwrap().hash),
    ensures
        working_at(working_after, p) == working_at(working_before, p),
{
    let u = updated_entry(working_before, p, id, ts);
    assert(entry_find(te, p) is Some);
    assert(working_at(working_after, p) == version_at(versions, u.hash));
}

} // verus!
