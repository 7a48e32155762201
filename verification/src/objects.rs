//! The content-addressed stores.
//!
//! Tree nodes live in an append-only store keyed by the hash of their
//! canonical encoding; version payloads live in an append-only store keyed
//! by the hash of their bytes.  A put of a key that is already present
//! keeps the store unchanged when the content agrees and reports
//! corruption when it does not, so every lookup that ever succeeded keeps
//! returning the same value.

use vstd::prelude::*;

use crate::codec;
use crate::error::OxenError;
use crate::hash;
use crate::model::CommitEntry;
use crate::model::CommitEntryV;
use crate::tree::ChildKind;
use crate::tree::TreeChildV;
use crate::tree::TreeNode;
use crate::tree::TreeNodeV;
use crate::tree::compute_node_hash;
use crate::tree::encode_node;
use crate::tree::node_hash;
use crate::tree::node_bounded;

verus! {

/// One stored tree node, keyed by the hash of its encoding.
#[derive(Debug)]
pub struct ObjectRecord {
    pub hash: String,
    pub node: TreeNode,
}

pub ghost struct ObjectRecordV {
    pub hash: Seq<char>,
    pub node: TreeNodeV,
}

impl View for ObjectRecord {
    type V = ObjectRecordV;

    open spec fn view(&self) -> ObjectRecordV {
        ObjectRecordV { hash: self.hash@, node: self.node@ }
    }
}

impl DeepView for ObjectRecord {
    type V = ObjectRecordV;

    open spec fn deep_view(&self) -> ObjectRecordV {
        self.view()
    }
}

impl Clone for ObjectRecord {
    fn clone(&self) -> (r: ObjectRecord)
        ensures
            r@ == self@,
    {
        ObjectRecord { hash: self.hash.clone(), node: self.node.clone() }
    }
}

/// One stored version payload, keyed by the hash of its bytes.
#[derive(Debug)]
pub struct VersionRecord {
    pub hash: String,
    pub data: Vec<u8>,
}

pub ghost struct VersionRecordV {
    pub hash: Seq<char>,
    pub data: Seq<u8>,
}

impl View for VersionRecord {
    type V = VersionRecordV;

    open spec fn view(&self) -> VersionRecordV {
        VersionRecordV { hash: self.hash@, data: self.data@ }
    }
}

impl DeepView for VersionRecord {
    type V = VersionRecordV;

    open spec fn deep_view(&self) -> VersionRecordV {
        self.view()
    }
}

impl Clone for VersionRecord {
    fn clone(&self) -> (r: VersionRecord)
        ensures
            r@ == self@,
    {
        let mut data: Vec<u8> = Vec::new();
        let mut i: usize = 0;
        while i < self.data.len()
            invariant
                0 <= i <= self.data@.len(),
                data@ =~= self.data@.subrange(0, i as int),
            decreases self.data@.len() - i,
        {
            data.push(self.data[i]);
            proof {
                assert(data@ =~= self.data@.subrange(0, i as int + 1));
            }
            i = i + 1;
        }
        proof {
            assert(self.data@.subrange(0, self.data@.len() as int) =~= self.data@);
        }
        VersionRecord { hash: self.hash.clone(), data }
    }
}

// ---------------------------------------------------------------------
// Lookup
// ---------------------------------------------------------------------
/// The node stored under this hash: the first record that matches.
pub open spec fn node_at(objects: Seq<ObjectRecordV>, h: Seq<char>) -> Option<TreeNodeV>
    decreases objects.len(),
{
    if objects.len() == 0 {
        None
    } else if objects[0].hash == h {
        Some(objects[0].node)
    } else {
        node_at(objects.drop_first(), h)
    }
}

/// The bytes stored under this hash: the first record that matches.
pub open spec fn version_at(versions: Seq<VersionRecordV>, h: Seq<char>) -> Option<Seq<u8>>
    decreases versions.len(),
{
    if versions.len() == 0 {
        None
    } else if versions[0].hash == h {
        Some(versions[0].data)
    } else {
        version_at(versions.drop_first(), h)
    }
}

/// A prefix with no hit pushes the hit to the rest of the store.
pub proof fn lemma_node_at_skip(objects: Seq<ObjectRecordV>, h: Seq<char>, i: int)
    requires
        0 <= i <= objects.len(),
        forall|k: int| 0 <= k < i ==> #[trigger] objects[k].hash != h,
    ensures
        node_at(objects, h) == node_at(objects.subrange(i, objects.len() as int), h),
    decreases i,
{
    if i > 0 {
        assert(objects[0].hash != h);
        assert(objects.drop_first() =~= objects.subrange(1, objects.len() as int));
        lemma_node_at_skip(objects.drop_first(), h, i - 1);
        assert(objects.drop_first().subrange(i - 1, objects.drop_first().len() as int)
            =~= objects.subrange(i, objects.len() as int));
    } else {
        assert(objects.subrange(0, objects.len() as int) =~= objects);
    }
}

pub proof fn lemma_version_at_skip(versions: Seq<VersionRecordV>, h: Seq<char>, i: int)
    requires
        0 <= i <= versions.len(),
        forall|k: int| 0 <= k < i ==> #[trigger] versions[k].hash != h,
    ensures
        version_at(versions, h) == version_at(versions.subrange(i, versions.len() as int), h),
    decreases i,
{
    if i > 0 {
        assert(versions[0].hash != h);
        assert(versions.drop_first() =~= versions.subrange(1, versions.len() as int));
        lemma_version_at_skip(versions.drop_first(), h, i - 1);
        assert(versions.drop_first().subrange(i - 1, versions.drop_first().len() as int)
            =~= versions.subrange(i, versions.len() as int));
    } else {
        assert(versions.subrange(0, versions.len() as int) =~= versions);
    }
}

/// Appending a record only ever fills in a key that was absent.
pub proof fn lemma_node_at_push(objects: Seq<ObjectRecordV>, r: ObjectRecordV, h: Seq<char>)
    ensures
        node_at(objects, h) is Some ==> node_at(objects.push(r), h) == node_at(objects, h),
        node_at(objects, h) is None && r.hash == h ==> node_at(objects.push(r), h) == Some(
            r.node,
        ),
        node_at(objects, h) is None && r.hash != h ==> node_at(objects.push(r), h) is None,
    decreases objects.len(),
{
    if objects.len() == 0 {
        assert(objects.push(r)[0] == r);
        if r.hash != h {
            assert(node_at(objects.push(r).drop_first(), h) is None);
        }
    } else {
        lemma_node_at_push(objects.drop_first(), r, h);
        assert(objects.push(r).drop_first() =~= objects.drop_first().push(r));
    }
}

pub proof fn lemma_version_at_push(versions: Seq<VersionRecordV>, r: VersionRecordV, h: Seq<char>)
    ensures
        version_at(versions, h) is Some ==> version_at(versions.push(r), h) == version_at(
            versions,
            h,
        ),
        version_at(versions, h) is None && r.hash == h ==> version_at(versions.push(r), h)
            == Some(r.data),
        version_at(versions, h) is None && r.hash != h ==> version_at(versions.push(r), h)
            is None,
    decreases versions.len(),
{
    if versions.len() == 0 {
        assert(versions.push(r)[0] == r);
        if r.hash != h {
            assert(version_at(versions.push(r).drop_first(), h) is None);
        }
    } else {
        lemma_version_at_push(versions.drop_first(), r, h);
        assert(versions.push(r).drop_first() =~= versions.drop_first().push(r));
    }
}

/// Every record holds a bounded node stored under its own content hash.
pub open spec fn objects_wf(objects: Seq<ObjectRecordV>) -> bool {
    forall|i: int|
        0 <= i < objects.len() ==> (#[trigger] objects[i]).hash == node_hash(objects[i].node)
            && node_bounded(objects[i].node)
}

/// Every version payload is stored under the hash of its own bytes.
pub open spec fn versions_wf(versions: Seq<VersionRecordV>) -> bool {
    forall|i: int|
        0 <= i < versions.len() ==> (#[trigger] versions[i]).hash == hash::hash_of_bytes(
            versions[i].data,
        )
}

/// A hit in a well-formed store is keyed by its own content hash.
pub proof fn lemma_node_at_found_hash(objects: Seq<ObjectRecordV>, h: Seq<char>)
    requires
        objects_wf(objects),
        node_at(objects, h) is Some,
    ensures
        node_hash(node_at(objects, h).unwrap()) == h,
    decreases objects.len(),
{
    if objects.len() > 0 && objects[0].hash != h {
        assert(objects_wf(objects.drop_first())) by {
            assert(forall|i: int|
                0 <= i < objects.drop_first().len() ==> objects.drop_first()[i] == objects[i
                    + 1]);
        }
        lemma_node_at_found_hash(objects.drop_first(), h);
    }
}

/// A hit in a well-formed version store is keyed by its payload's hash.
pub proof fn lemma_version_at_found_hash(versions: Seq<VersionRecordV>, h: Seq<char>)
    requires
        versions_wf(versions),
        version_at(versions, h) is Some,
    ensures
        hash::hash_of_bytes(version_at(versions, h).unwrap()) == h,
    decreases versions.len(),
{
    if versions.len() > 0 && versions[0].hash != h {
        assert(versions_wf(versions.drop_first())) by {
            assert(forall|i: int|
                0 <= i < versions.drop_first().len() ==> versions.drop_first()[i] == versions[i
                    + 1]);
        }
        lemma_version_at_found_hash(versions.drop_first(), h);
    }
}

/// Look a node up by hash.
pub fn get_node<'a>(objects: &'a Vec<ObjectRecord>, h: &str) -> (r: Option<&'a TreeNode>)
    ensures
        match r {
            Some(n) => node_at(objects.deep_view(), h@) == Some(n@),
            None => node_at(objects.deep_view(), h@) is None,
        },
{
    let ghost dv = objects.deep_view();
    let mut i: usize = 0;
    while i < objects.len()
        invariant
            0 <= i <= objects@.len(),
            dv == objects.deep_view(),
            dv.len() == objects@.len(),
            forall|k: int| 0 <= k < i ==> #[trigger] dv[k].hash != h@,
        decreases objects@.len() - i,
    {
        if crate::data_type::str_eq(objects[i].hash.as_str(), h) {
            proof {
                lemma_node_at_skip(dv, h@, i as int);
                assert(dv.subrange(i as int, dv.len() as int)[0] == dv[i as int]);
            }
            return Some(&objects[i].node);
        }
        i = i + 1;
    }
    proof {
        lemma_node_at_skip(dv, h@, dv.len() as int);
    }
    None
}

/// Look a version payload up by hash.
pub fn get_version<'a>(versions: &'a Vec<VersionRecord>, h: &str) -> (r: Option<&'a Vec<u8>>)
    ensures
        match r {
            Some(b) => version_at(versions.deep_view(), h@) == Some(b@),
            None => version_at(versions.deep_view(), h@) is None,
        },
{
    let ghost dv = versions.deep_view();
    let mut i: usize = 0;
    while i < versions.len()
        invariant
            0 <= i <= versions@.len(),
            dv == versions.deep_view(),
            dv.len() == versions@.len(),
            forall|k: int| 0 <= k < i ==> #[trigger] dv[k].hash != h@,
        decreases versions@.len() - i,
    {
        if crate::data_type::str_eq(versions[i].hash.as_str(), h) {
            proof {
                lemma_version_at_skip(dv, h@, i as int);
                assert(dv.subrange(i as int, dv.len() as int)[0] == dv[i as int]);
            }
            return Some(&versions[i].data);
        }
        i = i + 1;
    }
    proof {
        lemma_version_at_skip(dv, h@, dv.len() as int);
    }
    None
}

/// Compare two byte buffers.
pub fn bytes_eq(a: &Vec<u8>, b: &Vec<u8>) -> (r: bool)
    ensures
        r == (a@ =~= b@),
{
    if a.len() != b.len() {
        return false;
    }
    let mut i: usize = 0;
    while i < a.len()
        invariant
            0 <= i <= a@.len(),
            a@.len() == b@.len(),
            forall|k: int| 0 <= k < i ==> a@[k] == b@[k],
        decreases a@.len() - i,
    {
        if a[i] != b[i] {
            return false;
        }
        i = i + 1;
    }
    true
}

/// Store a node under the hash of its encoding.  If the hash is already
/// taken by the same content the store is unchanged; if it is taken by
/// different content the store is corrupt and nothing is written.
pub fn put_node(objects: &mut Vec<ObjectRecord>, node: TreeNode) -> (r: Result<String, OxenError>)
    requires
        objects_wf(old(objects).deep_view()),
    ensures
        objects_wf(final(objects).deep_view()),
        match r {
            Ok(h) => {
                &&& h@ == node_hash(node@)
                &&& node_at(final(objects).deep_view(), h@) == Some(node@)
                &&& forall|h2: Seq<char>|
                    node_at(old(objects).deep_view(), h2) is Some ==> node_at(
                        final(objects).deep_view(),
                        h2,
                    ) == node_at(old(objects).deep_view(), h2)
            },
            Err(e) => {
                &&& e == OxenError::Corruption
                &&& final(objects).deep_view() == old(objects).deep_view()
                &&& node_at(old(objects).deep_view(), node_hash(node@)) matches Some(n2)
                    && n2 != node@
                &&& hash::hash_collision()
            },
        },
{
    let h = compute_node_hash(&node);
    let enc_new = encode_node(&node);
    let existing = get_node(objects, h.as_str());
    match existing {
        Some(n) => {
            let enc_old = encode_node(n);
            if bytes_eq(&enc_old, &enc_new) {
                proof {
                    crate::tree::lemma_enc_node_injective(n@, node@);
                }
                Ok(h)
            } else {
                proof {
                    lemma_node_at_found_hash(objects.deep_view(), h@);
                    assert(node_hash(n@) == node_hash(node@));
                    assert(crate::tree::enc_node(n@) != crate::tree::enc_node(node@)) by {
                        if crate::tree::enc_node(n@) == crate::tree::enc_node(node@) {
                            crate::tree::lemma_enc_node_injective(n@, node@);
                        }
                    }
                    assert(hash::hash_collision());
                }
                Err(OxenError::Corruption)
            }
        },
        None => {
            let ghost prev = objects.deep_view();
            let record = ObjectRecord { hash: h.clone(), node };
            let ghost rv = record@;
            objects.push(record);
            proof {
                assert(objects.deep_view() =~= prev.push(rv));
                lemma_node_at_push(prev, rv, h@);
                assert forall|h2: Seq<char>| node_at(prev, h2) is Some implies node_at(
                    objects.deep_view(),
                    h2,
                ) == node_at(prev, h2) by {
                    lemma_node_at_push(prev, rv, h2);
                }
                assert forall|i: int| 0 <= i < objects.deep_view().len() implies (
                #[trigger] objects.deep_view()[i]).hash == node_hash(
                    objects.deep_view()[i].node,
                ) && node_bounded(objects.deep_view()[i].node) by {
                    if i < prev.len() {
                        assert(objects.deep_view()[i] == prev[i]);
                    }
                }
            }
            Ok(h)
        },
    }
}

/// Store a payload under the hash of its bytes, with the same discipline.
pub fn put_version(versions: &mut Vec<VersionRecord>, data: Vec<u8>) -> (r: Result<
    String,
    OxenError,
>)
    requires
        versions_wf(old(versions).deep_view()),
    ensures
        versions_wf(final(versions).deep_view()),
        match r {
            Ok(h) => {
                &&& h@ == hash::hash_of_bytes(data@)
                &&& version_at(final(versions).deep_view(), h@) == Some(data@)
                &&& forall|h2: Seq<char>|
                    version_at(old(versions).deep_view(), h2) is Some ==> version_at(
                        final(versions).deep_view(),
                        h2,
                    ) == version_at(old(versions).deep_view(), h2)
            },
            Err(e) => {
                &&& e == OxenError::Corruption
                &&& final(versions).deep_view() == old(versions).deep_view()
                &&& version_at(old(versions).deep_view(), hash::hash_of_bytes(data@))
                    matches Some(d2) && d2 != data@
                &&& hash::hash_collision()
            },
        },
{
    let h = hash::hash_bytes(data.as_slice());
    let existing = get_version(versions, h.as_str());
    match existing {
        Some(b) => {
            if bytes_eq(b, &data) {
                Ok(h)
            } else {
                proof {
                    lemma_version_at_found_hash(versions.deep_view(), h@);
                    assert(hash::hash_of_bytes(b@) == hash::hash_of_bytes(data@));
                    assert(hash::hash_collision());
                }
                Err(OxenError::Corruption)
            }
        },
        None => {
            let ghost prev = versions.deep_view();
            let record = VersionRecord { hash: h.clone(), data };
            let ghost rv = record@;
            versions.push(record);
            proof {
                assert(versions.deep_view() =~= prev.push(rv));
                lemma_version_at_push(prev, rv, h@);
                assert forall|h2: Seq<char>| version_at(prev, h2) is Some implies version_at(
                    versions.deep_view(),
                    h2,
                ) == version_at(prev, h2) by {
                    lemma_version_at_push(prev, rv, h2);
                }
                assert forall|i: int| 0 <= i < versions.deep_view().len() implies (
                #[trigger] versions.deep_view()[i]).hash == hash::hash_of_bytes(
                    versions.deep_view()[i].data,
                ) by {
                    if i < prev.len() {
                        assert(versions.deep_view()[i] == prev[i]);
                    }
                }
            }
            Ok(h)
        },
    }
}

// ---------------------------------------------------------------------
// Buckets, listing and path resolution
// ---------------------------------------------------------------------
/// The VNode bucket a path falls into: the first two characters of its
/// hashed path.
pub open spec fn bucket_of(path: Seq<char>) -> Seq<char> {
    hash::hash_of_chars(path).subrange(0, 2)
}

/// Compute the bucket prefix of a path.
pub fn bucket_str(path: &str) -> (r: String)
    ensures
        r@ == bucket_of(path@),
{
    let h = hash::hash_str(path);
    let c0 = h.as_str().get_char(0);
    let c1 = h.as_str().get_char(1);
    let mut out = codec::char_to_string(c0);
    let s1 = codec::char_to_string(c1);
    out.append(s1.as_str());
    proof {
        assert(out@ =~= bucket_of(path@));
    }
    out
}

/// The index of the first child whose path is `path`, or -1.
pub open spec fn child_index_by_path(children: Seq<TreeChildV>, path: Seq<char>) -> int
    decreases children.len(),
{
    if children.len() == 0 {
        -1
    } else if children[0].path == path {
        0
    } else {
        let rest = child_index_by_path(children.drop_first(), path);
        if rest == -1 {
            -1
        } else {
            rest + 1
        }
    }
}

pub proof fn lemma_child_index_by_path(children: Seq<TreeChildV>, path: Seq<char>)
    ensures
        -1 <= child_index_by_path(children, path) < children.len(),
        child_index_by_path(children, path) >= 0 ==> children[child_index_by_path(
            children,
            path,
        )].path == path,
        child_index_by_path(children, path) == -1 ==> forall|i: int|
            0 <= i < children.len() ==> (#[trigger] children[i]).path != path,
        child_index_by_path(children, path) >= 0 ==> forall|i: int|
            0 <= i < child_index_by_path(children, path) ==> (#[trigger] children[i]).path
                != path,
    decreases children.len(),
{
    if children.len() > 0 && children[0].path != path {
        lemma_child_index_by_path(children.drop_first(), path);
        assert(forall|i: int|
            1 <= i < children.len() ==> children[i] == children.drop_first()[i - 1]);
    }
}

/// The commit entry carried by a stored File node.
pub open spec fn entry_of_file_node(n: TreeNodeV) -> CommitEntryV
    recommends
        n is File,
{
    match n {
        TreeNodeV::File { path, hash, num_bytes, last_modified, commit_id } => CommitEntryV {
            path,
            hash,
            num_bytes,
            last_modified,
            commit_id,
        },
        _ => CommitEntryV {
            path: Seq::empty(),
            hash: Seq::empty(),
            num_bytes: 0,
            last_modified: 0,
            commit_id: Seq::empty(),
        },
    }
}

/// The entries reachable from a VNode's child list, in child order.
pub open spec fn entries_of_vnode(
    objects: Seq<ObjectRecordV>,
    children: Seq<TreeChildV>,
) -> Seq<CommitEntryV>
    decreases children.len(),
{
    if children.len() == 0 {
        Seq::empty()
    } else {
        let rest = entries_of_vnode(objects, children.drop_last());
        if children.last().kind == ChildKind::File {
            match node_at(objects, children.last().hash) {
                Some(n) => if n is File {
                    rest.push(entry_of_file_node(n))
                } else {
                    rest
                },
                None => rest,
            }
        } else {
            rest
        }
    }
}

/// The entries reachable from a Dir's VNode list, bucket by bucket.
pub open spec fn entries_of_dir(
    objects: Seq<ObjectRecordV>,
    children: Seq<TreeChildV>,
) -> Seq<CommitEntryV>
    decreases children.len(),
{
    if children.len() == 0 {
        Seq::empty()
    } else {
        let rest = entries_of_dir(objects, children.drop_last());
        match node_at(objects, children.last().hash) {
            Some(n) => match n {
                TreeNodeV::VNode { children: vc } => rest + entries_of_vnode(objects, vc),
                _ => rest,
            },
            None => rest,
        }
    }
}

/// Every entry in the tree rooted at `root`, in canonical tree order.
pub open spec fn tree_entries(objects: Seq<ObjectRecordV>, root: Seq<char>) -> Seq<CommitEntryV> {
    match node_at(objects, root) {
        Some(n) => match n {
            TreeNodeV::Dir { children } => entries_of_dir(objects, children),
            _ => Seq::empty(),
        },
        None => Seq::empty(),
    }
}

/// Resolve a path inside a commit tree: root Dir, bucket VNode, File leaf.
pub open spec fn resolve_spec(
    objects: Seq<ObjectRecordV>,
    root: Seq<char>,
    path: Seq<char>,
) -> Option<CommitEntryV> {
    match node_at(objects, root) {
        Some(TreeNodeV::Dir { children }) => {
            let bi = child_index_by_path(children, bucket_of(path));
            if bi < 0 {
                None
            } else {
                match node_at(objects, children[bi].hash) {
                    Some(TreeNodeV::VNode { children: vc }) => {
                        let fi = child_index_by_path(vc, path);
                        if fi < 0 {
                            None
                        } else if vc[fi].kind != ChildKind::File {
                            None
                        } else {
                            match node_at(objects, vc[fi].hash) {
                                Some(n) => if n is File && entry_of_file_node(n).path == path {
                                    Some(entry_of_file_node(n))
                                } else {
                                    None
                                },
                                None => None,
                            }
                        }
                    },
                    _ => None,
                }
            }
        },
        _ => None,
    }
}

/// Find a child by path.
fn find_child<'a>(children: &'a Vec<crate::tree::TreeChild>, path: &str) -> (r: Option<
    &'a crate::tree::TreeChild,
>)
    ensures
        match r {
            Some(c) => child_index_by_path(children.deep_view(), path@) >= 0 && c@
                == children.deep_view()[child_index_by_path(children.deep_view(), path@)],
            None => child_index_by_path(children.deep_view(), path@) == -1,
        },
{
    proof {
        lemma_child_index_by_path(children.deep_view(), path@);
    }
    let ghost dv = children.deep_view();
    let mut i: usize = 0;
    while i < children.len()
        invariant
            0 <= i <= children@.len(),
            dv == children.deep_view(),
            dv.len() == children@.len(),
            forall|k: int| 0 <= k < i ==> (#[trigger] dv[k]).path != path@,
        decreases children@.len() - i,
    {
        if crate::data_type::str_eq(children[i].path.as_str(), path) {
            proof {
                lemma_child_first_hit(dv, path@, i as int);
            }
            return Some(&children[i]);
        }
        i = i + 1;
    }
    None
}

/// A hit after a miss-prefix is the first hit.
proof fn lemma_child_first_hit(children: Seq<TreeChildV>, path: Seq<char>, i: int)
    requires
        0 <= i < children.len(),
        children[i].path == path,
        forall|k: int| 0 <= k < i ==> (#[trigger] children[k]).path != path,
    ensures
        child_index_by_path(children, path) == i,
    decreases i,
{
    lemma_child_index_by_path(children, path);
    if children[0].path != path {
        lemma_child_first_hit(children.drop_first(), path, i - 1);
        assert(forall|k: int|
            1 <= k < children.len() ==> children[k] == children.drop_first()[k - 1]);
    }
}

/// Resolve a path in the tree rooted at `root`.
pub fn resolve(objects: &Vec<ObjectRecord>, root: &str, path: &str) -> (r: Option<CommitEntry>)
    ensures
        match r {
            Some(e) => resolve_spec(objects.deep_view(), root@, path@) == Some(e@),
            None => resolve_spec(objects.deep_view(), root@, path@) is None,
        },
{
    let root_node = match get_node(objects, root) {
        Some(n) => n,
        None => { return None; },
    };
    let children = match root_node {
        TreeNode::Dir { children } => children,
        _ => { return None; },
    };
    let bucket = bucket_str(path);
    let bchild = match find_child(children, bucket.as_str()) {
        Some(c) => c,
        None => { return None; },
    };
    let vnode = match get_node(objects, bchild.hash.as_str()) {
        Some(n) => n,
        None => { return None; },
    };
    let vc = match vnode {
        TreeNode::VNode { children } => children,
        _ => { return None; },
    };
    let fchild = match find_child(vc, path) {
        Some(c) => c,
        None => { return None; },
    };
    match fchild.kind {
        ChildKind::File => {},
        _ => { return None; },
    }
    let fnode = match get_node(objects, fchild.hash.as_str()) {
        Some(n) => n,
        None => { return None; },
    };
    match fnode {
        TreeNode::File { path: fpath, hash, num_bytes, last_modified, commit_id } => {
            if crate::data_type::str_eq(fpath.as_str(), path) {
                Some(
                    CommitEntry {
                        path: fpath.clone(),
                        hash: hash.clone(),
                        num_bytes: *num_bytes,
                        last_modified: *last_modified,
                        commit_id: commit_id.clone(),
                    },
                )
            } else {
                None
            }
        },
        _ => None,
    }
}

/// List every entry in the tree rooted at `root`, in canonical order.
pub fn list_entries(objects: &Vec<ObjectRecord>, root: &str) -> (r: Vec<CommitEntry>)
    ensures
        r.deep_view() == tree_entries(objects.deep_view(), root@),
{
    let ghost ov = objects.deep_view();
    let mut out: Vec<CommitEntry> = Vec::new();
    let root_node = match get_node(objects, root) {
        Some(n) => n,
        None => { return out; },
    };
    let children = match root_node {
        TreeNode::Dir { children } => children,
        _ => { return out; },
    };
    let ghost dcv = children.deep_view();
    let mut i: usize = 0;
    while i < children.len()
        invariant
            0 <= i <= children@.len(),
            ov == objects.deep_view(),
            dcv == children.deep_view(),
            dcv.len() == children@.len(),
            out.deep_view() =~= entries_of_dir(ov, dcv.subrange(0, i as int)),
        decreases children@.len() - i,
    {
        let vnode_opt = get_node(objects, children[i].hash.as_str());
        match vnode_opt {
            Some(TreeNode::VNode { children: vc }) => {
                let ghost vcv = vc.deep_view();
                let mut j: usize = 0;
                while j < vc.len()
                    invariant
                        0 <= j <= vc@.len(),
                        ov == objects.deep_view(),
                        vcv == vc.deep_view(),
                        vcv.len() == vc@.len(),
                        out.deep_view() =~= entries_of_dir(ov, dcv.subrange(0, i as int))
                            + entries_of_vnode(ov, vcv.subrange(0, j as int)),
                    decreases vc@.len() - j,
                {
                    proof {
                        let pre = vcv.subrange(0, j as int);
                        let post = vcv.subrange(0, j as int + 1);
                        assert(post.drop_last() =~= pre);
                        assert(post.last() == vcv[j as int]);
                    }
                    match vc[j].kind {
                        ChildKind::File => {
                            let fopt = get_node(objects, vc[j].hash.as_str());
                            match fopt {
                                Some(
                                    TreeNode::File {
                                        path,
                                        hash,
                                        num_bytes,
                                        last_modified,
                                        commit_id,
                                    },
                                ) => {
                                    let ghost prev = out.deep_view();
                                    out.push(
                                        CommitEntry {
                                            path: path.clone(),
                                            hash: hash.clone(),
                                            num_bytes: *num_bytes,
                                            last_modified: *last_modified,
                                            commit_id: commit_id.clone(),
                                        },
                                    );
                                    proof {
                                        assert(out.deep_view() =~= prev.push(
                                            entry_of_file_node(
                                                node_at(ov, vcv[j as int].hash).unwrap(),
                                            ),
                                        ));
                                    }
                                },
                                Some(_) => {},
                                None => {},
                            }
                        },
                        _ => {},
                    }
                    proof {
                        assert(out.deep_view() =~= entries_of_dir(ov, dcv.subrange(0, i as int))
                            + entries_of_vnode(ov, vcv.subrange(0, j as int + 1)));
                    }
                    j = j + 1;
                }
                proof {
                    assert(vcv.subrange(0, vcv.len() as int) =~= vcv);
                    let pre = dcv.subrange(0, i as int);
                    let post = dcv.subrange(0, i as int + 1);
                    assert(post.drop_last() =~= pre);
                    assert(post.last() == dcv[i as int]);
                    assert(out.deep_view() =~= entries_of_dir(ov, post));
                }
            },
            Some(_) => {
                proof {
                    let pre = dcv.subrange(0, i as int);
                    let post = dcv.subrange(0, i as int + 1);
                    assert(post.drop_last() =~= pre);
                    assert(post.last() == dcv[i as int]);
                    assert(out.deep_view() =~= entries_of_dir(ov, post));
                }
            },
            None => {
                proof {
                    let pre = dcv.subrange(0, i as int);
                    let post = dcv.subrange(0, i as int + 1);
                    assert(post.drop_last() =~= pre);
                    assert(post.last() == dcv[i as int]);
                    assert(out.deep_view() =~= entries_of_dir(ov, post));
                }
            },
        }
        i = i + 1;
    }
    proof {
        assert(dcv.subrange(0, dcv.len() as int) =~= dcv);
    }
    out
}

} // verus!

verus! {

// ---------------------------------------------------------------------
// Tree construction
// ---------------------------------------------------------------------
/// Every lookup that succeeds in `s1` succeeds with the same node in `s2`:
/// the store only ever grows, so old trees keep reading the same.
pub open spec fn store_extends(s1: Seq<ObjectRecordV>, s2: Seq<ObjectRecordV>) -> bool {
    forall|h: Seq<char>| #[trigger] node_at(s1, h) is Some ==> node_at(s2, h) == node_at(s1, h)
}

pub proof fn lemma_store_extends_trans(
    s1: Seq<ObjectRecordV>,
    s2: Seq<ObjectRecordV>,
    s3: Seq<ObjectRecordV>,
)
    requires
        store_extends(s1, s2),
        store_extends(s2, s3),
    ensures
        store_extends(s1, s3),
{
    assert forall|h: Seq<char>| #[trigger] node_at(s1, h) is Some implies node_at(s3, h)
        == node_at(s1, h) by {
        assert(node_at(s2, h) == node_at(s1, h));
    }
}

/// All File children of a VNode resolve.
pub open spec fn vnode_pre(objects: Seq<ObjectRecordV>, vc: Seq<TreeChildV>) -> bool {
    forall|k: int|
        0 <= k < vc.len() && (#[trigger] vc[k]).kind == ChildKind::File ==> node_at(
            objects,
            vc[k].hash,
        ) is Some
}

/// All children of a Dir resolve, and resolved VNodes have resolving
/// File children.
pub open spec fn dir_pre(objects: Seq<ObjectRecordV>, children: Seq<TreeChildV>) -> bool {
    forall|k: int|
        0 <= k < children.len() ==> node_at(objects, (#[trigger] children[k]).hash) is Some
            && match node_at(objects, children[k].hash) {
            Some(TreeNodeV::VNode { children: vc }) => vnode_pre(objects, vc),
            _ => true,
        }
}

/// A VNode listing does not change when the store grows.
pub proof fn lemma_vnode_entries_stable(
    s1: Seq<ObjectRecordV>,
    s2: Seq<ObjectRecordV>,
    vc: Seq<TreeChildV>,
)
    requires
        store_extends(s1, s2),
        vnode_pre(s1, vc),
    ensures
        entries_of_vnode(s2, vc) == entries_of_vnode(s1, vc),
        vnode_pre(s2, vc),
    decreases vc.len(),
{
    if vc.len() > 0 {
        assert(vnode_pre(s1, vc.drop_last())) by {
            assert(forall|k: int|
                0 <= k < vc.drop_last().len() ==> vc.drop_last()[k] == vc[k]);
        }
        lemma_vnode_entries_stable(s1, s2, vc.drop_last());
        if vc.last().kind == ChildKind::File {
            assert(vc[vc.len() - 1] == vc.last());
            assert(node_at(s1, vc.last().hash) is Some);
            assert(node_at(s2, vc.last().hash) == node_at(s1, vc.last().hash));
        }
    }
}

/// A Dir listing does not change when the store grows.
pub proof fn lemma_dir_entries_stable(
    s1: Seq<ObjectRecordV>,
    s2: Seq<ObjectRecordV>,
    children: Seq<TreeChildV>,
)
    requires
        store_extends(s1, s2),
        dir_pre(s1, children),
    ensures
        entries_of_dir(s2, children) == entries_of_dir(s1, children),
        dir_pre(s2, children),
    decreases children.len(),
{
    if children.len() > 0 {
        assert(dir_pre(s1, children.drop_last())) by {
            assert(forall|k: int|
                0 <= k < children.drop_last().len() ==> children.drop_last()[k]
                    == children[k]);
        }
        lemma_dir_entries_stable(s1, s2, children.drop_last());
        assert(children[children.len() - 1] == children.last());
        assert(node_at(s1, children.last().hash) is Some);
        assert(node_at(s2, children.last().hash) == node_at(s1, children.last().hash));
        match node_at(s1, children.last().hash) {
            Some(TreeNodeV::VNode { children: vc }) => {
                lemma_vnode_entries_stable(s1, s2, vc);
            },
            _ => {},
        }
    }
    assert forall|k: int| 0 <= k < children.len() implies node_at(
        s2,
        (#[trigger] children[k]).hash,
    ) is Some && match node_at(s2, children[k].hash) {
        Some(TreeNodeV::VNode { children: vc }) => vnode_pre(s2, vc),
        _ => true,
    } by {
        assert(node_at(s1, children[k].hash) is Some);
        match node_at(s1, children[k].hash) {
            Some(TreeNodeV::VNode { children: vc }) => {
                lemma_vnode_entries_stable(s1, s2, vc);
            },
            _ => {},
        }
    }
}

/// A commit tree is well formed when its root is a well-linked Dir and,
/// unless the repository is shallow, every listed entry's bytes are in
/// the version store.
pub open spec fn commit_tree_wf(
    objects: Seq<ObjectRecordV>,
    versions: Seq<VersionRecordV>,
    root: Seq<char>,
    shallow: bool,
) -> bool {
    &&& tree_root_ok(objects, root)
    &&& forall|k: int|
        0 <= k < tree_entries(objects, root).len() ==> shallow || version_at(
            versions,
            (#[trigger] tree_entries(objects, root)[k]).hash,
        ) is Some
}

/// Whether a path falls in the given bucket.
fn in_bucket(path: &str, bucket: &str) -> (r: bool)
    ensures
        r == (bucket_of(path@) == bucket@),
{
    let b2 = bucket_str(path);
    crate::data_type::str_eq(b2.as_str(), bucket)
}

/// The root resolves to a Dir whose links all resolve.
pub open spec fn tree_root_ok(objects: Seq<ObjectRecordV>, root: Seq<char>) -> bool {
    match node_at(objects, root) {
        Some(TreeNodeV::Dir { children }) => dir_pre(objects, children),
        _ => false,
    }
}

/// A well-linked tree stays well linked and lists the same entries as the
/// store grows.
pub proof fn lemma_tree_stable(
    s1: Seq<ObjectRecordV>,
    s2: Seq<ObjectRecordV>,
    root: Seq<char>,
)
    requires
        store_extends(s1, s2),
        tree_root_ok(s1, root),
    ensures
        tree_root_ok(s2, root),
        tree_entries(s2, root) == tree_entries(s1, root),
{
    assert(node_at(s1, root) is Some);
    assert(node_at(s2, root) == node_at(s1, root));
    match node_at(s1, root) {
        Some(TreeNodeV::Dir { children }) => {
            lemma_dir_entries_stable(s1, s2, children);
        },
        _ => {},
    }
}

/// Build the merkle tree of an entry list: File leaves, consecutive runs
/// of one bucket gathered into VNodes, and a Dir of the VNode refs.  On
/// success the tree rooted at the returned hash lists exactly the given
/// entries, in order, and nothing already readable has changed.
#[verifier::rlimit(60)]
pub fn build_tree(objects: &mut Vec<ObjectRecord>, entries: &Vec<CommitEntry>) -> (r: Result<
    String,
    OxenError,
>)
    requires
        objects_wf(old(objects).deep_view()),
    ensures
        objects_wf(final(objects).deep_view()),
        store_extends(old(objects).deep_view(), final(objects).deep_view()),
        match r {
            Ok(root) => tree_entries(final(objects).deep_view(), root@)
                == entries.deep_view() && tree_root_ok(final(objects).deep_view(), root@),
            Err(e) => e == OxenError::Corruption && hash::hash_collision(),
        },
{
    let ghost orig = old(objects).deep_view();
    let ghost ev = entries.deep_view();
    let mut dir_children: Vec<crate::tree::TreeChild> = Vec::new();
    let mut i: usize = 0;
    while i < entries.len()
        invariant
            0 <= i <= entries@.len(),
            orig == old(objects).deep_view(),
            ev == entries.deep_view(),
            ev.len() == entries@.len(),
            objects_wf(objects.deep_view()),
            store_extends(orig, objects.deep_view()),
            dir_pre(objects.deep_view(), dir_children.deep_view()),
            entries_of_dir(objects.deep_view(), dir_children.deep_view()) =~= ev.subrange(
                0,
                i as int,
            ),
        decreases entries@.len() - i,
    {
        let bucket = bucket_str(entries[i].path.as_str());
        let mut vnode_children: Vec<crate::tree::TreeChild> = Vec::new();
        let mut j: usize = i;
        while j < entries.len() && in_bucket(entries[j].path.as_str(), bucket.as_str())
            invariant
                i <= j <= entries@.len(),
                i < entries@.len(),
                orig == old(objects).deep_view(),
                ev == entries.deep_view(),
                ev.len() == entries@.len(),
                objects_wf(objects.deep_view()),
                store_extends(orig, objects.deep_view()),
                dir_pre(objects.deep_view(), dir_children.deep_view()),
                entries_of_dir(objects.deep_view(), dir_children.deep_view()) =~= ev.subrange(
                    0,
                    i as int,
                ),
                vnode_pre(objects.deep_view(), vnode_children.deep_view()),
                entries_of_vnode(objects.deep_view(), vnode_children.deep_view())
                    =~= ev.subrange(i as int, j as int),
            decreases entries@.len() - j,
        {
            let e = &entries[j];
            let node = TreeNode::File {
                path: e.path.clone(),
                hash: e.hash.clone(),
                num_bytes: e.num_bytes,
                last_modified: e.last_modified,
                commit_id: e.commit_id.clone(),
            };
            let ghost nodev = node@;
            let ghost pre_store = objects.deep_view();
            let hf = match put_node(objects, node) {
                Ok(h) => h,
                Err(e) => {
                    proof {
                        assert(store_extends(old(objects).deep_view(), objects.deep_view()));
                    }
                    return Err(e);
                },
            };
            let ghost prev_vc = vnode_children.deep_view();
            let child = crate::tree::TreeChild {
                kind: ChildKind::File,
                path: e.path.clone(),
                hash: hf.clone(),
            };
            let ghost cv = child@;
            vnode_children.push(child);
            proof {
                let cur = objects.deep_view();
                assert(store_extends(pre_store, cur));
                lemma_store_extends_trans(orig, pre_store, cur);
                lemma_dir_entries_stable(pre_store, cur, dir_children.deep_view());
                lemma_vnode_entries_stable(pre_store, cur, prev_vc);
                assert(vnode_children.deep_view() =~= prev_vc.push(cv));
                assert(prev_vc.push(cv).drop_last() =~= prev_vc);
                assert(prev_vc.push(cv).last() == cv);
                assert(cv.hash == hf@);
                assert(node_at(cur, hf@) == Some(nodev));
                assert(entry_of_file_node(nodev) == ev[j as int]);
                assert(entries_of_vnode(cur, prev_vc.push(cv)) =~= entries_of_vnode(
                    cur,
                    prev_vc,
                ).push(ev[j as int]));
                assert(ev.subrange(i as int, j as int + 1) =~= ev.subrange(
                    i as int,
                    j as int,
                ).push(ev[j as int]));
                assert(entries_of_vnode(cur, vnode_children.deep_view()) =~= ev.subrange(
                    i as int,
                    j as int + 1,
                ));
            }
            j = j + 1;
        }
        let ghost vcv_snapshot = vnode_children.deep_view();
        let vnode = TreeNode::VNode { children: vnode_children };
        let ghost vnodev = vnode@;
        let ghost pre_store2 = objects.deep_view();
        let hv = match put_node(objects, vnode) {
            Ok(h) => h,
            Err(e) => {
                proof {
                    assert(store_extends(old(objects).deep_view(), objects.deep_view()));
                }
                return Err(e);
            },
        };
        let ghost prev_dc = dir_children.deep_view();
        let dchild = crate::tree::TreeChild {
            kind: ChildKind::VNode,
            path: bucket,
            hash: hv.clone(),
        };
        let ghost dcv2 = dchild@;
        dir_children.push(dchild);
        proof {
            let cur = objects.deep_view();
            assert(store_extends(pre_store2, cur));
            lemma_store_extends_trans(orig, pre_store2, cur);
            lemma_dir_entries_stable(pre_store2, cur, prev_dc);
            assert(dir_children.deep_view() =~= prev_dc.push(dcv2));
            assert(prev_dc.push(dcv2).drop_last() =~= prev_dc);
            assert(prev_dc.push(dcv2).last() == dcv2);
            assert(dcv2.hash == hv@);
            assert(node_at(cur, hv@) == Some(vnodev));
            match vnodev {
                TreeNodeV::VNode { children: vcv } => {
                    assert(vcv == vcv_snapshot);
                    lemma_vnode_entries_stable(pre_store2, cur, vcv);
                    assert(entries_of_vnode(cur, vcv) =~= ev.subrange(i as int, j as int));
                },
                _ => {
                    assert(false);
                },
            }
            assert(entries_of_dir(cur, prev_dc.push(dcv2)) =~= entries_of_dir(cur, prev_dc)
                + ev.subrange(i as int, j as int));
            assert(ev.subrange(0, j as int) =~= ev.subrange(0, i as int) + ev.subrange(
                i as int,
                j as int,
            ));
            assert(entries_of_dir(cur, dir_children.deep_view()) =~= ev.subrange(0, j as int));
        }
        i = j;
    }
    let dir = TreeNode::Dir { children: dir_children };
    let ghost dirv = dir@;
    let ghost pre_store3 = objects.deep_view();
    let root = match put_node(objects, dir) {
        Ok(h) => h,
        Err(e) => {
            proof {
                assert(store_extends(old(objects).deep_view(), objects.deep_view()));
            }
            return Err(e);
        },
    };
    proof {
        let cur = objects.deep_view();
        lemma_store_extends_trans(orig, pre_store3, cur);
        assert(node_at(cur, root@) == Some(dirv));
        match dirv {
            TreeNodeV::Dir { children: dcv } => {
                lemma_dir_entries_stable(pre_store3, cur, dcv);
                assert(entries_of_dir(cur, dcv) =~= ev.subrange(0, ev.len() as int));
                assert(ev.subrange(0, ev.len() as int) =~= ev);
                assert(tree_entries(cur, root@) == entries_of_dir(cur, dcv));
                assert(dir_pre(cur, dcv));
                assert(tree_root_ok(cur, root@));
            },
            _ => {
                assert(false);
            },
        }
    }
    Ok(root)
}

} // verus!

verus! {

/// The entries of a listing whose bytes are absent from the version
/// store, in listing order.
pub open spec fn missing_entries(
    entries: Seq<CommitEntryV>,
    versions: Seq<VersionRecordV>,
) -> Seq<CommitEntryV>
    decreases entries.len(),
{
    if entries.len() == 0 {
        Seq::empty()
    } else {
        let rest = missing_entries(entries.drop_last(), versions);
        if version_at(versions, entries.last().hash) is None {
            rest.push(entries.last())
        } else {
            rest
        }
    }
}

/// A listing whose bytes are all stored has nothing missing.
pub proof fn lemma_missing_entries_empty(
    entries: Seq<CommitEntryV>,
    versions: Seq<VersionRecordV>,
)
    requires
        forall|k: int|
            0 <= k < entries.len() ==> version_at(
                versions,
                (#[trigger] entries[k]).hash,
            ) is Some,
    ensures
        missing_entries(entries, versions).len() == 0,
    decreases entries.len(),
{
    if entries.len() > 0 {
        assert(forall|k: int|
            0 <= k < entries.drop_last().len() ==> entries.drop_last()[k] == entries[k]);
        lemma_missing_entries_empty(entries.drop_last(), versions);
        assert(version_at(versions, entries[entries.len() - 1].hash) is Some);
    }
}

/// Every payload readable in `v1` reads the same in `v2`.
pub open spec fn versions_extend(v1: Seq<VersionRecordV>, v2: Seq<VersionRecordV>) -> bool {
    forall|h: Seq<char>| #[trigger] version_at(v1, h) is Some ==> version_at(v2, h)
        == version_at(v1, h)
}

/// A well-formed commit tree stays well formed as both stores grow.
pub proof fn lemma_commit_tree_wf_stable(
    o1: Seq<ObjectRecordV>,
    o2: Seq<ObjectRecordV>,
    v1: Seq<VersionRecordV>,
    v2: Seq<VersionRecordV>,
    root: Seq<char>,
    shallow: bool,
)
    requires
        commit_tree_wf(o1, v1, root, shallow),
        store_extends(o1, o2),
        versions_extend(v1, v2),
    ensures
        commit_tree_wf(o2, v2, root, shallow),
{
    lemma_tree_stable(o1, o2, root);
    assert forall|k: int| 0 <= k < tree_entries(o2, root).len() implies shallow || version_at(
        v2,
        (#[trigger] tree_entries(o2, root)[k]).hash,
    ) is Some by {
        if !shallow {
            assert(tree_entries(o2, root)[k] == tree_entries(o1, root)[k]);
            assert(version_at(v1, tree_entries(o1, root)[k].hash) is Some);
        }
    }
}

} // verus!
