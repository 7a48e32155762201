//! Merkle tree nodes.
//!
//! A commit's directory state is a Dir node fanning out through VNodes —
//! buckets keyed by the two-character prefix of each entry's hashed path —
//! to File and Schema leaves.  A node is stored under the content hash of
//! its canonical encoding, and that encoding is proved injective, so a node
//! hash determines the node.

use vstd::prelude::*;

use crate::codec;
use crate::hash;

verus! {

/// What a tree child descriptor points at.
#[derive(Clone, Copy, Debug, PartialEq, Eq, Structural)]
pub enum ChildKind {
    Dir,
    VNode,
    File,
    Schema,
}

/// A minimal child descriptor: the kind, the child's own path (for leaves)
/// or bucket prefix (for VNodes), and the child node's hash.
#[derive(Debug)]
pub struct TreeChild {
    pub kind: ChildKind,
    pub path: String,
    pub hash: String,
}

pub ghost struct TreeChildV {
    pub kind: ChildKind,
    pub path: Seq<char>,
    pub hash: Seq<char>,
}

impl View for TreeChild {
    type V = TreeChildV;

    open spec fn view(&self) -> TreeChildV {
        TreeChildV { kind: self.kind, path: self.path@, hash: self.hash@ }
    }
}

impl DeepView for TreeChild {
    type V = TreeChildV;

    open spec fn deep_view(&self) -> TreeChildV {
        self.view()
    }
}

impl Clone for TreeChild {
    fn clone(&self) -> (r: TreeChild)
        ensures
            r@ == self@,
    {
        TreeChild { kind: self.kind, path: self.path.clone(), hash: self.hash.clone() }
    }
}

/// A tree node: a Dir of VNode buckets, a VNode of leaves, or a leaf.
#[derive(Debug)]
pub enum TreeNode {
    Dir { children: Vec<TreeChild> },
    VNode { children: Vec<TreeChild> },
    File { path: String, hash: String, num_bytes: u64, last_modified: u64, commit_id: String },
    SchemaNode { path: String, hash: String },
}

pub ghost enum TreeNodeV {
    Dir { children: Seq<TreeChildV> },
    VNode { children: Seq<TreeChildV> },
    File { path: Seq<char>, hash: Seq<char>, num_bytes: u64, last_modified: u64, commit_id: Seq<char> },
    SchemaNode { path: Seq<char>, hash: Seq<char> },
}

impl View for TreeNode {
    type V = TreeNodeV;

    open spec fn view(&self) -> TreeNodeV {
        match self {
            TreeNode::Dir { children } => TreeNodeV::Dir { children: children.deep_view() },
            TreeNode::VNode { children } => TreeNodeV::VNode { children: children.deep_view() },
            TreeNode::File { path, hash, num_bytes, last_modified, commit_id } => TreeNodeV::File {
                path: path@,
                hash: hash@,
                num_bytes: *num_bytes,
                last_modified: *last_modified,
                commit_id: commit_id@,
            },
            TreeNode::SchemaNode { path, hash } => TreeNodeV::SchemaNode {
                path: path@,
                hash: hash@,
            },
        }
    }
}

impl DeepView for TreeNode {
    type V = TreeNodeV;

    open spec fn deep_view(&self) -> TreeNodeV {
        self.view()
    }
}

/// Clone a child list.
pub fn clone_children(children: &Vec<TreeChild>) -> (r: Vec<TreeChild>)
    ensures
        r.deep_view() == children.deep_view(),
{
    let mut out: Vec<TreeChild> = Vec::new();
    let mut i: usize = 0;
    while i < children.len()
        invariant
            0 <= i <= children@.len(),
            out.deep_view() =~= children.deep_view().subrange(0, i as int),
        decreases children@.len() - i,
    {
        let ghost prev = out.deep_view();
        let c = children[i].clone();
        out.push(c);
        proof {
            assert(out.deep_view() =~= prev.push(children.deep_view()[i as int]));
            assert(out.deep_view() =~= children.deep_view().subrange(0, i as int + 1));
        }
        i = i + 1;
    }
    proof {
        assert(children.deep_view().subrange(0, children.deep_view().len() as int)
            =~= children.deep_view());
    }
    out
}

impl Clone for TreeNode {
    fn clone(&self) -> (r: TreeNode)
        ensures
            r@ == self@,
    {
        match self {
            TreeNode::Dir { children } => TreeNode::Dir { children: clone_children(children) },
            TreeNode::VNode { children } => TreeNode::VNode {
                children: clone_children(children),
            },
            TreeNode::File { path, hash, num_bytes, last_modified, commit_id } => TreeNode::File {
                path: path.clone(),
                hash: hash.clone(),
                num_bytes: *num_bytes,
                last_modified: *last_modified,
                commit_id: commit_id.clone(),
            },
            TreeNode::SchemaNode { path, hash } => TreeNode::SchemaNode {
                path: path.clone(),
                hash: hash.clone(),
            },
        }
    }
}

// ---------------------------------------------------------------------
// Canonical encoding and node hashing
// ---------------------------------------------------------------------
pub open spec fn kind_tag(k: ChildKind) -> u8 {
    match k {
        ChildKind::Dir => 1,
        ChildKind::VNode => 2,
        ChildKind::File => 3,
        ChildKind::Schema => 4,
    }
}

/// The encoding of one child descriptor.
pub open spec fn enc_child(c: TreeChildV) -> Seq<u8> {
    seq![kind_tag(c.kind)] + codec::enc_str(c.path) + codec::enc_str(c.hash)
}

pub open spec fn enc_child_fn() -> spec_fn(TreeChildV) -> Seq<u8> {
    |c: TreeChildV| enc_child(c)
}

/// The canonical encoding of a node: a tag byte, then its fields.
pub open spec fn enc_node(n: TreeNodeV) -> Seq<u8> {
    match n {
        TreeNodeV::Dir { children } => seq![1u8] + codec::enc_list(children, enc_child_fn()),
        TreeNodeV::VNode { children } => seq![2u8] + codec::enc_list(children, enc_child_fn()),
        TreeNodeV::File { path, hash, num_bytes, last_modified, commit_id } => seq![3u8]
            + codec::enc_str(path) + codec::enc_str(hash) + codec::le8(num_bytes) + codec::le8(
            last_modified,
        ) + codec::enc_str(commit_id),
        TreeNodeV::SchemaNode { path, hash } => seq![4u8] + codec::enc_str(path) + codec::enc_str(
            hash,
        ),
    }
}

/// The hash a node is stored under: the content hash of its encoding.
pub open spec fn node_hash(n: TreeNodeV) -> Seq<char> {
    hash::hash_of_bytes(enc_node(n))
}

pub open spec fn child_bounded(c: TreeChildV) -> bool {
    c.path.len() < 0x10000000000000000 && c.hash.len() < 0x10000000000000000
}

pub open spec fn children_bounded(children: Seq<TreeChildV>) -> bool {
    children.len() < 0x10000000000000000 && forall|i: int|
        0 <= i < children.len() ==> child_bounded(#[trigger] children[i])
}

pub open spec fn node_bounded(n: TreeNodeV) -> bool {
    match n {
        TreeNodeV::Dir { children } => children_bounded(children),
        TreeNodeV::VNode { children } => children_bounded(children),
        TreeNodeV::File { path, hash, commit_id, .. } => path.len() < 0x10000000000000000
            && hash.len() < 0x10000000000000000 && commit_id.len() < 0x10000000000000000,
        TreeNodeV::SchemaNode { path, hash } => path.len() < 0x10000000000000000 && hash.len()
            < 0x10000000000000000,
    }
}

/// Child encodings never run into one another.
pub proof fn lemma_child_pair_unamb(x: TreeChildV, y: TreeChildV)
    requires
        child_bounded(x),
        child_bounded(y),
    ensures
        codec::pair_unamb(enc_child_fn(), x, y),
{
    let f = enc_child_fn();
    assert forall|rx: Seq<u8>, ry: Seq<u8>| #[trigger] (f(x) + rx) == #[trigger] (f(y) + ry)
        implies x == y && rx == ry by {
        let tx = f(x) + rx;
        let ty = f(y) + ry;
        assert(f(x) == enc_child(x));
        assert(f(y) == enc_child(y));
        assert(tx[0] == kind_tag(x.kind));
        assert(ty[0] == kind_tag(y.kind));
        assert(x.kind == y.kind);
        let sx = codec::enc_str(x.path) + (codec::enc_str(x.hash) + rx);
        let sy = codec::enc_str(y.path) + (codec::enc_str(y.hash) + ry);
        assert(sx =~= tx.subrange(1, tx.len() as int));
        assert(sy =~= ty.subrange(1, ty.len() as int));
        codec::lemma_enc_str_unambiguous(
            x.path,
            y.path,
            codec::enc_str(x.hash) + rx,
            codec::enc_str(y.hash) + ry,
        );
        codec::lemma_enc_str_unambiguous(x.hash, y.hash, rx, ry);
    }
}

/// Two bounded nodes with the same encoding are the same node: the node
/// hash commits to the entire node.
#[verifier::rlimit(100)]
pub proof fn lemma_enc_node_injective(a: TreeNodeV, b: TreeNodeV)
    requires
        node_bounded(a),
        node_bounded(b),
        enc_node(a) == enc_node(b),
    ensures
        a == b,
{
    let ea = enc_node(a);
    let eb = enc_node(b);
    assert(ea[0] == eb[0]);
    match a {
        TreeNodeV::Dir { children: ca } => {
            match b {
                TreeNodeV::Dir { children: cb } => {
                    assert forall|i: int, j: int|
                        0 <= i < ca.len() && 0 <= j < cb.len() implies codec::pair_unamb(
                        enc_child_fn(),
                        #[trigger] ca[i],
                        #[trigger] cb[j],
                    ) by {
                        lemma_child_pair_unamb(ca[i], cb[j]);
                    }
                    assert(codec::enc_list(ca, enc_child_fn()) =~= ea.subrange(
                        1,
                        ea.len() as int,
                    ));
                    assert(codec::enc_list(cb, enc_child_fn()) =~= eb.subrange(
                        1,
                        eb.len() as int,
                    ));
                    codec::lemma_enc_list_unambiguous(
                        enc_child_fn(),
                        ca,
                        cb,
                        Seq::empty(),
                        Seq::empty(),
                    );
                },
                TreeNodeV::VNode { .. } => { assert(false); },
                TreeNodeV::File { .. } => { assert(false); },
                TreeNodeV::SchemaNode { .. } => { assert(false); },
            }
        },
        TreeNodeV::VNode { children: ca } => {
            match b {
                TreeNodeV::VNode { children: cb } => {
                    assert forall|i: int, j: int|
                        0 <= i < ca.len() && 0 <= j < cb.len() implies codec::pair_unamb(
                        enc_child_fn(),
                        #[trigger] ca[i],
                        #[trigger] cb[j],
                    ) by {
                        lemma_child_pair_unamb(ca[i], cb[j]);
                    }
                    assert(codec::enc_list(ca, enc_child_fn()) =~= ea.subrange(
                        1,
                        ea.len() as int,
                    ));
                    assert(codec::enc_list(cb, enc_child_fn()) =~= eb.subrange(
                        1,
                        eb.len() as int,
                    ));
                    codec::lemma_enc_list_unambiguous(
                        enc_child_fn(),
                        ca,
                        cb,
                        Seq::empty(),
                        Seq::empty(),
                    );
                },
                TreeNodeV::Dir { .. } => { assert(false); },
                TreeNodeV::File { .. } => { assert(false); },
                TreeNodeV::SchemaNode { .. } => { assert(false); },
            }
        },
        TreeNodeV::File { path: pa, hash: ha, num_bytes: na, last_modified: la, commit_id: ia } => {
            match b {
                TreeNodeV::File {
                    path: pb,
                    hash: hb,
                    num_bytes: nb,
                    last_modified: lb,
                    commit_id: ib,
                } => {
                    let ra = codec::enc_str(ha) + codec::le8(na) + codec::le8(la)
                        + codec::enc_str(ia);
                    let rb = codec::enc_str(hb) + codec::le8(nb) + codec::le8(lb)
                        + codec::enc_str(ib);
                    assert(codec::enc_str(pa) + ra =~= ea.subrange(1, ea.len() as int));
                    assert(codec::enc_str(pb) + rb =~= eb.subrange(1, eb.len() as int));
                    codec::lemma_enc_str_unambiguous(pa, pb, ra, rb);
                    let ra2 = codec::le8(na) + codec::le8(la) + codec::enc_str(ia);
                    let rb2 = codec::le8(nb) + codec::le8(lb) + codec::enc_str(ib);
                    assert(codec::enc_str(ha) + ra2 =~= ra);
                    assert(codec::enc_str(hb) + rb2 =~= rb);
                    codec::lemma_enc_str_unambiguous(ha, hb, ra2, rb2);
                    assert(codec::le8(na) =~= ra2.subrange(0, 8));
                    assert(codec::le8(nb) =~= rb2.subrange(0, 8));
                    codec::lemma_le8_injective(na, nb);
                    assert(codec::le8(la) =~= ra2.subrange(8, 16));
                    assert(codec::le8(lb) =~= rb2.subrange(8, 16));
                    codec::lemma_le8_injective(la, lb);
                    assert(codec::enc_str(ia) =~= ra2.subrange(16, ra2.len() as int));
                    assert(codec::enc_str(ib) =~= rb2.subrange(16, rb2.len() as int));
                    codec::lemma_enc_str_unambiguous(ia, ib, Seq::empty(), Seq::empty());
                },
                TreeNodeV::Dir { .. } => { assert(false); },
                TreeNodeV::VNode { .. } => { assert(false); },
                TreeNodeV::SchemaNode { .. } => { assert(false); },
            }
        },
        TreeNodeV::SchemaNode { path: pa, hash: ha } => {
            match b {
                TreeNodeV::SchemaNode { path: pb, hash: hb } => {
                    assert(codec::enc_str(pa) + codec::enc_str(ha) =~= ea.subrange(
                        1,
                        ea.len() as int,
                    ));
                    assert(codec::enc_str(pb) + codec::enc_str(hb) =~= eb.subrange(
                        1,
                        eb.len() as int,
                    ));
                    codec::lemma_enc_str_unambiguous(
                        pa,
                        pb,
                        codec::enc_str(ha),
                        codec::enc_str(hb),
                    );
                    codec::lemma_enc_str_unambiguous(ha, hb, Seq::empty(), Seq::empty());
                },
                TreeNodeV::Dir { .. } => { assert(false); },
                TreeNodeV::VNode { .. } => { assert(false); },
                TreeNodeV::File { .. } => { assert(false); },
            }
        },
    }
}

/// Append the encoding of one child descriptor.
pub fn push_child(out: &mut Vec<u8>, c: &TreeChild)
    ensures
        final(out)@ == old(out)@ + enc_child(c@),
        child_bounded(c@),
{
    let tag: u8 = match c.kind {
        ChildKind::Dir => 1,
        ChildKind::VNode => 2,
        ChildKind::File => 3,
        ChildKind::Schema => 4,
    };
    out.push(tag);
    let np: usize = c.path.as_str().unicode_len();
    let nh: usize = c.hash.as_str().unicode_len();
    codec::push_string(out, c.path.as_str());
    codec::push_string(out, c.hash.as_str());
    proof {
        assert(c.path@.len() == np);
        assert(c.hash@.len() == nh);
        assert(out@ =~= old(out)@ + enc_child(c@));
    }
}

/// Append the canonical encoding of a node.
pub fn push_node(out: &mut Vec<u8>, n: &TreeNode)
    ensures
        final(out)@ == old(out)@ + enc_node(n@),
        node_bounded(n@),
{
    match n {
        TreeNode::Dir { children } => {
            out.push(1u8);
            push_children(out, children);
            proof {
                assert(out@ =~= old(out)@ + enc_node(n@));
            }
        },
        TreeNode::VNode { children } => {
            out.push(2u8);
            push_children(out, children);
            proof {
                assert(out@ =~= old(out)@ + enc_node(n@));
            }
        },
        TreeNode::File { path, hash, num_bytes, last_modified, commit_id } => {
            out.push(3u8);
            let np: usize = path.as_str().unicode_len();
            let nh: usize = hash.as_str().unicode_len();
            let ni: usize = commit_id.as_str().unicode_len();
            codec::push_string(out, path.as_str());
            codec::push_string(out, hash.as_str());
            codec::push_u64(out, *num_bytes);
            codec::push_u64(out, *last_modified);
            codec::push_string(out, commit_id.as_str());
            proof {
                assert(path@.len() == np && hash@.len() == nh && commit_id@.len() == ni);
                assert(out@ =~= old(out)@ + enc_node(n@));
            }
        },
        TreeNode::SchemaNode { path, hash } => {
            out.push(4u8);
            let np: usize = path.as_str().unicode_len();
            let nh: usize = hash.as_str().unicode_len();
            codec::push_string(out, path.as_str());
            codec::push_string(out, hash.as_str());
            proof {
                assert(path@.len() == np && hash@.len() == nh);
                assert(out@ =~= old(out)@ + enc_node(n@));
            }
        },
    }
}

/// Append the encoding of a child list.
fn push_children(out: &mut Vec<u8>, children: &Vec<TreeChild>)
    ensures
        final(out)@ == old(out)@ + codec::enc_list(children.deep_view(), enc_child_fn()),
        children_bounded(children.deep_view()),
{
    codec::push_u64(out, children.len() as u64);
    let ghost dv = children.deep_view();
    let mut i: usize = 0;
    while i < children.len()
        invariant
            0 <= i <= children@.len(),
            dv == children.deep_view(),
            dv.len() == children@.len(),
            out@ == old(out)@ + codec::le8(children@.len() as u64) + codec::enc_each(
                dv.subrange(0, i as int),
                enc_child_fn(),
            ),
            forall|k: int| 0 <= k < i ==> child_bounded(#[trigger] dv[k]),
        decreases children@.len() - i,
    {
        push_child(out, &children[i]);
        proof {
            let pre = dv.subrange(0, i as int);
            let post = dv.subrange(0, i as int + 1);
            assert(post.drop_last() =~= pre);
            assert(post.last() == dv[i as int]);
            codec::lemma_enc_each_push(pre, dv[i as int], enc_child_fn());
            assert(post =~= pre.push(dv[i as int]));
            assert(enc_child_fn()(dv[i as int]) == enc_child(dv[i as int]));
            assert(out@ =~= old(out)@ + codec::le8(children@.len() as u64) + codec::enc_each(
                post,
                enc_child_fn(),
            ));
        }
        i = i + 1;
    }
    proof {
        assert(dv.subrange(0, dv.len() as int) =~= dv);
        assert(out@ =~= old(out)@ + codec::enc_list(dv, enc_child_fn()));
    }
}

/// The canonical encoding of a node, as a fresh buffer.
pub fn encode_node(n: &TreeNode) -> (r: Vec<u8>)
    ensures
        r@ == enc_node(n@),
        node_bounded(n@),
{
    let mut out: Vec<u8> = Vec::new();
    push_node(&mut out, n);
    out
}

/// The hash a node is stored under.
pub fn compute_node_hash(n: &TreeNode) -> (r: String)
    ensures
        r@ == node_hash(n@),
        node_bounded(n@),
        hash::is_hash(r@),
{
    let bytes = encode_node(n);
    hash::hash_bytes(bytes.as_slice())
}

} // verus!
