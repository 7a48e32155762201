//! The object and commit transfer protocol.
//!
//! Payloads travel in fixed-size chunks that reassemble to the original
//! bytes and can be retried idempotently by index.  A push mirrors the
//! commit records, tree nodes and version payloads the remote lacks and
//! updates the remote branch last; a pull is the symmetric inverse, and
//! reproduces the pushed commit's tree exactly.  The network edge itself
//! stays outside the library: these functions work on two repository
//! states and on raw chunk bytes.

use vstd::prelude::*;

use crate::error::OxenError;
use crate::model::Branch;
use crate::model::Commit;
use crate::model::Head;
use crate::model::HeadV;
use crate::model::branch_at;
use crate::model::branch_exists;
use crate::model::commit_at;
use crate::model::commit_exists;
use crate::model::commit_index_of;
use crate::model::lemma_commit_index_of;
use crate::objects::ObjectRecord;
use crate::objects::ObjectRecordV;
use crate::objects::VersionRecord;
use crate::objects::VersionRecordV;
use crate::objects::node_at;
use crate::objects::version_at;
use crate::objects::objects_wf;
use crate::objects::versions_wf;
use crate::objects::put_node;
use crate::objects::put_version;
use crate::repository::Repository;
use crate::repository::clone_bytes;

verus! {

// ---------------------------------------------------------------------
// Chunking
// ---------------------------------------------------------------------
/// A payload cut into chunks of `size` bytes, the last one shorter.
pub open spec fn chunks_of(data: Seq<u8>, size: int) -> Seq<Seq<u8>>
    decreases data.len(),
    when size > 0
{
    if data.len() == 0 {
        Seq::empty()
    } else if data.len() <= size {
        seq![data]
    } else {
        seq![data.subrange(0, size)] + chunks_of(
            data.subrange(size, data.len() as int),
            size,
        )
    }
}

/// Chunks glued back together, in order.
pub open spec fn concat_chunks(chunks: Seq<Seq<u8>>) -> Seq<u8>
    decreases chunks.len(),
{
    if chunks.len() == 0 {
        Seq::empty()
    } else {
        chunks.first() + concat_chunks(chunks.drop_first())
    }
}

/// Reassembling the chunks of a payload yields the payload, whatever the
/// chunk size: transfers are lossless and resume cleanly at any index.
pub proof fn lemma_chunks_round_trip(data: Seq<u8>, size: int)
    requires
        size > 0,
    ensures
        concat_chunks(chunks_of(data, size)) == data,
    decreases data.len(),
{
    if data.len() == 0 {
        assert(concat_chunks(chunks_of(data, size)) =~= data);
    } else if data.len() <= size {
        let cs = chunks_of(data, size);
        assert(cs =~= seq![data]);
        assert(cs.first() == data);
        assert(cs.drop_first() =~= Seq::<Seq<u8>>::empty());
        assert(concat_chunks(cs) == cs.first() + concat_chunks(cs.drop_first()));
        assert(concat_chunks(cs.drop_first()) =~= Seq::<u8>::empty());
        assert(concat_chunks(cs) =~= data);
    } else {
        let head = data.subrange(0, size);
        let tail = data.subrange(size, data.len() as int);
        lemma_chunks_round_trip(tail, size);
        assert(chunks_of(data, size).drop_first() =~= chunks_of(tail, size));
        assert(chunks_of(data, size).first() == head);
        assert(concat_chunks(chunks_of(data, size)) =~= head + tail);
        assert(head + tail =~= data);
    }
}

/// Cut a payload into chunks of at most `size` bytes.
pub fn split_chunks(data: &Vec<u8>, size: usize) -> (r: Vec<Vec<u8>>)
    requires
        size > 0,
    ensures
        r.deep_view() == chunks_of(data@, size as int),
{
    let dl: usize = data.len();
    let mut out: Vec<Vec<u8>> = Vec::new();
    let mut pos: usize = 0;
    proof {
        assert(data@.subrange(0, data@.len() as int) =~= data@);
        assert(chunks_of(data@, size as int) =~= Seq::<Seq<u8>>::empty() + chunks_of(
            data@.subrange(0, data@.len() as int),
            size as int,
        ));
    }
    while pos < data.len()
        invariant
            0 <= pos <= data@.len(),
            dl == data@.len(),
            size > 0,
            chunks_of(data@, size as int) =~= out.deep_view() + chunks_of(
                data@.subrange(pos as int, data@.len() as int),
                size as int,
            ),
        decreases data@.len() - pos,
    {
        let remaining = data.len() - pos;
        let take = if remaining < size {
            remaining
        } else {
            size
        };
        let mut chunk: Vec<u8> = Vec::new();
        let mut i: usize = 0;
        while i < take
            invariant
                0 <= i <= take,
                dl == data@.len(),
                pos + take <= dl,
                chunk@ =~= data@.subrange(pos as int, pos as int + i as int),
            decreases take - i,
        {
            proof {
                assert(pos + i < dl);
            }
            chunk.push(data[pos + i]);
            proof {
                assert(chunk@ =~= data@.subrange(pos as int, pos as int + i as int + 1));
            }
            i = i + 1;
        }
        let ghost prev = out.deep_view();
        let ghost rest = data@.subrange(pos as int, data@.len() as int);
        let ghost chunkv = chunk@;
        out.push(chunk);
        proof {
            assert(chunkv =~= rest.subrange(0, take as int));
            assert(out.deep_view() =~~= prev.push(chunkv));
            assert(out.deep_view() =~= prev.push(rest.subrange(0, take as int)));
            if rest.len() <= size as int {
                assert(chunks_of(rest, size as int) =~= seq![rest]);
                assert(rest.subrange(0, take as int) =~= rest);
                assert(data@.subrange((pos + take) as int, data@.len() as int).len() == 0);
                assert(chunks_of(
                    data@.subrange((pos + take) as int, data@.len() as int),
                    size as int,
                ) =~= Seq::<Seq<u8>>::empty());
                assert(chunks_of(data@, size as int) =~= out.deep_view() + chunks_of(
                    data@.subrange((pos + take) as int, data@.len() as int),
                    size as int,
                ));
            } else {
                assert(chunks_of(rest, size as int) =~= seq![rest.subrange(0, size as int)]
                    + chunks_of(rest.subrange(size as int, rest.len() as int), size as int));
                assert(rest.subrange(size as int, rest.len() as int) =~= data@.subrange(
                    (pos + take) as int,
                    data@.len() as int,
                ));
                assert(chunks_of(data@, size as int) =~= out.deep_view() + chunks_of(
                    data@.subrange((pos + take) as int, data@.len() as int),
                    size as int,
                ));
            }
        }
        pos = pos + take;
    }
    proof {
        assert(data@.subrange(pos as int, data@.len() as int).len() == 0);
        assert(chunks_of(data@.subrange(pos as int, data@.len() as int), size as int)
            =~= Seq::<Seq<u8>>::empty());
        assert(chunks_of(data@, size as int) =~= out.deep_view());
    }
    out
}

/// Glue chunks back together.
pub fn assemble_chunks(chunks: &Vec<Vec<u8>>) -> (r: Vec<u8>)
    ensures
        r@ == concat_chunks(chunks.deep_view()),
{
    let ghost cv = chunks.deep_view();
    let mut out: Vec<u8> = Vec::new();
    let mut i: usize = 0;
    proof {
        assert(cv.subrange(0, cv.len() as int) =~= cv);
        assert(concat_chunks(cv) =~= Seq::<u8>::empty() + concat_chunks(
            cv.subrange(0, cv.len() as int),
        ));
    }
    while i < chunks.len()
        invariant
            0 <= i <= chunks@.len(),
            cv == chunks.deep_view(),
            cv.len() == chunks@.len(),
            concat_chunks(cv) =~= out@ + concat_chunks(cv.subrange(i as int, cv.len() as int)),
        decreases chunks@.len() - i,
    {
        let ghost rest = cv.subrange(i as int, cv.len() as int);
        let ghost done = out@;
        let chunk = &chunks[i];
        let mut k: usize = 0;
        while k < chunk.len()
            invariant
                0 <= k <= chunk@.len(),
                i < cv.len(),
                chunk@ == cv[i as int],
                out@ =~= done + chunk@.subrange(0, k as int),
            decreases chunk@.len() - k,
        {
            out.push(chunk[k]);
            proof {
                assert(out@ =~= done + chunk@.subrange(0, k as int + 1));
            }
            k = k + 1;
        }
        proof {
            assert(chunk@.subrange(0, chunk@.len() as int) =~= chunk@);
            assert(out@ =~= done + cv[i as int]);
            assert(rest.first() == cv[i as int]);
            assert(rest.drop_first() =~= cv.subrange(i as int + 1, cv.len() as int));
            assert(concat_chunks(rest) =~= cv[i as int] + concat_chunks(
                cv.subrange(i as int + 1, cv.len() as int),
            ));
            assert(concat_chunks(cv) =~= out@ + concat_chunks(
                cv.subrange(i as int + 1, cv.len() as int),
            ));
        }
        i = i + 1;
    }
    proof {
        assert(cv.subrange(cv.len() as int, cv.len() as int).len() == 0);
        assert(concat_chunks(cv.subrange(cv.len() as int, cv.len() as int))
            =~= Seq::<u8>::empty());
        assert(concat_chunks(cv) =~= out@);
    }
    out
}

} // verus!

verus! {

/// A successful lookup names some record: its key matches and its node is
/// the lookup's answer.
proof fn lemma_node_at_member(objects: Seq<ObjectRecordV>, h: Seq<char>)
    requires
        node_at(objects, h) is Some,
    ensures
        exists|k: int|
            0 <= k < objects.len() && (#[trigger] objects[k]).hash == h && objects[k].node
                == node_at(objects, h).unwrap(),
    decreases objects.len(),
{
    if objects[0].hash == h {
        assert(objects[0].hash == h && objects[0].node == node_at(objects, h).unwrap());
    } else {
        lemma_node_at_member(objects.drop_first(), h);
        let k = choose|k: int|
            0 <= k < objects.drop_first().len() && (#[trigger] objects.drop_first()[k]).hash
                == h && objects.drop_first()[k].node == node_at(
                objects.drop_first(),
                h,
            ).unwrap();
        assert(objects[k + 1] == objects.drop_first()[k]);
        assert(objects[k + 1].hash == h && objects[k + 1].node == node_at(
            objects,
            h,
        ).unwrap());
    }
}

proof fn lemma_version_at_member(versions: Seq<VersionRecordV>, h: Seq<char>)
    requires
        version_at(versions, h) is Some,
    ensures
        exists|k: int|
            0 <= k < versions.len() && (#[trigger] versions[k]).hash == h && versions[k].data
                == version_at(versions, h).unwrap(),
    decreases versions.len(),
{
    if versions[0].hash == h {
        assert(versions[0].hash == h && versions[0].data == version_at(versions, h).unwrap());
    } else {
        lemma_version_at_member(versions.drop_first(), h);
        let k = choose|k: int|
            0 <= k < versions.drop_first().len() && (
            #[trigger] versions.drop_first()[k]).hash == h && versions.drop_first()[k].data
                == version_at(versions.drop_first(), h).unwrap();
        assert(versions[k + 1] == versions.drop_first()[k]);
        assert(versions[k + 1].hash == h && versions[k + 1].data == version_at(
            versions,
            h,
        ).unwrap());
    }
}

/// Copy every node readable in `src` into `dst`; afterwards `dst` answers
/// every `src` lookup identically.
fn sync_objects(src: &Vec<ObjectRecord>, dst: &mut Vec<ObjectRecord>) -> (r: Result<
    (),
    OxenError,
>)
    requires
        objects_wf(src.deep_view()),
        objects_wf(old(dst).deep_view()),
    ensures
        objects_wf(final(dst).deep_view()),
        crate::objects::store_extends(old(dst).deep_view(), final(dst).deep_view()),
        match r {
            Ok(()) => crate::objects::store_extends(src.deep_view(), final(dst).deep_view()),
            Err(e) => e == OxenError::Corruption && crate::hash::hash_collision(),
        },
{
    let ghost sv = src.deep_view();
    let ghost dst0 = old(dst).deep_view();
    let mut i: usize = 0;
    while i < src.len()
        invariant
            0 <= i <= src@.len(),
            sv == src.deep_view(),
            sv.len() == src@.len(),
            objects_wf(sv),
            objects_wf(dst.deep_view()),
            dst0 == old(dst).deep_view(),
            crate::objects::store_extends(dst0, dst.deep_view()),
            forall|k: int|
                0 <= k < i ==> node_at(dst.deep_view(), (#[trigger] sv[k]).hash) == Some(
                    sv[k].node,
                ),
        decreases src@.len() - i,
    {
        let node = src[i].node.clone();
        let ghost pre = dst.deep_view();
        match put_node(dst, node) {
            Ok(h) => {
                proof {
                    assert(h@ == sv[i as int].hash);
                    crate::objects::lemma_store_extends_trans(dst0, pre, dst.deep_view());
                    assert forall|k: int| 0 <= k < i + 1 implies node_at(
                        dst.deep_view(),
                        (#[trigger] sv[k]).hash,
                    ) == Some(sv[k].node) by {
                        if k < i {
                            assert(node_at(pre, sv[k].hash) == Some(sv[k].node));
                        }
                    }
                }
            },
            Err(e) => {
                return Err(e);
            },
        }
        i = i + 1;
    }
    proof {
        assert forall|h: Seq<char>| #[trigger] node_at(sv, h) is Some implies node_at(
            dst.deep_view(),
            h,
        ) == node_at(sv, h) by {
            lemma_node_at_member(sv, h);
            let k = choose|k: int|
                0 <= k < sv.len() && (#[trigger] sv[k]).hash == h && sv[k].node == node_at(
                    sv,
                    h,
                ).unwrap();
            assert(node_at(dst.deep_view(), sv[k].hash) == Some(sv[k].node));
        }
    }
    Ok(())
}

/// Copy every payload readable in `src` into `dst`.
fn sync_versions(src: &Vec<VersionRecord>, dst: &mut Vec<VersionRecord>) -> (r: Result<
    (),
    OxenError,
>)
    requires
        versions_wf(src.deep_view()),
        versions_wf(old(dst).deep_view()),
    ensures
        versions_wf(final(dst).deep_view()),
        crate::objects::versions_extend(old(dst).deep_view(), final(dst).deep_view()),
        match r {
            Ok(()) => crate::objects::versions_extend(
                src.deep_view(),
                final(dst).deep_view(),
            ),
            Err(e) => e == OxenError::Corruption && crate::hash::hash_collision(),
        },
{
    let ghost sv = src.deep_view();
    let ghost dst0 = old(dst).deep_view();
    let mut i: usize = 0;
    while i < src.len()
        invariant
            0 <= i <= src@.len(),
            sv == src.deep_view(),
            sv.len() == src@.len(),
            versions_wf(sv),
            versions_wf(dst.deep_view()),
            dst0 == old(dst).deep_view(),
            crate::objects::versions_extend(dst0, dst.deep_view()),
            forall|k: int|
                0 <= k < i ==> version_at(dst.deep_view(), (#[trigger] sv[k]).hash) == Some(
                    sv[k].data,
                ),
        decreases src@.len() - i,
    {
        let data = clone_bytes(&src[i].data);
        let ghost pre = dst.deep_view();
        match put_version(dst, data) {
            Ok(h) => {
                proof {
                    assert(h@ == sv[i as int].hash);
                    assert forall|hh: Seq<char>| #[trigger] version_at(dst0, hh)
                        is Some implies version_at(dst.deep_view(), hh) == version_at(
                        dst0,
                        hh,
                    ) by {
                        assert(version_at(pre, hh) == version_at(dst0, hh));
                    }
                    assert forall|k: int| 0 <= k < i + 1 implies version_at(
                        dst.deep_view(),
                        (#[trigger] sv[k]).hash,
                    ) == Some(sv[k].data) by {
                        if k < i {
                            assert(version_at(pre, sv[k].hash) == Some(sv[k].data));
                        }
                    }
                }
            },
            Err(e) => {
                return Err(e);
            },
        }
        i = i + 1;
    }
    proof {
        assert forall|h: Seq<char>| #[trigger] version_at(sv, h) is Some implies version_at(
            dst.deep_view(),
            h,
        ) == version_at(sv, h) by {
            lemma_version_at_member(sv, h);
            let k = choose|k: int|
                0 <= k < sv.len() && (#[trigger] sv[k]).hash == h && sv[k].data == version_at(
                    sv,
                    h,
                ).unwrap();
            assert(version_at(dst.deep_view(), sv[k].hash) == Some(sv[k].data));
        }
    }
    Ok(())
}

} // verus!

verus! {


/// Append one commit record whose id is new, whose parents resolve and
/// whose tree is already present and well formed on this repository.
fn append_commit_record(dst: &mut Repository, record: Commit)
    requires
        old(dst).wf(),
        !commit_exists(old(dst).commits@, record@.id),
        forall|k: int|
            0 <= k < record@.parent_ids.len() ==> commit_exists(
                old(dst).commits@,
                #[trigger] record@.parent_ids[k],
            ),
        crate::objects::commit_tree_wf(
            old(dst).objects.deep_view(),
            old(dst).versions.deep_view(),
            record@.root_tree_hash,
            old(dst).shallow,
        ),
    ensures
        final(dst).wf(),
        final(dst).branches == old(dst).branches,
        final(dst).head == old(dst).head,
        final(dst).objects == old(dst).objects,
        final(dst).versions == old(dst).versions,
        final(dst).working == old(dst).working,
        final(dst).staged == old(dst).staged,
        final(dst).staged_dirs == old(dst).staged_dirs,
        final(dst).locks == old(dst).locks,
        final(dst).shallow == old(dst).shallow,
        final(dst).clock == old(dst).clock,
        final(dst).author == old(dst).author,
        final(dst).email == old(dst).email,
        final(dst).session == old(dst).session,
        final(dst).commits@.len() == old(dst).commits@.len() + 1,
        forall|j: int|
            0 <= j < old(dst).commits@.len() ==> final(dst).commits@[j] == old(
                dst,
            ).commits@[j],
        final(dst).commits@[final(dst).commits@.len() - 1]@ == record@,
        commit_exists(final(dst).commits@, record@.id),
        commit_at(final(dst).commits@, record@.id)@ == record@,
        forall|cid: Seq<char>|
            #[trigger] commit_exists(old(dst).commits@, cid) ==> commit_exists(
                final(dst).commits@,
                cid,
            ) && commit_at(final(dst).commits@, cid) == commit_at(old(dst).commits@, cid),
{
    let ghost pre = dst.commits@;
    let ghost rv = record@;
    dst.commits.push(record);
    proof {
        assert(dst.commits@ =~= pre.push(dst.commits@.last()));
        assert(dst.commits@.last()@ == rv);
        lemma_commit_index_of(pre, rv.id);
        assert forall|a: int, b: int|
            0 <= a < b < dst.commits@.len() implies (#[trigger] dst.commits@[a])@.id != (
        #[trigger] dst.commits@[b])@.id by {
            if b == dst.commits@.len() - 1 {
                assert(dst.commits@[a] == pre[a]);
                assert(pre[a].id@ != rv.id);
            } else {
                assert(dst.commits@[a] == pre[a]);
                assert(dst.commits@[b] == pre[b]);
            }
        }
        assert forall|a: int, k: int|
            0 <= a < dst.commits@.len() && 0 <= k < (
            #[trigger] dst.commits@[a])@.parent_ids.len() implies commit_exists(
            dst.commits@.subrange(0, a),
            #[trigger] dst.commits@[a]@.parent_ids[k],
        ) by {
            if a < pre.len() {
                assert(dst.commits@[a] == pre[a]);
                assert(dst.commits@.subrange(0, a) =~= pre.subrange(0, a));
            } else {
                assert(dst.commits@[a]@ == rv);
                assert(commit_exists(pre, rv.parent_ids[k]));
                assert(dst.commits@.subrange(0, a) =~= pre);
            }
        }
        assert forall|a: int| 0 <= a < dst.branches@.len() implies commit_exists(
            dst.commits@,
            (#[trigger] dst.branches@[a])@.commit_id,
        ) by {
            crate::model::lemma_commit_index_of_push(
                pre,
                dst.commits@.last(),
                dst.branches@[a]@.commit_id,
            );
        }
        match dst.head@ {
            HeadV::Detached(did) => {
                crate::model::lemma_commit_index_of_push(pre, dst.commits@.last(), did);
            },
            _ => {},
        }
        assert forall|a: int| 0 <= a < dst.commits@.len()
            implies crate::objects::commit_tree_wf(
            dst.objects.deep_view(),
            dst.versions.deep_view(),
            (#[trigger] dst.commits@[a])@.root_tree_hash,
            dst.shallow,
        ) by {
            if a < pre.len() {
                assert(dst.commits@[a] == pre[a]);
            } else {
                assert(dst.commits@[a]@.root_tree_hash == rv.root_tree_hash);
            }
        }
        crate::model::lemma_commit_index_of_push(pre, dst.commits@.last(), rv.id);
        assert forall|cid: Seq<char>| #[trigger] commit_exists(pre, cid)
            implies commit_exists(dst.commits@, cid) && commit_at(dst.commits@, cid)
            == commit_at(pre, cid) by {
            crate::model::lemma_commit_index_of_push(pre, dst.commits@.last(), cid);
            lemma_commit_index_of(pre, cid);
            let idx = commit_index_of(pre, cid);
            assert(commit_index_of(dst.commits@, cid) == idx);
            assert(dst.commits@[idx] == pre[idx]);
        }
    }
}

/// Copy every commit record of `src` that `dst` lacks, in history order.
/// Records already present on `dst` are kept as they are.
#[verifier::rlimit(100)]
fn mirror_commits(src: &Repository, dst: &mut Repository)
    requires
        src.wf(),
        old(dst).wf(),
        !src.shallow,
        crate::objects::store_extends(
            src.objects.deep_view(),
            old(dst).objects.deep_view(),
        ),
        crate::objects::versions_extend(
            src.versions.deep_view(),
            old(dst).versions.deep_view(),
        ),
    ensures
        final(dst).wf(),
        final(dst).branches == old(dst).branches,
        final(dst).head == old(dst).head,
        final(dst).objects == old(dst).objects,
        final(dst).versions == old(dst).versions,
        final(dst).working == old(dst).working,
        final(dst).staged == old(dst).staged,
        final(dst).staged_dirs == old(dst).staged_dirs,
        final(dst).locks == old(dst).locks,
        final(dst).shallow == old(dst).shallow,
        final(dst).clock == old(dst).clock,
        final(dst).author == old(dst).author,
        final(dst).email == old(dst).email,
        final(dst).session == old(dst).session,
        forall|j: int|
            0 <= j < old(dst).commits@.len() ==> final(dst).commits@[j] == old(
                dst,
            ).commits@[j],
        forall|i: int|
            0 <= i < src.commits@.len() ==> commit_exists(
                final(dst).commits@,
                (#[trigger] src.commits@[i])@.id,
            ) && (!commit_exists(old(dst).commits@, src.commits@[i]@.id) ==> commit_at(
                final(dst).commits@,
                src.commits@[i]@.id,
            )@ == src.commits@[i]@),
{
    let ghost dst0 = old(dst).commits@;
    let mut i: usize = 0;
    while i < src.commits.len()
        invariant
            0 <= i <= src.commits@.len(),
            src.wf(),
            !src.shallow,
            dst.branches == old(dst).branches,
            dst.head == old(dst).head,
            dst.objects == old(dst).objects,
            dst.versions == old(dst).versions,
            dst.working == old(dst).working,
            dst.staged == old(dst).staged,
            dst.staged_dirs == old(dst).staged_dirs,
            dst.clock == old(dst).clock,
            dst.author == old(dst).author,
            dst.email == old(dst).email,
            dst.session == old(dst).session,
            dst.locks == old(dst).locks,
            dst.shallow == old(dst).shallow,
            dst.staged_dirs == old(dst).staged_dirs,
            dst0 == old(dst).commits@,
            old(dst).wf(),
            crate::objects::store_extends(
                src.objects.deep_view(),
                dst.objects.deep_view(),
            ),
            crate::objects::versions_extend(
                src.versions.deep_view(),
                dst.versions.deep_view(),
            ),
            dst.commits@.len() >= dst0.len(),
            forall|j: int| 0 <= j < dst0.len() ==> dst.commits@[j] == dst0[j],
            dst.wf(),
            forall|k: int|
                0 <= k < i ==> commit_exists(
                    dst.commits@,
                    (#[trigger] src.commits@[k])@.id,
                ) && (!commit_exists(dst0, src.commits@[k]@.id) ==> commit_at(
                    dst.commits@,
                    src.commits@[k]@.id,
                )@ == src.commits@[k]@),
            forall|k2: int|
                dst0.len() <= k2 < dst.commits@.len() ==> exists|k3: int|
                    0 <= k3 < i && (#[trigger] dst.commits@[k2])@ == src.commits@[k3]@,
        decreases src.commits@.len() - i,
    {
        let id = src.commits[i].id.clone();
        let ghost pre = dst.commits@;
        let existing = crate::repository::find_commit(&dst.commits, id.as_str());
        match existing {
            Some(_) => {
                proof {
                    lemma_commit_index_of(pre, id@);
                    // A hit now was either a pre-existing record or one of
                    // our earlier copies; either way the lookup is stable.
                    assert forall|k: int| 0 <= k < i + 1 implies commit_exists(
                        dst.commits@,
                        (#[trigger] src.commits@[k])@.id,
                    ) && (!commit_exists(dst0, src.commits@[k]@.id) ==> commit_at(
                        dst.commits@,
                        src.commits@[k]@.id,
                    )@ == src.commits@[k]@) by {
                        if k == i {
                            if !commit_exists(dst0, src.commits@[k]@.id) {
                                // The record cannot predate the mirror, so
                                // it is one of our earlier copies — but src
                                // ids are distinct, so no earlier source
                                // commit carries this id.
                                let full = commit_index_of(dst.commits@, id@);
                                lemma_commit_index_of(dst.commits@, id@);
                                if full >= dst0.len() {
                                    let k3 = choose|k3: int|
                                        0 <= k3 < i && (
                                        #[trigger] dst.commits@[full])@
                                            == src.commits@[k3]@;
                                    assert(src.commits@[k3]@.id
                                        == src.commits@[i as int]@.id);
                                    assert((#[trigger] src.commits@[k3])@.id != (
                                    #[trigger] src.commits@[i as int])@.id);
                                } else {
                                    assert(dst.commits@[full] == dst0[full]);
                                    lemma_exists_at(dst0, full, id@);
                                }
                            }
                        }
                    }
                }
            },
            None => {
                let record = src.commits[i].clone();
                let ghost rv = record@;
                proof {
                    assert(rv == src.commits@[i as int]@);
                    // Parents of the source commit are already mirrored.
                    assert forall|k: int|
                        0 <= k < rv.parent_ids.len() implies commit_exists(
                        dst.commits@,
                        #[trigger] rv.parent_ids[k],
                    ) by {
                        let pid = src.commits@[i as int]@.parent_ids[k];
                        assert(commit_exists(src.commits@.subrange(0, i as int), pid));
                        lemma_commit_index_of(src.commits@.subrange(0, i as int), pid);
                        let jj = commit_index_of(src.commits@.subrange(0, i as int), pid);
                        assert(src.commits@.subrange(0, i as int)[jj] == src.commits@[jj]);
                        assert(src.commits@[jj].id@ == pid);
                        assert(commit_exists(dst.commits@, src.commits@[jj]@.id));
                    }
                    // Its tree already transferred and stays well formed.
                    let root = src.commits@[i as int]@.root_tree_hash;
                    assert(crate::objects::commit_tree_wf(
                        src.objects.deep_view(),
                        src.versions.deep_view(),
                        root,
                        false,
                    ));
                    crate::objects::lemma_commit_tree_wf_stable(
                        src.objects.deep_view(),
                        dst.objects.deep_view(),
                        src.versions.deep_view(),
                        dst.versions.deep_view(),
                        root,
                        false,
                    );
                }
                append_commit_record(dst, record);
                proof {
                    assert forall|k: int| 0 <= k < i + 1 implies commit_exists(
                        dst.commits@,
                        (#[trigger] src.commits@[k])@.id,
                    ) && (!commit_exists(dst0, src.commits@[k]@.id) ==> commit_at(
                        dst.commits@,
                        src.commits@[k]@.id,
                    )@ == src.commits@[k]@) by {
                        if k < i {
                            assert(commit_exists(pre, src.commits@[k]@.id));
                        } else {
                            assert(commit_at(dst.commits@, rv.id)@ == rv);
                        }
                    }
                    assert forall|k2: int|
                        dst0.len() <= k2 < dst.commits@.len() implies exists|k3: int|
                            0 <= k3 < i + 1 && (#[trigger] dst.commits@[k2])@
                                == src.commits@[k3]@ by {
                        if k2 < pre.len() {
                            assert(dst.commits@[k2] == pre[k2]);
                            let k3 = choose|k3: int|
                                0 <= k3 < i && (#[trigger] pre[k2])@ == src.commits@[k3]@;
                            assert(0 <= k3 < i + 1 && dst.commits@[k2]@
                                == src.commits@[k3]@);
                        } else {
                            assert(dst.commits@[k2]@ == src.commits@[i as int]@);
                        }
                    }
                }
            },
        }
        i = i + 1;
    }
}

proof fn lemma_exists_at(commits: Seq<Commit>, idx: int, id: Seq<char>)
    requires
        0 <= idx < commits.len(),
        commits[idx].id@ == id,
    ensures
        commit_exists(commits, id),
{
    lemma_commit_index_of(commits, id);
    if commit_index_of(commits, id) == -1 {
        assert(commits[idx].id@ != id);
    }
}

} // verus!

verus! {

/// Push a branch to a remote: mirror the tree nodes, version payloads
/// and commit records the remote lacks, then update the remote branch —
/// the single externally visible transition — last.  A remote branch lock
/// held by another session fails fast with a conflict and changes
/// nothing.
#[verifier::rlimit(100)]
/// Whether a lock list holds this branch for a different session.
fn foreign_lock(locks: &Vec<crate::repository::BranchLock>, name: &str, session: &str) -> (r:
    bool)
    ensures
        r == (crate::repository::lock_at(locks.deep_view(), name@) matches Some(l) && l.holder
            != session@),
{
    let ghost lv = locks.deep_view();
    proof {
        crate::assoc::lemma_assoc_index(lv, crate::repository::lock_key(), name@);
    }
    let mut i: usize = 0;
    while i < locks.len()
        invariant
            0 <= i <= locks@.len(),
            lv == locks.deep_view(),
            lv.len() == locks@.len(),
            forall|k: int|
                0 <= k < i ==> crate::repository::lock_key()(#[trigger] lv[k]) != name@,
        decreases locks@.len() - i,
    {
        if crate::data_type::str_eq(locks[i].branch.as_str(), name) {
            proof {
                assert(crate::repository::lock_key()(lv[i as int]) == name@);
                crate::assoc::lemma_assoc_first_hit(
                    lv,
                    crate::repository::lock_key(),
                    name@,
                    i as int,
                );
            }
            return !crate::data_type::str_eq(locks[i].holder.as_str(), session);
        }
        proof {
            assert(crate::repository::lock_key()(lv[i as int]) == lv[i as int].branch);
        }
        i = i + 1;
    }
    proof {
        assert(crate::repository::lock_at(lv, name@) is None);
    }
    false
}

pub fn push_branch(local: &Repository, remote: &mut Repository, branch_name: &str) -> (r:
    Result<Branch, OxenError>)
    requires
        local.wf(),
        old(remote).wf(),
        !local.shallow,
    ensures
        final(remote).wf(),
        match r {
            Ok(b) => {
                &&& branch_exists(local.branches@, branch_name@)
                &&& b@ == branch_at(local.branches@, branch_name@)@
                &&& branch_exists(final(remote).branches@, branch_name@)
                &&& branch_at(final(remote).branches@, branch_name@)@.commit_id
                    == b@.commit_id
                &&& (forall|i: int|
                    0 <= i < local.commits@.len() ==> commit_exists(
                        final(remote).commits@,
                        (#[trigger] local.commits@[i])@.id,
                    ) && (!commit_exists(old(remote).commits@, local.commits@[i]@.id)
                        ==> commit_at(final(remote).commits@, local.commits@[i]@.id)@
                        == local.commits@[i]@))
                &&& crate::objects::store_extends(
                    local.objects.deep_view(),
                    final(remote).objects.deep_view(),
                )
                &&& crate::objects::versions_extend(
                    local.versions.deep_view(),
                    final(remote).versions.deep_view(),
                )
            },
            Err(e) => {
                &&& ((e == OxenError::NotFound && !branch_exists(
                    local.branches@,
                    branch_name@,
                ) && *final(remote) == *old(remote)) || (e == OxenError::Conflict
                    && *final(remote) == *old(remote) && branch_exists(
                    local.branches@,
                    branch_name@,
                ) && (crate::repository::lock_at(
                    old(remote).locks.deep_view(),
                    branch_name@,
                ) matches Some(l) && l.holder != local.session@)) || (e == OxenError::Invalid
                    && *final(remote) == *old(remote) && old(remote).commits@.len() > 0
                    && local.commits@.len() > 0 && old(remote).commits@[0]@.id
                    != local.commits@[0]@.id) || (e == OxenError::Corruption
                    && crate::hash::hash_collision()
                    && final(remote).commits == old(remote).commits
                    && final(remote).branches == old(remote).branches
                    && final(remote).head == old(remote).head))
            },
        },
        !branch_exists(local.branches@, branch_name@) ==> r == Err::<Branch, OxenError>(
            OxenError::NotFound,
        ),
        (branch_exists(local.branches@, branch_name@) && (crate::repository::lock_at(
            old(remote).locks.deep_view(),
            branch_name@,
        ) matches Some(l) && l.holder != local.session@)) ==> r == Err::<Branch, OxenError>(
            OxenError::Conflict,
        ),
        (branch_exists(local.branches@, branch_name@) && !(crate::repository::lock_at(
            old(remote).locks.deep_view(),
            branch_name@,
        ) matches Some(l) && l.holder != local.session@) && old(remote).commits@.len() > 0
            && local.commits@.len() > 0 && old(remote).commits@[0]@.id
            != local.commits@[0]@.id) ==> r == Err::<Branch, OxenError>(OxenError::Invalid),
        crate::objects::store_extends(
            old(remote).objects.deep_view(),
            final(remote).objects.deep_view(),
        ),
        crate::objects::versions_extend(
            old(remote).versions.deep_view(),
            final(remote).versions.deep_view(),
        ),
        final(remote).working == old(remote).working,
        final(remote).staged == old(remote).staged,
        final(remote).staged_dirs == old(remote).staged_dirs,
        final(remote).locks == old(remote).locks,
        final(remote).head == old(remote).head,
        final(remote).shallow == old(remote).shallow,
        final(remote).clock == old(remote).clock,
        final(remote).session == old(remote).session,
{
    let local_branch = match crate::repository::find_branch(&local.branches, branch_name) {
        Some(b) => b.clone(),
        None => { return Err(OxenError::NotFound); },
    };
    // Fail fast if another session holds the remote lock for this branch.
    if foreign_lock(&remote.locks, branch_name, local.session.as_str()) {
        return Err(OxenError::Conflict);
    }
    // Two histories only ever merge when they share a root commit: a push
    // into an unrelated repository is refused before anything moves.
    if remote.commits.len() > 0 && local.commits.len() > 0 {
        if !crate::data_type::str_eq(
            remote.commits[0].id.as_str(),
            local.commits[0].id.as_str(),
        ) {
            return Err(OxenError::Invalid);
        }
    }
    // Content first: tree nodes, then version payloads.
    let ghost robj0 = remote.objects.deep_view();
    let ghost rver0 = remote.versions.deep_view();
    match sync_objects(&local.objects, &mut remote.objects) {
        Ok(()) => {},
        Err(e) => {
            proof {
                lemma_repo_wf_after_store_growth(*old(remote), *remote, robj0, rver0);
            }
            return Err(e);
        },
    }
    match sync_versions(&local.versions, &mut remote.versions) {
        Ok(()) => {},
        Err(e) => {
            proof {
                lemma_repo_wf_after_store_growth(*old(remote), *remote, robj0, rver0);
            }
            return Err(e);
        },
    }
    proof {
        lemma_repo_wf_after_store_growth(*old(remote), *remote, robj0, rver0);
    }
    // Then the commit records, oldest first.
    mirror_commits(local, remote);
    // The branch pointer moves last.
    let ghost mid = *remote;
    proof {
        crate::model::lemma_branch_index_of(local.branches@, branch_name@);
        let bi = crate::model::branch_index_of(local.branches@, branch_name@);
        assert(local_branch@.commit_id == (#[trigger] local.branches@[bi])@.commit_id);
        assert(commit_exists(local.commits@, local.branches@[bi]@.commit_id));
        lemma_commit_index_of(local.commits@, local_branch.commit_id@);
        let ci = commit_index_of(local.commits@, local_branch.commit_id@);
        assert(local.commits@[ci].id@ == local_branch.commit_id@);
        assert(commit_exists(remote.commits@, (#[trigger] local.commits@[ci])@.id));
    }
    match crate::repository::find_branch(&remote.branches, branch_name) {
        Some(_) => {
            remote.set_branch_commit(branch_name, local_branch.commit_id.as_str());
            proof {
                match remote.head@ {
                    HeadV::Branch(n) => {
                        if n != branch_name@ {
                            assert(branch_exists(remote.branches@, n));
                        }
                    },
                    _ => {},
                }
                lemma_repo_wf_after_branch_update(mid, *remote, local_branch.commit_id@);
            }
        },
        None => {
            let ghost bprev = remote.branches@;
            let nb = Branch {
                name: branch_name.to_owned(),
                commit_id: local_branch.commit_id.clone(),
            };
            let ghost nbv = nb;
            remote.branches.push(nb);
            proof {
                assert(remote.branches@ =~= bprev.push(nbv));
                crate::model::lemma_branch_index_of(bprev, branch_name@);
                assert forall|a: int, b: int|
                    0 <= a < b < remote.branches@.len() implies (
                #[trigger] remote.branches@[a])@.name != (
                #[trigger] remote.branches@[b])@.name by {
                    if b == remote.branches@.len() - 1 {
                        assert(remote.branches@[a] == bprev[a]);
                        assert(remote.branches@[b] == nbv);
                    } else {
                        assert(remote.branches@[a] == bprev[a]);
                        assert(remote.branches@[b] == bprev[b]);
                    }
                }
                assert forall|a: int| 0 <= a < remote.branches@.len() implies commit_exists(
                    remote.commits@,
                    (#[trigger] remote.branches@[a])@.commit_id,
                ) by {
                    if a < bprev.len() {
                        assert(remote.branches@[a] == bprev[a]);
                    } else {
                        assert(remote.branches@[a] == nbv);
                    }
                }
                match remote.head@ {
                    HeadV::Branch(n) => {
                        crate::model::lemma_branch_index_of(bprev, n);
                        let hi = crate::model::branch_index_of(bprev, n);
                        assert(bprev[hi].name@ == n);
                        assert(remote.branches@[hi] == bprev[hi]);
                        crate::model::lemma_branch_index_of(remote.branches@, n);
                        if crate::model::branch_index_of(remote.branches@, n) == -1 {
                            assert(remote.branches@[hi].name@ != n);
                        }
                    },
                    _ => {},
                }
                lemma_branch_last_resolves(remote.branches@, branch_name@, local_branch.commit_id@);
            }
        },
    }
    Ok(local_branch)
}

/// Store growth alone keeps a repository well formed.
proof fn lemma_repo_wf_after_store_growth(
    before: Repository,
    after: Repository,
    obj0: Seq<ObjectRecordV>,
    ver0: Seq<VersionRecordV>,
)
    requires
        before.wf(),
        obj0 == before.objects.deep_view(),
        ver0 == before.versions.deep_view(),
        objects_wf(after.objects.deep_view()),
        versions_wf(after.versions.deep_view()),
        crate::objects::store_extends(obj0, after.objects.deep_view()),
        crate::objects::versions_extend(ver0, after.versions.deep_view()),
        after.working == before.working,
        after.staged == before.staged,
        after.locks == before.locks,
        after.commits == before.commits,
        after.branches == before.branches,
        after.head == before.head,
        after.shallow == before.shallow,
    ensures
        after.wf(),
{
    assert forall|a: int| 0 <= a < after.commits@.len()
        implies crate::objects::commit_tree_wf(
        after.objects.deep_view(),
        after.versions.deep_view(),
        (#[trigger] after.commits@[a])@.root_tree_hash,
        after.shallow,
    ) by {
        crate::objects::lemma_commit_tree_wf_stable(
            obj0,
            after.objects.deep_view(),
            ver0,
            after.versions.deep_view(),
            after.commits@[a]@.root_tree_hash,
            after.shallow,
        );
    }
}

/// A branch pointer update to an existing commit keeps the repository
/// well formed.
proof fn lemma_repo_wf_after_branch_update(
    before: Repository,
    after: Repository,
    new_target: Seq<char>,
)
    requires
        after.working == before.working,
        after.staged == before.staged,
        after.locks == before.locks,
        after.objects == before.objects,
        after.versions == before.versions,
        after.shallow == before.shallow,
        after.head == before.head,
        objects_wf(after.objects.deep_view()),
        versions_wf(after.versions.deep_view()),
        crate::assoc::keys_unique(after.working.deep_view(), crate::repository::working_key()),
        crate::assoc::keys_unique(after.staged.deep_view(), crate::repository::staged_key()),
        crate::assoc::keys_unique(after.locks.deep_view(), crate::repository::lock_key()),
        forall|i: int, j: int|
            0 <= i < j < after.commits@.len() ==> (#[trigger] after.commits@[i])@.id != (
            #[trigger] after.commits@[j])@.id,
        forall|i: int, k: int|
            0 <= i < after.commits@.len() && 0 <= k < (
            #[trigger] after.commits@[i])@.parent_ids.len() ==> commit_exists(
                after.commits@.subrange(0, i),
                #[trigger] after.commits@[i]@.parent_ids[k],
            ),
        forall|i: int, j: int|
            0 <= i < j < after.branches@.len() ==> (#[trigger] after.branches@[i])@.name != (
            #[trigger] after.branches@[j])@.name,
        commit_exists(after.commits@, new_target),
        forall|i: int|
            0 <= i < after.branches@.len() ==> (#[trigger] after.branches@[i])@.commit_id
                == new_target || exists|j: int|
                0 <= j < before.branches@.len() && after.branches@[i] == before.branches@[j],
        forall|i: int|
            0 <= i < before.branches@.len() ==> commit_exists(
                after.commits@,
                (#[trigger] before.branches@[i])@.commit_id,
            ),
        match after.head@ {
            HeadV::Branch(n) => branch_exists(after.branches@, n),
            HeadV::Detached(id) => commit_exists(after.commits@, id),
            HeadV::Unborn(_) => true,
        },
        forall|i: int|
            0 <= i < after.commits@.len() ==> crate::objects::commit_tree_wf(
                after.objects.deep_view(),
                after.versions.deep_view(),
                (#[trigger] after.commits@[i])@.root_tree_hash,
                after.shallow,
            ),
    ensures
        after.wf(),
{
    assert forall|i: int| 0 <= i < after.branches@.len() implies commit_exists(
        after.commits@,
        (#[trigger] after.branches@[i])@.commit_id,
    ) by {
        if after.branches@[i]@.commit_id != new_target {
            let j = choose|j: int|
                0 <= j < before.branches@.len() && after.branches@[i] == before.branches@[j];
        }
    }
}

/// The last branch resolves to its own target.
proof fn lemma_branch_last_resolves(branches: Seq<Branch>, name: Seq<char>, target: Seq<char>)
    requires
        branches.len() > 0,
        branches[branches.len() - 1].name@ == name,
        branches[branches.len() - 1].commit_id@ == target,
        forall|k: int|
            0 <= k < branches.len() - 1 ==> (#[trigger] branches[k]).name@ != name,
    ensures
        branch_exists(branches, name),
        branch_at(branches, name)@.commit_id == target,
{
    crate::model::lemma_branch_index_of(branches, name);
    if crate::model::branch_index_of(branches, name) == -1 {
        assert(branches[branches.len() - 1].name@ != name);
    }
    let i = crate::model::branch_index_of(branches, name);
    assert(branches[i].name@ == name);
    if i < branches.len() - 1 {
        assert(branches[i].name@ != name);
    }
}

} // verus!

verus! {

/// Pull a branch from a remote: fetch the tree nodes, version payloads
/// and commit records this side lacks, then write the local branch and
/// HEAD last.  Afterwards HEAD resolves to the remote branch's commit,
/// and that commit's tree lists exactly the same entries here as on the
/// remote: a pull into an empty clone reproduces the pushed tree.
#[verifier::rlimit(100)]
pub fn pull_branch(local: &mut Repository, remote: &Repository, branch_name: &str) -> (r:
    Result<Branch, OxenError>)
    requires
        old(local).wf(),
        remote.wf(),
        !remote.shallow,
    ensures
        final(local).wf(),
        match r {
            Ok(b) => {
                &&& branch_exists(remote.branches@, branch_name@)
                &&& b@ == branch_at(remote.branches@, branch_name@)@
                &&& final(local).head@ == HeadV::Branch(branch_name@)
                &&& branch_exists(final(local).branches@, branch_name@)
                &&& branch_at(final(local).branches@, branch_name@)@.commit_id
                    == b@.commit_id
                &&& commit_exists(final(local).commits@, b@.commit_id)
                &&& (!commit_exists(old(local).commits@, b@.commit_id) ==> {
                    let c = commit_at(remote.commits@, b@.commit_id)@;
                    &&& final(local).head_commit_spec() == Some(c)
                    &&& crate::objects::tree_entries(
                        final(local).objects.deep_view(),
                        c.root_tree_hash,
                    ) == crate::objects::tree_entries(
                        remote.objects.deep_view(),
                        c.root_tree_hash,
                    )
                })
            },
            Err(e) => {
                ((e == OxenError::NotFound && !branch_exists(remote.branches@, branch_name@)
                    && *final(local) == *old(local)) || (e == OxenError::Corruption
                    && crate::hash::hash_collision() && final(local).commits == old(
                    local,
                ).commits && final(local).branches == old(local).branches && final(local).head
                    == old(local).head))
            },
        },
        !branch_exists(remote.branches@, branch_name@) ==> r == Err::<Branch, OxenError>(
            OxenError::NotFound,
        ),
        crate::objects::store_extends(
            old(local).objects.deep_view(),
            final(local).objects.deep_view(),
        ),
        crate::objects::versions_extend(
            old(local).versions.deep_view(),
            final(local).versions.deep_view(),
        ),
        final(local).working == old(local).working,
        final(local).staged == old(local).staged,
        final(local).staged_dirs == old(local).staged_dirs,
        final(local).locks == old(local).locks,
        final(local).shallow == old(local).shallow,
        final(local).clock == old(local).clock,
        final(local).session == old(local).session,
{
    let remote_branch = match crate::repository::find_branch(&remote.branches, branch_name) {
        Some(b) => b.clone(),
        None => { return Err(OxenError::NotFound); },
    };
    let ghost lobj0 = local.objects.deep_view();
    let ghost lver0 = local.versions.deep_view();
    match sync_objects(&remote.objects, &mut local.objects) {
        Ok(()) => {},
        Err(e) => {
            proof {
                lemma_repo_wf_after_store_growth(*old(local), *local, lobj0, lver0);
            }
            return Err(e);
        },
    }
    match sync_versions(&remote.versions, &mut local.versions) {
        Ok(()) => {},
        Err(e) => {
            proof {
                lemma_repo_wf_after_store_growth(*old(local), *local, lobj0, lver0);
            }
            return Err(e);
        },
    }
    proof {
        lemma_repo_wf_after_store_growth(*old(local), *local, lobj0, lver0);
    }
    mirror_commits(remote, local);
    let ghost mid = *local;
    proof {
        crate::model::lemma_branch_index_of(remote.branches@, branch_name@);
        let bi = crate::model::branch_index_of(remote.branches@, branch_name@);
        assert(remote_branch@.commit_id == (#[trigger] remote.branches@[bi])@.commit_id);
        assert(commit_exists(remote.commits@, remote.branches@[bi]@.commit_id));
        lemma_commit_index_of(remote.commits@, remote_branch.commit_id@);
        let ci = commit_index_of(remote.commits@, remote_branch.commit_id@);
        assert(remote.commits@[ci].id@ == remote_branch.commit_id@);
        assert(commit_exists(local.commits@, (#[trigger] remote.commits@[ci])@.id));
    }
    match crate::repository::find_branch(&local.branches, branch_name) {
        Some(_) => {
            local.set_branch_commit(branch_name, remote_branch.commit_id.as_str());
            proof {
                match local.head@ {
                    HeadV::Branch(n) => {
                        if n != branch_name@ {
                            assert(branch_exists(local.branches@, n));
                        }
                    },
                    _ => {},
                }
                lemma_repo_wf_after_branch_update(mid, *local, remote_branch.commit_id@);
            }
        },
        None => {
            let ghost bprev = local.branches@;
            let nb = Branch {
                name: branch_name.to_owned(),
                commit_id: remote_branch.commit_id.clone(),
            };
            let ghost nbv = nb;
            local.branches.push(nb);
            proof {
                assert(local.branches@ =~= bprev.push(nbv));
                crate::model::lemma_branch_index_of(bprev, branch_name@);
                assert forall|a: int, b: int|
                    0 <= a < b < local.branches@.len() implies (
                #[trigger] local.branches@[a])@.name != (
                #[trigger] local.branches@[b])@.name by {
                    if b == local.branches@.len() - 1 {
                        assert(local.branches@[a] == bprev[a]);
                        assert(local.branches@[b] == nbv);
                    } else {
                        assert(local.branches@[a] == bprev[a]);
                        assert(local.branches@[b] == bprev[b]);
                    }
                }
                assert forall|a: int| 0 <= a < local.branches@.len() implies commit_exists(
                    local.commits@,
                    (#[trigger] local.branches@[a])@.commit_id,
                ) by {
                    if a < bprev.len() {
                        assert(local.branches@[a] == bprev[a]);
                    } else {
                        assert(local.branches@[a] == nbv);
                    }
                }
                lemma_branch_last_resolves(local.branches@, branch_name@, remote_branch.commit_id@);
            }
        },
    }
    local.head = Head::Branch(branch_name.to_owned());
    proof {
        crate::model::lemma_branch_index_of(local.branches@, branch_name@);
        assert(branch_exists(local.branches@, branch_name@));
        assert(local.wf());
        if !commit_exists(old(local).commits@, remote_branch.commit_id@) {
            let c = commit_at(remote.commits@, remote_branch.commit_id@)@;
            lemma_commit_index_of(remote.commits@, remote_branch.commit_id@);
            let ci = commit_index_of(remote.commits@, remote_branch.commit_id@);
            assert(commit_at(local.commits@, (#[trigger] remote.commits@[ci])@.id)@
                == remote.commits@[ci]@);
            assert(commit_at(local.commits@, remote_branch.commit_id@)@ == c);
            assert(local.head_commit_spec() == Some(c));
            assert(crate::objects::commit_tree_wf(
                remote.objects.deep_view(),
                remote.versions.deep_view(),
                c.root_tree_hash,
                remote.shallow,
            )) by {
                assert(remote.commits@[ci]@.root_tree_hash == c.root_tree_hash);
            }
            crate::objects::lemma_tree_stable(
                remote.objects.deep_view(),
                local.objects.deep_view(),
                c.root_tree_hash,
            );
        }
    }
    Ok(remote_branch)
}

} // verus!

verus! {

/// What a remote accumulates while a chunked upload is in flight.  A
/// chunk may arrive any number of times, in any order; receipt is
/// idempotent by index, so an interrupted transfer resumes cleanly.
#[derive(Debug)]
pub struct ChunkReceiver {
    pub chunks: Vec<Option<Vec<u8>>>,
}

impl ChunkReceiver {
    /// Await the given number of chunks.
    pub fn new(total_chunks: usize) -> (r: ChunkReceiver)
        ensures
            r.chunks.deep_view().len() == total_chunks,
            forall|i: int| 0 <= i < total_chunks ==> r.chunks.deep_view()[i] is None,
    {
        let mut chunks: Vec<Option<Vec<u8>>> = Vec::new();
        let mut i: usize = 0;
        while i < total_chunks
            invariant
                0 <= i <= total_chunks,
                chunks.deep_view().len() == i,
                forall|k: int| 0 <= k < i ==> chunks.deep_view()[k] is None,
            decreases total_chunks - i,
        {
            let ghost prev = chunks.deep_view();
            chunks.push(None);
            proof {
                assert(chunks.deep_view() =~~= prev.push(None));
            }
            i = i + 1;
        }
        ChunkReceiver { chunks }
    }

    /// Record one chunk.  An index beyond the announced total is invalid;
    /// re-sending an index simply overwrites it with the same content.
    pub fn receive(&mut self, chunk_num: usize, data: Vec<u8>) -> (r: Result<(), OxenError>)
        ensures
            match r {
                Ok(()) => {
                    &&& chunk_num < old(self).chunks.deep_view().len()
                    &&& final(self).chunks.deep_view().len() == old(
                        self,
                    ).chunks.deep_view().len()
                    &&& final(self).chunks.deep_view()[chunk_num as int] == Some(data@)
                    &&& (forall|i: int|
                        0 <= i < old(self).chunks.deep_view().len() && i != chunk_num
                            ==> final(self).chunks.deep_view()[i] == old(
                            self,
                        ).chunks.deep_view()[i])
                },
                Err(e) => e == OxenError::Invalid && chunk_num >= old(
                    self,
                ).chunks.deep_view().len() && *final(self) == *old(self),
            },
    {
        if chunk_num >= self.chunks.len() {
            return Err(OxenError::Invalid);
        }
        let ghost prev = self.chunks.deep_view();
        self.chunks.set(chunk_num, Some(data));
        proof {
            assert(self.chunks.deep_view()[chunk_num as int] == Some(
                self.chunks@[chunk_num as int].deep_view().unwrap(),
            ));
            assert forall|i: int|
                0 <= i < prev.len() && i != chunk_num implies self.chunks.deep_view()[i]
                == prev[i] by {
                assert(self.chunks@[i] == old(self).chunks@[i]);
            }
        }
        Ok(())
    }

    /// Whether every announced chunk has arrived.
    pub fn is_complete(&self) -> (r: bool)
        ensures
            r == (forall|i: int|
                0 <= i < self.chunks.deep_view().len() ==> #[trigger] self.chunks.deep_view()[i]
                    is Some),
    {
        let mut i: usize = 0;
        while i < self.chunks.len()
            invariant
                0 <= i <= self.chunks@.len(),
                forall|k: int| 0 <= k < i ==> #[trigger] self.chunks.deep_view()[k] is Some,
            decreases self.chunks@.len() - i,
        {
            if self.chunks[i].is_none() {
                proof {
                    assert(self.chunks.deep_view()[i as int] is None);
                }
                return false;
            }
            proof {
                assert(self.chunks.deep_view()[i as int] is Some);
            }
            i = i + 1;
        }
        true
    }

    /// The received chunks, in order, once all have arrived.
    pub open spec fn received_spec(self) -> Seq<Seq<u8>> {
        Seq::new(self.chunks.deep_view().len(), |i: int| self.chunks.deep_view()[i].unwrap())
    }

    /// Reassemble the payload from the received chunks.
    pub fn assemble(&self) -> (r: Result<Vec<u8>, OxenError>)
        ensures
            match r {
                Ok(data) => {
                    &&& forall|i: int|
                        0 <= i < self.chunks.deep_view().len()
                            ==> #[trigger] self.chunks.deep_view()[i] is Some
                    &&& data@ == concat_chunks(self.received_spec())
                },
                Err(e) => e == OxenError::Transient && exists|i: int|
                    0 <= i < self.chunks.deep_view().len()
                        && !(#[trigger] self.chunks.deep_view()[i] is Some),
            },
    {
        if !self.is_complete() {
            return Err(OxenError::Transient);
        }
        let mut parts: Vec<Vec<u8>> = Vec::new();
        let mut i: usize = 0;
        while i < self.chunks.len()
            invariant
                0 <= i <= self.chunks@.len(),
                forall|k: int|
                    0 <= k < self.chunks.deep_view().len()
                        ==> #[trigger] self.chunks.deep_view()[k] is Some,
                parts.deep_view() =~= self.received_spec().subrange(0, i as int),
            decreases self.chunks@.len() - i,
        {
            let ghost prev = parts.deep_view();
            match &self.chunks[i] {
                Some(chunk) => {
                    parts.push(clone_bytes(chunk));
                    proof {
                        assert(parts.deep_view() =~~= prev.push(
                            self.chunks.deep_view()[i as int].unwrap(),
                        ));
                        assert(parts.deep_view() =~= self.received_spec().subrange(
                            0,
                            i as int + 1,
                        ));
                    }
                },
                None => {
                    proof {
                        assert(self.chunks.deep_view()[i as int] is None);
                        assert(false);
                    }
                },
            }
            i = i + 1;
        }
        proof {
            assert(self.received_spec().subrange(0, self.received_spec().len() as int)
                =~= self.received_spec());
        }
        Ok(assemble_chunks(&parts))
    }
}

/// The percent-encoded form of a string, as urlencoding computes it.
pub uninterp spec fn url_encoded(s: Seq<char>) -> Seq<char>;

/// Relies on urlencoding::encode: percent-encodes the characters; the
/// result depends on the input characters alone.
#[verifier::external_body]
fn url_encode(s: &str) -> (r: String)
    ensures
        r@ == url_encoded(s@),
{
    urlencoding::encode(s).into_owned()
}

/// The endpoint path for a branch, its name percent-encoded.
pub fn branch_uri(name: &str) -> (r: String)
    ensures
        r@ == "/branches/"@ + url_encoded(name@),
{
    let mut out: String = "/branches/".to_owned();
    let encoded = url_encode(name);
    out.append(encoded.as_str());
    out
}

/// The endpoint path for a branch's write lock.
pub fn branch_lock_uri(name: &str) -> (r: String)
    ensures
        r@ == "/branches/"@ + url_encoded(name@) + "/lock"@,
{
    let mut out = branch_uri(name);
    out.append("/lock");
    out
}

} // verus!
