//! The remote view of a staging area: staged paths, paginated.

use vstd::prelude::*;

use crate::model::StagedData;
use crate::repository::staged_paths_with;

verus! {

/// One page of entries with its pagination facts.
#[derive(Debug)]
pub struct PaginatedEntries {
    pub entries: Vec<String>,
    pub page_number: usize,
    pub page_size: usize,
    pub total_pages: usize,
    pub total_entries: usize,
}

/// Where a page starts: page one (or zero) starts at the beginning, and
/// a page beyond the data is empty.
pub open spec fn page_start(len: int, page_number: int, page_size: int) -> int {
    if page_number <= 1 {
        0
    } else if (page_number - 1) * page_size <= len {
        (page_number - 1) * page_size
    } else {
        len
    }
}

pub open spec fn page_end(len: int, page_number: int, page_size: int) -> int {
    if page_start(len, page_number, page_size) + page_size <= len {
        page_start(len, page_number, page_size) + page_size
    } else {
        len
    }
}

/// How many pages the data spans.
pub open spec fn total_pages_of(len: int, page_size: int) -> int {
    if page_size <= 0 {
        0
    } else if len % page_size == 0 {
        len / page_size
    } else {
        len / page_size + 1
    }
}

/// The staged paths, in staging order.
pub open spec fn paths_of(s: Seq<crate::model::StagedEntryV>) -> Seq<Seq<char>>
    decreases s.len(),
{
    if s.len() == 0 {
        Seq::empty()
    } else {
        paths_of(s.drop_last()).push(s.last().path)
    }
}

/// One staged path per staged entry.
pub proof fn lemma_paths_of_len(s: Seq<crate::model::StagedEntryV>)
    ensures
        paths_of(s).len() == s.len(),
    decreases s.len(),
{
    if s.len() > 0 {
        lemma_paths_of_len(s.drop_last());
    }
}

/// The remote staging report: staged directories, and the staged and
/// modified files as pages.
#[derive(Debug)]
pub struct RemoteStagedStatus {
    pub added_dirs: Vec<String>,
    pub added_files: PaginatedEntries,
    pub modified_files: PaginatedEntries,
}

impl RemoteStagedStatus {
    /// Cut a path list into the requested page.
    #[verifier::rlimit(30)]
    pub fn paginate_entries(
        entries: Vec<String>,
        page_number: usize,
        page_size: usize,
    ) -> (r: PaginatedEntries)
        requires
            page_size > 0,
        ensures
            r.page_number == page_number,
            r.page_size == page_size,
            r.total_entries == entries@.len(),
            r.total_pages as int == total_pages_of(entries@.len() as int, page_size as int),
            r.entries.deep_view() == entries.deep_view().subrange(
                page_start(entries@.len() as int, page_number as int, page_size as int),
                page_end(entries@.len() as int, page_number as int, page_size as int),
            ),
    {
        let len = entries.len();
        let start: usize = if page_number <= 1 {
            0
        } else {
            let p = page_number - 1;
            if p > len / page_size {
                len
            } else {
                proof {
                    let l = len as int;
                    let sz = page_size as int;
                    vstd::arithmetic::div_mod::lemma_fundamental_div_mod(l, sz);
                    assert((p as int) * sz <= l) by (nonlinear_arith)
                        requires
                            p as int <= l / sz,
                            sz > 0,
                            l == sz * (l / sz) + l % sz,
                            0 <= l % sz,
                    ;
                }
                let s = p * page_size;
                if s > len {
                    len
                } else {
                    s
                }
            }
        };
        proof {
            if page_number > 1 {
                let p = (page_number - 1) as int;
                let l = len as int;
                let sz = page_size as int;
                let q = l / sz;
                let m = l % sz;
                vstd::arithmetic::div_mod::lemma_fundamental_div_mod(l, sz);
                assert(q * sz + m == l) by (nonlinear_arith)
                    requires
                        l == sz * q + m,
                ;
                assert(0 <= m);
                assert(m < sz);
                if p > q {
                    assert(p * sz > l) by (nonlinear_arith)
                        requires
                            p > q,
                            sz > 0,
                            q * sz + m == l,
                            0 <= m,
                            m < sz,
                    ;
                } else {
                    assert(p * sz <= q * sz) by (nonlinear_arith)
                        requires
                            p <= q,
                            sz > 0,
                    ;
                    assert(q * sz <= l);
                }
            }
            assert(start as int == page_start(
                len as int,
                page_number as int,
                page_size as int,
            ));
        }
        let end: usize = if page_size > len - start {
            len
        } else {
            start + page_size
        };
        let mut page: Vec<String> = Vec::new();
        let mut i: usize = start;
        while i < end
            invariant
                start <= i <= end,
                end <= entries@.len(),
                page.deep_view() =~= entries.deep_view().subrange(start as int, i as int),
            decreases end - i,
        {
            let ghost prev = page.deep_view();
            page.push(entries[i].clone());
            proof {
                assert(page.deep_view() =~= prev.push(entries.deep_view()[i as int]));
                assert(page.deep_view() =~= entries.deep_view().subrange(
                    start as int,
                    i as int + 1,
                ));
            }
            i = i + 1;
        }
        let total_pages: usize = if len % page_size == 0 {
            len / page_size
        } else {
            proof {
                let l = len as int;
                let sz = page_size as int;
                if sz == 1 {
                    assert(l % 1 == 0);
                }
                if l == 0 {
                    assert(l % sz == 0) by (nonlinear_arith)
                        requires
                            l == 0,
                            sz >= 1,
                    ;
                }
                assert(l >= 1);
                assert(l / sz < l) by (nonlinear_arith)
                    requires
                        l >= 1,
                        sz >= 2,
                ;
            }
            len / page_size + 1
        };
        PaginatedEntries {
            entries: page,
            page_number,
            page_size,
            total_pages,
            total_entries: len,
        }
    }

    /// The remote staging report of a status: the staged directories,
    /// the requested page of the staged file paths in staging order, and
    /// the same page of the modified paths.
    pub fn from_staged(staged: &StagedData, page_num: usize, page_size: usize) -> (r:
        RemoteStagedStatus)
        requires
            page_size > 0,
        ensures
            r.added_dirs.deep_view() == staged.added_dirs.deep_view(),
            r.added_files.total_entries == staged.added_files@.len(),
            r.added_files.page_number == page_num,
            r.added_files.page_size == page_size,
            r.added_files.total_pages as int == total_pages_of(
                staged.added_files@.len() as int,
                page_size as int,
            ),
            r.added_files.entries.deep_view() == paths_of(
                staged.added_files.deep_view(),
            ).subrange(
                page_start(
                    staged.added_files@.len() as int,
                    page_num as int,
                    page_size as int,
                ),
                page_end(staged.added_files@.len() as int, page_num as int, page_size as int),
            ),
            r.modified_files.total_entries == staged_paths_with(
                staged.added_files.deep_view(),
                crate::model::StagedEntryStatus::Modified,
            ).len(),
            r.modified_files.page_number == page_num,
            r.modified_files.page_size == page_size,
            r.modified_files.total_pages as int == total_pages_of(
                staged_paths_with(
                    staged.added_files.deep_view(),
                    crate::model::StagedEntryStatus::Modified,
                ).len() as int,
                page_size as int,
            ),
            r.modified_files.entries.deep_view() == ({
                let mods = staged_paths_with(
                    staged.added_files.deep_view(),
                    crate::model::StagedEntryStatus::Modified,
                );
                mods.subrange(
                    page_start(mods.len() as int, page_num as int, page_size as int),
                    page_end(mods.len() as int, page_num as int, page_size as int),
                )
            }),
    {
        let ghost sv = staged.added_files.deep_view();
        let mut added_paths: Vec<String> = Vec::new();
        let mut i: usize = 0;
        while i < staged.added_files.len()
            invariant
                0 <= i <= staged.added_files@.len(),
                sv == staged.added_files.deep_view(),
                sv.len() == staged.added_files@.len(),
                added_paths.deep_view() =~= paths_of(sv.subrange(0, i as int)),
            decreases staged.added_files@.len() - i,
        {
            let ghost prev = added_paths.deep_view();
            added_paths.push(staged.added_files[i].path.clone());
            proof {
                let pre = sv.subrange(0, i as int);
                let post = sv.subrange(0, i as int + 1);
                assert(post.drop_last() =~= pre);
                assert(post.last() == sv[i as int]);
                assert(added_paths.deep_view() =~= prev.push(sv[i as int].path));
            }
            i = i + 1;
        }
        proof {
            assert(sv.subrange(0, sv.len() as int) =~= sv);
            lemma_paths_of_len(sv);
        }
        let mut modified_paths: Vec<String> = Vec::new();
        let mut j: usize = 0;
        while j < staged.added_files.len()
            invariant
                0 <= j <= staged.added_files@.len(),
                sv == staged.added_files.deep_view(),
                sv.len() == staged.added_files@.len(),
                modified_paths.deep_view() =~= staged_paths_with(
                    sv.subrange(0, j as int),
                    crate::model::StagedEntryStatus::Modified,
                ),
            decreases staged.added_files@.len() - j,
        {
            proof {
                let pre = sv.subrange(0, j as int);
                let post = sv.subrange(0, j as int + 1);
                assert(post.drop_last() =~= pre);
                assert(post.last() == sv[j as int]);
            }
            match staged.added_files[j].status {
                crate::model::StagedEntryStatus::Modified => {
                    let ghost prev = modified_paths.deep_view();
                    modified_paths.push(staged.added_files[j].path.clone());
                    proof {
                        assert(modified_paths.deep_view() =~= prev.push(sv[j as int].path));
                    }
                },
                _ => {},
            }
            j = j + 1;
        }
        proof {
            assert(sv.subrange(0, sv.len() as int) =~= sv);
        }
        RemoteStagedStatus {
            added_dirs: crate::repository::clone_string_vec(&staged.added_dirs),
            added_files: Self::paginate_entries(added_paths, page_num, page_size),
            modified_files: Self::paginate_entries(modified_paths, page_num, page_size),
        }
    }
}

} // verus!
