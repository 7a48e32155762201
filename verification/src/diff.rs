//! File-level diff summaries between two commit trees.
//!
//! Structural sharing makes these cheap: entries are compared by path and
//! content hash over the listings of the two trees.

use vstd::prelude::*;

use crate::model::CommitEntry;
use crate::model::CommitEntryV;
use crate::repository::entry_find;

verus! {

/// How a path differs between a base and a head commit.
#[derive(Clone, Copy, Debug, PartialEq, Eq, Structural)]
pub enum DiffEntryStatus {
    Added,
    Removed,
    Modified,
}

impl DiffEntryStatus {
    pub fn as_str(&self) -> (r: &'static str)
        ensures
            r@ == self.spec_str(),
    {
        match self {
            DiffEntryStatus::Added => "added",
            DiffEntryStatus::Removed => "removed",
            DiffEntryStatus::Modified => "modified",
        }
    }

    pub open spec fn spec_str(self) -> Seq<char> {
        match self {
            DiffEntryStatus::Added => "added"@,
            DiffEntryStatus::Removed => "removed"@,
            DiffEntryStatus::Modified => "modified"@,
        }
    }
}

/// The added/removed/modified tallies of a directory diff.
#[derive(Clone, Copy, Debug, PartialEq, Eq, Structural)]
pub struct AddRemoveModifyCounts {
    pub added: usize,
    pub removed: usize,
    pub modified: usize,
}

/// One entry of a commit-to-commit diff.
#[derive(Debug)]
pub struct DiffEntry {
    pub status: DiffEntryStatus,
    pub filename: String,
    pub is_dir: bool,
    pub size: u64,
    pub head_size: Option<u64>,
    pub base_size: Option<u64>,
    /// Content hash of the head side, when a file is present there.
    pub head_hash: Option<String>,
    /// Content hash of the base side, when a file is present there.
    pub base_hash: Option<String>,
    /// Added/removed/modified tallies, for a directory entry.
    pub summary: Option<AddRemoveModifyCounts>,
    /// The inline row-level diff, attached for a tabular file on request.
    pub tabular: Option<Vec<crate::tabular::DiffRow>>,
}

impl DiffEntry {
    /// Whether the entry records a real change: both sides are present
    /// and their content hashes differ.  With either side absent nothing
    /// deeper can be compared, so nothing changed.
    pub fn has_changes(&self) -> (r: bool)
        ensures
            r == (self.head_hash matches Some(h) && (self.base_hash matches Some(b) && h@
                != b@)),
    {
        match (&self.head_hash, &self.base_hash) {
            (Some(h), Some(b)) => !crate::data_type::str_eq(h.as_str(), b.as_str()),
            _ => false,
        }
    }

    /// Describe one file's difference between a base and a head commit.
    /// At least one side must carry the file.
    pub fn from_commit_entry(
        base_entry: Option<&CommitEntry>,
        head_entry: Option<&CommitEntry>,
        status: DiffEntryStatus,
    ) -> (r: DiffEntry)
        requires
            base_entry is Some || head_entry is Some,
        ensures
            r.status == status,
            !r.is_dir,
            r.summary is None,
            r.tabular is None,
            match head_entry {
                Some(h) => r.filename@ == h.path@ && r.size == h.num_bytes && r.head_size
                    == Some(h.num_bytes) && (r.head_hash matches Some(x) && x@ == h.hash@),
                None => r.head_size is None && r.head_hash is None,
            },
            match base_entry {
                Some(b) => r.base_size == Some(b.num_bytes) && (r.base_hash matches Some(x)
                    && x@ == b.hash@) && (head_entry is None ==> r.filename@ == b.path@
                    && r.size == b.num_bytes),
                None => r.base_size is None && r.base_hash is None,
            },
    {
        let (filename, size) = match head_entry {
            Some(h) => (h.path.clone(), h.num_bytes),
            None => {
                let b = base_entry.unwrap();
                (b.path.clone(), b.num_bytes)
            },
        };
        DiffEntry {
            status,
            filename,
            is_dir: false,
            size,
            head_size: match head_entry {
                Some(h) => Some(h.num_bytes),
                None => None,
            },
            base_size: match base_entry {
                Some(b) => Some(b.num_bytes),
                None => None,
            },
            head_hash: match head_entry {
                Some(h) => Some(h.hash.clone()),
                None => None,
            },
            base_hash: match base_entry {
                Some(b) => Some(b.hash.clone()),
                None => None,
            },
            summary: None,
            tabular: None,
        }
    }

    /// Attach a row-level diff to a tabular file's entry; every other
    /// field stays as built.
    pub fn with_tabular(self, rows: Vec<crate::tabular::DiffRow>) -> (r: DiffEntry)
        ensures
            r.tabular matches Some(t) && t.deep_view() == rows.deep_view(),
            r.status == self.status,
            r.filename == self.filename,
            r.is_dir == self.is_dir,
            r.size == self.size,
            r.head_size == self.head_size,
            r.base_size == self.base_size,
            r.head_hash == self.head_hash,
            r.base_hash == self.base_hash,
            r.summary == self.summary,
    {
        DiffEntry { tabular: Some(rows), ..self }
    }
}

/// The total payload bytes of a listing.
pub open spec fn total_bytes(entries: Seq<CommitEntryV>) -> int
    decreases entries.len(),
{
    if entries.len() == 0 {
        0
    } else {
        total_bytes(entries.drop_last()) + entries.last().num_bytes
    }
}

/// Sum a listing's payload bytes, saturating at the integer limit.
pub fn sum_bytes(entries: &Vec<CommitEntry>) -> (r: u64)
    ensures
        r as int == if total_bytes(entries.deep_view()) <= u64::MAX as int {
            total_bytes(entries.deep_view())
        } else {
            u64::MAX as int
        },
{
    let ghost ev = entries.deep_view();
    proof {
        lemma_total_bytes_nonneg(ev);
    }
    let mut sum: u64 = 0;
    let mut i: usize = 0;
    while i < entries.len()
        invariant
            0 <= i <= entries@.len(),
            ev == entries.deep_view(),
            ev.len() == entries@.len(),
            sum as int == if total_bytes(ev.subrange(0, i as int)) <= u64::MAX as int {
                total_bytes(ev.subrange(0, i as int))
            } else {
                u64::MAX as int
            },
        decreases entries@.len() - i,
    {
        proof {
            let pre = ev.subrange(0, i as int);
            let post = ev.subrange(0, i as int + 1);
            assert(post.drop_last() =~= pre);
            assert(post.last() == ev[i as int]);
            lemma_total_bytes_nonneg(pre);
        }
        let b = entries[i].num_bytes;
        if sum <= u64::MAX - b {
            sum = sum + b;
        } else {
            sum = u64::MAX;
        }
        i = i + 1;
    }
    proof {
        assert(ev.subrange(0, ev.len() as int) =~= ev);
    }
    sum
}

proof fn lemma_total_bytes_nonneg(entries: Seq<CommitEntryV>)
    ensures
        total_bytes(entries) >= 0,
    decreases entries.len(),
{
    if entries.len() > 0 {
        lemma_total_bytes_nonneg(entries.drop_last());
    }
}

impl DiffEntry {
    /// Describe a whole directory's difference between a base and a head
    /// commit: the listed sides' total sizes and the file-level tallies.
    /// At least one side must carry the directory.
    pub fn from_dir(
        base_dir: Option<&str>,
        base_entries: &Vec<CommitEntry>,
        head_dir: Option<&str>,
        head_entries: &Vec<CommitEntry>,
        status: DiffEntryStatus,
    ) -> (r: DiffEntry)
        requires
            base_dir is Some || head_dir is Some,
        ensures
            r.summary matches Some(s) && s.added as int == count_added(
                base_entries.deep_view(),
                head_entries.deep_view(),
            ) && s.removed as int == count_removed(
                base_entries.deep_view(),
                head_entries.deep_view(),
            ) && s.modified as int == count_modified(
                base_entries.deep_view(),
                head_entries.deep_view(),
            ),
            from_dir_shape(
                r,
                base_entries.deep_view(),
                match head_dir {
                    Some(d) => Some(d@),
                    None => None,
                },
                match base_dir {
                    Some(d) => Some(d@),
                    None => None,
                },
                head_entries.deep_view(),
                status,
            ),
    {
        let summary = count_diff_entries(base_entries, head_entries);
        Self::from_dir_with_summary(base_dir, base_entries, head_dir, head_entries, summary, status)
    }

    /// As `from_dir`, with the tallies already computed.
    pub fn from_dir_with_summary(
        base_dir: Option<&str>,
        base_entries: &Vec<CommitEntry>,
        head_dir: Option<&str>,
        head_entries: &Vec<CommitEntry>,
        summary: AddRemoveModifyCounts,
        status: DiffEntryStatus,
    ) -> (r: DiffEntry)
        requires
            base_dir is Some || head_dir is Some,
        ensures
            r.summary == Some(summary),
            from_dir_shape(
                r,
                base_entries.deep_view(),
                match head_dir {
                    Some(d) => Some(d@),
                    None => None,
                },
                match base_dir {
                    Some(d) => Some(d@),
                    None => None,
                },
                head_entries.deep_view(),
                status,
            ),
    {
        let head_total = sum_bytes(head_entries);
        let base_total = sum_bytes(base_entries);
        let (filename, size) = match head_dir {
            Some(d) => (d.to_owned(), head_total),
            None => {
                let b: &str = base_dir.unwrap();
                (b.to_owned(), base_total)
            },
        };
        DiffEntry {
            status,
            filename,
            is_dir: true,
            size,
            head_size: match head_dir {
                Some(_) => Some(head_total),
                None => None,
            },
            base_size: match base_dir {
                Some(_) => Some(base_total),
                None => None,
            },
            head_hash: None,
            base_hash: None,
            summary: Some(summary),
            tabular: None,
        }
    }
}

/// What a directory diff entry carries: the present side names it, each
/// present side reports its saturated total size, and content hashes do
/// not apply.
pub open spec fn from_dir_shape(
    r: DiffEntry,
    base_entries: Seq<CommitEntryV>,
    head_dir: Option<Seq<char>>,
    base_dir: Option<Seq<char>>,
    head_entries: Seq<CommitEntryV>,
    status: DiffEntryStatus,
) -> bool {
    let head_total: int = if total_bytes(head_entries) <= u64::MAX as int {
        total_bytes(head_entries)
    } else {
        u64::MAX as int
    };
    let base_total: int = if total_bytes(base_entries) <= u64::MAX as int {
        total_bytes(base_entries)
    } else {
        u64::MAX as int
    };
    &&& r.status == status
    &&& r.is_dir
    &&& r.head_hash is None
    &&& r.base_hash is None
    &&& (head_dir matches Some(d) ==> r.filename@ == d && r.size as int == head_total && (
    r.head_size matches Some(h) && h as int == head_total))
    &&& (head_dir is None ==> r.head_size is None)
    &&& (base_dir matches Some(d) ==> (r.base_size matches Some(b) && b as int == base_total)
        && (head_dir is None ==> r.filename@ == d && r.size as int == base_total))
    &&& (base_dir is None ==> r.base_size is None)
}

/// How many head entries have no base entry at their path.
pub open spec fn count_added(base: Seq<CommitEntryV>, head: Seq<CommitEntryV>) -> int
    decreases head.len(),
{
    if head.len() == 0 {
        0
    } else {
        let rest = count_added(base, head.drop_last());
        if entry_find(base, head.last().path) is None {
            rest + 1
        } else {
            rest
        }
    }
}

/// How many base entries have no head entry at their path.
pub open spec fn count_removed(base: Seq<CommitEntryV>, head: Seq<CommitEntryV>) -> int {
    count_added(head, base)
}

/// How many base entries exist at head with a different content hash.
pub open spec fn count_modified(base: Seq<CommitEntryV>, head: Seq<CommitEntryV>) -> int
    decreases base.len(),
{
    if base.len() == 0 {
        0
    } else {
        let rest = count_modified(base.drop_last(), head);
        match entry_find(head, base.last().path) {
            Some(h) => if h.hash != base.last().hash {
                rest + 1
            } else {
                rest
            },
            None => rest,
        }
    }
}

/// Tally the file-level differences between two commit listings: entries
/// only at head are added, entries only at base are removed, and entries
/// on both sides with differing content hashes are modified.
pub fn count_diff_entries(
    base: &Vec<CommitEntry>,
    head: &Vec<CommitEntry>,
) -> (r: AddRemoveModifyCounts)
    ensures
        r.added as int == count_added(base.deep_view(), head.deep_view()),
        r.removed as int == count_removed(base.deep_view(), head.deep_view()),
        r.modified as int == count_modified(base.deep_view(), head.deep_view()),
{
    let ghost bv = base.deep_view();
    let ghost hv = head.deep_view();
    let mut added: usize = 0;
    let mut i: usize = 0;
    while i < head.len()
        invariant
            0 <= i <= head@.len(),
            bv == base.deep_view(),
            hv == head.deep_view(),
            hv.len() == head@.len(),
            added as int == count_added(bv, hv.subrange(0, i as int)),
            added <= i,
        decreases head@.len() - i,
    {
        proof {
            let pre = hv.subrange(0, i as int);
            let post = hv.subrange(0, i as int + 1);
            assert(post.drop_last() =~= pre);
            assert(post.last() == hv[i as int]);
        }
        match crate::repository::Repository::find_entry(base, head[i].path.as_str()) {
            Some(_) => {},
            None => {
                added = added + 1;
            },
        }
        i = i + 1;
    }
    proof {
        assert(hv.subrange(0, hv.len() as int) =~= hv);
    }
    let mut removed: usize = 0;
    let mut j: usize = 0;
    while j < base.len()
        invariant
            0 <= j <= base@.len(),
            bv == base.deep_view(),
            hv == head.deep_view(),
            bv.len() == base@.len(),
            removed as int == count_added(hv, bv.subrange(0, j as int)),
            removed <= j,
        decreases base@.len() - j,
    {
        proof {
            let pre = bv.subrange(0, j as int);
            let post = bv.subrange(0, j as int + 1);
            assert(post.drop_last() =~= pre);
            assert(post.last() == bv[j as int]);
        }
        match crate::repository::Repository::find_entry(head, base[j].path.as_str()) {
            Some(_) => {},
            None => {
                removed = removed + 1;
            },
        }
        j = j + 1;
    }
    proof {
        assert(bv.subrange(0, bv.len() as int) =~= bv);
    }
    let mut modified: usize = 0;
    let mut k: usize = 0;
    while k < base.len()
        invariant
            0 <= k <= base@.len(),
            bv == base.deep_view(),
            hv == head.deep_view(),
            bv.len() == base@.len(),
            modified as int == count_modified(bv.subrange(0, k as int), hv),
            modified <= k,
        decreases base@.len() - k,
    {
        proof {
            let pre = bv.subrange(0, k as int);
            let post = bv.subrange(0, k as int + 1);
            assert(post.drop_last() =~= pre);
            assert(post.last() == bv[k as int]);
        }
        match crate::repository::Repository::find_entry(head, base[k].path.as_str()) {
            Some(h) => {
                if !crate::data_type::str_eq(h.hash.as_str(), base[k].hash.as_str()) {
                    modified = modified + 1;
                }
            },
            None => {},
        }
        k = k + 1;
    }
    proof {
        assert(bv.subrange(0, bv.len() as int) =~= bv);
    }
    AddRemoveModifyCounts { added, removed, modified }
}

} // verus!
