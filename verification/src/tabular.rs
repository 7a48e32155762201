//! The tabular engine: rows as plain string cells, key/target row hashing,
//! the row-level diff of two dataframes, and staged row edits against an
//! indexed copy of a committed dataframe.
//!
//! The concrete dataframe library that parses CSV or Parquet stays outside
//! the engine; what reaches this module is already a grid of cell values.

use vstd::prelude::*;

use vstd::multiset::Multiset;

use crate::error::OxenError;
use crate::hash;

verus! {

/// One row of cell values, in column order.
#[derive(Debug)]
pub struct DataRow {
    pub cells: Vec<String>,
}

impl View for DataRow {
    type V = Seq<Seq<char>>;

    open spec fn view(&self) -> Seq<Seq<char>> {
        self.cells.deep_view()
    }
}

impl DeepView for DataRow {
    type V = Seq<Seq<char>>;

    open spec fn deep_view(&self) -> Seq<Seq<char>> {
        self.view()
    }
}

impl Clone for DataRow {
    fn clone(&self) -> (r: DataRow)
        ensures
            r@ == self@,
    {
        DataRow { cells: crate::repository::clone_string_vec(&self.cells) }
    }
}

/// A dataframe: named columns over rows of cells.
#[derive(Debug)]
pub struct DataFrame {
    pub columns: Vec<String>,
    pub rows: Vec<DataRow>,
}

/// The characters hashed for a row restricted to the given column
/// indices: the chosen cells, in index order, each behind a separator so
/// cell boundaries cannot collide.
pub open spec fn row_concat(row: Seq<Seq<char>>, idxs: Seq<usize>) -> Seq<char>
    decreases idxs.len(),
{
    if idxs.len() == 0 {
        Seq::empty()
    } else {
        let rest = row_concat(row, idxs.drop_last());
        let cell: Seq<char> = if idxs.last() < row.len() {
            row[idxs.last() as int]
        } else {
            Seq::empty()
        };
        rest + seq!['\u{1f}'] + cell
    }
}

/// The hash of a row over a column selection: the primitive of tabular
/// diff.  Equal selected cells give equal hashes on every platform.
#[verifier::opaque]
pub open spec fn row_hash_spec(row: Seq<Seq<char>>, idxs: Seq<usize>) -> Seq<char> {
    hash::hash_of_chars(row_concat(row, idxs))
}

/// Hash a row over the given column indices.
pub fn row_hash(row: &DataRow, idxs: &Vec<usize>) -> (r: String)
    ensures
        r@ == row_hash_spec(row@, idxs@),
{
    let mut buffer = String::new();
    let mut i: usize = 0;
    while i < idxs.len()
        invariant
            0 <= i <= idxs@.len(),
            buffer@ == row_concat(row@, idxs@.subrange(0, i as int)),
        decreases idxs@.len() - i,
    {
        let sep = crate::codec::char_to_string('\u{1f}');
        buffer.append(sep.as_str());
        let idx = idxs[i];
        if idx < row.cells.len() {
            buffer.append(row.cells[idx].as_str());
        }
        proof {
            let pre = idxs@.subrange(0, i as int);
            let post = idxs@.subrange(0, i as int + 1);
            assert(post.drop_last() =~= pre);
            assert(post.last() == idxs@[i as int]);
            assert(buffer@ =~= row_concat(row@, post));
        }
        i = i + 1;
    }
    proof {
        assert(idxs@.subrange(0, idxs@.len() as int) =~= idxs@);
        reveal(row_hash_spec);
    }
    hash::hash_str(buffer.as_str())
}

/// How one joined row pair is classified.
#[derive(Clone, Copy, Debug, PartialEq, Eq, Structural)]
pub enum DiffRowStatus {
    Added,
    Removed,
    Modified,
    Unchanged,
}

impl DiffRowStatus {
    /// The wire spelling of the status.
    pub fn as_str(&self) -> (r: &'static str)
        ensures
            r@ == self.spec_str(),
    {
        match self {
            DiffRowStatus::Added => "added",
            DiffRowStatus::Removed => "removed",
            DiffRowStatus::Modified => "modified",
            DiffRowStatus::Unchanged => "unchanged",
        }
    }

    pub open spec fn spec_str(self) -> Seq<char> {
        match self {
            DiffRowStatus::Added => "added"@,
            DiffRowStatus::Removed => "removed"@,
            DiffRowStatus::Modified => "modified"@,
            DiffRowStatus::Unchanged => "unchanged"@,
        }
    }
}

/// Classify one joined row from the presence of its key on each side and
/// the two target hashes: a key only on the right is an addition, only on
/// the left a removal, on both sides a modification exactly when the
/// target hashes differ — and without target columns, never a
/// modification.
pub open spec fn classify_spec(
    key_left: bool,
    key_right: bool,
    target_left: Seq<char>,
    target_right: Seq<char>,
    has_targets: bool,
) -> DiffRowStatus {
    if !key_left {
        DiffRowStatus::Added
    } else if !key_right {
        DiffRowStatus::Removed
    } else if !has_targets {
        DiffRowStatus::Unchanged
    } else if target_left != target_right {
        DiffRowStatus::Modified
    } else {
        DiffRowStatus::Unchanged
    }
}

pub fn classify_row(
    key_left: bool,
    key_right: bool,
    target_left: &str,
    target_right: &str,
    has_targets: bool,
) -> (r: DiffRowStatus)
    ensures
        r == classify_spec(key_left, key_right, target_left@, target_right@, has_targets),
{
    if !key_left {
        DiffRowStatus::Added
    } else if !key_right {
        DiffRowStatus::Removed
    } else if !has_targets {
        DiffRowStatus::Unchanged
    } else if !crate::data_type::str_eq(target_left, target_right) {
        DiffRowStatus::Modified
    } else {
        DiffRowStatus::Unchanged
    }
}

/// One row of a tabular diff: the key-restricted row values, the sides
/// that carry the row, and its status.
#[derive(Debug)]
pub struct DiffRow {
    pub left: Option<DataRow>,
    pub right: Option<DataRow>,
    pub status: DiffRowStatus,
}

pub ghost struct DiffRowV {
    pub left: Option<Seq<Seq<char>>>,
    pub right: Option<Seq<Seq<char>>>,
    pub status: DiffRowStatus,
}

impl View for DiffRow {
    type V = DiffRowV;

    open spec fn view(&self) -> DiffRowV {
        DiffRowV {
            left: match self.left {
                Some(r) => Some(r.deep_view()),
                None => None,
            },
            right: match self.right {
                Some(r) => Some(r.deep_view()),
                None => None,
            },
            status: self.status,
        }
    }
}

impl DeepView for DiffRow {
    type V = DiffRowV;

    open spec fn deep_view(&self) -> DiffRowV {
        self.view()
    }
}

/// The index of the first row whose key hash matches, or -1.
pub open spec fn row_index_by_key(
    rows: Seq<Seq<Seq<char>>>,
    idxs: Seq<usize>,
    key: Seq<char>,
) -> int
    decreases rows.len(),
{
    if rows.len() == 0 {
        -1
    } else if row_hash_spec(rows[0], idxs) == key {
        0
    } else {
        let rest = row_index_by_key(rows.drop_first(), idxs, key);
        if rest == -1 {
            -1
        } else {
            rest + 1
        }
    }
}

/// Find the first row with a matching key hash.
fn find_row_by_key(rows: &Vec<DataRow>, idxs: &Vec<usize>, key: &str) -> (r: Option<usize>)
    ensures
        match r {
            Some(i) => i < rows@.len() && row_index_by_key(rows.deep_view(), idxs@, key@)
                == i as int,
            None => row_index_by_key(rows.deep_view(), idxs@, key@) == -1,
        },
{
    let ghost rv = rows.deep_view();
    let mut i: usize = 0;
    while i < rows.len()
        invariant
            0 <= i <= rows@.len(),
            rv == rows.deep_view(),
            rv.len() == rows@.len(),
            forall|k: int| 0 <= k < i ==> row_hash_spec(#[trigger] rv[k], idxs@) != key@,
        decreases rows@.len() - i,
    {
        let h = row_hash(&rows[i], idxs);
        if crate::data_type::str_eq(h.as_str(), key) {
            proof {
                lemma_row_first_hit(rv, idxs@, key@, i as int);
            }
            return Some(i);
        }
        i = i + 1;
    }
    proof {
        lemma_row_index_miss(rv, idxs@, key@);
    }
    None
}

/// Bounds and the found row of `row_index_by_key`.
proof fn lemma_row_index_props(rows: Seq<Seq<Seq<char>>>, idxs: Seq<usize>, key: Seq<char>)
    ensures
        -1 <= row_index_by_key(rows, idxs, key) < rows.len(),
        row_index_by_key(rows, idxs, key) >= 0 ==> row_hash_spec(
            rows[row_index_by_key(rows, idxs, key)],
            idxs,
        ) == key,
    decreases rows.len(),
{
    if rows.len() > 0 && row_hash_spec(rows[0], idxs) != key {
        lemma_row_index_props(rows.drop_first(), idxs, key);
        assert(forall|k: int| 1 <= k < rows.len() ==> rows[k] == rows.drop_first()[k - 1]);
    }
}

/// No row matches, so the lookup misses.
proof fn lemma_row_index_miss(rows: Seq<Seq<Seq<char>>>, idxs: Seq<usize>, key: Seq<char>)
    requires
        forall|k: int| 0 <= k < rows.len() ==> row_hash_spec(#[trigger] rows[k], idxs) != key,
    ensures
        row_index_by_key(rows, idxs, key) == -1,
    decreases rows.len(),
{
    if rows.len() > 0 {
        lemma_row_index_miss(rows.drop_first(), idxs, key);
        assert(forall|k: int| 1 <= k < rows.len() ==> rows[k] == rows.drop_first()[k - 1]);
    }
}

proof fn lemma_row_first_hit(rows: Seq<Seq<Seq<char>>>, idxs: Seq<usize>, key: Seq<char>, i: int)
    requires
        0 <= i < rows.len(),
        row_hash_spec(rows[i], idxs) == key,
        forall|k: int| 0 <= k < i ==> row_hash_spec(#[trigger] rows[k], idxs) != key,
    ensures
        row_index_by_key(rows, idxs, key) == i,
    decreases i,
{
    if row_hash_spec(rows[0], idxs) != key {
        lemma_row_first_hit(rows.drop_first(), idxs, key, i - 1);
        assert(forall|k: int| 1 <= k < rows.len() ==> rows[k] == rows.drop_first()[k - 1]);
    }
}

/// The diff row a left row yields against the right side, if any: removed
/// when its key is absent on the right, modified when the matched pair's
/// target hashes differ, nothing otherwise.
pub open spec fn left_diff_of(
    lrow: Seq<Seq<char>>,
    right: Seq<Seq<Seq<char>>>,
    kidx: Seq<usize>,
    tidx: Seq<usize>,
    has_targets: bool,
) -> Option<DiffRowV> {
    let ri = row_index_by_key(right, kidx, row_hash_spec(lrow, kidx));
    if ri == -1 {
        Some(
            (DiffRowV { left: Some(lrow), right: None, status: DiffRowStatus::Removed }),
        )
    } else if classify_spec(
        true,
        true,
        row_hash_spec(lrow, tidx),
        row_hash_spec(right[ri], tidx),
        has_targets,
    ) == DiffRowStatus::Modified {
        Some(
            (DiffRowV {
                left: Some(lrow),
                right: Some(right[ri]),
                status: DiffRowStatus::Modified,
            }),
        )
    } else {
        None
    }
}

/// The classified left rows, in left order.
pub open spec fn left_diffs(
    left: Seq<Seq<Seq<char>>>,
    right: Seq<Seq<Seq<char>>>,
    kidx: Seq<usize>,
    tidx: Seq<usize>,
    has_targets: bool,
) -> Seq<DiffRowV>
    decreases left.len(),
{
    if left.len() == 0 {
        Seq::empty()
    } else {
        let rest = left_diffs(left.drop_last(), right, kidx, tidx, has_targets);
        match left_diff_of(left.last(), right, kidx, tidx, has_targets) {
            Some(d) => rest.push(d),
            None => rest,
        }
    }
}

/// The right rows whose keys the left side lacks, as added rows in right
/// order.
pub open spec fn added_diffs(
    left: Seq<Seq<Seq<char>>>,
    right: Seq<Seq<Seq<char>>>,
    kidx: Seq<usize>,
) -> Seq<DiffRowV>
    decreases right.len(),
{
    if right.len() == 0 {
        Seq::empty()
    } else {
        let rest = added_diffs(left, right.drop_last(), kidx);
        if row_index_by_key(left, kidx, row_hash_spec(right.last(), kidx)) == -1 {
            rest.push(
                (DiffRowV {
                    left: None,
                    right: Some(right.last()),
                    status: DiffRowStatus::Added,
                }),
            )
        } else {
            rest
        }
    }
}

/// The rows of the tabular diff: every left row classified against the
/// right side, then every right-only row as added.  This names the
/// content; the function returns it sorted by the key columns.
pub open spec fn tabular_diff_spec(
    left: Seq<Seq<Seq<char>>>,
    right: Seq<Seq<Seq<char>>>,
    kidx: Seq<usize>,
    tidx: Seq<usize>,
    has_targets: bool,
) -> Seq<DiffRowV> {
    left_diffs(left, right, kidx, tidx, has_targets) + added_diffs(left, right, kidx)
}

// ---------------------------------------------------------------------
// The key order of diff rows
// ---------------------------------------------------------------------
/// Lexicographic order on character sequences by scalar value; a proper
/// prefix comes first.
pub open spec fn chars_le(a: Seq<char>, b: Seq<char>) -> bool
    decreases a.len(),
{
    if a.len() == 0 {
        true
    } else if b.len() == 0 {
        false
    } else if (a.first() as u32) < (b.first() as u32) {
        true
    } else if (a.first() as u32) > (b.first() as u32) {
        false
    } else {
        chars_le(a.drop_first(), b.drop_first())
    }
}

pub proof fn lemma_chars_le_refl(a: Seq<char>)
    ensures
        chars_le(a, a),
    decreases a.len(),
{
    if a.len() > 0 {
        lemma_chars_le_refl(a.drop_first());
    }
}

pub proof fn lemma_chars_le_total(a: Seq<char>, b: Seq<char>)
    ensures
        chars_le(a, b) || chars_le(b, a),
    decreases a.len(),
{
    if a.len() > 0 && b.len() > 0 && (a.first() as u32) == (b.first() as u32) {
        lemma_chars_le_total(a.drop_first(), b.drop_first());
    }
}

pub proof fn lemma_chars_le_antisym(a: Seq<char>, b: Seq<char>)
    requires
        chars_le(a, b),
        chars_le(b, a),
    ensures
        a == b,
    decreases a.len(),
{
    if a.len() == 0 {
        assert(b.len() == 0);
        assert(a =~= b);
    } else {
        assert(b.len() > 0);
        assert((a.first() as u32) == (b.first() as u32));
        crate::codec::lemma_char_injective(a.first(), b.first());
        assert(a.first() == b.first());
        lemma_chars_le_antisym(a.drop_first(), b.drop_first());
        assert forall|i: int| 0 <= i < a.len() implies a[i] == b[i] by {
            if i == 0 {
                assert(a[0] == a.first());
                assert(b[0] == b.first());
            } else {
                assert(a[i] == a.drop_first()[i - 1]);
                assert(b[i] == b.drop_first()[i - 1]);
            }
        }
        assert(a =~= b);
    }
}

pub proof fn lemma_chars_le_trans(a: Seq<char>, b: Seq<char>, c: Seq<char>)
    requires
        chars_le(a, b),
        chars_le(b, c),
    ensures
        chars_le(a, c),
    decreases a.len(),
{
    if a.len() > 0 {
        assert(b.len() > 0);
        assert(c.len() > 0);
        if (a.first() as u32) == (b.first() as u32) && (b.first() as u32) == (
        c.first() as u32) {
            lemma_chars_le_trans(a.drop_first(), b.drop_first(), c.drop_first());
        }
    }
}

/// The cell of a row at a column index; missing cells read as empty, as
/// in `row_concat`.
pub open spec fn key_cell(row: Seq<Seq<char>>, idx: usize) -> Seq<char> {
    if (idx as int) < row.len() {
        row[idx as int]
    } else {
        Seq::empty()
    }
}

/// Lexicographic order of two rows over the key columns, first column
/// most significant.
pub open spec fn row_key_le(a: Seq<Seq<char>>, b: Seq<Seq<char>>, kidx: Seq<usize>) -> bool
    decreases kidx.len(),
{
    if kidx.len() == 0 {
        true
    } else {
        let ca = key_cell(a, kidx.first());
        let cb = key_cell(b, kidx.first());
        if ca == cb {
            row_key_le(a, b, kidx.drop_first())
        } else {
            chars_le(ca, cb)
        }
    }
}

pub proof fn lemma_row_key_le_refl(a: Seq<Seq<char>>, kidx: Seq<usize>)
    ensures
        row_key_le(a, a, kidx),
    decreases kidx.len(),
{
    if kidx.len() > 0 {
        lemma_row_key_le_refl(a, kidx.drop_first());
    }
}

pub proof fn lemma_row_key_le_total(a: Seq<Seq<char>>, b: Seq<Seq<char>>, kidx: Seq<usize>)
    ensures
        row_key_le(a, b, kidx) || row_key_le(b, a, kidx),
    decreases kidx.len(),
{
    if kidx.len() > 0 {
        let ca = key_cell(a, kidx.first());
        let cb = key_cell(b, kidx.first());
        if ca == cb {
            lemma_row_key_le_total(a, b, kidx.drop_first());
        } else {
            lemma_chars_le_total(ca, cb);
        }
    }
}

pub proof fn lemma_row_key_le_trans(
    a: Seq<Seq<char>>,
    b: Seq<Seq<char>>,
    c: Seq<Seq<char>>,
    kidx: Seq<usize>,
)
    requires
        row_key_le(a, b, kidx),
        row_key_le(b, c, kidx),
    ensures
        row_key_le(a, c, kidx),
    decreases kidx.len(),
{
    if kidx.len() > 0 {
        let ca = key_cell(a, kidx.first());
        let cb = key_cell(b, kidx.first());
        let cc = key_cell(c, kidx.first());
        if ca == cb && cb == cc {
            lemma_row_key_le_trans(a, b, c, kidx.drop_first());
        } else if ca != cb && cb != cc {
            if ca == cc {
                lemma_chars_le_antisym(ca, cb);
            }
            lemma_chars_le_trans(ca, cb, cc);
        }
    }
}

/// The key cells a diff row is ordered by, coalesced from the right
/// value over the left, as the output columns are.
pub open spec fn diff_key(d: DiffRowV) -> Seq<Seq<char>> {
    match d.right {
        Some(r) => r,
        None => match d.left {
            Some(r) => r,
            None => Seq::empty(),
        },
    }
}

pub open spec fn diff_le(a: DiffRowV, b: DiffRowV, kidx: Seq<usize>) -> bool {
    row_key_le(diff_key(a), diff_key(b), kidx)
}

/// Ascending by the key columns.
pub open spec fn diffs_sorted(s: Seq<DiffRowV>, kidx: Seq<usize>) -> bool {
    forall|i: int, j: int|
        0 <= i < j < s.len() ==> diff_le(#[trigger] s[i], #[trigger] s[j], kidx)
}

/// A diff row always carries at least one side.
pub open spec fn side_present(d: DiffRow) -> bool {
    d.left is Some || d.right is Some
}

fn chars_le_exec(a: &str, b: &str) -> (r: bool)
    ensures
        r == chars_le(a@, b@),
{
    let an: usize = a.unicode_len();
    let bn: usize = b.unicode_len();
    proof {
        assert(a@.skip(0) =~= a@);
        assert(b@.skip(0) =~= b@);
    }
    let mut i: usize = 0;
    while i < an && i < bn
        invariant
            0 <= i <= an,
            i <= bn,
            an == a@.len(),
            bn == b@.len(),
            chars_le(a@, b@) == chars_le(a@.skip(i as int), b@.skip(i as int)),
        decreases an - i,
    {
        let ca: char = a.get_char(i);
        let cb: char = b.get_char(i);
        proof {
            let sa = a@.skip(i as int);
            let sb = b@.skip(i as int);
            assert(sa.first() == a@[i as int]);
            assert(sb.first() == b@[i as int]);
            assert(sa.drop_first() =~= a@.skip(i as int + 1));
            assert(sb.drop_first() =~= b@.skip(i as int + 1));
        }
        if (ca as u32) < (cb as u32) {
            return true;
        }
        if (ca as u32) > (cb as u32) {
            return false;
        }
        i = i + 1;
    }
    proof {
        if i >= an {
            assert(a@.skip(i as int).len() == 0);
        } else {
            assert(b@.skip(i as int).len() == 0);
            assert(a@.skip(i as int).len() > 0);
        }
    }
    i >= an
}

fn row_key_le_exec(a: &DataRow, b: &DataRow, kidx: &Vec<usize>) -> (r: bool)
    ensures
        r == row_key_le(a@, b@, kidx@),
{
    let ghost kv = kidx@;
    proof {
        assert(kv.skip(0) =~= kv);
    }
    let mut i: usize = 0;
    while i < kidx.len()
        invariant
            0 <= i <= kidx@.len(),
            kv == kidx@,
            row_key_le(a@, b@, kv) == row_key_le(a@, b@, kv.skip(i as int)),
        decreases kidx@.len() - i,
    {
        proof {
            let sk = kv.skip(i as int);
            assert(sk.first() == kv[i as int]);
            assert(sk.drop_first() =~= kv.skip(i as int + 1));
        }
        let idx = kidx[i];
        let ca: &str = if idx < a.cells.len() {
            a.cells[idx].as_str()
        } else {
            ""
        };
        let cb: &str = if idx < b.cells.len() {
            b.cells[idx].as_str()
        } else {
            ""
        };
        proof {
            reveal_strlit("");
            assert(""@ =~= Seq::<char>::empty());
            assert(ca@ == key_cell(a@, kv[i as int]));
            assert(cb@ == key_cell(b@, kv[i as int]));
        }
        if crate::data_type::str_eq(ca, cb) {
            i = i + 1;
        } else {
            return chars_le_exec(ca, cb);
        }
    }
    proof {
        assert(kv.skip(kv.len() as int).len() == 0);
    }
    true
}

fn diff_le_exec(a: &DiffRow, b: &DiffRow, kidx: &Vec<usize>) -> (r: bool)
    requires
        side_present(*a),
        side_present(*b),
    ensures
        r == diff_le(a@, b@, kidx@),
{
    let ka: &DataRow = match &a.right {
        Some(r) => r,
        None => a.left.as_ref().unwrap(),
    };
    let kb: &DataRow = match &b.right {
        Some(r) => r,
        None => b.left.as_ref().unwrap(),
    };
    proof {
        assert(ka@ == diff_key(a@));
        assert(kb@ == diff_key(b@));
    }
    row_key_le_exec(ka, kb, kidx)
}

/// Sort diff rows ascending by the key columns: the result holds exactly
/// the given rows, in key order.
fn sort_diff_rows(rows: Vec<DiffRow>, kidx: &Vec<usize>) -> (r: Vec<DiffRow>)
    requires
        forall|k: int| 0 <= k < rows@.len() ==> side_present(#[trigger] rows@[k]),
    ensures
        r.deep_view().to_multiset() == rows.deep_view().to_multiset(),
        diffs_sorted(r.deep_view(), kidx@),
        r@.len() == rows@.len(),
        forall|k: int| 0 <= k < r@.len() ==> rows@.contains(#[trigger] r@[k]),
{
    let ghost origv = rows@;
    let ghost origd = rows.deep_view();
    let mut rest = rows;
    let mut out: Vec<DiffRow> = Vec::new();
    proof {
        broadcast use vstd::seq_lib::group_to_multiset_ensures;

        assert(out.deep_view() =~= Seq::<DiffRowV>::empty());
        assert(out.deep_view().to_multiset().add(rest.deep_view().to_multiset())
            =~= origd.to_multiset());
    }
    while rest.len() > 0
        invariant
            out@.len() + rest@.len() == origv.len(),
            out.deep_view().len() == out@.len(),
            rest.deep_view().len() == rest@.len(),
            forall|k: int| 0 <= k < rest@.len() ==> side_present(#[trigger] rest@[k]),
            forall|k: int| 0 <= k < out@.len() ==> origv.contains(#[trigger] out@[k]),
            forall|k: int| 0 <= k < rest@.len() ==> origv.contains(#[trigger] rest@[k]),
            out.deep_view().to_multiset().add(rest.deep_view().to_multiset())
                == origd.to_multiset(),
            diffs_sorted(out.deep_view(), kidx@),
            forall|i: int, k: int|
                0 <= i < out.deep_view().len() && 0 <= k < rest.deep_view().len() ==> diff_le(
                    #[trigger] out.deep_view()[i],
                    #[trigger] rest.deep_view()[k],
                    kidx@,
                ),
        decreases rest@.len(),
    {
        let ghost restd = rest.deep_view();
        let mut m: usize = 0;
        let mut k: usize = 1;
        proof {
            lemma_row_key_le_refl(diff_key(restd[0]), kidx@);
        }
        while k < rest.len()
            invariant
                0 < rest@.len(),
                restd == rest.deep_view(),
                restd.len() == rest@.len(),
                0 <= (m as int) < rest@.len(),
                m < k,
                1 <= k <= rest@.len(),
                forall|k2: int| 0 <= k2 < rest@.len() ==> side_present(#[trigger] rest@[k2]),
                forall|k2: int|
                    0 <= k2 < k ==> diff_le(restd[m as int], #[trigger] restd[k2], kidx@),
            decreases rest@.len() - k,
        {
            if !diff_le_exec(&rest[m], &rest[k], kidx) {
                proof {
                    lemma_row_key_le_total(
                        diff_key(restd[m as int]),
                        diff_key(restd[k as int]),
                        kidx@,
                    );
                    assert(diff_le(restd[k as int], restd[m as int], kidx@));
                    assert forall|k2: int| 0 <= k2 < k + 1 implies diff_le(
                        restd[k as int],
                        #[trigger] restd[k2],
                        kidx@,
                    ) by {
                        if k2 < k {
                            lemma_row_key_le_trans(
                                diff_key(restd[k as int]),
                                diff_key(restd[m as int]),
                                diff_key(restd[k2]),
                                kidx@,
                            );
                        } else {
                            lemma_row_key_le_refl(diff_key(restd[k as int]), kidx@);
                        }
                    }
                }
                m = k;
            } else {
                proof {
                    assert forall|k2: int| 0 <= k2 < k + 1 implies diff_le(
                        restd[m as int],
                        #[trigger] restd[k2],
                        kidx@,
                    ) by {}
                }
            }
            k = k + 1;
        }
        let ghost outd0 = out.deep_view();
        let ghost outv0 = out@;
        let ghost restv0 = rest@;
        let x = rest.remove(m);
        let ghost xv = x@;
        out.push(x);
        proof {
            broadcast use vstd::seq_lib::group_to_multiset_ensures;

            assert(rest.deep_view() =~= restd.remove(m as int));
            assert(out.deep_view() =~= outd0.push(xv));
            assert(xv == restd[m as int]);
            assert(restd.to_multiset().contains(xv));
            assert(out.deep_view().to_multiset() =~= outd0.to_multiset().insert(xv));
            assert(rest.deep_view().to_multiset() =~= restd.to_multiset().remove(xv));
            assert(out.deep_view().to_multiset().add(rest.deep_view().to_multiset())
                =~= origd.to_multiset());
            assert forall|k2: int|
                0 <= k2 < rest@.len() implies side_present(#[trigger] rest@[k2]) by {
                let k0: int = if k2 < m { k2 } else { k2 + 1 };
                assert(rest@[k2] == restv0[k0]);
            }
            assert forall|k2: int| 0 <= k2 < out@.len() implies origv.contains(
                #[trigger] out@[k2],
            ) by {
                if k2 < outv0.len() {
                    assert(out@[k2] == outv0[k2]);
                } else {
                    assert(out@[k2] == restv0[m as int]);
                }
            }
            assert forall|k2: int| 0 <= k2 < rest@.len() implies origv.contains(
                #[trigger] rest@[k2],
            ) by {
                let k0: int = if k2 < m { k2 } else { k2 + 1 };
                assert(rest@[k2] == restv0[k0]);
            }
            assert forall|i: int, j: int|
                0 <= i < j < out.deep_view().len() implies diff_le(
                #[trigger] out.deep_view()[i],
                #[trigger] out.deep_view()[j],
                kidx@,
            ) by {
                if j < outd0.len() {
                    assert(out.deep_view()[i] == outd0[i]);
                    assert(out.deep_view()[j] == outd0[j]);
                } else {
                    assert(out.deep_view()[i] == outd0[i]);
                    assert(out.deep_view()[j] == xv);
                    assert(diff_le(outd0[i], restd[m as int], kidx@));
                }
            }
            assert forall|i: int, k2: int|
                0 <= i < out.deep_view().len() && 0 <= k2 < rest.deep_view().len()
                implies diff_le(
                #[trigger] out.deep_view()[i],
                #[trigger] rest.deep_view()[k2],
                kidx@,
            ) by {
                let k0: int = if k2 < m { k2 } else { k2 + 1 };
                assert(rest.deep_view()[k2] == restd[k0]);
                if i < outd0.len() {
                    assert(out.deep_view()[i] == outd0[i]);
                    assert(diff_le(outd0[i], restd[k0], kidx@));
                } else {
                    assert(out.deep_view()[i] == xv);
                    assert(diff_le(restd[m as int], restd[k0], kidx@));
                }
            }
        }
    }
    proof {
        assert(rest.deep_view() =~= Seq::<DiffRowV>::empty());
        assert(rest.deep_view().to_multiset() =~= Multiset::<DiffRowV>::empty());
        assert(out.deep_view().to_multiset() =~= out.deep_view().to_multiset().add(
            rest.deep_view().to_multiset(),
        ));
    }
    out
}

/// The row-level diff of two dataframes over key and target column
/// indices: exactly the rows of `tabular_diff_spec`, sorted ascending by
/// the key columns, and each produced row is sound for the two sides.
#[verifier::rlimit(100)]
pub fn tabular_diff(
    left: &Vec<DataRow>,
    right: &Vec<DataRow>,
    kidx: &Vec<usize>,
    tidx: &Vec<usize>,
) -> (r: Vec<DiffRow>)
    ensures
        r.deep_view().to_multiset() == tabular_diff_spec(
            left.deep_view(),
            right.deep_view(),
            kidx@,
            tidx@,
            tidx@.len() > 0,
        ).to_multiset(),
        diffs_sorted(r.deep_view(), kidx@),
        forall|k: int|
            0 <= k < r@.len() ==> diff_row_sound(
                #[trigger] r@[k],
                left.deep_view(),
                right.deep_view(),
                kidx@,
                tidx@,
                tidx@.len() > 0,
            ),
{
    let ghost lv = left.deep_view();
    let ghost rv = right.deep_view();
    let has_targets = tidx.len() > 0;
    let mut out: Vec<DiffRow> = Vec::new();
    let mut i: usize = 0;
    while i < left.len()
        invariant
            0 <= i <= left@.len(),
            lv == left.deep_view(),
            rv == right.deep_view(),
            lv.len() == left@.len(),
            has_targets == (tidx@.len() > 0),
            out.deep_view() =~= left_diffs(
                lv.subrange(0, i as int),
                rv,
                kidx@,
                tidx@,
                has_targets,
            ),
            forall|k: int|
                0 <= k < out@.len() ==> diff_row_sound(
                    #[trigger] out@[k],
                    left.deep_view(),
                    right.deep_view(),
                    kidx@,
                    tidx@,
                    has_targets,
                ),
        decreases left@.len() - i,
    {
        let lrow = &left[i];
        let key = row_hash(lrow, kidx);
        let ghost outv0 = out@;
        let ghost outd0 = out.deep_view();
        let status = match find_row_by_key(right, kidx, key.as_str()) {
            Some(ri) => {
                let tl = row_hash(lrow, tidx);
                let tr = row_hash(&right[ri], tidx);
                let s = classify_row(true, true, tl.as_str(), tr.as_str(), has_targets);
                match s {
                    DiffRowStatus::Modified => {
                        proof {
                            lemma_row_index_props(right.deep_view(), kidx@, key@);
                            assert(row_hash_spec(right.deep_view()[ri as int], kidx@)
                                == row_hash_spec(lrow@, kidx@));
                        }
                        Some(
                            DiffRow {
                                left: Some(lrow.clone()),
                                right: Some(right[ri].clone()),
                                status: DiffRowStatus::Modified,
                            },
                        )
                    },
                    _ => None,
                }
            },
            None => Some(
                DiffRow { left: Some(lrow.clone()), right: None, status: DiffRowStatus::Removed },
            ),
        };
        proof {
            assert(lrow.deep_view() == lv[i as int]);
        }
        match status {
            Some(d) => {
                let ghost dv = d;
                out.push(d);
                proof {
                    assert(out@ =~= outv0.push(dv));
                    assert(out.deep_view() =~= outd0.push(dv@));
                    assert(left_diff_of(lv[i as int], rv, kidx@, tidx@, has_targets) == Some(
                        dv@,
                    ));
                    assert(diff_row_sound(
                        dv,
                        left.deep_view(),
                        right.deep_view(),
                        kidx@,
                        tidx@,
                        has_targets,
                    ));
                    assert forall|k: int| 0 <= k < out@.len() implies diff_row_sound(
                        #[trigger] out@[k],
                        left.deep_view(),
                        right.deep_view(),
                        kidx@,
                        tidx@,
                        has_targets,
                    ) by {
                        if k < outv0.len() {
                            assert(out@[k] == outv0[k]);
                        }
                    }
                }
            },
            None => {
                proof {
                    assert(left_diff_of(lv[i as int], rv, kidx@, tidx@, has_targets)
                        is None);
                }
            },
        }
        proof {
            assert(lv.subrange(0, i as int + 1).drop_last() =~= lv.subrange(0, i as int));
            assert(lv.subrange(0, i as int + 1).last() == lv[i as int]);
            assert(out.deep_view() =~= left_diffs(
                lv.subrange(0, i as int + 1),
                rv,
                kidx@,
                tidx@,
                has_targets,
            ));
        }
        i = i + 1;
    }
    proof {
        assert(lv.subrange(0, lv.len() as int) =~= lv);
    }
    let ghost lpart = left_diffs(lv, rv, kidx@, tidx@, has_targets);
    let mut j: usize = 0;
    while j < right.len()
        invariant
            0 <= j <= right@.len(),
            lv == left.deep_view(),
            rv == right.deep_view(),
            rv.len() == right@.len(),
            has_targets == (tidx@.len() > 0),
            lpart == left_diffs(lv, rv, kidx@, tidx@, has_targets),
            out.deep_view() =~= lpart + added_diffs(lv, rv.subrange(0, j as int), kidx@),
            forall|k: int|
                0 <= k < out@.len() ==> diff_row_sound(
                    #[trigger] out@[k],
                    left.deep_view(),
                    right.deep_view(),
                    kidx@,
                    tidx@,
                    has_targets,
                ),
        decreases right@.len() - j,
    {
        let rrow = &right[j];
        let key = row_hash(rrow, kidx);
        let ghost outv0 = out@;
        let ghost outd0 = out.deep_view();
        match find_row_by_key(left, kidx, key.as_str()) {
            Some(_) => {},
            None => {
                let d = DiffRow {
                    left: None,
                    right: Some(rrow.clone()),
                    status: DiffRowStatus::Added,
                };
                let ghost dv = d;
                out.push(d);
                proof {
                    assert(out@ =~= outv0.push(dv));
                    assert(out.deep_view() =~= outd0.push(dv@));
                    assert(diff_row_sound(
                        dv,
                        left.deep_view(),
                        right.deep_view(),
                        kidx@,
                        tidx@,
                        has_targets,
                    ));
                    assert forall|k: int| 0 <= k < out@.len() implies diff_row_sound(
                        #[trigger] out@[k],
                        left.deep_view(),
                        right.deep_view(),
                        kidx@,
                        tidx@,
                        has_targets,
                    ) by {
                        if k < outv0.len() {
                            assert(out@[k] == outv0[k]);
                        }
                    }
                }
            },
        }
        proof {
            assert(rrow.deep_view() == rv[j as int]);
            assert(rv.subrange(0, j as int + 1).drop_last() =~= rv.subrange(0, j as int));
            assert(rv.subrange(0, j as int + 1).last() == rv[j as int]);
            assert(out.deep_view() =~= lpart + added_diffs(
                lv,
                rv.subrange(0, j as int + 1),
                kidx@,
            ));
        }
        j = j + 1;
    }
    proof {
        assert(rv.subrange(0, rv.len() as int) =~= rv);
        assert(out.deep_view() =~= tabular_diff_spec(lv, rv, kidx@, tidx@, has_targets));
        assert forall|k: int| 0 <= k < out@.len() implies side_present(#[trigger] out@[k]) by {
            assert(diff_row_sound(out@[k], lv, rv, kidx@, tidx@, has_targets));
        }
    }
    let ghost genv = out@;
    let ghost gend = out.deep_view();
    let sorted = sort_diff_rows(out, kidx);
    proof {
        assert forall|k: int| 0 <= k < sorted@.len() implies diff_row_sound(
            #[trigger] sorted@[k],
            lv,
            rv,
            kidx@,
            tidx@,
            has_targets,
        ) by {
            assert(genv.contains(sorted@[k]));
            let j = choose|j: int| 0 <= j < genv.len() && genv[j] == sorted@[k];
            assert(diff_row_sound(genv[j], lv, rv, kidx@, tidx@, has_targets));
        }
    }
    sorted
}

/// What each produced diff row claims, and when the claim is true of the
/// two sides: an added row exists only on the right and its key is absent
/// from the left; a removed row exists only on the left and its key is
/// absent from the right; a modified row pairs rows with equal key hashes
/// and differing target hashes.  Unchanged pairs never appear.
pub open spec fn diff_row_sound(
    d: DiffRow,
    left: Seq<Seq<Seq<char>>>,
    right: Seq<Seq<Seq<char>>>,
    kidx: Seq<usize>,
    tidx: Seq<usize>,
    has_targets: bool,
) -> bool {
    match d.status {
        DiffRowStatus::Added => {
            &&& d.left is None
            &&& d.right matches Some(r) && row_index_by_key(
                left,
                kidx,
                row_hash_spec(r@, kidx),
            ) == -1
        },
        DiffRowStatus::Removed => {
            &&& d.right is None
            &&& d.left matches Some(l) && row_index_by_key(
                right,
                kidx,
                row_hash_spec(l@, kidx),
            ) == -1
        },
        DiffRowStatus::Modified => {
            &&& has_targets
            &&& d.left matches Some(l) && (d.right matches Some(r) && row_hash_spec(l@, kidx)
                == row_hash_spec(r@, kidx) && row_hash_spec(l@, tidx) != row_hash_spec(
                r@,
                tidx,
            ))
        },
        DiffRowStatus::Unchanged => false,
    }
}

/// The output column list of a tabular diff, in order: the key columns,
/// then for each target either `name.left`/`name.right` (present on both
/// sides) or the one side it exists on, then the status column.
pub open spec fn output_columns_spec(
    keys: Seq<Seq<char>>,
    targets: Seq<Seq<char>>,
    added_cols: Seq<Seq<char>>,
    removed_cols: Seq<Seq<char>>,
) -> Seq<Seq<char>>
    decreases targets.len(),
{
    if targets.len() == 0 {
        keys
    } else {
        let rest = output_columns_spec(keys, targets.drop_last(), added_cols, removed_cols);
        let t = targets.last();
        if added_cols.contains(t) {
            rest.push(t + ".right"@)
        } else if removed_cols.contains(t) {
            rest.push(t + ".left"@)
        } else {
            rest.push(t + ".left"@).push(t + ".right"@)
        }
    }
}

/// Build the output column list of a tabular diff.
/// Whether `s` ends with `suf`.
pub open spec fn seq_ends_with(s: Seq<char>, suf: Seq<char>) -> bool {
    suf.len() <= s.len() && s.subrange(s.len() - suf.len(), s.len() as int) == suf
}

/// The display columns a compare keeps: a `.left` column survives when its
/// base name is removed or unchanged, a `.right` column when its base name
/// is added or unchanged.
pub open spec fn display_columns_spec(
    display: Seq<Seq<char>>,
    added_cols: Seq<Seq<char>>,
    removed_cols: Seq<Seq<char>>,
    unchanged_cols: Seq<Seq<char>>,
) -> Seq<Seq<char>>
    decreases display.len(),
{
    if display.len() == 0 {
        Seq::empty()
    } else {
        let rest = display_columns_spec(
            display.drop_last(),
            added_cols,
            removed_cols,
            unchanged_cols,
        );
        let c = display.last();
        let keep_left = seq_ends_with(c, ".left"@) && {
            let base = c.subrange(0, c.len() - 5);
            removed_cols.contains(base) || unchanged_cols.contains(base)
        };
        let keep_right = seq_ends_with(c, ".right"@) && {
            let base = c.subrange(0, c.len() - 6);
            added_cols.contains(base) || unchanged_cols.contains(base)
        };
        if keep_left || keep_right {
            rest.push(c)
        } else {
            rest
        }
    }
}

/// Whether `s` ends with `suf`.
fn str_ends_with(s: &str, suf: &str) -> (r: bool)
    ensures
        r == seq_ends_with(s@, suf@),
{
    let n: usize = s.unicode_len();
    let m: usize = suf.unicode_len();
    if m > n {
        return false;
    }
    let mut i: usize = 0;
    while i < m
        invariant
            0 <= i <= m,
            m <= n,
            n == s@.len(),
            m == suf@.len(),
            forall|k: int| 0 <= k < i ==> s@[n - m + k] == suf@[k],
        decreases m - i,
    {
        let a: char = s.get_char(n - m + i);
        let b: char = suf.get_char(i);
        if a as u32 != b as u32 {
            proof {
                if s@.subrange(n as int - m as int, n as int) == suf@ {
                    assert(s@.subrange(n as int - m as int, n as int)[i as int]
                        == s@[n - m + i]);
                }
            }
            return false;
        }
        i = i + 1;
    }
    proof {
        assert(s@.subrange(n as int - m as int, n as int) =~= suf@);
    }
    true
}

/// The first `keep` characters of `s`.
fn str_prefix(s: &str, keep: usize) -> (r: String)
    requires
        keep <= s@.len(),
    ensures
        r@ == s@.subrange(0, keep as int),
{
    let mut out = String::new();
    let mut i: usize = 0;
    while i < keep
        invariant
            0 <= i <= keep,
            keep <= s@.len(),
            out@ =~= s@.subrange(0, i as int),
        decreases keep - i,
    {
        let c = s.get_char(i);
        let cs = crate::codec::char_to_string(c);
        out.append(cs.as_str());
        proof {
            assert(out@ =~= s@.subrange(0, i as int + 1));
        }
        i = i + 1;
    }
    out
}

/// Refuse a compare that names target columns without any key column.
pub fn validate_compare_columns(keys: &Vec<String>, targets: &Vec<String>) -> (r: Result<
    (),
    OxenError,
>)
    ensures
        r is Ok <==> (targets@.len() == 0 || keys@.len() > 0),
        r matches Err(e) ==> e == OxenError::Invalid,
{
    if targets.len() > 0 && keys.len() == 0 {
        Err(OxenError::Invalid)
    } else {
        Ok(())
    }
}

/// Keep the display columns whose named side exists after the schema diff.
pub fn filter_display_columns(
    display: &Vec<String>,
    added_cols: &Vec<String>,
    removed_cols: &Vec<String>,
    unchanged_cols: &Vec<String>,
) -> (r: Vec<String>)
    ensures
        r.deep_view() == display_columns_spec(
            display.deep_view(),
            added_cols.deep_view(),
            removed_cols.deep_view(),
            unchanged_cols.deep_view(),
        ),
{
    let ghost dv = display.deep_view();
    let ghost av = added_cols.deep_view();
    let ghost rv = removed_cols.deep_view();
    let ghost uv = unchanged_cols.deep_view();
    let mut out: Vec<String> = Vec::new();
    let mut i: usize = 0;
    while i < display.len()
        invariant
            0 <= i <= display@.len(),
            dv == display.deep_view(),
            av == added_cols.deep_view(),
            rv == removed_cols.deep_view(),
            uv == unchanged_cols.deep_view(),
            dv.len() == display@.len(),
            out.deep_view() =~= display_columns_spec(dv.subrange(0, i as int), av, rv, uv),
        decreases display@.len() - i,
    {
        proof {
            let pre = dv.subrange(0, i as int);
            let post = dv.subrange(0, i as int + 1);
            assert(post.drop_last() =~= pre);
            assert(post.last() == dv[i as int]);
        }
        let c = &display[i];
        let n: usize = c.as_str().unicode_len();
        let mut keep = false;
        if str_ends_with(c.as_str(), ".left") {
            proof {
                reveal_strlit(".left");
            }
            let base = str_prefix(c.as_str(), n - 5);
            if contains_string(removed_cols, base.as_str()) || contains_string(
                unchanged_cols,
                base.as_str(),
            ) {
                keep = true;
            }
        }
        if str_ends_with(c.as_str(), ".right") {
            proof {
                reveal_strlit(".right");
            }
            let base = str_prefix(c.as_str(), n - 6);
            if contains_string(added_cols, base.as_str()) || contains_string(
                unchanged_cols,
                base.as_str(),
            ) {
                keep = true;
            }
        }
        if keep {
            let ghost prev = out.deep_view();
            out.push(c.clone());
            proof {
                assert(out.deep_view() =~= prev.push(dv[i as int]));
            }
        }
        proof {
            assert(out.deep_view() =~= display_columns_spec(
                dv.subrange(0, i as int + 1),
                av,
                rv,
                uv,
            ));
        }
        i = i + 1;
    }
    proof {
        assert(dv.subrange(0, dv.len() as int) =~= dv);
    }
    out
}

pub fn get_output_columns(
    keys: &Vec<String>,
    targets: &Vec<String>,
    display: &Vec<String>,
    added_cols: &Vec<String>,
    removed_cols: &Vec<String>,
    unchanged_cols: &Vec<String>,
) -> (r: Vec<String>)
    ensures
        r.deep_view() == output_columns_spec(
            keys.deep_view(),
            targets.deep_view(),
            added_cols.deep_view(),
            removed_cols.deep_view(),
        ) + display_columns_spec(
            display.deep_view(),
            added_cols.deep_view(),
            removed_cols.deep_view(),
            unchanged_cols.deep_view(),
        ) + seq![".oxen.diff.status"@],
{
    let mut out = crate::repository::clone_string_vec(keys);
    let ghost kv = keys.deep_view();
    let ghost tv = targets.deep_view();
    let ghost av = added_cols.deep_view();
    let ghost rv = removed_cols.deep_view();
    let mut i: usize = 0;
    while i < targets.len()
        invariant
            0 <= i <= targets@.len(),
            kv == keys.deep_view(),
            tv == targets.deep_view(),
            av == added_cols.deep_view(),
            rv == removed_cols.deep_view(),
            tv.len() == targets@.len(),
            out.deep_view() =~= output_columns_spec(kv, tv.subrange(0, i as int), av, rv),
        decreases targets@.len() - i,
    {
        proof {
            let pre = tv.subrange(0, i as int);
            let post = tv.subrange(0, i as int + 1);
            assert(post.drop_last() =~= pre);
            assert(post.last() == tv[i as int]);
        }
        let t = &targets[i];
        let in_added = contains_string(added_cols, t.as_str());
        let in_removed = contains_string(removed_cols, t.as_str());
        if in_added {
            let mut name = t.clone();
            name.append(".right");
            let ghost prev = out.deep_view();
            out.push(name);
            proof {
                assert(out.deep_view() =~= prev.push(tv[i as int] + ".right"@));
            }
        } else if in_removed {
            let mut name = t.clone();
            name.append(".left");
            let ghost prev = out.deep_view();
            out.push(name);
            proof {
                assert(out.deep_view() =~= prev.push(tv[i as int] + ".left"@));
            }
        } else {
            let mut lname = t.clone();
            lname.append(".left");
            let mut rname = t.clone();
            rname.append(".right");
            let ghost prev = out.deep_view();
            out.push(lname);
            out.push(rname);
            proof {
                assert(out.deep_view() =~= prev.push(tv[i as int] + ".left"@).push(
                    tv[i as int] + ".right"@,
                ));
            }
        }
        proof {
            assert(out.deep_view() =~= output_columns_spec(
                kv,
                tv.subrange(0, i as int + 1),
                av,
                rv,
            ));
        }
        i = i + 1;
    }
    proof {
        assert(tv.subrange(0, tv.len() as int) =~= tv);
    }
    let ghost ocs = output_columns_spec(kv, tv, av, rv);
    let disp = filter_display_columns(display, added_cols, removed_cols, unchanged_cols);
    let ghost dcs = disp.deep_view();
    let mut d: usize = 0;
    while d < disp.len()
        invariant
            0 <= d <= disp@.len(),
            dcs == disp.deep_view(),
            dcs.len() == disp@.len(),
            out.deep_view() =~= ocs + dcs.subrange(0, d as int),
        decreases disp@.len() - d,
    {
        let ghost prev = out.deep_view();
        out.push(disp[d].clone());
        proof {
            assert(out.deep_view() =~= prev.push(dcs[d as int]));
            assert(ocs + dcs.subrange(0, d as int + 1) =~= (ocs + dcs.subrange(
                0,
                d as int,
            )).push(dcs[d as int]));
        }
        d = d + 1;
    }
    proof {
        assert(dcs.subrange(0, dcs.len() as int) =~= dcs);
    }
    out.push(String::from_str(".oxen.diff.status"));
    proof {
        assert(out.deep_view() =~= ocs + display_columns_spec(
            display.deep_view(),
            av,
            rv,
            unchanged_cols.deep_view(),
        ) + seq![".oxen.diff.status"@]);
    }
    out
}

/// Whether a string list holds a string.
fn contains_string(items: &Vec<String>, s: &str) -> (r: bool)
    ensures
        r == items.deep_view().contains(s@),
{
    let ghost dv = items.deep_view();
    let mut i: usize = 0;
    while i < items.len()
        invariant
            0 <= i <= items@.len(),
            dv == items.deep_view(),
            dv.len() == items@.len(),
            forall|k: int| 0 <= k < i ==> dv[k] != s@,
        decreases items@.len() - i,
    {
        if crate::data_type::str_eq(items[i].as_str(), s) {
            proof {
                assert(dv[i as int] == s@);
            }
            return true;
        }
        i = i + 1;
    }
    proof {
        if dv.contains(s@) {
            let k = choose|k: int| 0 <= k < dv.len() && dv[k] == s@;
            assert(dv[k] != s@);
        }
    }
    false
}

} // verus!

verus! {

/// The field names and values a JSON object holds, in the parser's
/// (key-sorted) order.  What they are for given characters only the JSON
/// parser decides.
pub uninterp spec fn json_fields_of(s: Seq<char>) -> Option<(Seq<Seq<char>>, Seq<Seq<char>>)>;

/// Relies on serde_json::from_str and Value::as_object: parses a JSON
/// object into its field names and rendered values; the result depends on
/// the input characters alone.
#[verifier::external_body]
fn parse_json_row(s: &str) -> (r: Option<(Vec<String>, Vec<String>)>)
    ensures
        match r {
            Some(nv) => json_fields_of(s@) == Some((nv.0.deep_view(), nv.1.deep_view())),
            None => json_fields_of(s@) is None,
        },
{
    let value: serde_json::Value = serde_json::from_str(s).ok()?;
    let obj = value.as_object()?;
    let mut names: Vec<String> = Vec::new();
    let mut values: Vec<String> = Vec::new();
    for (k, v) in obj.iter() {
        names.push(k.clone());
        values.push(match v {
            serde_json::Value::String(x) => x.clone(),
            other => other.to_string(),
        });
    }
    Some((names, values))
}

/// Relies on uuid::Uuid::new_v4: a fresh random identifier whose
/// hyphenated form is 36 characters.  Nothing else is promised of it.
#[verifier::external_body]
fn fresh_uuid() -> (r: String)
    ensures
        r@.len() == 36,
{
    uuid::Uuid::new_v4().to_string()
}

/// The index of the first name equal to `n`, or -1.
pub open spec fn name_index_of(names: Seq<Seq<char>>, n: Seq<char>) -> int
    decreases names.len(),
{
    if names.len() == 0 {
        -1
    } else if names[0] == n {
        0
    } else {
        let rest = name_index_of(names.drop_first(), n);
        if rest == -1 {
            -1
        } else {
            rest + 1
        }
    }
}

proof fn lemma_name_index_of(names: Seq<Seq<char>>, n: Seq<char>)
    ensures
        -1 <= name_index_of(names, n) < names.len(),
        name_index_of(names, n) >= 0 ==> names[name_index_of(names, n)] == n,
        name_index_of(names, n) == -1 ==> forall|i: int|
            0 <= i < names.len() ==> names[i] != n,
        name_index_of(names, n) >= 0 ==> forall|i: int|
            0 <= i < name_index_of(names, n) ==> names[i] != n,
    decreases names.len(),
{
    if names.len() > 0 && names[0] != n {
        lemma_name_index_of(names.drop_first(), n);
        assert(forall|i: int| 1 <= i < names.len() ==> names[i] == names.drop_first()[i - 1]);
    }
}

/// The row a set of JSON fields denotes over the given columns: each
/// column takes the first matching field's value, or stays as in `base`.
pub open spec fn patched_row(
    columns: Seq<Seq<char>>,
    base: Seq<Seq<char>>,
    names: Seq<Seq<char>>,
    values: Seq<Seq<char>>,
) -> Seq<Seq<char>> {
    Seq::new(
        columns.len(),
        |i: int|
            {
                let ni = name_index_of(names, columns[i]);
                if 0 <= ni < values.len() {
                    values[ni]
                } else if i < base.len() {
                    base[i]
                } else {
                    Seq::empty()
                }
            },
    )
}

/// Build a row over `columns` from parsed fields, patching `base`.
fn build_row(
    columns: &Vec<String>,
    base: &Vec<String>,
    names: &Vec<String>,
    values: &Vec<String>,
) -> (r: DataRow)
    ensures
        r@ == patched_row(
            columns.deep_view(),
            base.deep_view(),
            names.deep_view(),
            values.deep_view(),
        ),
{
    let ghost cols = columns.deep_view();
    let ghost basev = base.deep_view();
    let ghost namesv = names.deep_view();
    let ghost valuesv = values.deep_view();
    let mut cells: Vec<String> = Vec::new();
    let mut i: usize = 0;
    while i < columns.len()
        invariant
            0 <= i <= columns@.len(),
            cols == columns.deep_view(),
            basev == base.deep_view(),
            namesv == names.deep_view(),
            valuesv == values.deep_view(),
            cols.len() == columns@.len(),
            cells.deep_view() =~= patched_row(cols, basev, namesv, valuesv).subrange(
                0,
                i as int,
            ),
        decreases columns@.len() - i,
    {
        proof {
            lemma_name_index_of(namesv, cols[i as int]);
        }
        let mut cell: Option<String> = None;
        let mut k: usize = 0;
        while k < names.len()
            invariant
                0 <= k <= names@.len(),
                namesv == names.deep_view(),
                valuesv == values.deep_view(),
                namesv.len() == names@.len(),
                cols == columns.deep_view(),
                cols.len() == columns@.len(),
                i < cols.len(),
                match cell {
                    Some(c) => {
                        &&& name_index_of(namesv, cols[i as int]) >= 0
                        &&& name_index_of(namesv, cols[i as int]) < valuesv.len()
                        &&& c@ == valuesv[name_index_of(namesv, cols[i as int])]
                    },
                    None => forall|m: int|
                        0 <= m < k && m < valuesv.len() ==> namesv[m] != cols[i as int],
                },
            decreases names@.len() - k,
        {
            match cell {
                Some(_) => {},
                None => {
                    if k < values.len() {
                        if crate::data_type::str_eq(names[k].as_str(), columns[i].as_str()) {
                            proof {
                                assert(namesv[k as int] == cols[i as int]);
                                lemma_name_first_hit(namesv, cols[i as int], k as int);
                            }
                            cell = Some(values[k].clone());
                        }
                    }
                },
            }
            k = k + 1;
        }
        let ghost prev = cells.deep_view();
        match cell {
            Some(c) => {
                cells.push(c);
            },
            None => {
                proof {
                    lemma_name_index_of(namesv, cols[i as int]);
                    let ni = name_index_of(namesv, cols[i as int]);
                    if 0 <= ni < valuesv.len() {
                        assert(namesv[ni] != cols[i as int]);
                    }
                }
                if i < base.len() {
                    cells.push(base[i].clone());
                } else {
                    cells.push(String::new());
                }
            },
        }
        proof {
            assert(cells.deep_view() =~= prev.push(
                patched_row(cols, basev, namesv, valuesv)[i as int],
            ));
            assert(cells.deep_view() =~= patched_row(cols, basev, namesv, valuesv).subrange(
                0,
                i as int + 1,
            ));
        }
        i = i + 1;
    }
    proof {
        assert(patched_row(cols, basev, namesv, valuesv).subrange(
            0,
            patched_row(cols, basev, namesv, valuesv).len() as int,
        ) =~= patched_row(cols, basev, namesv, valuesv));
    }
    DataRow { cells }
}

/// A hit after misses is the first hit, provided earlier names with
/// values all missed.
proof fn lemma_name_first_hit(names: Seq<Seq<char>>, n: Seq<char>, i: int)
    requires
        0 <= i < names.len(),
        names[i] == n,
        forall|m: int| 0 <= m < i ==> names[m] != n,
    ensures
        name_index_of(names, n) == i,
    decreases i,
{
    lemma_name_index_of(names, n);
    if names[0] != n {
        lemma_name_first_hit(names.drop_first(), n, i - 1);
        assert(forall|m: int| 1 <= m < names.len() ==> names[m] == names.drop_first()[m - 1]);
    }
}

} // verus!

verus! {

/// One staged row operation.
#[derive(Debug)]
pub enum RowOp {
    Append(DataRow),
    Modify(DataRow),
    Delete,
}

pub ghost enum RowOpV {
    Append(Seq<Seq<char>>),
    Modify(Seq<Seq<char>>),
    Delete,
}

impl View for RowOp {
    type V = RowOpV;

    open spec fn view(&self) -> RowOpV {
        match self {
            RowOp::Append(r) => RowOpV::Append(r@),
            RowOp::Modify(r) => RowOpV::Modify(r@),
            RowOp::Delete => RowOpV::Delete,
        }
    }
}

/// A staged row edit: the row it targets, the edit-session identifier it
/// was given, and the operation.
#[derive(Debug)]
pub struct RowMod {
    pub row_id: u64,
    pub oxen_id: String,
    pub op: RowOp,
}

pub ghost struct RowModV {
    pub row_id: u64,
    pub oxen_id: Seq<char>,
    pub op: RowOpV,
}

impl View for RowMod {
    type V = RowModV;

    open spec fn view(&self) -> RowModV {
        RowModV { row_id: self.row_id, oxen_id: self.oxen_id@, op: self.op@ }
    }
}

impl DeepView for RowMod {
    type V = RowModV;

    open spec fn deep_view(&self) -> RowModV {
        self.view()
    }
}

/// The first staged operation for a row id, or -1.
pub open spec fn mod_index_of(mods: Seq<RowModV>, id: u64) -> int
    decreases mods.len(),
{
    if mods.len() == 0 {
        -1
    } else if mods[0].row_id == id {
        0
    } else {
        let rest = mod_index_of(mods.drop_first(), id);
        if rest == -1 {
            -1
        } else {
            rest + 1
        }
    }
}

pub open spec fn mod_at(mods: Seq<RowModV>, id: u64) -> Option<RowModV> {
    let i = mod_index_of(mods, id);
    if i < 0 {
        None
    } else {
        Some(mods[i])
    }
}

proof fn lemma_mod_index_of(mods: Seq<RowModV>, id: u64)
    ensures
        -1 <= mod_index_of(mods, id) < mods.len(),
        mod_index_of(mods, id) >= 0 ==> mods[mod_index_of(mods, id)].row_id == id,
        mod_index_of(mods, id) == -1 ==> forall|i: int|
            0 <= i < mods.len() ==> (#[trigger] mods[i]).row_id != id,
        mod_index_of(mods, id) >= 0 ==> forall|i: int|
            0 <= i < mod_index_of(mods, id) ==> (#[trigger] mods[i]).row_id != id,
    decreases mods.len(),
{
    if mods.len() > 0 && mods[0].row_id != id {
        lemma_mod_index_of(mods.drop_first(), id);
        assert(forall|i: int| 1 <= i < mods.len() ==> mods[i] == mods.drop_first()[i - 1]);
    }
}

proof fn lemma_mod_push(mods: Seq<RowModV>, x: RowModV, id: u64)
    ensures
        mod_at(mods, id) is Some ==> mod_at(mods.push(x), id) == mod_at(mods, id),
        mod_at(mods, id) is None && x.row_id == id ==> mod_at(mods.push(x), id) == Some(x),
        mod_at(mods, id) is None && x.row_id != id ==> mod_at(mods.push(x), id) is None,
    decreases mods.len(),
{
    if mods.len() == 0 {
        assert(mods.push(x)[0] == x);
        if x.row_id != id {
            assert(mod_index_of(mods.push(x).drop_first(), id) == -1);
        }
    } else {
        lemma_mod_push(mods.drop_first(), x, id);
        assert(mods.push(x).drop_first() =~= mods.drop_first().push(x));
        lemma_mod_index_of(mods, id);
        lemma_mod_index_of(mods.push(x), id);
        lemma_mod_index_of(mods.drop_first(), id);
        lemma_mod_index_of(mods.drop_first().push(x), id);
    }
}

/// A committed dataframe indexed for row-level staged edits by one
/// (branch, user) session.  Base rows carry ids `0..base.len()`; appended
/// rows get fresh ids after those.  At most one staged operation exists
/// per row id.
#[derive(Debug)]
pub struct StagedDataFrame {
    pub columns: Vec<String>,
    pub base: Vec<DataRow>,
    /// The commit the indexed snapshot was taken from.
    pub base_commit_id: String,
    pub mods: Vec<RowMod>,
    pub next_row_id: u64,
}

impl StagedDataFrame {
    /// At most one staged operation per row id, appends only at fresh
    /// ids, modifications and deletions only at base ids.
    pub open spec fn wf(self) -> bool {
        &&& self.base@.len() <= self.next_row_id
        &&& (forall|i: int, j: int|
            0 <= i < j < self.mods.deep_view().len() ==> (
            #[trigger] self.mods.deep_view()[i]).row_id != (
            #[trigger] self.mods.deep_view()[j]).row_id)
        &&& (forall|i: int|
            0 <= i < self.mods.deep_view().len() ==> (
            #[trigger] self.mods.deep_view()[i]).row_id < self.next_row_id)
        &&& (forall|i: int|
            0 <= i < self.mods.deep_view().len() ==> match (
            #[trigger] self.mods.deep_view()[i]).op {
                RowOpV::Append(_) => self.mods.deep_view()[i].row_id >= self.base@.len(),
                RowOpV::Modify(_) => self.mods.deep_view()[i].row_id < self.base@.len(),
                RowOpV::Delete => self.mods.deep_view()[i].row_id < self.base@.len(),
            })
    }

    /// Index a committed dataframe for staged edits.
    pub fn index(df: DataFrame, base_commit_id: String) -> (r: StagedDataFrame)
        requires
            df.rows@.len() < 0xffffffffffffffffu64,
        ensures
            r.wf(),
            r.base@ == df.rows@,
            r.columns@ == df.columns@,
            r.base_commit_id@ == base_commit_id@,
            r.mods@.len() == 0,
    {
        let next = df.rows.len() as u64;
        StagedDataFrame {
            columns: df.columns,
            base: df.rows,
            base_commit_id,
            mods: Vec::new(),
            next_row_id: next,
        }
    }

    /// Stage an appended row from a JSON object.  The row gets a fresh
    /// stable row id and a fresh opaque identifier.
    pub fn append_row(&mut self, json: &str) -> (r: Result<u64, OxenError>)
        requires
            old(self).wf(),
            old(self).next_row_id < 0xffffffffffffffffu64,
        ensures
            final(self).wf(),
            final(self).base == old(self).base,
            final(self).columns == old(self).columns,
            final(self).base_commit_id == old(self).base_commit_id,
            match r {
                Ok(id) => {
                    &&& json_fields_of(json@) matches Some(nv)
                    &&& id == old(self).next_row_id
                    &&& final(self).next_row_id == old(self).next_row_id + 1
                    &&& final(self).mods.deep_view().len() == old(
                        self,
                    ).mods.deep_view().len() + 1
                    &&& (forall|i: int|
                        0 <= i < old(self).mods.deep_view().len()
                            ==> final(self).mods.deep_view()[i] == old(
                            self,
                        ).mods.deep_view()[i])
                    &&& final(self).mods.deep_view().last().row_id == id
                    &&& final(self).mods.deep_view().last().op == RowOpV::Append(
                        patched_row(
                            old(self).columns.deep_view(),
                            Seq::empty(),
                            json_fields_of(json@).unwrap().0,
                            json_fields_of(json@).unwrap().1,
                        ),
                    )
                },
                Err(e) => {
                    &&& e == OxenError::Invalid
                    &&& json_fields_of(json@) is None
                    &&& *final(self) == *old(self)
                },
            },
    {
        let (names, values) = match parse_json_row(json) {
            Some(nv) => nv,
            None => { return Err(OxenError::Invalid); },
        };
        let empty_base: Vec<String> = Vec::new();
        let row = build_row(&self.columns, &empty_base, &names, &values);
        let id = self.next_row_id;
        let m = RowMod { row_id: id, oxen_id: fresh_uuid(), op: RowOp::Append(row) };
        let ghost mv = m@;
        let ghost prev = self.mods.deep_view();
        self.mods.push(m);
        self.next_row_id = id + 1;
        proof {
            assert(self.mods.deep_view() =~= prev.push(mv));
            assert(empty_base.deep_view() =~= Seq::<Seq<char>>::empty());
            assert forall|i: int, j: int|
                0 <= i < j < self.mods.deep_view().len() implies (
            #[trigger] self.mods.deep_view()[i]).row_id != (
            #[trigger] self.mods.deep_view()[j]).row_id by {
                if j == self.mods.deep_view().len() - 1 {
                    assert(self.mods.deep_view()[i] == prev[i]);
                    assert(prev[i].row_id < id);
                } else {
                    assert(self.mods.deep_view()[i] == prev[i]);
                    assert(self.mods.deep_view()[j] == prev[j]);
                }
            }
            assert forall|i: int| 0 <= i < self.mods.deep_view().len() implies (
            #[trigger] self.mods.deep_view()[i]).row_id < self.next_row_id by {
                if i < prev.len() {
                    assert(self.mods.deep_view()[i] == prev[i]);
                }
            }
            assert forall|i: int| 0 <= i < self.mods.deep_view().len() implies match (
            #[trigger] self.mods.deep_view()[i]).op {
                RowOpV::Append(_) => self.mods.deep_view()[i].row_id >= self.base@.len(),
                RowOpV::Modify(_) => self.mods.deep_view()[i].row_id < self.base@.len(),
                RowOpV::Delete => self.mods.deep_view()[i].row_id < self.base@.len(),
            } by {
                if i < prev.len() {
                    assert(self.mods.deep_view()[i] == prev[i]);
                }
            }
        }
        Ok(id)
    }

    /// Whether the indexed snapshot no longer matches the branch head:
    /// a foreign commit moved the branch, so applying these edits would
    /// silently target a moved base.  Stale edits must be re-indexed.
    pub fn is_stale(&self, current_head_id: &str) -> (r: bool)
        ensures
            r == (current_head_id@ != self.base_commit_id@),
    {
        !crate::data_type::str_eq(current_head_id, self.base_commit_id.as_str())
    }

    /// Undo the staged operation on a row, if there is one.
    pub fn restore_row(&mut self, row_id: u64) -> (r: Result<(), OxenError>)
        requires
            old(self).wf(),
        ensures
            final(self).wf(),
            final(self).base == old(self).base,
            final(self).columns == old(self).columns,
            final(self).base_commit_id == old(self).base_commit_id,
            final(self).next_row_id == old(self).next_row_id,
            match r {
                Ok(()) => {
                    &&& mod_at(old(self).mods.deep_view(), row_id) is Some
                    &&& mod_at(final(self).mods.deep_view(), row_id) is None
                    &&& (forall|id2: u64|
                        id2 != row_id ==> mod_at(final(self).mods.deep_view(), id2) == mod_at(
                            old(self).mods.deep_view(),
                            id2,
                        ))
                },
                Err(e) => {
                    &&& e == OxenError::NotFound
                    &&& mod_at(old(self).mods.deep_view(), row_id) is None
                    &&& *final(self) == *old(self)
                },
            },
    {
        let ghost mv = self.mods.deep_view();
        proof {
            lemma_mod_index_of(mv, row_id);
        }
        let mut i: usize = 0;
        while i < self.mods.len()
            invariant
                0 <= i <= self.mods@.len(),
                *self == *old(self),
                old(self).wf(),
                mv == self.mods.deep_view(),
                mv.len() == self.mods@.len(),
                forall|k: int| 0 <= k < i ==> (#[trigger] mv[k]).row_id != row_id,
            decreases self.mods@.len() - i,
        {
            if self.mods[i].row_id == row_id {
                proof {
                    lemma_mod_first_hit(mv, row_id, i as int);
                }
                self.mods.remove(i);
                proof {
                    let nv = self.mods.deep_view();
                    assert(nv =~= mv.remove(i as int));
                    lemma_mod_remove(mv, i as int, row_id);
                    assert forall|id2: u64| id2 != row_id implies mod_at(nv, id2) == mod_at(
                        mv,
                        id2,
                    ) by {
                        lemma_mod_remove(mv, i as int, id2);
                    }
                    assert forall|a: int, b: int| 0 <= a < b < nv.len() implies (
                    #[trigger] nv[a]).row_id != (#[trigger] nv[b]).row_id by {
                        let a0: int = if a < i { a } else { a + 1 };
                        let b0: int = if b < i { b } else { b + 1 };
                        assert(nv[a] == mv[a0]);
                        assert(nv[b] == mv[b0]);
                    }
                    assert forall|a: int| 0 <= a < nv.len() implies (
                    #[trigger] nv[a]).row_id < self.next_row_id && match nv[a].op {
                        RowOpV::Append(_) => nv[a].row_id >= self.base@.len(),
                        RowOpV::Modify(_) => nv[a].row_id < self.base@.len(),
                        RowOpV::Delete => nv[a].row_id < self.base@.len(),
                    } by {
                        let a0: int = if a < i { a } else { a + 1 };
                        assert(nv[a] == mv[a0]);
                    }
                }
                return Ok(());
            }
            i = i + 1;
        }
        proof {
            lemma_mod_index_of(mv, row_id);
        }
        Err(OxenError::NotFound)
    }
}

/// Removing the only operation for an id erases it and nothing else.
proof fn lemma_mod_remove(mods: Seq<RowModV>, idx: int, id: u64)
    requires
        0 <= idx < mods.len(),
        forall|m: int| 0 <= m < mods.len() && m != idx ==> (#[trigger] mods[m]).row_id
            != mods[idx].row_id,
    ensures
        mods[idx].row_id == id ==> mod_at(mods.remove(idx), id) is None,
        mods[idx].row_id != id ==> mod_at(mods.remove(idx), id) == mod_at(mods, id),
{
    let t = mods.remove(idx);
    if mods[idx].row_id == id {
        lemma_mod_index_of(t, id);
        if mod_index_of(t, id) >= 0 {
            let i = mod_index_of(t, id);
            if i < idx {
                assert(t[i] == mods[i]);
            } else {
                assert(t[i] == mods[i + 1]);
            }
        }
    } else {
        lemma_mod_index_of(mods, id);
        lemma_mod_index_of(t, id);
        if mod_index_of(mods, id) >= 0 {
            let i = mod_index_of(mods, id);
            assert(i != idx);
            if i < idx {
                assert(t[i] == mods[i]);
                assert(forall|m: int| 0 <= m < i ==> t[m] == mods[m]);
                lemma_mod_first_hit(t, id, i);
            } else {
                assert(t[i - 1] == mods[i]);
                assert forall|m: int| 0 <= m < i - 1 implies (#[trigger] t[m]).row_id != id by {
                    if m < idx {
                        assert(t[m] == mods[m]);
                    } else {
                        assert(t[m] == mods[m + 1]);
                    }
                }
                lemma_mod_first_hit(t, id, i - 1);
            }
        } else {
            if mod_index_of(t, id) >= 0 {
                let i = mod_index_of(t, id);
                if i < idx {
                    assert(t[i] == mods[i]);
                } else {
                    assert(t[i] == mods[i + 1]);
                }
            }
        }
    }
}

proof fn lemma_mod_first_hit(mods: Seq<RowModV>, id: u64, i: int)
    requires
        0 <= i < mods.len(),
        mods[i].row_id == id,
        forall|m: int| 0 <= m < i ==> (#[trigger] mods[m]).row_id != id,
    ensures
        mod_index_of(mods, id) == i,
    decreases i,
{
    lemma_mod_index_of(mods, id);
    if mods[0].row_id != id {
        lemma_mod_first_hit(mods.drop_first(), id, i - 1);
        assert(forall|m: int| 1 <= m < mods.len() ==> mods[m] == mods.drop_first()[m - 1]);
    }
}

} // verus!

verus! {

impl StagedDataFrame {
    /// Stage an operation on one base row, replacing any staged operation
    /// already recorded for it.
    fn stage_base_op(&mut self, row_id: u64, op: RowOp)
        requires
            old(self).wf(),
            row_id < old(self).base@.len(),
            !(op@ is Append),
        ensures
            final(self).wf(),
            final(self).base == old(self).base,
            final(self).columns == old(self).columns,
            final(self).base_commit_id == old(self).base_commit_id,
            final(self).next_row_id == old(self).next_row_id,
            mod_at(final(self).mods.deep_view(), row_id) matches Some(m) && m.op == op@
                && m.row_id == row_id,
            forall|id2: u64|
                id2 != row_id ==> mod_at(final(self).mods.deep_view(), id2) == mod_at(
                    old(self).mods.deep_view(),
                    id2,
                ),
    {
        let ghost mv0 = self.mods.deep_view();
        proof {
            lemma_mod_index_of(mv0, row_id);
        }
        let mut i: usize = 0;
        let mut found: Option<usize> = None;
        while i < self.mods.len()
            invariant
                0 <= i <= self.mods@.len(),
                *self == *old(self),
                old(self).wf(),
                mv0 == self.mods.deep_view(),
                mv0.len() == self.mods@.len(),
                match found {
                    Some(fi) => fi < mv0.len() && mod_index_of(mv0, row_id) == fi as int,
                    None => forall|k: int|
                        0 <= k < i ==> (#[trigger] mv0[k]).row_id != row_id,
                },
            decreases self.mods@.len() - i,
        {
            match found {
                Some(_) => {},
                None => {
                    if self.mods[i].row_id == row_id {
                        proof {
                            lemma_mod_first_hit(mv0, row_id, i as int);
                        }
                        found = Some(i);
                    }
                },
            }
            i = i + 1;
        }
        match found {
            Some(fi) => {
                self.mods.remove(fi);
                proof {
                    let nv = self.mods.deep_view();
                    assert(nv =~= mv0.remove(fi as int));
                    lemma_mod_index_of(mv0, row_id);
                    lemma_mod_remove(mv0, fi as int, row_id);
                    assert forall|id2: u64| id2 != row_id implies mod_at(nv, id2) == mod_at(
                        mv0,
                        id2,
                    ) by {
                        lemma_mod_remove(mv0, fi as int, id2);
                    }
                    assert forall|a: int, b: int| 0 <= a < b < nv.len() implies (
                    #[trigger] nv[a]).row_id != (#[trigger] nv[b]).row_id by {
                        let a0: int = if a < fi { a } else { a + 1 };
                        let b0: int = if b < fi { b } else { b + 1 };
                        assert(nv[a] == mv0[a0]);
                        assert(nv[b] == mv0[b0]);
                    }
                    assert forall|a: int| 0 <= a < nv.len() implies (
                    #[trigger] nv[a]).row_id < self.next_row_id && match nv[a].op {
                        RowOpV::Append(_) => nv[a].row_id >= self.base@.len(),
                        RowOpV::Modify(_) => nv[a].row_id < self.base@.len(),
                        RowOpV::Delete => nv[a].row_id < self.base@.len(),
                    } by {
                        let a0: int = if a < fi { a } else { a + 1 };
                        assert(nv[a] == mv0[a0]);
                    }
                }
            },
            None => {},
        }
        let ghost mv1 = self.mods.deep_view();
        proof {
            lemma_mod_index_of(mv1, row_id);
            if mod_index_of(mv1, row_id) >= 0 {
                assert((#[trigger] mv1[mod_index_of(mv1, row_id)]).row_id == row_id);
            }
        }
        let m = RowMod { row_id, oxen_id: fresh_uuid(), op };
        let ghost mvnew = m@;
        self.mods.push(m);
        proof {
            assert(self.mods.deep_view() =~= mv1.push(mvnew));
            lemma_mod_push(mv1, mvnew, row_id);
            assert forall|id2: u64| id2 != row_id implies mod_at(
                self.mods.deep_view(),
                id2,
            ) == mod_at(old(self).mods.deep_view(), id2) by {
                lemma_mod_push(mv1, mvnew, id2);
            }
            let nv = self.mods.deep_view();
            assert forall|a: int, b: int| 0 <= a < b < nv.len() implies (
            #[trigger] nv[a]).row_id != (#[trigger] nv[b]).row_id by {
                if b == nv.len() - 1 {
                    assert(nv[a] == mv1[a]);
                    lemma_mod_first_hit_absent(mv1, row_id, a);
                } else {
                    assert(nv[a] == mv1[a]);
                    assert(nv[b] == mv1[b]);
                }
            }
            assert forall|a: int| 0 <= a < nv.len() implies (
            #[trigger] nv[a]).row_id < self.next_row_id && match nv[a].op {
                RowOpV::Append(_) => nv[a].row_id >= self.base@.len(),
                RowOpV::Modify(_) => nv[a].row_id < self.base@.len(),
                RowOpV::Delete => nv[a].row_id < self.base@.len(),
            } by {
                if a < mv1.len() {
                    assert(nv[a] == mv1[a]);
                }
            }
        }
    }

    /// The row a staged state shows for a base row id: the staged
    /// modification if there is one, the committed row otherwise.
    pub open spec fn effective_base_row(self, row_id: u64) -> Seq<Seq<char>>
        recommends
            row_id < self.base@.len(),
    {
        match mod_at(self.mods.deep_view(), row_id) {
            Some(m) => match m.op {
                RowOpV::Modify(r) => r,
                _ => self.base@[row_id as int]@,
            },
            None => self.base@[row_id as int]@,
        }
    }

    /// Stage a modification of a base row from a JSON object: named
    /// columns take the JSON values, the rest keep their current staged
    /// or committed value.
    pub fn modify_row(&mut self, row_id: u64, json: &str) -> (r: Result<(), OxenError>)
        requires
            old(self).wf(),
        ensures
            final(self).wf(),
            final(self).base == old(self).base,
            final(self).columns == old(self).columns,
            final(self).base_commit_id == old(self).base_commit_id,
            final(self).next_row_id == old(self).next_row_id,
            match r {
                Ok(()) => {
                    &&& row_id < old(self).base@.len()
                    &&& json_fields_of(json@) matches Some(nv)
                    &&& mod_at(final(self).mods.deep_view(), row_id) matches Some(m)
                        && m.op == RowOpV::Modify(
                        patched_row(
                            old(self).columns.deep_view(),
                            old(self).effective_base_row(row_id),
                            json_fields_of(json@).unwrap().0,
                            json_fields_of(json@).unwrap().1,
                        ),
                    )
                    &&& (forall|id2: u64|
                        id2 != row_id ==> mod_at(final(self).mods.deep_view(), id2)
                            == mod_at(old(self).mods.deep_view(), id2))
                },
                Err(e) => {
                    &&& *final(self) == *old(self)
                    &&& ((e == OxenError::NotFound && row_id >= old(self).base@.len()) || (e
                        == OxenError::Invalid && row_id < old(self).base@.len()
                        && json_fields_of(json@) is None))
                },
            },
    {
        if row_id >= self.base.len() as u64 {
            return Err(OxenError::NotFound);
        }
        let (names, values) = match parse_json_row(json) {
            Some(nv) => nv,
            None => { return Err(OxenError::Invalid); },
        };
        let idx: usize = row_id as usize;
        // The row being patched: any staged modification wins over the
        // committed cells.
        let ghost mv = self.mods.deep_view();
        proof {
            lemma_mod_index_of(mv, row_id);
        }
        let mut fidx: Option<usize> = None;
        let mut k: usize = 0;
        while k < self.mods.len()
            invariant
                0 <= k <= self.mods@.len(),
                *self == *old(self),
                mv == self.mods.deep_view(),
                mv.len() == self.mods@.len(),
                match fidx {
                    Some(fi) => fi < mv.len() && mod_index_of(mv, row_id) == fi as int,
                    None => forall|m: int| 0 <= m < k ==> (#[trigger] mv[m]).row_id != row_id,
                },
            decreases self.mods@.len() - k,
        {
            match fidx {
                Some(_) => {},
                None => {
                    if self.mods[k].row_id == row_id {
                        proof {
                            lemma_mod_first_hit(mv, row_id, k as int);
                        }
                        fidx = Some(k);
                    }
                },
            }
            k = k + 1;
        }
        proof {
            lemma_mod_index_of(mv, row_id);
        }
        let patched = match fidx {
            Some(fi) => match &self.mods[fi].op {
                RowOp::Modify(row) => build_row(&self.columns, &row.cells, &names, &values),
                _ => {
                    let base_row = &self.base[idx];
                    build_row(&self.columns, &base_row.cells, &names, &values)
                },
            },
            None => {
                let base_row = &self.base[idx];
                build_row(&self.columns, &base_row.cells, &names, &values)
            },
        };
        proof {
            assert(patched@ == patched_row(
                self.columns.deep_view(),
                self.effective_base_row(row_id),
                names.deep_view(),
                values.deep_view(),
            ));
        }
        self.stage_base_op(row_id, RowOp::Modify(patched));
        Ok(())
    }

    /// Stage the logical deletion of a base row.
    pub fn delete_row(&mut self, row_id: u64) -> (r: Result<(), OxenError>)
        requires
            old(self).wf(),
        ensures
            final(self).wf(),
            final(self).base == old(self).base,
            final(self).columns == old(self).columns,
            final(self).base_commit_id == old(self).base_commit_id,
            final(self).next_row_id == old(self).next_row_id,
            match r {
                Ok(()) => {
                    &&& row_id < old(self).base@.len()
                    &&& mod_at(final(self).mods.deep_view(), row_id) matches Some(m) && m.op
                        == RowOpV::Delete
                    &&& (forall|id2: u64|
                        id2 != row_id ==> mod_at(final(self).mods.deep_view(), id2)
                            == mod_at(old(self).mods.deep_view(), id2))
                },
                Err(e) => {
                    &&& *final(self) == *old(self)
                    &&& e == OxenError::NotFound
                    &&& row_id >= old(self).base@.len()
                },
            },
    {
        if row_id >= self.base.len() as u64 {
            return Err(OxenError::NotFound);
        }
        self.stage_base_op(row_id, RowOp::Delete);
        Ok(())
    }
}

/// There is no record with this id, so no pushed record collides.
proof fn lemma_mod_first_hit_absent(mods: Seq<RowModV>, id: u64, a: int)
    requires
        mod_at(mods, id) is None,
        0 <= a < mods.len(),
    ensures
        mods[a].row_id != id,
{
    lemma_mod_index_of(mods, id);
}

} // verus!

verus! {

/// The base rows as staged edits leave them: modified rows replaced,
/// deleted rows dropped, the rest as committed.
pub open spec fn applied_base(
    base: Seq<Seq<Seq<char>>>,
    mods: Seq<RowModV>,
    n: int,
) -> Seq<Seq<Seq<char>>>
    decreases n,
{
    if n <= 0 {
        Seq::empty()
    } else {
        let rest = applied_base(base, mods, n - 1);
        match mod_at(mods, (n - 1) as u64) {
            Some(m) => match m.op {
                RowOpV::Delete => rest,
                RowOpV::Modify(r) => rest.push(r),
                RowOpV::Append(_) => rest.push(base[n - 1]),
            },
            None => rest.push(base[n - 1]),
        }
    }
}

/// The staged appends, in staging order.
pub open spec fn applied_appends(mods: Seq<RowModV>) -> Seq<Seq<Seq<char>>>
    decreases mods.len(),
{
    if mods.len() == 0 {
        Seq::empty()
    } else {
        let rest = applied_appends(mods.drop_last());
        match mods.last().op {
            RowOpV::Append(r) => rest.push(r),
            _ => rest,
        }
    }
}

impl StagedDataFrame {
    /// Materialize the staged edits: the committed rows with staged
    /// modifications applied and deletions dropped, then the staged
    /// appends, in order.  This is what a commit of the edits writes.
    #[verifier::rlimit(100)]
    pub fn apply(&self) -> (r: Vec<DataRow>)
        requires
            self.wf(),
        ensures
            r.deep_view() == applied_base(
                self.base.deep_view(),
                self.mods.deep_view(),
                self.base@.len() as int,
            ) + applied_appends(self.mods.deep_view()),
    {
        let ghost bv = self.base.deep_view();
        let ghost mv = self.mods.deep_view();
        let mut out: Vec<DataRow> = Vec::new();
        let mut i: usize = 0;
        while i < self.base.len()
            invariant
                0 <= i <= self.base@.len(),
                self.wf(),
                bv == self.base.deep_view(),
                mv == self.mods.deep_view(),
                bv.len() == self.base@.len(),
                out.deep_view() =~~= applied_base(bv, mv, i as int),
            decreases self.base@.len() - i,
        {
            let ghost prev = out.deep_view();
            let id = i as u64;
            let ghost mi = mod_index_of(mv, id);
            proof {
                lemma_mod_index_of(mv, id);
            }
            let mut fidx: Option<usize> = None;
            let mut k: usize = 0;
            while k < self.mods.len()
                invariant
                    0 <= k <= self.mods@.len(),
                    mv == self.mods.deep_view(),
                    mv.len() == self.mods@.len(),
                    id == i as u64,
                    match fidx {
                        Some(fi) => fi < mv.len() && mod_index_of(mv, id) == fi as int,
                        None => forall|m: int|
                            0 <= m < k ==> (#[trigger] mv[m]).row_id != id,
                    },
                decreases self.mods@.len() - k,
            {
                match fidx {
                    Some(_) => {},
                    None => {
                        if self.mods[k].row_id == id {
                            proof {
                                lemma_mod_first_hit(mv, id, k as int);
                            }
                            fidx = Some(k);
                        }
                    },
                }
                k = k + 1;
            }
            proof {
                lemma_mod_index_of(mv, id);
            }
            match fidx {
                Some(fi) => match &self.mods[fi].op {
                    RowOp::Delete => {},
                    RowOp::Modify(row) => {
                        out.push(row.clone());
                        proof {
                            assert(out.deep_view() =~~= prev.push(row@));
                        }
                    },
                    RowOp::Append(_) => {
                        out.push(self.base[i].clone());
                        proof {
                            assert(out.deep_view() =~~= prev.push(bv[i as int]));
                        }
                    },
                },
                None => {
                    out.push(self.base[i].clone());
                    proof {
                        assert(out.deep_view() =~~= prev.push(bv[i as int]));
                    }
                },
            }
            proof {
                assert(out.deep_view() =~~= applied_base(bv, mv, i as int + 1));
            }
            i = i + 1;
        }
        let ghost based = applied_base(bv, mv, bv.len() as int);
        let mut j: usize = 0;
        while j < self.mods.len()
            invariant
                0 <= j <= self.mods@.len(),
                mv == self.mods.deep_view(),
                mv.len() == self.mods@.len(),
                bv == self.base.deep_view(),
                based == applied_base(bv, mv, bv.len() as int),
                bv.len() == self.base@.len(),
                out.deep_view() =~~= based + applied_appends(mv.subrange(0, j as int)),
            decreases self.mods@.len() - j,
        {
            proof {
                let pre = mv.subrange(0, j as int);
                let post = mv.subrange(0, j as int + 1);
                assert(post.drop_last() =~= pre);
                assert(post.last() == mv[j as int]);
            }
            let ghost prev = out.deep_view();
            match &self.mods[j].op {
                RowOp::Append(row) => {
                    out.push(row.clone());
                    proof {
                        assert(out.deep_view() =~~= prev.push(row@));
                    }
                },
                _ => {},
            }
            proof {
                assert(out.deep_view() =~~= based + applied_appends(
                    mv.subrange(0, j as int + 1),
                ));
            }
            j = j + 1;
        }
        proof {
            assert(mv.subrange(0, mv.len() as int) =~= mv);
        }
        out
    }

    /// How many staged operations of each kind are pending: appended,
    /// modified and deleted rows, in that order.
    pub fn diff_counts(&self) -> (r: (usize, usize, usize))
        ensures
            r.0 as int == count_ops(self.mods.deep_view(), RowKind::Append),
            r.1 as int == count_ops(self.mods.deep_view(), RowKind::Modify),
            r.2 as int == count_ops(self.mods.deep_view(), RowKind::Delete),
    {
        let ghost mv = self.mods.deep_view();
        let mut added: usize = 0;
        let mut modified: usize = 0;
        let mut deleted: usize = 0;
        let mut i: usize = 0;
        while i < self.mods.len()
            invariant
                0 <= i <= self.mods@.len(),
                mv == self.mods.deep_view(),
                mv.len() == self.mods@.len(),
                added as int == count_ops(mv.subrange(0, i as int), RowKind::Append),
                modified as int == count_ops(mv.subrange(0, i as int), RowKind::Modify),
                deleted as int == count_ops(mv.subrange(0, i as int), RowKind::Delete),
                added + modified + deleted <= i,
            decreases self.mods@.len() - i,
        {
            proof {
                let pre = mv.subrange(0, i as int);
                let post = mv.subrange(0, i as int + 1);
                assert(post.drop_last() =~= pre);
                assert(post.last() == mv[i as int]);
            }
            match &self.mods[i].op {
                RowOp::Append(_) => {
                    added = added + 1;
                },
                RowOp::Modify(_) => {
                    modified = modified + 1;
                },
                RowOp::Delete => {
                    deleted = deleted + 1;
                },
            }
            i = i + 1;
        }
        proof {
            assert(mv.subrange(0, mv.len() as int) =~= mv);
        }
        (added, modified, deleted)
    }
}

/// The three staged operation kinds, for counting.
#[derive(Clone, Copy, Debug, PartialEq, Eq, Structural)]
pub enum RowKind {
    Append,
    Modify,
    Delete,
}

/// How many staged operations have the given kind.
pub open spec fn count_ops(mods: Seq<RowModV>, kind: RowKind) -> int
    decreases mods.len(),
{
    if mods.len() == 0 {
        0
    } else {
        let rest = count_ops(mods.drop_last(), kind);
        let hit = match mods.last().op {
            RowOpV::Append(_) => kind == RowKind::Append,
            RowOpV::Modify(_) => kind == RowKind::Modify,
            RowOpV::Delete => kind == RowKind::Delete,
        };
        if hit {
            rest + 1
        } else {
            rest
        }
    }
}

} // verus!
