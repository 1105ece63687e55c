//! The genomic sorter: orders rows by chromosome rank, then by start.

use vstd::prelude::*;
use crate::chromosome::{chromosome_rank, rank_of};
use crate::matrix::{row_views, EnrichedRow, EnrichedRowView};
use crate::number::{parse_u64, parsed_or_zero};
use crate::text::{copy_text, views};

verus! {

/// The two numbers by which rows are ordered.
#[derive(Clone, Copy)]
pub struct SortKey {
    /// The rank of the row's chromosome.
    pub rank: u64,
    /// The number that the row's start writes, or zero where it writes none.
    pub start: u64,
}

/// The key of a row.
pub open spec fn sort_key(row: EnrichedRowView) -> SortKey {
    SortKey { rank: chromosome_rank(row.display_chromosome), start: parsed_or_zero(row.start) }
}

/// Whether key `a` may stand before key `b`: its rank is smaller, or the
/// ranks are equal and its start is no larger.
pub open spec fn key_le(a: SortKey, b: SortKey) -> bool {
    a.rank < b.rank || (a.rank == b.rank && a.start <= b.start)
}

/// Whether key `a` must stand before key `b`.
pub open spec fn key_lt(a: SortKey, b: SortKey) -> bool {
    a.rank < b.rank || (a.rank == b.rank && a.start < b.start)
}

/// The keys of a sequence of rows.
pub open spec fn row_keys(rows: Seq<EnrichedRowView>) -> Seq<SortKey> {
    Seq::new(rows.len(), |i: int| sort_key(rows[i]))
}

/// Whether every row stands before the rows that its key may stand before.
pub open spec fn ordered(rows: Seq<EnrichedRowView>) -> bool {
    forall|i: int, j: int|
        0 <= i < j < rows.len() ==> key_le(#[trigger] sort_key(rows[i]), #[trigger] sort_key(rows[j]))
}

/// Whether every position of `order` lies from `lo` up to, not including, `hi`.
pub open spec fn in_range(order: Seq<usize>, lo: int, hi: int) -> bool {
    forall|k: int| 0 <= k < order.len() ==> lo <= #[trigger] order[k] < hi
}

/// Whether the keys at the positions of `order` never step down.
pub open spec fn key_ordered(keys: Seq<SortKey>, order: Seq<usize>) -> bool {
    forall|i: int, j: int|
        0 <= i < j < order.len() ==> key_le(
            keys[#[trigger] order[i] as int],
            keys[#[trigger] order[j] as int],
        )
}

/// Whether `lower` may stand before the key at every position of `order`.
pub open spec fn at_least(keys: Seq<SortKey>, order: Seq<usize>, lower: SortKey) -> bool {
    forall|k: int| 0 <= k < order.len() ==> key_le(lower, keys[#[trigger] order[k] as int])
}

/// Two orders merged into one: the order that begins with the smaller of
/// their first keys goes first, `a` where neither is smaller.
pub open spec fn merged(keys: Seq<SortKey>, a: Seq<usize>, b: Seq<usize>) -> Seq<usize>
    decreases a.len() + b.len(),
{
    if a.len() == 0 {
        b
    } else if b.len() == 0 {
        a
    } else if key_le(keys[a[0] as int], keys[b[0] as int]) {
        seq![a[0]] + merged(keys, a.skip(1), b)
    } else {
        seq![b[0]] + merged(keys, a, b.skip(1))
    }
}

/// The positions from `lo` up to `hi` in the order of their keys; positions
/// with equal keys stay in their order.
pub open spec fn sorted_order(keys: Seq<SortKey>, lo: int, hi: int) -> Seq<usize>
    decreases hi - lo,
{
    if hi - lo <= 0 {
        Seq::empty()
    } else if hi - lo == 1 {
        seq![lo as usize]
    } else {
        let mid = lo + (hi - lo) / 2;
        merged(keys, sorted_order(keys, lo, mid), sorted_order(keys, mid, hi))
    }
}

/// The rows at the positions of `order`.
pub open spec fn rows_at(rows: Seq<EnrichedRowView>, order: Seq<usize>) -> Seq<EnrichedRowView> {
    Seq::new(order.len(), |k: int| rows[order[k] as int])
}

/// The rows in genomic order; rows with equal keys stay in their order.
pub open spec fn sorted_rows(rows: Seq<EnrichedRowView>) -> Seq<EnrichedRowView> {
    rows_at(rows, sorted_order(row_keys(rows), 0, rows.len() as int))
}

/// A merged order is as long as its two parts together and stays in their range.
pub proof fn lemma_merged_in_range(
    keys: Seq<SortKey>,
    a: Seq<usize>,
    b: Seq<usize>,
    lo: int,
    hi: int,
)
    requires
        in_range(a, lo, hi),
        in_range(b, lo, hi),
    ensures
        merged(keys, a, b).len() == a.len() + b.len(),
        in_range(merged(keys, a, b), lo, hi),
    decreases a.len() + b.len(),
{
    if a.len() > 0 && b.len() > 0 {
        if key_le(keys[a[0] as int], keys[b[0] as int]) {
            assert forall|k: int| 0 <= k < a.skip(1).len() implies lo <= #[trigger] a.skip(1)[k]
                < hi by {
                assert(a.skip(1)[k] == a[k + 1]);
            }
            lemma_merged_in_range(keys, a.skip(1), b, lo, hi);
        } else {
            assert forall|k: int| 0 <= k < b.skip(1).len() implies lo <= #[trigger] b.skip(1)[k]
                < hi by {
                assert(b.skip(1)[k] == b[k + 1]);
            }
            lemma_merged_in_range(keys, a, b.skip(1), lo, hi);
        }
    }
}

/// A key that may stand before every key of two orders may stand before
/// every key of the merged order.
pub proof fn lemma_merged_at_least(keys: Seq<SortKey>, a: Seq<usize>, b: Seq<usize>, lower: SortKey)
    requires
        at_least(keys, a, lower),
        at_least(keys, b, lower),
    ensures
        at_least(keys, merged(keys, a, b), lower),
    decreases a.len() + b.len(),
{
    if a.len() > 0 && b.len() > 0 {
        if key_le(keys[a[0] as int], keys[b[0] as int]) {
            assert forall|k: int| 0 <= k < a.skip(1).len() implies key_le(
                lower,
                keys[#[trigger] a.skip(1)[k] as int],
            ) by {
                assert(a.skip(1)[k] == a[k + 1]);
            }
            lemma_merged_at_least(keys, a.skip(1), b, lower);
        } else {
            assert forall|k: int| 0 <= k < b.skip(1).len() implies key_le(
                lower,
                keys[#[trigger] b.skip(1)[k] as int],
            ) by {
                assert(b.skip(1)[k] == b[k + 1]);
            }
            lemma_merged_at_least(keys, a, b.skip(1), lower);
        }
    }
}

/// Merging two orders whose keys never step down gives such an order.
pub proof fn lemma_merged_ordered(keys: Seq<SortKey>, a: Seq<usize>, b: Seq<usize>)
    requires
        key_ordered(keys, a),
        key_ordered(keys, b),
    ensures
        key_ordered(keys, merged(keys, a, b)),
    decreases a.len() + b.len(),
{
    if a.len() > 0 && b.len() > 0 {
        let all = merged(keys, a, b);
        if key_le(keys[a[0] as int], keys[b[0] as int]) {
            let rest = merged(keys, a.skip(1), b);
            let first = keys[a[0] as int];
            assert forall|i: int, j: int| 0 <= i < j < a.skip(1).len() implies key_le(
                keys[#[trigger] a.skip(1)[i] as int],
                keys[#[trigger] a.skip(1)[j] as int],
            ) by {
                assert(a.skip(1)[i] == a[i + 1]);
                assert(a.skip(1)[j] == a[j + 1]);
            }
            assert forall|k: int| 0 <= k < a.skip(1).len() implies key_le(
                first,
                keys[#[trigger] a.skip(1)[k] as int],
            ) by {
                assert(a.skip(1)[k] == a[k + 1]);
            }
            assert forall|k: int| 0 <= k < b.len() implies key_le(
                first,
                keys[#[trigger] b[k] as int],
            ) by {
                if k > 0 {
                    assert(key_le(keys[b[0] as int], keys[b[k] as int]));
                }
            }
            lemma_merged_ordered(keys, a.skip(1), b);
            lemma_merged_at_least(keys, a.skip(1), b, first);
            assert forall|i: int, j: int| 0 <= i < j < all.len() implies key_le(
                keys[#[trigger] all[i] as int],
                keys[#[trigger] all[j] as int],
            ) by {
                assert(all[j] == rest[j - 1]);
                if i > 0 {
                    assert(all[i] == rest[i - 1]);
                }
            }
        } else {
            let rest = merged(keys, a, b.skip(1));
            let first = keys[b[0] as int];
            assert forall|i: int, j: int| 0 <= i < j < b.skip(1).len() implies key_le(
                keys[#[trigger] b.skip(1)[i] as int],
                keys[#[trigger] b.skip(1)[j] as int],
            ) by {
                assert(b.skip(1)[i] == b[i + 1]);
                assert(b.skip(1)[j] == b[j + 1]);
            }
            assert forall|k: int| 0 <= k < b.skip(1).len() implies key_le(
                first,
                keys[#[trigger] b.skip(1)[k] as int],
            ) by {
                assert(b.skip(1)[k] == b[k + 1]);
            }
            assert forall|k: int| 0 <= k < a.len() implies key_le(
                first,
                keys[#[trigger] a[k] as int],
            ) by {
                if k > 0 {
                    assert(key_le(keys[a[0] as int], keys[a[k] as int]));
                }
            }
            lemma_merged_ordered(keys, a, b.skip(1));
            lemma_merged_at_least(keys, a, b.skip(1), first);
            assert forall|i: int, j: int| 0 <= i < j < all.len() implies key_le(
                keys[#[trigger] all[i] as int],
                keys[#[trigger] all[j] as int],
            ) by {
                assert(all[j] == rest[j - 1]);
                if i > 0 {
                    assert(all[i] == rest[i - 1]);
                }
            }
        }
    }
}

/// The rows at a merged order are the rows at its two parts.
pub proof fn lemma_merged_rows(
    rows: Seq<EnrichedRowView>,
    keys: Seq<SortKey>,
    a: Seq<usize>,
    b: Seq<usize>,
)
    ensures
        rows_at(rows, merged(keys, a, b)).to_multiset() == rows_at(rows, a).to_multiset().add(
            rows_at(rows, b).to_multiset(),
        ),
    decreases a.len() + b.len(),
{
    broadcast use vstd::multiset::group_multiset_axioms;

    if a.len() == 0 {
        assert(rows_at(rows, a) =~= Seq::<EnrichedRowView>::empty());
        rows_at(rows, a).to_multiset_ensures();
        assert(rows_at(rows, a).to_multiset() =~= vstd::multiset::Multiset::empty());
        assert(rows_at(rows, b).to_multiset() =~= rows_at(rows, a).to_multiset().add(
            rows_at(rows, b).to_multiset(),
        ));
    } else if b.len() == 0 {
        assert(rows_at(rows, b) =~= Seq::<EnrichedRowView>::empty());
        rows_at(rows, b).to_multiset_ensures();
        assert(rows_at(rows, b).to_multiset() =~= vstd::multiset::Multiset::empty());
        assert(rows_at(rows, a).to_multiset() =~= rows_at(rows, a).to_multiset().add(
            rows_at(rows, b).to_multiset(),
        ));
    } else if key_le(keys[a[0] as int], keys[b[0] as int]) {
        let rest = merged(keys, a.skip(1), b);
        let head = seq![rows[a[0] as int]];
        lemma_merged_rows(rows, keys, a.skip(1), b);
        assert(rows_at(rows, merged(keys, a, b)) =~= head + rows_at(rows, rest));
        assert(rows_at(rows, a) =~= head + rows_at(rows, a.skip(1)));
        vstd::seq_lib::lemma_multiset_commutative(head, rows_at(rows, rest));
        vstd::seq_lib::lemma_multiset_commutative(head, rows_at(rows, a.skip(1)));
        assert(rows_at(rows, merged(keys, a, b)).to_multiset() =~= rows_at(rows, a).to_multiset().add(
            rows_at(rows, b).to_multiset(),
        ));
    } else {
        let rest = merged(keys, a, b.skip(1));
        let head = seq![rows[b[0] as int]];
        lemma_merged_rows(rows, keys, a, b.skip(1));
        assert(rows_at(rows, merged(keys, a, b)) =~= head + rows_at(rows, rest));
        assert(rows_at(rows, b) =~= head + rows_at(rows, b.skip(1)));
        vstd::seq_lib::lemma_multiset_commutative(head, rows_at(rows, rest));
        vstd::seq_lib::lemma_multiset_commutative(head, rows_at(rows, b.skip(1)));
        assert(rows_at(rows, merged(keys, a, b)).to_multiset() =~= rows_at(rows, a).to_multiset().add(
            rows_at(rows, b).to_multiset(),
        ));
    }
}

/// The sorted order of a range holds every position of the range, and its
/// keys never step down.
pub proof fn lemma_sorted_order(keys: Seq<SortKey>, lo: int, hi: int)
    requires
        0 <= lo <= hi <= usize::MAX,
    ensures
        sorted_order(keys, lo, hi).len() == hi - lo,
        in_range(sorted_order(keys, lo, hi), lo, hi),
        key_ordered(keys, sorted_order(keys, lo, hi)),
    decreases hi - lo,
{
    if hi - lo > 1 {
        let mid = lo + (hi - lo) / 2;
        lemma_sorted_order(keys, lo, mid);
        lemma_sorted_order(keys, mid, hi);
        let left = sorted_order(keys, lo, mid);
        let right = sorted_order(keys, mid, hi);
        assert(in_range(left, lo, hi));
        assert(in_range(right, lo, hi));
        lemma_merged_in_range(keys, left, right, lo, hi);
        lemma_merged_ordered(keys, left, right);
    }
}

/// The rows at the sorted order of a range are the rows of the range.
pub proof fn lemma_sorted_order_rows(rows: Seq<EnrichedRowView>, keys: Seq<SortKey>, lo: int, hi: int)
    requires
        0 <= lo <= hi <= rows.len(),
        hi <= usize::MAX,
    ensures
        rows_at(rows, sorted_order(keys, lo, hi)).to_multiset() == rows.subrange(
            lo,
            hi,
        ).to_multiset(),
    decreases hi - lo,
{
    if hi - lo <= 0 {
        assert(rows_at(rows, sorted_order(keys, lo, hi)) =~= rows.subrange(lo, hi));
    } else if hi - lo == 1 {
        assert(rows_at(rows, sorted_order(keys, lo, hi)) =~= rows.subrange(lo, hi));
    } else {
        let mid = lo + (hi - lo) / 2;
        lemma_sorted_order_rows(rows, keys, lo, mid);
        lemma_sorted_order_rows(rows, keys, mid, hi);
        lemma_merged_rows(rows, keys, sorted_order(keys, lo, mid), sorted_order(keys, mid, hi));
        assert(rows.subrange(lo, hi) =~= rows.subrange(lo, mid) + rows.subrange(mid, hi));
        vstd::seq_lib::lemma_multiset_commutative(rows.subrange(lo, mid), rows.subrange(mid, hi));
    }
}

/// The sorted rows are in genomic order: of two rows, the one in front has
/// the smaller rank or, with equal ranks, a start that is no larger.
pub proof fn sorted_rows_are_ordered(rows: Seq<EnrichedRowView>)
    requires
        rows.len() <= usize::MAX,
    ensures
        ordered(sorted_rows(rows)),
        sorted_rows(rows).len() == rows.len(),
{
    let keys = row_keys(rows);
    let order = sorted_order(keys, 0, rows.len() as int);
    lemma_sorted_order(keys, 0, rows.len() as int);
    let sorted = sorted_rows(rows);
    assert forall|i: int, j: int| 0 <= i < j < sorted.len() implies key_le(
        #[trigger] sort_key(sorted[i]),
        #[trigger] sort_key(sorted[j]),
    ) by {
        assert(sorted[i] == rows[order[i] as int]);
        assert(sorted[j] == rows[order[j] as int]);
        assert(keys[order[i] as int] == sort_key(rows[order[i] as int]));
        assert(keys[order[j] as int] == sort_key(rows[order[j] as int]));
    }
}

/// A row whose key must stand before another row's key stands in front of
/// that row once the rows are in order.
pub proof fn smaller_key_comes_first(rows: Seq<EnrichedRowView>, i: int, j: int)
    requires
        0 <= i < rows.len(),
        0 <= j < rows.len(),
        ordered(rows),
        key_lt(sort_key(rows[i]), sort_key(rows[j])),
    ensures
        i < j,
{
    if j < i {
        assert(key_le(sort_key(rows[j]), sort_key(rows[i])));
    }
}

/// Sorting neither adds nor loses a row.
pub proof fn sorted_rows_are_the_same_rows(rows: Seq<EnrichedRowView>)
    requires
        rows.len() <= usize::MAX,
    ensures
        sorted_rows(rows).to_multiset() == rows.to_multiset(),
{
    lemma_sorted_order_rows(rows, row_keys(rows), 0, rows.len() as int);
    assert(rows.subrange(0, rows.len() as int) =~= rows);
}

/// A row is among the sorted rows exactly if it is among the rows.
pub proof fn sorted_rows_contain_the_same_rows(rows: Seq<EnrichedRowView>, row: EnrichedRowView)
    requires
        rows.len() <= usize::MAX,
    ensures
        sorted_rows(rows).contains(row) <==> rows.contains(row),
{
    sorted_rows_are_the_same_rows(rows);
    vstd::seq_lib::to_multiset_contains(rows, row);
    vstd::seq_lib::to_multiset_contains(sorted_rows(rows), row);
}

/// The key of a row.
pub fn key_of(row: &EnrichedRow) -> (key: SortKey)
    ensures
        key == sort_key(row@),
{
    let start = match parse_u64(&row.start) {
        Some(n) => n,
        None => 0,
    };
    SortKey { rank: rank_of(&row.display_chromosome), start }
}

/// Whether key `a` may stand before key `b`.
pub fn may_precede(a: &SortKey, b: &SortKey) -> (r: bool)
    ensures
        r == key_le(*a, *b),
{
    a.rank < b.rank || (a.rank == b.rank && a.start <= b.start)
}

/// Merges two orders of positions in `keys`.
pub fn merge_orders(keys: &Vec<SortKey>, a: &Vec<usize>, b: &Vec<usize>) -> (out: Vec<usize>)
    requires
        in_range(a@, 0, keys.len() as int),
        in_range(b@, 0, keys.len() as int),
    ensures
        out@ == merged(keys@, a@, b@),
{
    let mut out: Vec<usize> = Vec::new();
    let mut i: usize = 0;
    let mut j: usize = 0;
    assert(a@.skip(0) =~= a@);
    assert(b@.skip(0) =~= b@);
    assert(out@ + merged(keys@, a@, b@) =~= merged(keys@, a@, b@));
    while i < a.len() || j < b.len()
        invariant
            i <= a.len(),
            j <= b.len(),
            in_range(a@, 0, keys.len() as int),
            in_range(b@, 0, keys.len() as int),
            out@ + merged(keys@, a@.skip(i as int), b@.skip(j as int)) == merged(keys@, a@, b@),
        decreases a.len() - i + b.len() - j,
    {
        let ghost left = a@.skip(i as int);
        let ghost right = b@.skip(j as int);
        let ghost before = out@;
        let from_left = if i == a.len() {
            false
        } else if j == b.len() {
            true
        } else {
            may_precede(&keys[a[i]], &keys[b[j]])
        };
        if from_left {
            proof {
                assert(left[0] == a@[i as int]);
                assert(left.skip(1) =~= a@.skip(i + 1));
                assert(merged(keys@, left, right) =~= seq![left[0]] + merged(
                    keys@,
                    left.skip(1),
                    right,
                ));
            }
            out.push(a[i]);
            i = i + 1;
            assert(out@ + merged(keys@, a@.skip(i as int), right) =~= before + merged(
                keys@,
                left,
                right,
            ));
        } else {
            proof {
                assert(right[0] == b@[j as int]);
                assert(right.skip(1) =~= b@.skip(j + 1));
                assert(merged(keys@, left, right) =~= seq![right[0]] + merged(
                    keys@,
                    left,
                    right.skip(1),
                ));
            }
            out.push(b[j]);
            j = j + 1;
            assert(out@ + merged(keys@, left, b@.skip(j as int)) =~= before + merged(
                keys@,
                left,
                right,
            ));
        }
    }
    assert(out@ + merged(keys@, a@.skip(i as int), b@.skip(j as int)) =~= out@);
    out
}

/// The positions from `lo` up to `hi` in the order of their keys.
pub fn sort_range(keys: &Vec<SortKey>, lo: usize, hi: usize) -> (order: Vec<usize>)
    requires
        lo <= hi <= keys.len(),
    ensures
        order@ == sorted_order(keys@, lo as int, hi as int),
        in_range(order@, lo as int, hi as int),
    decreases hi - lo,
{
    proof {
        lemma_sorted_order(keys@, lo as int, hi as int);
    }
    if hi - lo == 0 {
        Vec::new()
    } else if hi - lo == 1 {
        let mut order: Vec<usize> = Vec::new();
        order.push(lo);
        assert(order@ =~= seq![lo]);
        order
    } else {
        let mid = lo + (hi - lo) / 2;
        let left = sort_range(keys, lo, mid);
        let right = sort_range(keys, mid, hi);
        merge_orders(keys, &left, &right)
    }
}

/// A copy of a row.
pub fn copy_row(row: &EnrichedRow) -> (copy: EnrichedRow)
    ensures
        copy@ == row@,
{
    let mut columns: Vec<Vec<char>> = Vec::new();
    let mut i: usize = 0;
    while i < row.original_columns.len()
        invariant
            i <= row.original_columns.len(),
            views(columns@) == views(row.original_columns@).take(i as int),
        decreases row.original_columns.len() - i,
    {
        let ghost before = views(columns@);
        let column = copy_text(&row.original_columns[i]);
        assert(views(row.original_columns@)[i as int] == column@);
        columns.push(column);
        assert(views(columns@) =~= before.push(column@));
        assert(views(columns@) =~= views(row.original_columns@).take(i + 1));
        i = i + 1;
    }
    assert(views(row.original_columns@).take(i as int) =~= views(row.original_columns@));
    EnrichedRow {
        display_chromosome: copy_text(&row.display_chromosome),
        start: copy_text(&row.start),
        end: copy_text(&row.end),
        original_columns: columns,
    }
}

/// Sorts rows into genomic order. Rows with equal keys keep the order in
/// which they came.
pub fn sort_rows(rows: &Vec<EnrichedRow>) -> (sorted: Vec<EnrichedRow>)
    ensures
        row_views(sorted@) == sorted_rows(row_views(rows@)),
        ordered(row_views(sorted@)),
        row_views(sorted@).to_multiset() == row_views(rows@).to_multiset(),
{
    let ghost all = row_views(rows@);
    proof {
        assert(all.len() == rows.len());
        sorted_rows_are_ordered(all);
        sorted_rows_are_the_same_rows(all);
    }
    let mut keys: Vec<SortKey> = Vec::new();
    let mut i: usize = 0;
    while i < rows.len()
        invariant
            i <= rows.len(),
            all == row_views(rows@),
            keys@ == row_keys(all).take(i as int),
        decreases rows.len() - i,
    {
        let key = key_of(&rows[i]);
        keys.push(key);
        assert(keys@ =~= row_keys(all).take(i + 1));
        i = i + 1;
    }
    assert(row_keys(all).take(rows.len() as int) =~= row_keys(all));
    let order = sort_range(&keys, 0, rows.len());
    proof {
        lemma_sorted_order(keys@, 0, rows.len() as int);
    }
    let mut sorted: Vec<EnrichedRow> = Vec::new();
    let mut k: usize = 0;
    while k < order.len()
        invariant
            k <= order.len(),
            order.len() == rows.len(),
            all == row_views(rows@),
            in_range(order@, 0, rows.len() as int),
            row_views(sorted@) == rows_at(all, order@).take(k as int),
        decreases order.len() - k,
    {
        let ghost before = row_views(sorted@);
        let row = copy_row(&rows[order[k]]);
        assert(rows_at(all, order@)[k as int] == row@);
        sorted.push(row);
        assert(row_views(sorted@) =~= before.push(row@));
        assert(row_views(sorted@) =~= rows_at(all, order@).take(k + 1));
        k = k + 1;
    }
    assert(rows_at(all, order@).take(order.len() as int) =~= rows_at(all, order@));
    sorted
}

} // verus!
