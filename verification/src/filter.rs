//! The relevance filter: classifies a row by its coordinates and discards it
//! according to a tier from 0, which keeps every row, to 4, which keeps the
//! autosomes only.

use vstd::prelude::*;
use crate::chromosome::{
    chromosome_suffix,
    has_chr_prefix,
    is_special_suffix,
    starts_with_chr,
    strip_chr,
    suffix_is_special,
};
use crate::annotation::Coordinates;
use crate::matrix::{joined_row, reversed_rows, row_views, EnrichedRow, EnrichedRowView};
use crate::text::split_on;
use crate::number::{parse_u64, parsed_or_zero, parsed_u64};

verus! {

/// The strictest tier.
pub const STRICTEST_TIER: u8 = 4;

/// What the filter reads off a row.
pub struct Classification {
    /// The chromosome, the start or the end is empty.
    pub is_missing: bool,
    /// The chromosome does not begin with `chr`.
    pub is_non_chromosomal: bool,
    /// The chromosome's suffix is `X`, `Y` or `M`.
    pub is_special: bool,
    /// The chromosome's suffix writes a number.
    pub is_numeric: bool,
    /// That number, or zero where it writes none.
    pub numeric_value: u64,
}

/// The classification of a row.
pub open spec fn classification(row: EnrichedRowView) -> Classification {
    let suffix = chromosome_suffix(row.display_chromosome);
    Classification {
        is_missing: row.display_chromosome.len() == 0 || row.start.len() == 0 || row.end.len()
            == 0,
        is_non_chromosomal: !has_chr_prefix(row.display_chromosome),
        is_special: is_special_suffix(suffix),
        is_numeric: parsed_u64(suffix) is Some,
        numeric_value: parsed_or_zero(suffix),
    }
}

/// Whether a tier discards a row of the given classification. Tier 1
/// discards rows with missing coordinates; tier 2 also those off a `chr`
/// chromosome; tier 3 also those on `X`, `Y` or `M`; tier 4 also those whose
/// chromosome is not numbered or is numbered above 22. Tier 0 discards
/// nothing, and neither does a tier above 4.
pub open spec fn discards(tier: u8, c: Classification) -> bool {
    1 <= tier <= 4 && (c.is_missing || (tier >= 2 && c.is_non_chromosomal) || (tier >= 3
        && c.is_special) || (tier >= 4 && (!c.is_numeric || c.numeric_value > 22)))
}

/// Whether a tier keeps a row.
pub open spec fn keeps(tier: u8, row: EnrichedRowView) -> bool {
    !discards(tier, classification(row))
}

/// What the filter hands on for a row that it keeps: at tier 4 the row with
/// the `chr` prefix taken off its chromosome, at every other tier the row
/// unchanged.
pub open spec fn displayed(tier: u8, row: EnrichedRowView) -> EnrichedRowView {
    if tier == 4 {
        EnrichedRowView {
            display_chromosome: chromosome_suffix(row.display_chromosome),
            start: row.start,
            end: row.end,
            original_columns: row.original_columns,
        }
    } else {
        row
    }
}

/// The rows that a tier retains, in their order, each as it is displayed.
pub open spec fn retained_rows(tier: u8, rows: Seq<EnrichedRowView>) -> Seq<EnrichedRowView>
    decreases rows.len(),
{
    if rows.len() == 0 {
        Seq::empty()
    } else {
        let before = retained_rows(tier, rows.drop_last());
        if keeps(tier, rows.last()) {
            before.push(displayed(tier, rows.last()))
        } else {
            before
        }
    }
}

/// A row whose coordinates are missing is kept at tier 0 and at no tier from
/// 1 to 4.
pub proof fn missing_row_is_kept_at_tier_zero_only(tier: u8, row: EnrichedRowView)
    requires
        tier <= 4,
        row.display_chromosome.len() == 0 || row.start.len() == 0 || row.end.len() == 0,
    ensures
        keeps(tier, row) <==> tier == 0,
{
}

/// The row of a matrix line whose key the index does not know is kept at tier
/// 0 and at no tier from 1 to 4.
pub proof fn unknown_gene_is_kept_at_tier_zero_only(
    index: Map<Seq<char>, Coordinates>,
    line: Seq<char>,
    tier: u8,
)
    requires
        tier <= 4,
        !index.contains_key(split_on(line, '\t')[0]),
    ensures
        keeps(tier, joined_row(index, line)) <==> tier == 0,
{
}

/// Tier 0 retains every row, unchanged.
pub proof fn tier_zero_retains_all(rows: Seq<EnrichedRowView>)
    ensures
        retained_rows(0, rows) == rows,
    decreases rows.len(),
{
    if rows.len() > 0 {
        tier_zero_retains_all(rows.drop_last());
        assert(rows.drop_last().push(rows.last()) =~= rows);
    } else {
        assert(rows =~= Seq::<EnrichedRowView>::empty());
    }
}

/// The tiers grow stricter: a row that a tier from 1 to 4 keeps is kept by
/// the tier below it.
pub proof fn stricter_tier_keeps_less(tier: u8, row: EnrichedRowView)
    requires
        tier < 4,
        keeps((tier + 1) as u8, row),
    ensures
        keeps(tier, row),
{
}

/// A tier retains no more rows than came in.
pub proof fn lemma_retained_rows_len(tier: u8, rows: Seq<EnrichedRowView>)
    ensures
        retained_rows(tier, rows).len() <= rows.len(),
    decreases rows.len(),
{
    if rows.len() > 0 {
        lemma_retained_rows_len(tier, rows.drop_last());
    }
}

/// A row is among those that a tier retains exactly if it is a row that the
/// tier keeps, as the tier displays it.
pub proof fn retained_rows_are_the_rows_kept(tier: u8, rows: Seq<EnrichedRowView>, row: EnrichedRowView)
    ensures
        retained_rows(tier, rows).contains(row) <==> exists|source: EnrichedRowView|
            #[trigger] rows.contains(source) && keeps(tier, source) && row == displayed(tier, source),
    decreases rows.len(),
{
    if rows.len() > 0 {
        let before = rows.drop_last();
        let last = rows.len() - 1;
        retained_rows_are_the_rows_kept(tier, before, row);
        let retained = retained_rows(tier, rows);
        let retained_before = retained_rows(tier, before);
        if retained.contains(row) {
            let i = choose|i: int| 0 <= i < retained.len() && retained[i] == row;
            if i < retained_before.len() {
                assert(retained_before[i] == row);
                let source = choose|source: EnrichedRowView|
                    #[trigger] before.contains(source) && keeps(tier, source) && row == displayed(
                        tier,
                        source,
                    );
                let j = choose|j: int| 0 <= j < before.len() && before[j] == source;
                assert(rows[j] == source);
                assert(rows.contains(source));
            } else {
                assert(rows[last] == rows.last());
                assert(rows.contains(rows.last()));
            }
        }
        if exists|source: EnrichedRowView|
            #[trigger] rows.contains(source) && keeps(tier, source) && row == displayed(tier, source) {
            let source = choose|source: EnrichedRowView|
                #[trigger] rows.contains(source) && keeps(tier, source) && row == displayed(
                    tier,
                    source,
                );
            let j = choose|j: int| 0 <= j < rows.len() && rows[j] == source;
            if j < last {
                assert(before[j] == source);
                assert(before.contains(source));
                let i = choose|i: int| 0 <= i < retained_before.len() && retained_before[i] == row;
                assert(retained[i] == row);
            } else {
                assert(retained.last() == row);
            }
        }
    }
}

/// Classifies a row.
pub fn classify(row: &EnrichedRow) -> (c: Classification)
    ensures
        c == classification(row@),
{
    let suffix = strip_chr(&row.display_chromosome);
    let number = parse_u64(&suffix);
    Classification {
        is_missing: row.display_chromosome.len() == 0 || row.start.len() == 0 || row.end.len()
            == 0,
        is_non_chromosomal: !starts_with_chr(&row.display_chromosome),
        is_special: suffix_is_special(&suffix),
        is_numeric: number.is_some(),
        numeric_value: match number {
            Some(n) => n,
            None => 0,
        },
    }
}

/// Whether `tier` discards a row classified as `c`.
pub fn is_discarded(tier: u8, c: &Classification) -> (r: bool)
    ensures
        r == discards(tier, *c),
{
    1 <= tier && tier <= STRICTEST_TIER && (c.is_missing || (tier >= 2 && c.is_non_chromosomal) || (
    tier >= 3 && c.is_special) || (tier >= 4 && (!c.is_numeric || c.numeric_value > 22)))
}

/// Filters one row: hands it on as the tier displays it, or discards it.
pub fn filter_row(tier: u8, row: EnrichedRow) -> (kept: Option<EnrichedRow>)
    ensures
        kept is Some <==> keeps(tier, row@),
        kept is Some ==> kept->0@ == displayed(tier, row@),
{
    let c = classify(&row);
    if is_discarded(tier, &c) {
        None
    } else if tier == STRICTEST_TIER {
        let display_chromosome = strip_chr(&row.display_chromosome);
        Some(
            EnrichedRow {
                display_chromosome,
                start: row.start,
                end: row.end,
                original_columns: row.original_columns,
            },
        )
    } else {
        Some(row)
    }
}

/// Filters the rows of a matrix.
pub fn filter_rows(tier: u8, rows: Vec<EnrichedRow>) -> (retained: Vec<EnrichedRow>)
    ensures
        row_views(retained@) == retained_rows(tier, row_views(rows@)),
{
    let ghost all = row_views(rows@);
    let total = rows.len();
    let mut rest = reversed_rows(rows);
    let mut retained: Vec<EnrichedRow> = Vec::new();
    let mut done: usize = 0;
    assert(all.take(0) =~= Seq::<EnrichedRowView>::empty());
    assert(row_views(retained@) =~= Seq::<EnrichedRowView>::empty());
    while done < total
        invariant
            done <= total,
            total == all.len(),
            rest.len() == total - done,
            forall|j: int| 0 <= j < rest.len() ==> (#[trigger] rest@[j])@ == all[total - 1 - j],
            row_views(retained@) == retained_rows(tier, all.take(done as int)),
        decreases total - done,
    {
        proof {
            assert(all.take(done + 1).drop_last() =~= all.take(done as int));
            assert(all.take(done + 1).last() == all[done as int]);
            assert(rest@[rest.len() - 1]@ == all[done as int]);
        }
        match rest.pop() {
            Some(row) => {
                let ghost before = row_views(retained@);
                match filter_row(tier, row) {
                    Some(kept) => {
                        retained.push(kept);
                        assert(row_views(retained@) =~= before.push(kept@));
                    },
                    None => {},
                }
            },
            None => {},
        }
        done = done + 1;
    }
    assert(all.take(total as int) =~= all);
    retained
}

} // verus!
