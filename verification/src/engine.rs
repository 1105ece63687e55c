//! The engine: index, join, filter, sort and emit, one after the other.

use vstd::prelude::*;
use crate::annotation::{build_index, index_of};
use crate::emitter::{render_table, table};
use crate::filter::{
    displayed,
    filter_rows,
    keeps,
    lemma_retained_rows_len,
    retained_rows,
    retained_rows_are_the_rows_kept,
    stricter_tier_keeps_less,
};
use crate::matrix::{
    join_matrix,
    joined_row,
    joined_rows,
    joined_rows_are_the_rows_of_the_lines,
    lemma_joined_rows_len,
    EnrichedRowView,
};
use crate::sorter::{
    ordered,
    sort_rows,
    sorted_rows,
    sorted_rows_are_ordered,
    sorted_rows_contain_the_same_rows,
};
use crate::text::{is_blank, split_lines, split_on, text_lines, views};

verus! {

/// Why a run gives no table.
#[derive(Debug)]
pub enum EngineError {
    /// The matrix has no header line.
    EmptyMatrix,
}

/// The rows of the table for an annotation and the data lines of a matrix:
/// every line that is not blank is joined with the index of the annotation,
/// and the rows that the tier retains stand in genomic order.
pub open spec fn output_rows(annotation: Seq<Seq<char>>, data: Seq<Seq<char>>, tier: u8) -> Seq<
    EnrichedRowView,
> {
    sorted_rows(retained_rows(tier, joined_rows(index_of(annotation), data)))
}

/// The rows of the table stand in genomic order: of two rows, the one in
/// front has the smaller chromosome rank or, with equal ranks, a start that
/// is no larger.
pub proof fn output_rows_are_ordered(annotation: Seq<Seq<char>>, data: Seq<Seq<char>>, tier: u8)
    requires
        data.len() <= usize::MAX,
    ensures
        ordered(output_rows(annotation, data, tier)),
{
    let joined = joined_rows(index_of(annotation), data);
    lemma_joined_rows_len(index_of(annotation), data);
    lemma_retained_rows_len(tier, joined);
    sorted_rows_are_ordered(retained_rows(tier, joined));
}

/// A row stands in the table exactly if it is the row of a data line that is
/// not blank and that the tier keeps, as the tier displays it.
pub proof fn output_rows_are_the_rows_kept(
    annotation: Seq<Seq<char>>,
    data: Seq<Seq<char>>,
    tier: u8,
    row: EnrichedRowView,
)
    requires
        data.len() <= usize::MAX,
    ensures
        output_rows(annotation, data, tier).contains(row) <==> exists|i: int|
            0 <= i < data.len() && !is_blank(#[trigger] data[i]) && keeps(
                tier,
                joined_row(index_of(annotation), data[i]),
            ) && row == displayed(tier, joined_row(index_of(annotation), data[i])),
{
    let index = index_of(annotation);
    let joined = joined_rows(index, data);
    let retained = retained_rows(tier, joined);
    lemma_joined_rows_len(index, data);
    lemma_retained_rows_len(tier, joined);
    sorted_rows_contain_the_same_rows(retained, row);
    retained_rows_are_the_rows_kept(tier, joined, row);
    if retained.contains(row) {
        let source = choose|source: EnrichedRowView|
            #[trigger] joined.contains(source) && keeps(tier, source) && row == displayed(
                tier,
                source,
            );
        joined_rows_are_the_rows_of_the_lines(index, data, source);
    }
    if exists|i: int|
        0 <= i < data.len() && !is_blank(#[trigger] data[i]) && keeps(
            tier,
            joined_row(index, data[i]),
        ) && row == displayed(tier, joined_row(index, data[i])) {
        let i = choose|i: int|
            0 <= i < data.len() && !is_blank(#[trigger] data[i]) && keeps(
                tier,
                joined_row(index, data[i]),
            ) && row == displayed(tier, joined_row(index, data[i]));
        let source = joined_row(index, data[i]);
        joined_rows_are_the_rows_of_the_lines(index, data, source);
        assert(joined.contains(source));
    }
}

/// The row of a data line whose key the annotation does not know stands in
/// the table at tier 0 and at no tier from 1 to 4.
pub proof fn unknown_gene_is_in_the_table_at_tier_zero_only(
    annotation: Seq<Seq<char>>,
    data: Seq<Seq<char>>,
    tier: u8,
    i: int,
)
    requires
        data.len() <= usize::MAX,
        tier <= 4,
        0 <= i < data.len(),
        !is_blank(data[i]),
        !index_of(annotation).contains_key(split_on(data[i], '\t')[0]),
    ensures
        output_rows(annotation, data, tier).contains(
            displayed(tier, joined_row(index_of(annotation), data[i])),
        ) <==> tier == 0,
{
    let index = index_of(annotation);
    let row = displayed(tier, joined_row(index, data[i]));
    output_rows_are_the_rows_kept(annotation, data, tier, row);
}

/// The tiers grow stricter: every row of the table at a tier from 1 to 4 is
/// a row of the table at the tier below it, as the stricter tier displays it.
pub proof fn stricter_tier_outputs_subset(
    annotation: Seq<Seq<char>>,
    data: Seq<Seq<char>>,
    tier: u8,
    row: EnrichedRowView,
)
    requires
        data.len() <= usize::MAX,
        tier < 4,
        output_rows(annotation, data, (tier + 1) as u8).contains(row),
    ensures
        exists|source: EnrichedRowView|
            #[trigger] output_rows(annotation, data, tier).contains(source) && row == displayed(
                (tier + 1) as u8,
                source,
            ),
{
    let index = index_of(annotation);
    output_rows_are_the_rows_kept(annotation, data, (tier + 1) as u8, row);
    let i = choose|i: int|
        0 <= i < data.len() && !is_blank(#[trigger] data[i]) && keeps(
            (tier + 1) as u8,
            joined_row(index, data[i]),
        ) && row == displayed((tier + 1) as u8, joined_row(index, data[i]));
    let source = joined_row(index, data[i]);
    stricter_tier_keeps_less(tier, source);
    output_rows_are_the_rows_kept(annotation, data, tier, source);
    assert(output_rows(annotation, data, tier).contains(source));
}

/// The table for an annotation and a matrix given by their lines, absent
/// where the matrix has no line. The first matrix line is the header. Every
/// other line that is not blank is joined with the index of the annotation;
/// the rows that the tier retains follow the header in genomic order.
pub open spec fn table_of_lines(
    annotation: Seq<Seq<char>>,
    matrix: Seq<Seq<char>>,
    tier: u8,
) -> Option<Seq<char>> {
    if matrix.len() == 0 {
        None
    } else {
        Some(table(split_on(matrix[0], '\t'), output_rows(annotation, matrix.skip(1), tier)))
    }
}

/// The table for the text of an annotation and the text of a matrix.
pub open spec fn run_output(annotation: Seq<char>, matrix: Seq<char>, tier: u8) -> Option<
    Seq<char>,
> {
    table_of_lines(text_lines(annotation), text_lines(matrix), tier)
}

/// Whether `result` is what a run gives for a table that is `expected`.
pub open spec fn gives(result: Result<Vec<char>, EngineError>, expected: Option<Seq<char>>) -> bool {
    match result {
        Ok(out) => expected == Some(out@),
        Err(_) => expected is None,
    }
}

/// Two runs on the same annotation and matrix at the same tier give the same
/// table, character for character, or both give none.
pub proof fn runs_agree(
    annotation: Seq<char>,
    matrix: Seq<char>,
    tier: u8,
    first: Result<Vec<char>, EngineError>,
    second: Result<Vec<char>, EngineError>,
)
    requires
        gives(first, run_output(annotation, matrix, tier)),
        gives(second, run_output(annotation, matrix, tier)),
    ensures
        first is Ok <==> second is Ok,
        first is Ok ==> first->Ok_0@ == second->Ok_0@,
{
}

/// Runs the engine on an annotation and a matrix that are given line by line.
pub fn run_lines(annotation: &Vec<Vec<char>>, matrix: &Vec<Vec<char>>, tier: u8) -> (result: Result<
    Vec<char>,
    EngineError,
>)
    ensures
        gives(result, table_of_lines(views(annotation@), views(matrix@), tier)),
{
    let index = build_index(annotation);
    match join_matrix(&index, matrix) {
        None => Err(EngineError::EmptyMatrix),
        Some(joined) => {
            assert(views(matrix@)[0] == matrix@[0]@);
            let retained = filter_rows(tier, joined.rows);
            let sorted = sort_rows(&retained);
            Ok(render_table(&joined.header, &sorted))
        },
    }
}

/// Runs the engine on the text of an annotation and the text of a matrix and
/// gives the text of the table. The number of threads has no effect on it.
pub fn run(annotation: &[char], matrix: &[char], _threads: usize, tier: u8) -> (result: Result<
    Vec<char>,
    EngineError,
>)
    ensures
        gives(result, run_output(annotation@, matrix@, tier)),
{
    let annotation_lines = split_lines(annotation);
    let matrix_lines = split_lines(matrix);
    run_lines(&annotation_lines, &matrix_lines, tier)
}

} // verus!
