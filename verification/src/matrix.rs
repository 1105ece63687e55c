//! The matrix joiner: every data line of the expression matrix becomes a row
//! that carries the coordinates of its gene.

use vstd::prelude::*;
use crate::annotation::{
    annotation_record,
    index_holds_last_record,
    index_of,
    AnnotationIndex,
    Coordinates,
};
use crate::text::{copy_text, is_blank, line_is_blank, split_fields, split_on, views};

verus! {

/// A matrix row together with the coordinates of its gene. The three
/// coordinate texts are empty where the annotation does not know the gene.
pub struct EnrichedRow {
    pub display_chromosome: Vec<char>,
    pub start: Vec<char>,
    pub end: Vec<char>,
    pub original_columns: Vec<Vec<char>>,
}

/// The texts of an [`EnrichedRow`].
pub ghost struct EnrichedRowView {
    pub display_chromosome: Seq<char>,
    pub start: Seq<char>,
    pub end: Seq<char>,
    pub original_columns: Seq<Seq<char>>,
}

impl View for EnrichedRow {
    type V = EnrichedRowView;

    open spec fn view(&self) -> EnrichedRowView {
        EnrichedRowView {
            display_chromosome: self.display_chromosome@,
            start: self.start@,
            end: self.end@,
            original_columns: views(self.original_columns@),
        }
    }
}

/// The views of a sequence of rows.
pub open spec fn row_views(rows: Seq<EnrichedRow>) -> Seq<EnrichedRowView> {
    Seq::new(rows.len(), |i: int| rows[i]@)
}

/// The row that a matrix line becomes. Its columns are the line's
/// tab-separated fields and its key is the first of them. Where the index
/// knows the key the row carries exactly the indexed coordinates, and three
/// empty texts where it does not.
pub open spec fn joined_row(index: Map<Seq<char>, Coordinates>, line: Seq<char>) -> EnrichedRowView {
    let columns = split_on(line, '\t');
    let key = columns[0];
    if index.contains_key(key) {
        EnrichedRowView {
            display_chromosome: index[key].chromosome,
            start: index[key].start,
            end: index[key].end,
            original_columns: columns,
        }
    } else {
        EnrichedRowView {
            display_chromosome: Seq::empty(),
            start: Seq::empty(),
            end: Seq::empty(),
            original_columns: columns,
        }
    }
}

/// The rows of the data lines of a matrix, in order: one for every line that
/// is not blank.
pub open spec fn joined_rows(index: Map<Seq<char>, Coordinates>, lines: Seq<Seq<char>>) -> Seq<
    EnrichedRowView,
>
    decreases lines.len(),
{
    if lines.len() == 0 {
        Seq::empty()
    } else {
        let before = joined_rows(index, lines.drop_last());
        if is_blank(lines.last()) {
            before
        } else {
            before.push(joined_row(index, lines.last()))
        }
    }
}

/// A matrix line whose key is the gene of an annotation record becomes a row
/// with exactly that record's coordinates, provided that no later annotation
/// line contributes a record of the same gene.
pub proof fn known_gene_gets_its_coordinates(annotation: Seq<Seq<char>>, i: int, line: Seq<char>)
    requires
        0 <= i < annotation.len(),
        annotation_record(annotation[i]) is Some,
        forall|j: int|
            i < j < annotation.len() && (#[trigger] annotation_record(annotation[j])) is Some
                ==> annotation_record(annotation[j])->0.gene_id != annotation_record(
                annotation[i],
            )->0.gene_id,
        split_on(line, '\t')[0] == annotation_record(annotation[i])->0.gene_id,
    ensures
        joined_row(index_of(annotation), line) == (EnrichedRowView {
            display_chromosome: annotation_record(annotation[i])->0.chromosome,
            start: annotation_record(annotation[i])->0.start,
            end: annotation_record(annotation[i])->0.end,
            original_columns: split_on(line, '\t'),
        }),
{
    index_holds_last_record(annotation, i);
}

/// A matrix line whose key the index does not know becomes a row with three
/// empty coordinates.
pub proof fn unknown_gene_gets_empty_coordinates(
    index: Map<Seq<char>, Coordinates>,
    line: Seq<char>,
)
    requires
        !index.contains_key(split_on(line, '\t')[0]),
    ensures
        joined_row(index, line) == (EnrichedRowView {
            display_chromosome: Seq::empty(),
            start: Seq::empty(),
            end: Seq::empty(),
            original_columns: split_on(line, '\t'),
        }),
{
}

/// There are no more rows than data lines.
pub proof fn lemma_joined_rows_len(index: Map<Seq<char>, Coordinates>, lines: Seq<Seq<char>>)
    ensures
        joined_rows(index, lines).len() <= lines.len(),
    decreases lines.len(),
{
    if lines.len() > 0 {
        lemma_joined_rows_len(index, lines.drop_last());
    }
}

/// A row is among the rows of a matrix exactly if it is the row of one of
/// its data lines that is not blank.
pub proof fn joined_rows_are_the_rows_of_the_lines(
    index: Map<Seq<char>, Coordinates>,
    lines: Seq<Seq<char>>,
    row: EnrichedRowView,
)
    ensures
        joined_rows(index, lines).contains(row) <==> exists|i: int|
            0 <= i < lines.len() && !is_blank(#[trigger] lines[i]) && row == joined_row(
                index,
                lines[i],
            ),
    decreases lines.len(),
{
    if lines.len() > 0 {
        let before = lines.drop_last();
        let last = lines.len() - 1;
        joined_rows_are_the_rows_of_the_lines(index, before, row);
        let rows = joined_rows(index, lines);
        let rows_before = joined_rows(index, before);
        if rows.contains(row) {
            let k = choose|k: int| 0 <= k < rows.len() && rows[k] == row;
            if k < rows_before.len() {
                assert(rows_before[k] == row);
                let i = choose|i: int|
                    0 <= i < before.len() && !is_blank(#[trigger] before[i]) && row == joined_row(
                        index,
                        before[i],
                    );
                assert(lines[i] == before[i]);
            } else {
                assert(lines[last] == lines.last());
            }
        }
        if exists|i: int|
            0 <= i < lines.len() && !is_blank(#[trigger] lines[i]) && row == joined_row(
                index,
                lines[i],
            ) {
            let i = choose|i: int|
                0 <= i < lines.len() && !is_blank(#[trigger] lines[i]) && row == joined_row(
                    index,
                    lines[i],
                );
            if i < last {
                assert(before[i] == lines[i]);
                let k = choose|k: int| 0 <= k < rows_before.len() && rows_before[k] == row;
                assert(rows[k] == row);
            } else {
                assert(rows.last() == row);
            }
        }
    }
}

/// A matrix after the join: the fields of its header line and its rows.
pub struct JoinedMatrix {
    pub header: Vec<Vec<char>>,
    pub rows: Vec<EnrichedRow>,
}

/// Joins one data line of the matrix with the index.
pub fn join_line(index: &AnnotationIndex, line: &[char]) -> (row: EnrichedRow)
    requires
        index.wf(),
    ensures
        row@ == joined_row(index@, line@),
{
    let columns = split_fields(line, '\t');
    assert(views(columns@)[0] == columns@[0]@);
    match index.get(&columns[0]) {
        Some(record) => {
            let display_chromosome = copy_text(&record.chromosome);
            let start = copy_text(&record.start);
            let end = copy_text(&record.end);
            EnrichedRow { display_chromosome, start, end, original_columns: columns }
        },
        None => EnrichedRow {
            display_chromosome: Vec::new(),
            start: Vec::new(),
            end: Vec::new(),
            original_columns: columns,
        },
    }
}

/// Joins a matrix, given by its lines, with the index. The first line is the
/// header; a matrix without any line has none and cannot be joined.
pub fn join_matrix(index: &AnnotationIndex, lines: &Vec<Vec<char>>) -> (joined: Option<
    JoinedMatrix,
>)
    requires
        index.wf(),
    ensures
        joined is Some <==> lines.len() > 0,
        joined is Some ==> views(joined->0.header@) == split_on(lines@[0]@, '\t'),
        joined is Some ==> row_views(joined->0.rows@) == joined_rows(
            index@,
            views(lines@).skip(1),
        ),
{
    if lines.len() == 0 {
        return None;
    }
    let header = split_fields(&lines[0], '\t');
    let mut rows: Vec<EnrichedRow> = Vec::new();
    let mut i: usize = 1;
    let ghost data = views(lines@).skip(1);
    assert(data.take(0) =~= Seq::<Seq<char>>::empty());
    assert(row_views(rows@) =~= Seq::<EnrichedRowView>::empty());
    while i < lines.len()
        invariant
            1 <= i <= lines.len(),
            index.wf(),
            data == views(lines@).skip(1),
            row_views(rows@) == joined_rows(index@, data.take(i - 1)),
        decreases lines.len() - i,
    {
        proof {
            assert(data.take(i as int).drop_last() =~= data.take(i - 1));
            assert(data.take(i as int).last() == lines@[i as int]@);
        }
        if !line_is_blank(&lines[i]) {
            let ghost before = row_views(rows@);
            let row = join_line(index, &lines[i]);
            rows.push(row);
            assert(row_views(rows@) =~= before.push(row@));
        }
        i = i + 1;
    }
    assert(data.take(lines.len() - 1) =~= data);
    Some(JoinedMatrix { header, rows })
}

/// The same rows in the opposite order.
pub fn reversed_rows(rows: Vec<EnrichedRow>) -> (reversed: Vec<EnrichedRow>)
    ensures
        reversed.len() == rows.len(),
        forall|i: int| 0 <= i < rows.len() ==> reversed@[i] == rows@[rows.len() - 1 - i],
{
    let ghost all = rows@;
    let mut rest = rows;
    let mut reversed: Vec<EnrichedRow> = Vec::new();
    while rest.len() > 0
        invariant
            rest.len() + reversed.len() == all.len(),
            rest@ == all.take(rest.len() as int),
            forall|i: int| 0 <= i < reversed.len() ==> reversed@[i] == all[all.len() - 1 - i],
        decreases rest.len(),
    {
        match rest.pop() {
            Some(row) => {
                assert(rest@ =~= all.take(rest.len() as int));
                reversed.push(row);
            },
            None => {},
        }
    }
    reversed
}

} // verus!
