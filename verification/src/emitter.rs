//! The table emitter: the header and the rows as tab-separated lines.

use vstd::prelude::*;
use crate::matrix::{row_views, EnrichedRow, EnrichedRowView};
use crate::text::{append_text, join, lemma_join_push, views};

verus! {

/// The title of the chromosome column.
pub open spec fn chr_title() -> Seq<char> {
    seq!['C', 'h', 'r']
}

/// The title of the start column.
pub open spec fn start_title() -> Seq<char> {
    seq!['s', 't', 'a', 'r', 't']
}

/// The title of the end column.
pub open spec fn end_title() -> Seq<char> {
    seq!['e', 'n', 'd']
}

/// The header line: `#`, then the three coordinate titles and the matrix's
/// own header fields, joined by tabs.
pub open spec fn header_line(header: Seq<Seq<char>>) -> Seq<char> {
    seq!['#'] + join(seq![chr_title(), start_title(), end_title()] + header, '\t')
}

/// The line of a row: its chromosome, start and end and its original
/// columns, joined by tabs.
pub open spec fn row_line(row: EnrichedRowView) -> Seq<char> {
    join(seq![row.display_chromosome, row.start, row.end] + row.original_columns, '\t')
}

/// The lines of the rows in their order, each ended by a line feed.
pub open spec fn row_lines(rows: Seq<EnrichedRowView>) -> Seq<char>
    decreases rows.len(),
{
    if rows.len() == 0 {
        Seq::empty()
    } else {
        row_lines(rows.drop_last()) + row_line(rows.last()).push('\n')
    }
}

/// The whole table: the header line, then the row lines.
pub open spec fn table(header: Seq<Seq<char>>, rows: Seq<EnrichedRowView>) -> Seq<char> {
    header_line(header).push('\n') + row_lines(rows)
}

/// Writes three fields and then `rest`, joined by tabs and ended by a line
/// feed, at the end of `out`.
pub fn write_line(
    out: &mut Vec<char>,
    first: &[char],
    second: &[char],
    third: &[char],
    rest: &Vec<Vec<char>>,
)
    ensures
        final(out)@ == old(out)@ + join(seq![first@, second@, third@] + views(rest@), '\t').push(
            '\n',
        ),
{
    let ghost lead = seq![first@, second@, third@];
    let ghost fields = views(rest@);
    append_text(out, first);
    out.push('\t');
    append_text(out, second);
    out.push('\t');
    append_text(out, third);
    proof {
        lemma_join_push(seq![first@], second@, '\t');
        assert(seq![first@].push(second@) =~= seq![first@, second@]);
        lemma_join_push(seq![first@, second@], third@, '\t');
        assert(seq![first@, second@].push(third@) =~= lead);
        assert(lead + fields.take(0) =~= lead);
        assert(out@ =~= old(out)@ + join(lead, '\t'));
    }
    let mut j: usize = 0;
    while j < rest.len()
        invariant
            j <= rest.len(),
            lead.len() == 3,
            fields == views(rest@),
            out@ == old(out)@ + join(lead + fields.take(j as int), '\t'),
        decreases rest.len() - j,
    {
        out.push('\t');
        append_text(out, &rest[j]);
        proof {
            lemma_join_push(lead + fields.take(j as int), fields[j as int], '\t');
            assert((lead + fields.take(j as int)).push(fields[j as int]) =~= lead + fields.take(
                j + 1,
            ));
            assert(out@ =~= old(out)@ + join(lead + fields.take(j + 1), '\t'));
        }
        j = j + 1;
    }
    assert(fields.take(rest.len() as int) =~= fields);
    out.push('\n');
    assert(out@ =~= old(out)@ + join(lead + fields, '\t').push('\n'));
}

/// Renders the table of a header and rows.
pub fn render_table(header: &Vec<Vec<char>>, rows: &Vec<EnrichedRow>) -> (out: Vec<char>)
    ensures
        out@ == table(views(header@), row_views(rows@)),
{
    let mut out: Vec<char> = Vec::new();
    out.push('#');
    let chr: Vec<char> = vec!['C', 'h', 'r'];
    let start: Vec<char> = vec!['s', 't', 'a', 'r', 't'];
    let end: Vec<char> = vec!['e', 'n', 'd'];
    assert(chr@ =~= chr_title());
    assert(start@ =~= start_title());
    assert(end@ =~= end_title());
    write_line(&mut out, &chr, &start, &end, header);
    let ghost all = row_views(rows@);
    assert(out@ =~= header_line(views(header@)).push('\n'));
    assert(all.take(0) =~= Seq::<EnrichedRowView>::empty());
    assert(out@ =~= table(views(header@), all.take(0)));
    let mut i: usize = 0;
    while i < rows.len()
        invariant
            i <= rows.len(),
            all == row_views(rows@),
            out@ == table(views(header@), all.take(i as int)),
        decreases rows.len() - i,
    {
        let row = &rows[i];
        proof {
            assert(all.take(i + 1).drop_last() =~= all.take(i as int));
            assert(all.take(i + 1).last() == row@);
        }
        write_line(&mut out, &row.display_chromosome, &row.start, &row.end, &row.original_columns);
        assert(out@ =~= table(views(header@), all.take(i + 1)));
        i = i + 1;
    }
    assert(all.take(rows.len() as int) =~= all);
    out
}

} // verus!
