//! The annotation index: from gene identifier to genomic coordinates, built
//! from the gene records of a GTF annotation.

use vstd::prelude::*;
use crate::text::{copy_text, same_text, split_fields, split_on, views};

verus! {

/// Where a gene lies: chromosome, start and end, each as written in the
/// annotation.
pub ghost struct Coordinates {
    pub chromosome: Seq<char>,
    pub start: Seq<char>,
    pub end: Seq<char>,
}

/// One gene of the annotation.
pub struct GeneRecord {
    pub gene_id: Vec<char>,
    pub chromosome: Vec<char>,
    pub start: Vec<char>,
    pub end: Vec<char>,
}

/// The texts of a [`GeneRecord`].
pub ghost struct GeneRecordView {
    pub gene_id: Seq<char>,
    pub chromosome: Seq<char>,
    pub start: Seq<char>,
    pub end: Seq<char>,
}

impl GeneRecordView {
    /// The record's coordinates, without its identifier.
    pub open spec fn coordinates(self) -> Coordinates {
        Coordinates { chromosome: self.chromosome, start: self.start, end: self.end }
    }
}

impl View for GeneRecord {
    type V = GeneRecordView;

    open spec fn view(&self) -> GeneRecordView {
        GeneRecordView {
            gene_id: self.gene_id@,
            chromosome: self.chromosome@,
            start: self.start@,
            end: self.end@,
        }
    }
}

/// The feature type of the lines that contribute a record.
pub open spec fn gene_feature() -> Seq<char> {
    seq!['g', 'e', 'n', 'e']
}

/// The part of an attributes column before its first semicolon.
pub open spec fn first_attribute(attributes: Seq<char>) -> Seq<char> {
    split_on(attributes, ';')[0]
}

/// The text between the first two double quotes of `attribute`, absent where
/// it holds fewer than two.
pub open spec fn quoted_value(attribute: Seq<char>) -> Option<Seq<char>> {
    let parts = split_on(attribute, '"');
    if parts.len() >= 3 {
        Some(parts[1])
    } else {
        None
    }
}

/// The gene record that an annotation line contributes, if any. A line
/// contributes none when it is a comment (it begins with `#`), has fewer than
/// nine tab-separated columns, has a feature type other than `gene` in its
/// third column, or has no quoted, non-empty value in the first attribute of
/// its ninth column. Otherwise that value is the gene identifier, and the
/// chromosome, start and end are the first, fourth and fifth columns.
pub open spec fn annotation_record(line: Seq<char>) -> Option<GeneRecordView> {
    let fields = split_on(line, '\t');
    if line.len() > 0 && line[0] == '#' {
        None
    } else if fields.len() < 9 || fields[2] != gene_feature() {
        None
    } else {
        match quoted_value(first_attribute(fields[8])) {
            Some(id) => if id.len() > 0 {
                Some(
                    GeneRecordView {
                        gene_id: id,
                        chromosome: fields[0],
                        start: fields[3],
                        end: fields[4],
                    },
                )
            } else {
                None
            },
            None => None,
        }
    }
}

/// The mapping that a sequence of records builds when each is entered in
/// turn and a later record replaces an earlier one with the same identifier.
pub open spec fn records_map(records: Seq<GeneRecordView>) -> Map<Seq<char>, Coordinates>
    decreases records.len(),
{
    if records.len() == 0 {
        Map::empty()
    } else {
        records_map(records.drop_last()).insert(
            records.last().gene_id,
            records.last().coordinates(),
        )
    }
}

/// The index that the lines of an annotation build, read in order.
pub open spec fn index_of(lines: Seq<Seq<char>>) -> Map<Seq<char>, Coordinates>
    decreases lines.len(),
{
    if lines.len() == 0 {
        Map::empty()
    } else {
        let before = index_of(lines.drop_last());
        match annotation_record(lines.last()) {
            Some(record) => before.insert(record.gene_id, record.coordinates()),
            None => before,
        }
    }
}

/// The index holds, under the identifier of a gene record, the coordinates of
/// that record, provided that no later line contributes a record of the same
/// gene.
pub proof fn index_holds_last_record(lines: Seq<Seq<char>>, i: int)
    requires
        0 <= i < lines.len(),
        annotation_record(lines[i]) is Some,
        forall|j: int|
            i < j < lines.len() && (#[trigger] annotation_record(lines[j])) is Some
                ==> annotation_record(lines[j])->0.gene_id != annotation_record(
                lines[i],
            )->0.gene_id,
    ensures
        index_of(lines).contains_key(annotation_record(lines[i])->0.gene_id),
        index_of(lines)[annotation_record(lines[i])->0.gene_id] == annotation_record(
            lines[i],
        )->0.coordinates(),
    decreases lines.len(),
{
    if i < lines.len() - 1 {
        let before = lines.drop_last();
        assert(before[i] == lines[i]);
        assert forall|j: int|
            i < j < before.len() && (#[trigger] annotation_record(before[j])) is Some implies annotation_record(
            before[j],
        )->0.gene_id != annotation_record(before[i])->0.gene_id by {
            assert(before[j] == lines[j]);
        }
        index_holds_last_record(before, i);
        assert(lines.last() == lines[lines.len() - 1]);
        assert(annotation_record(lines[lines.len() - 1]) is Some ==> annotation_record(
            lines[lines.len() - 1],
        )->0.gene_id != annotation_record(lines[i])->0.gene_id);
    }
}

/// The index knows no gene but those of the annotation's gene records.
pub proof fn index_keys_come_from_records(lines: Seq<Seq<char>>, gene_id: Seq<char>)
    requires
        index_of(lines).contains_key(gene_id),
    ensures
        exists|i: int|
            0 <= i < lines.len() && (#[trigger] annotation_record(lines[i])) == Some(
                GeneRecordView {
                    gene_id,
                    chromosome: index_of(lines)[gene_id].chromosome,
                    start: index_of(lines)[gene_id].start,
                    end: index_of(lines)[gene_id].end,
                },
            ),
    decreases lines.len(),
{
    if lines.len() > 0 {
        let before = lines.drop_last();
        let last = lines.len() - 1;
        assert(lines.last() == lines[last]);
        match annotation_record(lines[last]) {
            Some(record) => {
                if record.gene_id == gene_id {
                    assert(annotation_record(lines[last]) == Some(
                        GeneRecordView {
                            gene_id,
                            chromosome: index_of(lines)[gene_id].chromosome,
                            start: index_of(lines)[gene_id].start,
                            end: index_of(lines)[gene_id].end,
                        },
                    ));
                } else {
                    index_keys_come_from_records(before, gene_id);
                    let i = choose|i: int|
                        0 <= i < before.len() && (#[trigger] annotation_record(before[i])) == Some(
                            GeneRecordView {
                                gene_id,
                                chromosome: index_of(before)[gene_id].chromosome,
                                start: index_of(before)[gene_id].start,
                                end: index_of(before)[gene_id].end,
                            },
                        );
                    assert(before[i] == lines[i]);
                }
            },
            None => {
                index_keys_come_from_records(before, gene_id);
                let i = choose|i: int|
                    0 <= i < before.len() && (#[trigger] annotation_record(before[i])) == Some(
                        GeneRecordView {
                            gene_id,
                            chromosome: index_of(before)[gene_id].chromosome,
                            start: index_of(before)[gene_id].start,
                            end: index_of(before)[gene_id].end,
                        },
                    );
                assert(before[i] == lines[i]);
            },
        }
    }
}

/// The views of a sequence of gene records.
pub open spec fn record_views(records: Seq<GeneRecord>) -> Seq<GeneRecordView> {
    Seq::new(records.len(), |i: int| records[i]@)
}

/// The number of buckets of an index.
pub const BUCKETS: usize = 65536;

/// The bucket of a gene identifier: its characters folded into a number
/// below the number of buckets.
pub open spec fn bucket_of(gene_id: Seq<char>) -> int
    decreases gene_id.len(),
{
    if gene_id.len() == 0 {
        0
    } else {
        (bucket_of(gene_id.drop_last()) * 31 + gene_id.last() as u32) % 65536
    }
}

/// Whether `entry` names the last of the first `limit` records that falls
/// into `bucket`, or names none where none of them does.
pub open spec fn is_last_in_bucket(
    records: Seq<GeneRecordView>,
    entry: Option<usize>,
    bucket: int,
    limit: int,
) -> bool {
    match entry {
        Some(i) => i < limit && bucket_of(records[i as int].gene_id) == bucket && forall|j: int|
            i < j < limit ==> bucket_of(#[trigger] records[j].gene_id) != bucket,
        None => forall|j: int|
            0 <= j < limit ==> bucket_of(#[trigger] records[j].gene_id) != bucket,
    }
}

/// A mapping knows no identifier that none of its records has.
pub proof fn lemma_records_map_absent(records: Seq<GeneRecordView>, gene_id: Seq<char>)
    requires
        forall|j: int| 0 <= j < records.len() ==> (#[trigger] records[j]).gene_id != gene_id,
    ensures
        !records_map(records).contains_key(gene_id),
    decreases records.len(),
{
    if records.len() > 0 {
        assert forall|j: int| 0 <= j < records.drop_last().len() implies (
        #[trigger] records.drop_last()[j]).gene_id != gene_id by {
            assert(records.drop_last()[j] == records[j]);
        }
        lemma_records_map_absent(records.drop_last(), gene_id);
        assert(records.last() == records[records.len() - 1]);
    }
}

/// A mapping holds, under an identifier, the coordinates of the last record
/// that has it.
pub proof fn lemma_records_map_last(records: Seq<GeneRecordView>, i: int)
    requires
        0 <= i < records.len(),
        forall|j: int| i < j < records.len() ==> (#[trigger] records[j]).gene_id != records[i].gene_id,
    ensures
        records_map(records).contains_key(records[i].gene_id),
        records_map(records)[records[i].gene_id] == records[i].coordinates(),
    decreases records.len(),
{
    if i < records.len() - 1 {
        let before = records.drop_last();
        assert(before[i] == records[i]);
        assert forall|j: int| i < j < before.len() implies (#[trigger] before[j]).gene_id
            != before[i].gene_id by {
            assert(before[j] == records[j]);
        }
        lemma_records_map_last(before, i);
        assert(records.last() == records[records.len() - 1]);
    }
}

/// A mapping from gene identifier to coordinates in which the record entered
/// last under an identifier is the one found. The records are kept in the
/// order of their entry and chained bucket by bucket, the latest first.
pub struct AnnotationIndex {
    records: Vec<GeneRecord>,
    heads: Vec<Option<usize>>,
    links: Vec<Option<usize>>,
}

impl View for AnnotationIndex {
    type V = Map<Seq<char>, Coordinates>;

    closed spec fn view(&self) -> Map<Seq<char>, Coordinates> {
        records_map(record_views(self.records@))
    }
}

/// The bucket of `gene_id`.
pub fn bucket(gene_id: &[char]) -> (b: usize)
    ensures
        b == bucket_of(gene_id@),
        b < BUCKETS,
{
    let mut b: usize = 0;
    let mut i: usize = 0;
    assert(gene_id@.take(0) =~= Seq::<char>::empty());
    while i < gene_id.len()
        invariant
            i <= gene_id.len(),
            b < 65536,
            b == bucket_of(gene_id@.take(i as int)),
        decreases gene_id.len() - i,
    {
        assert(gene_id@.take(i + 1).drop_last() =~= gene_id@.take(i as int));
        let c: char = gene_id[i];
        let code: u32 = c as u32;
        b = ((b as u64 * 31 + code as u64) % 65536) as usize;
        i = i + 1;
    }
    assert(gene_id@.take(gene_id.len() as int) =~= gene_id@);
    b
}

impl AnnotationIndex {
    /// Whether the chains of the index are in order: each bucket's head names
    /// the last record of the bucket, and each record's link the last record
    /// of its bucket that was entered before it.
    pub closed spec fn wf(&self) -> bool {
        let records = record_views(self.records@);
        &&& self.heads.len() == BUCKETS
        &&& self.links.len() == self.records.len()
        &&& forall|b: int|
            0 <= b < BUCKETS ==> is_last_in_bucket(
                records,
                #[trigger] self.heads@[b],
                b,
                records.len() as int,
            )
        &&& forall|i: int|
            0 <= i < records.len() ==> is_last_in_bucket(
                records,
                #[trigger] self.links@[i],
                bucket_of(records[i].gene_id),
                i,
            )
    }

    /// An index without entries.
    pub fn new() -> (index: AnnotationIndex)
        ensures
            index.wf(),
            index@ == Map::<Seq<char>, Coordinates>::empty(),
    {
        let mut heads: Vec<Option<usize>> = Vec::new();
        let mut b: usize = 0;
        while b < BUCKETS
            invariant
                b <= BUCKETS,
                heads.len() == b,
                forall|k: int| 0 <= k < b ==> heads@[k] is None,
            decreases BUCKETS - b,
        {
            heads.push(None);
            b = b + 1;
        }
        AnnotationIndex { records: Vec::new(), heads, links: Vec::new() }
    }

    /// Enters `record` under its gene identifier, in place of any record
    /// entered under it before.
    pub fn insert(&mut self, record: GeneRecord)
        requires
            old(self).wf(),
        ensures
            final(self).wf(),
            final(self)@ == old(self)@.insert(record@.gene_id, record@.coordinates()),
    {
        let ghost before = record_views(self.records@);
        let ghost old_heads = self.heads@;
        let ghost old_links = self.links@;
        let n = self.records.len();
        let b = bucket(&record.gene_id);
        let head = self.heads[b];
        self.links.push(head);
        self.heads[b] = Some(n);
        self.records.push(record);
        proof {
            let after = record_views(self.records@);
            assert(after.drop_last() =~= before);
            assert(after.last() == record@);
            assert forall|j: int| 0 <= j < n implies after[j] == before[j] by {}
            assert forall|k: int| 0 <= k < BUCKETS implies is_last_in_bucket(
                after,
                #[trigger] self.heads@[k],
                k,
                after.len() as int,
            ) by {
                if k != b {
                    assert(self.heads@[k] == old_heads[k]);
                    assert(is_last_in_bucket(before, old_heads[k], k, n as int));
                }
            }
            assert forall|i: int| 0 <= i < after.len() implies is_last_in_bucket(
                after,
                #[trigger] self.links@[i],
                bucket_of(after[i].gene_id),
                i,
            ) by {
                if i < n {
                    assert(self.links@[i] == old_links[i]);
                    assert(is_last_in_bucket(before, old_links[i], bucket_of(before[i].gene_id), i));
                } else {
                    assert(is_last_in_bucket(before, old_heads[b as int], b as int, n as int));
                }
            }
        }
    }

    /// The record entered under `gene_id`, if there is one.
    pub fn get(&self, gene_id: &[char]) -> (found: Option<&GeneRecord>)
        requires
            self.wf(),
        ensures
            match found {
                Some(record) => self@.contains_key(gene_id@) && record@.gene_id == gene_id@
                    && record@.coordinates() == self@[gene_id@],
                None => !self@.contains_key(gene_id@),
            },
    {
        let ghost all = record_views(self.records@);
        let ghost mut limit: int = all.len() as int;
        let b = bucket(gene_id);
        let mut entry = self.heads[b];
        loop
            invariant
                self.wf(),
                all == record_views(self.records@),
                b == bucket_of(gene_id@),
                0 <= limit <= all.len(),
                is_last_in_bucket(all, entry, b as int, limit),
                forall|j: int| limit <= j < all.len() ==> (#[trigger] all[j]).gene_id != gene_id@,
            decreases limit,
        {
            match entry {
                None => {
                    proof {
                        lemma_records_map_absent(all, gene_id@);
                    }
                    return None;
                },
                Some(i) => {
                    if same_text(&self.records[i].gene_id, gene_id) {
                        proof {
                            lemma_records_map_last(all, i as int);
                        }
                        return Some(&self.records[i]);
                    }
                    proof {
                        limit = i as int;
                    }
                    entry = self.links[i];
                },
            }
        }
    }
}

/// Reads one line of an annotation.
pub fn parse_annotation_line(line: &[char]) -> (found: Option<GeneRecord>)
    ensures
        match found {
            Some(record) => annotation_record(line@) == Some(record@),
            None => annotation_record(line@) is None,
        },
{
    if line.len() > 0 && line[0] == '#' {
        return None;
    }
    let fields = split_fields(line, '\t');
    if fields.len() < 9 {
        return None;
    }
    assert(views(fields@)[2] == fields@[2]@);
    assert(views(fields@)[8] == fields@[8]@);
    let feature = &fields[2];
    if !(feature.len() == 4 && feature[0] == 'g' && feature[1] == 'e' && feature[2] == 'n'
        && feature[3] == 'e') {
        assert(feature@ != gene_feature());
        return None;
    }
    assert(feature@ =~= gene_feature());
    let attributes = split_fields(&fields[8], ';');
    assert(views(attributes@)[0] == attributes@[0]@);
    let parts = split_fields(&attributes[0], '"');
    if parts.len() < 3 {
        return None;
    }
    assert(views(parts@)[1] == parts@[1]@);
    if parts[1].len() == 0 {
        return None;
    }
    assert(views(fields@)[0] == fields@[0]@);
    assert(views(fields@)[3] == fields@[3]@);
    assert(views(fields@)[4] == fields@[4]@);
    Some(
        GeneRecord {
            gene_id: copy_text(&parts[1]),
            chromosome: copy_text(&fields[0]),
            start: copy_text(&fields[3]),
            end: copy_text(&fields[4]),
        },
    )
}

/// Builds the index of an annotation from its lines.
pub fn build_index(lines: &Vec<Vec<char>>) -> (index: AnnotationIndex)
    ensures
        index.wf(),
        index@ == index_of(views(lines@)),
{
    let mut index = AnnotationIndex::new();
    let mut i: usize = 0;
    assert(views(lines@).take(0) =~= Seq::<Seq<char>>::empty());
    while i < lines.len()
        invariant
            i <= lines.len(),
            index.wf(),
            index@ == index_of(views(lines@).take(i as int)),
        decreases lines.len() - i,
    {
        proof {
            assert(views(lines@).take(i + 1).drop_last() =~= views(lines@).take(i as int));
            assert(views(lines@).take(i + 1).last() == lines@[i as int]@);
        }
        match parse_annotation_line(&lines[i]) {
            Some(record) => {
                index.insert(record);
            },
            None => {},
        }
        i = i + 1;
    }
    assert(views(lines@).take(lines.len() as int) =~= views(lines@));
    index
}

} // verus!
