//! Text as sequences of characters: comparing, copying, splitting and joining.

use vstd::prelude::*;

verus! {

/// The texts held by a sequence of character vectors.
pub open spec fn views(v: Seq<Vec<char>>) -> Seq<Seq<char>> {
    Seq::new(v.len(), |i: int| v[i]@)
}

/// The pieces of `s` between occurrences of `sep`. There is always at least
/// one piece, and a separator at either end gives an empty piece there.
pub open spec fn split_on(s: Seq<char>, sep: char) -> Seq<Seq<char>>
    decreases s.len(),
{
    if s.len() == 0 {
        seq![Seq::<char>::empty()]
    } else {
        let before = split_on(s.drop_last(), sep);
        if s.last() == sep {
            before.push(Seq::<char>::empty())
        } else {
            before.drop_last().push(before.last().push(s.last()))
        }
    }
}

/// The fields written one after the other with `sep` between neighbours.
pub open spec fn join(fields: Seq<Seq<char>>, sep: char) -> Seq<char>
    decreases fields.len(),
{
    if fields.len() == 0 {
        Seq::<char>::empty()
    } else if fields.len() == 1 {
        fields[0]
    } else {
        join(fields.drop_last(), sep).push(sep) + fields.last()
    }
}

/// `s` without one carriage return at its end.
pub open spec fn strip_cr(s: Seq<char>) -> Seq<char> {
    if s.len() > 0 && s.last() == '\r' {
        s.drop_last()
    } else {
        s
    }
}

/// The lines of a text. A line ends at a line feed; a carriage return just
/// before that line feed is not part of the line. What follows the last line
/// feed is a line of its own unless it is empty.
pub open spec fn text_lines(s: Seq<char>) -> Seq<Seq<char>> {
    let pieces = split_on(s, '\n');
    let ended = Seq::new((pieces.len() - 1) as nat, |i: int| strip_cr(pieces[i]));
    if pieces.last().len() == 0 {
        ended
    } else {
        ended.push(pieces.last())
    }
}

/// Unicode's White_Space property.
pub open spec fn is_space(c: char) -> bool {
    ||| ('\u{0009}' <= c && c <= '\u{000D}')
    ||| c == ' '
    ||| c == '\u{0085}'
    ||| c == '\u{00A0}'
    ||| c == '\u{1680}'
    ||| ('\u{2000}' <= c && c <= '\u{200A}')
    ||| c == '\u{2028}'
    ||| c == '\u{2029}'
    ||| c == '\u{202F}'
    ||| c == '\u{205F}'
    ||| c == '\u{3000}'
}

/// A text is blank when it holds nothing but white space.
pub open spec fn is_blank(s: Seq<char>) -> bool {
    forall|i: int| 0 <= i < s.len() ==> is_space(#[trigger] s[i])
}

/// A split always yields at least one piece.
pub proof fn lemma_split_nonempty(s: Seq<char>, sep: char)
    ensures
        split_on(s, sep).len() >= 1,
    decreases s.len(),
{
    if s.len() > 0 {
        lemma_split_nonempty(s.drop_last(), sep);
    }
}

/// No piece of a split holds the separator.
pub proof fn split_pieces_lack_separator(s: Seq<char>, sep: char)
    ensures
        forall|i: int, j: int|
            0 <= i < split_on(s, sep).len() && 0 <= j < split_on(s, sep)[i].len()
                ==> #[trigger] split_on(s, sep)[i][j] != sep,
    decreases s.len(),
{
    if s.len() > 0 {
        lemma_split_nonempty(s.drop_last(), sep);
        split_pieces_lack_separator(s.drop_last(), sep);
    }
}

/// Joining the pieces of a split with the same separator gives the text back.
pub proof fn join_of_split_is_the_text(s: Seq<char>, sep: char)
    ensures
        join(split_on(s, sep), sep) == s,
    decreases s.len(),
{
    if s.len() > 0 {
        let before = split_on(s.drop_last(), sep);
        lemma_split_nonempty(s.drop_last(), sep);
        join_of_split_is_the_text(s.drop_last(), sep);
        if s.last() == sep {
            let empty = Seq::<char>::empty();
            assert(before.push(empty).drop_last() =~= before);
            assert(join(before, sep).push(sep) + empty =~= s);
        } else {
            let fields = before.drop_last().push(before.last().push(s.last()));
            if before.len() == 1 {
                assert(join(fields, sep) =~= s);
            } else {
                assert(fields.drop_last() =~= before.drop_last());
                assert(join(fields, sep) =~= join(before, sep).push(s.last()));
                assert(join(before, sep).push(s.last()) =~= s);
            }
        }
    }
}

/// Joining one more field onto at least one field adds a separator and the field.
pub proof fn lemma_join_push(fields: Seq<Seq<char>>, field: Seq<char>, sep: char)
    requires
        fields.len() >= 1,
    ensures
        join(fields.push(field), sep) == join(fields, sep).push(sep) + field,
{
    assert(fields.push(field).drop_last() =~= fields);
}

/// Whether two texts hold the same characters.
pub fn same_text(a: &[char], b: &[char]) -> (r: bool)
    ensures
        r == (a@ == b@),
{
    if a.len() != b.len() {
        return false;
    }
    let mut i: usize = a.len();
    while i > 0
        invariant
            a.len() == b.len(),
            i <= a.len(),
            forall|j: int| i <= j < a.len() ==> a@[j] == b@[j],
        decreases i,
    {
        i = i - 1;
        if a[i] != b[i] {
            return false;
        }
    }
    assert(a@ =~= b@);
    true
}

/// A fresh copy of `s[from..to]`.
pub fn copy_range(s: &[char], from: usize, to: usize) -> (r: Vec<char>)
    requires
        from <= to <= s.len(),
    ensures
        r@ == s@.subrange(from as int, to as int),
{
    let mut r: Vec<char> = Vec::new();
    let mut i: usize = from;
    while i < to
        invariant
            from <= i <= to <= s.len(),
            r@ == s@.subrange(from as int, i as int),
        decreases to - i,
    {
        r.push(s[i]);
        i = i + 1;
        assert(r@ =~= s@.subrange(from as int, i as int));
    }
    r
}

/// A fresh copy of `s`.
pub fn copy_text(s: &[char]) -> (r: Vec<char>)
    ensures
        r@ == s@,
{
    let r = copy_range(s, 0, s.len());
    assert(s@.subrange(0, s.len() as int) =~= s@);
    r
}

/// Writes `s` at the end of `out`.
pub fn append_text(out: &mut Vec<char>, s: &[char])
    ensures
        final(out)@ == old(out)@ + s@,
{
    let mut i: usize = 0;
    while i < s.len()
        invariant
            i <= s.len(),
            out@ == old(out)@ + s@.take(i as int),
        decreases s.len() - i,
    {
        out.push(s[i]);
        i = i + 1;
        assert(out@ =~= old(out)@ + s@.take(i as int));
    }
    assert(s@.take(s.len() as int) =~= s@);
}

/// Splits `line` at every occurrence of `sep`.
pub fn split_fields(line: &[char], sep: char) -> (fields: Vec<Vec<char>>)
    ensures
        views(fields@) == split_on(line@, sep),
        fields.len() >= 1,
{
    let mut fields: Vec<Vec<char>> = Vec::new();
    let mut cur: Vec<char> = Vec::new();
    let mut i: usize = 0;
    assert(line@.take(0) =~= Seq::<char>::empty());
    assert(views(fields@).push(cur@) =~= seq![Seq::<char>::empty()]);
    while i < line.len()
        invariant
            i <= line.len(),
            views(fields@).push(cur@) == split_on(line@.take(i as int), sep),
        decreases line.len() - i,
    {
        let c = line[i];
        let ghost before = split_on(line@.take(i as int), sep);
        let ghost old_fields = views(fields@);
        proof {
            assert(line@.take(i + 1).drop_last() =~= line@.take(i as int));
            assert(before.drop_last() =~= old_fields);
        }
        if c == sep {
            fields.push(cur);
            cur = Vec::new();
            assert(views(fields@) =~= before);
        } else {
            cur.push(c);
            assert(views(fields@) =~= old_fields);
        }
        i = i + 1;
    }
    assert(line@.take(line.len() as int) =~= line@);
    let ghost prior = views(fields@);
    fields.push(cur);
    assert(views(fields@) =~= prior.push(cur@));
    fields
}

/// Splits a text into its lines.
pub fn split_lines(text: &[char]) -> (lines: Vec<Vec<char>>)
    ensures
        views(lines@) == text_lines(text@),
{
    let mut lines: Vec<Vec<char>> = Vec::new();
    let mut cur: Vec<char> = Vec::new();
    let mut i: usize = 0;
    assert(text@.take(0) =~= Seq::<char>::empty());
    assert(views(lines@) =~= Seq::new(0, |k: int| strip_cr(split_on(text@.take(0), '\n')[k])));
    while i < text.len()
        invariant
            i <= text.len(),
            split_on(text@.take(i as int), '\n').len() >= 1,
            cur@ == split_on(text@.take(i as int), '\n').last(),
            views(lines@) == Seq::new(
                (split_on(text@.take(i as int), '\n').len() - 1) as nat,
                |k: int| strip_cr(split_on(text@.take(i as int), '\n')[k]),
            ),
        decreases text.len() - i,
    {
        let c = text[i];
        let ghost before = split_on(text@.take(i as int), '\n');
        let ghost after = split_on(text@.take(i + 1), '\n');
        let ghost old_lines = views(lines@);
        proof {
            assert(text@.take(i + 1).drop_last() =~= text@.take(i as int));
        }
        if c == '\n' {
            let n = cur.len();
            if n > 0 && cur[n - 1] == '\r' {
                cur.pop();
            }
            let ghost line = cur@;
            assert(line == strip_cr(before.last()));
            lines.push(cur);
            cur = Vec::new();
            assert(views(lines@) =~= old_lines.push(line));
            assert(after == before.push(Seq::<char>::empty()));
            assert forall|k: int| 0 <= k < before.len() implies after[k] == before[k] by {}
            assert(views(lines@) =~= Seq::new(
                (after.len() - 1) as nat,
                |k: int| strip_cr(after[k]),
            ));
        } else {
            cur.push(c);
            assert(after == before.drop_last().push(before.last().push(c)));
            assert(after.len() == before.len());
            assert forall|k: int| 0 <= k < after.len() - 1 implies after[k] == before[k] by {
                assert(after[k] == before.drop_last()[k]);
            }
            assert(views(lines@) =~= Seq::new(
                (after.len() - 1) as nat,
                |k: int| strip_cr(after[k]),
            ));
        }
        i = i + 1;
    }
    assert(text@.take(text.len() as int) =~= text@);
    if cur.len() > 0 {
        let ghost prior = views(lines@);
        lines.push(cur);
        assert(views(lines@) =~= prior.push(cur@));
    }
    lines
}

/// Whether `c` is white space.
pub fn char_is_space(c: char) -> (r: bool)
    ensures
        r == is_space(c),
{
    ('\u{0009}' <= c && c <= '\u{000D}') || c == ' ' || c == '\u{0085}' || c == '\u{00A0}' || c
        == '\u{1680}' || ('\u{2000}' <= c && c <= '\u{200A}') || c == '\u{2028}' || c
        == '\u{2029}' || c == '\u{202F}' || c == '\u{205F}' || c == '\u{3000}'
}

/// Whether `line` holds nothing but white space.
pub fn line_is_blank(line: &[char]) -> (r: bool)
    ensures
        r == is_blank(line@),
{
    let mut i: usize = 0;
    while i < line.len()
        invariant
            i <= line.len(),
            forall|j: int| 0 <= j < i ==> is_space(#[trigger] line@[j]),
        decreases line.len() - i,
    {
        if !char_is_space(line[i]) {
            return false;
        }
        i = i + 1;
    }
    true
}

} // verus!
