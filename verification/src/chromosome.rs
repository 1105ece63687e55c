//! Chromosome names: the `chr` prefix, the sex and mitochondrial chromosomes,
//! and the rank by which chromosomes are ordered.

use vstd::prelude::*;
use crate::number::{parse_u64, parsed_u64};
use crate::text::copy_range;

verus! {

/// Whether a chromosome name begins with the literal `chr`.
pub open spec fn has_chr_prefix(name: Seq<char>) -> bool {
    name.len() >= 3 && name[0] == 'c' && name[1] == 'h' && name[2] == 'r'
}

/// The name without its `chr` prefix, or the whole name where it has none.
pub open spec fn chromosome_suffix(name: Seq<char>) -> Seq<char> {
    if has_chr_prefix(name) {
        name.skip(3)
    } else {
        name
    }
}

/// Whether a suffix names a sex chromosome or the mitochondrial one.
pub open spec fn is_special_suffix(suffix: Seq<char>) -> bool {
    suffix =~= seq!['X'] || suffix =~= seq!['Y'] || suffix =~= seq!['M']
}

/// The rank of a chromosome in the genomic order: the number that its suffix
/// writes, 23, 24 and 25 for `X`, `Y` and `M`, and the largest rank there is
/// for any other name.
pub open spec fn chromosome_rank(name: Seq<char>) -> u64 {
    let suffix = chromosome_suffix(name);
    match parsed_u64(suffix) {
        Some(n) => n,
        None => if suffix =~= seq!['X'] {
            23
        } else if suffix =~= seq!['Y'] {
            24
        } else if suffix =~= seq!['M'] {
            25
        } else {
            u64::MAX
        },
    }
}

/// Whether `name` begins with `chr`.
pub fn starts_with_chr(name: &[char]) -> (r: bool)
    ensures
        r == has_chr_prefix(name@),
{
    name.len() >= 3 && name[0] == 'c' && name[1] == 'h' && name[2] == 'r'
}

/// A copy of `name` without its `chr` prefix.
pub fn strip_chr(name: &[char]) -> (suffix: Vec<char>)
    ensures
        suffix@ == chromosome_suffix(name@),
{
    let from: usize = if starts_with_chr(name) {
        3
    } else {
        0
    };
    let suffix = copy_range(name, from, name.len());
    assert(suffix@ =~= chromosome_suffix(name@));
    suffix
}

/// Whether `suffix` is `X`, `Y` or `M`.
pub fn suffix_is_special(suffix: &[char]) -> (r: bool)
    ensures
        r == is_special_suffix(suffix@),
{
    suffix.len() == 1 && (suffix[0] == 'X' || suffix[0] == 'Y' || suffix[0] == 'M')
}

/// The rank of the chromosome called `name`.
pub fn rank_of(name: &[char]) -> (rank: u64)
    ensures
        rank == chromosome_rank(name@),
{
    let suffix = strip_chr(name);
    match parse_u64(&suffix) {
        Some(n) => n,
        None => {
            if suffix.len() != 1 {
                u64::MAX
            } else if suffix[0] == 'X' {
                23
            } else if suffix[0] == 'Y' {
                24
            } else if suffix[0] == 'M' {
                25
            } else {
                u64::MAX
            }
        },
    }
}

} // verus!
