//! The combining classes at the two ends of each canonical decomposition.

use crate::decomp::{is_ignored, is_ignored_code_point, read_code_point};
use crate::error::{ErrorKind, TableError};
use crate::rows::{assemble, lemma_assemble_fails, lemma_assemble_step, Row};
use crate::store::{entries, lookup, put};
use crate::text::{before, lines, number, part, slices, split_lines, SEMICOLON};
use rustc_hash::FxHashMap;
use unicode_canonical_combining_class::get_canonical_combining_class_u32;
use vstd::prelude::*;

verus! {

/// The canonical combining class of a code point, as a number: what
/// `unicode_canonical_combining_class` gives for it in the version of the Unicode data that
/// it holds.
pub uninterp spec fn combining_class(code_point: u32) -> u8;

/// `get_canonical_combining_class_u32` of `unicode_canonical_combining_class`, with the class
/// as the number that it stands for. The result is named, not described: it is the entry of
/// the crate's table for the code point, and class 0 beyond the last code point.
#[verifier::external_body]
pub(crate) fn class_of(code_point: u32) -> (class: u8)
    ensures
        class == combining_class(code_point),
{
    get_canonical_combining_class_u32(code_point) as u8
}

/// The packed pair of combining classes: the first one in the high byte, the last one in the
/// low byte.
pub open spec fn class_pair(first: u8, last: u8) -> u16 {
    (first * 0x100 + last) as u16
}

/// What the table of combining classes makes of a line of the property table, given the
/// table of canonical decompositions. Empty lines are skipped; the first field must be the
/// code point; ignored code points and code points without a decomposition are skipped; the
/// decomposition must hold a code point; the classes of its first and its last code point are
/// packed, and a pair of zeros is skipped.
pub open spec fn class_row(line: Seq<u8>, decomps: Map<u32, Seq<u32>>) -> Row<u32, u16> {
    if line.len() == 0 {
        Row::Skip
    } else {
        match number(before(line, SEMICOLON)) {
            None => Row::Fail(ErrorKind::BadCodePoint),
            Some(code_point) => if is_ignored(code_point) || !decomps.contains_key(code_point) {
                Row::Skip
            } else if decomps[code_point].len() == 0 {
                Row::Fail(ErrorKind::EmptyDecomposition)
            } else {
                match class_entry(decomps[code_point].first(), decomps[code_point].last()) {
                    None => Row::Skip,
                    Some(pair) => Row::Entry(code_point, pair),
                }
            },
        }
    }
}

/// What the table of combining classes makes of each line of a text.
pub open spec fn class_rows(text: Seq<u8>, decomps: Map<u32, Seq<u32>>) -> Seq<Row<u32, u16>> {
    lines(text).map_values(|line: Seq<u8>| class_row(line, decomps))
}

/// The table of combining classes of a text: for each code point of the text with a
/// decomposition whose ends are not both of class 0, the packed pair of their classes.
pub open spec fn class_pairs(text: Seq<u8>, decomps: Map<u32, Seq<u32>>) -> Result<
    Map<u32, u16>,
    TableError,
> {
    assemble(class_rows(text, decomps))
}

/// A packed pair is 0 only for two classes of 0, and gives back both classes.
pub proof fn lemma_class_pair(first: u8, last: u8)
    ensures
        class_pair(first, last) == first * 0x100 + last,
        class_pair(first, last) / 0x100 == first,
        class_pair(first, last) % 0x100 == last,
        class_pair(first, last) == 0 <==> first == 0 && last == 0,
{
}

/// The entry of the table of combining classes for a decomposition whose first and last code
/// point have the given classes: the packed pair, and nothing for a pair of zeros.
pub open spec fn pair_entry(first: u8, last: u8) -> Option<u16> {
    if first == 0 && last == 0 {
        None
    } else {
        Some(class_pair(first, last))
    }
}

/// The entry of the table of combining classes for a decomposition with the given first and
/// last code point.
pub open spec fn class_entry(first: u32, last: u32) -> Option<u16> {
    pair_entry(combining_class(first), combining_class(last))
}

/// Packs the combining classes of the first and the last code point of a decomposition.
pub fn pack_fcd(first_cc: u8, last_cc: u8) -> (pair: u16)
    ensures
        pair == class_pair(first_cc, last_cc),
        pair == first_cc * 0x100 + last_cc,
{
    let high = first_cc as u16;
    let low = last_cc as u16;
    assert((high << 8) | low == high * 0x100 + low) by (bit_vector)
        requires
            high <= 0xFF,
            low <= 0xFF,
    ;
    (high << 8) | low
}

/// Gives the entry of the table of combining classes for a decomposition whose first and last
/// code point have the given classes, where it has one.
pub fn entry_of_classes(first_cc: u8, last_cc: u8) -> (r: Option<u16>)
    ensures
        r == pair_entry(first_cc, last_cc),
{
    let pair = pack_fcd(first_cc, last_cc);
    if pair == 0 {
        None
    } else {
        Some(pair)
    }
}

/// Gives the entry of the table of combining classes for a decomposition with the given
/// first and last code point, where it has one.
pub fn fcd_entry(first: u32, last: u32) -> (r: Option<u16>)
    ensures
        r == class_entry(first, last),
{
    entry_of_classes(class_of(first), class_of(last))
}

/// Reads what the table of combining classes makes of a line: nothing, an entry, or an
/// error.
pub fn read_class(line: &[u8], decomps: &FxHashMap<u32, Vec<u32>>) -> (r: Result<
    Option<(u32, u16)>,
    ErrorKind,
>)
    ensures
        match r {
            Ok(None) => class_row(line@, entries(decomps@)) == Row::<u32, u16>::Skip,
            Ok(Some((key, pair))) => class_row(line@, entries(decomps@)) == Row::Entry(key, pair),
            Err(e) => class_row(line@, entries(decomps@)) == Row::<u32, u16>::Fail(e),
        },
{
    if line.len() == 0 {
        return Ok(None);
    }
    let code_point = match read_code_point(line) {
        Some(code_point) => code_point,
        None => {
            return Err(ErrorKind::BadCodePoint);
        },
    };
    if is_ignored_code_point(code_point) {
        return Ok(None);
    }
    let decomp = match lookup(decomps, &code_point) {
        Some(decomp) => decomp,
        None => {
            return Ok(None);
        },
    };
    if decomp.len() == 0 {
        return Err(ErrorKind::EmptyDecomposition);
    }
    match fcd_entry(decomp[0], decomp[decomp.len() - 1]) {
        Some(pair) => Ok(Some((code_point, pair))),
        None => Ok(None),
    }
}

/// Compiles the table of combining classes from the text of the character property table
/// and the table of canonical decompositions: for each code point of the text with a
/// decomposition, the combining classes of the first and the last code point of that
/// decomposition, packed; no entry where both are 0.
pub fn map_fcd(data: &[u8], decomps: &FxHashMap<u32, Vec<u32>>) -> (r: Result<
    FxHashMap<u32, u16>,
    TableError,
>)
    ensures
        match r {
            Ok(table) => class_pairs(data@, entries(decomps@)) == Ok::<Map<u32, u16>, TableError>(
                table@,
            ),
            Err(e) => class_pairs(data@, entries(decomps@)) == Err::<Map<u32, u16>, TableError>(e),
        },
{
    let ranges = split_lines(data);
    let mut table: FxHashMap<u32, u16> = FxHashMap::default();
    let ghost rows = class_rows(data@, entries(decomps@));
    let mut i: usize = 0;
    while i < ranges.len()
        invariant
            i <= ranges.len(),
            slices(data@, ranges@) == lines(data@),
            forall|k: int|
                0 <= k < ranges.len() ==> (#[trigger] ranges[k]).0 <= ranges[k].1 <= data.len(),
            rows == class_rows(data@, entries(decomps@)),
            assemble(rows.take(i as int)) == Ok::<Map<u32, u16>, TableError>(table@),
        decreases ranges.len() - i,
    {
        let line = part(data, ranges[i]);
        proof {
            lemma_assemble_step(rows, i as int);
        }
        match read_class(line, decomps) {
            Err(kind) => {
                proof {
                    lemma_assemble_fails(rows, i + 1);
                }
                return Err(TableError { line: i, kind });
            },
            Ok(None) => {},
            Ok(Some((key, pair))) => {
                put(&mut table, key, pair);
            },
        }
        i += 1;
    }
    proof {
        assert(rows.take(i as int) =~= rows);
    }
    Ok(table)
}

} // verus!
