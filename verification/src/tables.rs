//! The tables that are compiled from the text of a collation-element table.

use crate::error::{ErrorKind, TableError};
use crate::remap::{Relocation, Rule};
use crate::rows::{
    assemble, lemma_assemble_fails, lemma_assemble_keys, lemma_assemble_step, lemma_single_entry,
    low_row, multi_row, read_low, read_multi, read_single, read_variable, row_of, single_row,
    variable_row, Row, LOW_MAX,
};
use crate::store::{entries, lemma_entries_empty, lemma_entries_insert, mark, put};
use crate::text::{lines, part, slices, split_lines};
use rustc_hash::{FxHashMap, FxHashSet};
use std::hash::Hash;
use vstd::prelude::*;
use vstd::std_specs::hash::obeys_key_model;

verus! {

/// Which table of collation elements a text is: the default table, or the tailored one of
/// the locale data.
#[derive(Clone, Copy, Debug, PartialEq, Eq, Structural)]
pub enum Tailoring {
    /// The tailored table of the locale data.
    Cldr,
    /// The default table.
    Ducet,
}

/// Number of entries of the dense table: one for each code point up to `LOW_MAX`.
pub const LOW_LEN: usize = 183;

/// The rule for the single code points of a table: the weights of the tailored table are
/// bumped and shifted, those of the default table are taken as they are read.
pub open spec fn single_rule(keys: Tailoring) -> Rule {
    Rule { bump: keys is Cldr, shift: keys is Cldr }
}

/// The rule for the code-point sequences of a table: the weights of the tailored table are
/// shifted, but never bumped; those of the default table are taken as they are read.
pub open spec fn multi_rule(keys: Tailoring) -> Rule {
    Rule { bump: false, shift: keys is Cldr }
}

/// The rule of the tables that relocate the Arabic script: the weights are taken as they are
/// read, neither bumped nor shifted.
pub open spec fn plain_rule() -> Rule {
    Rule { bump: false, shift: false }
}

/// What a table of single code points makes of each line of a text.
pub open spec fn single_rows(text: Seq<u8>, rule: Rule, relocation: Relocation) -> Seq<
    Row<u32, Seq<u32>>,
> {
    lines(text).map_values(|line: Seq<u8>| single_row(line, rule, relocation))
}

/// The table of single code points of a text: for each code point the packed weights of the
/// last line that gives them.
pub open spec fn singles(text: Seq<u8>, rule: Rule, relocation: Relocation) -> Result<
    Map<u32, Seq<u32>>,
    TableError,
> {
    assemble(single_rows(text, rule, relocation))
}

/// What a table of code-point sequences makes of each line of a text.
pub open spec fn multi_rows(text: Seq<u8>, rule: Rule, relocation: Relocation) -> Seq<
    Row<u64, Seq<u32>>,
> {
    lines(text).map_values(|line: Seq<u8>| multi_row(line, rule, relocation))
}

/// The table of code-point sequences of a text: for each packed key the packed weights of
/// the last line that gives them.
pub open spec fn multis(text: Seq<u8>, rule: Rule, relocation: Relocation) -> Result<
    Map<u64, Seq<u32>>,
    TableError,
> {
    assemble(multi_rows(text, rule, relocation))
}

/// What the dense table makes of each line of a text.
pub open spec fn low_rows(text: Seq<u8>, rule: Rule) -> Seq<Row<u32, u32>> {
    lines(text).map_values(|line: Seq<u8>| low_row(line, rule))
}

/// The first packed weight of each small code point of a text, as a map.
pub open spec fn lows(text: Seq<u8>, rule: Rule) -> Result<Map<u32, u32>, TableError> {
    assemble(low_rows(text, rule))
}

/// The value of the dense table at an index: what the map holds for that code point, and 0
/// where it holds nothing.
pub open spec fn dense_value(table: Map<u32, u32>, index: int) -> u32 {
    if table.contains_key(index as u32) {
        table[index as u32]
    } else {
        0
    }
}

/// What the set of variable code points makes of each line of a text.
pub open spec fn variable_rows(text: Seq<u8>) -> Seq<Row<u32, ()>> {
    lines(text).map_values(|line: Seq<u8>| variable_row(line))
}

/// The set of the single code points of a text that have a variable weight or a primary
/// weight of 0.
pub open spec fn variables(text: Seq<u8>) -> Result<Set<u32>, TableError> {
    match assemble(variable_rows(text)) {
        Ok(table) => Ok(table.dom()),
        Err(e) => Err(e),
    }
}

/// No line of a text gives an entry both to a table of single code points and to a table of
/// code-point sequences, whatever the rules and relocations of the two tables.
pub proof fn lemma_line_in_one_table(
    text: Seq<u8>,
    rule: Rule,
    relocation: Relocation,
    other_rule: Rule,
    other_relocation: Relocation,
    i: int,
)
    requires
        0 <= i < lines(text).len(),
    ensures
        !(single_rows(text, rule, relocation)[i] is Entry && multi_rows(
            text,
            other_rule,
            other_relocation,
        )[i] is Entry),
{
    let line = lines(text)[i];
    if single_row(line, rule, relocation) is Entry {
        lemma_single_entry(line, rule, relocation, other_rule, other_relocation);
    }
}

/// The map behind the dense table holds code points up to `LOW_MAX` only, and neither of the
/// two letters that the table leaves out.
pub proof fn lemma_low_keys(text: Seq<u8>, rule: Rule, key: u32)
    requires
        lows(text, rule) is Ok,
        lows(text, rule)->Ok_0.contains_key(key),
    ensures
        key <= LOW_MAX,
        key != 0x4C,
        key != 0x6C,
{
    let rows = low_rows(text, rule);
    lemma_assemble_keys(rows, key);
}

/// Applies what a reader has made of one line to the table that the lines before it have
/// built: the table then is the one that the lines up to this one build, or the line is the
/// first one to fail.
pub(crate) fn apply<K: Eq + Hash>(
    table: &mut FxHashMap<K, Vec<u32>>,
    line: usize,
    read: Result<Option<(K, Vec<u32>)>, ErrorKind>,
    Ghost(rows): Ghost<Seq<Row<K, Seq<u32>>>>,
) -> (r: Result<(), TableError>)
    requires
        obeys_key_model::<K>(),
        line < rows.len(),
        row_of(read) == rows[line as int],
        assemble(rows.take(line as int)) == Ok::<Map<K, Seq<u32>>, TableError>(
            entries(old(table)@),
        ),
    ensures
        match r {
            Ok(()) => assemble(rows.take(line + 1)) == Ok::<Map<K, Seq<u32>>, TableError>(
                entries(final(table)@),
            ),
            Err(e) => assemble(rows) == Err::<Map<K, Seq<u32>>, TableError>(e) && rows[line as int]
                == Row::<K, Seq<u32>>::Fail(e.kind),
        },
{
    proof {
        lemma_assemble_step(rows, line as int);
    }
    match read {
        Err(kind) => {
            proof {
                lemma_assemble_fails(rows, line + 1);
            }
            Err(TableError { line, kind })
        },
        Ok(None) => Ok(()),
        Ok(Some((key, value))) => {
            proof {
                lemma_entries_insert(table@, key, value);
            }
            put(table, key, value);
            Ok(())
        },
    }
}

/// Builds a table of single code points from a text, under a rule and a relocation.
pub fn single_table(data: &[u8], rule: Rule, relocation: Relocation) -> (r: Result<
    FxHashMap<u32, Vec<u32>>,
    TableError,
>)
    ensures
        match r {
            Ok(table) => singles(data@, rule, relocation) == Ok::<Map<u32, Seq<u32>>, TableError>(
                entries(table@),
            ),
            Err(e) => singles(data@, rule, relocation) == Err::<Map<u32, Seq<u32>>, TableError>(
                e,
            ),
        },
{
    let ranges = split_lines(data);
    let mut table: FxHashMap<u32, Vec<u32>> = FxHashMap::default();
    let ghost rows = single_rows(data@, rule, relocation);
    let mut i: usize = 0;
    proof {
        lemma_entries_empty::<u32>();
    }
    while i < ranges.len()
        invariant
            i <= ranges.len(),
            slices(data@, ranges@) == lines(data@),
            forall|k: int|
                0 <= k < ranges.len() ==> (#[trigger] ranges[k]).0 <= ranges[k].1 <= data.len(),
            rows == single_rows(data@, rule, relocation),
            assemble(rows.take(i as int)) == Ok::<Map<u32, Seq<u32>>, TableError>(
                entries(table@),
            ),
        decreases ranges.len() - i,
    {
        let read = read_single(part(data, ranges[i]), rule, relocation);
        match apply(&mut table, i, read, Ghost(rows)) {
            Err(e) => {
                return Err(e);
            },
            Ok(()) => {},
        }
        i += 1;
    }
    proof {
        assert(rows.take(i as int) =~= rows);
    }
    Ok(table)
}

/// Builds a table of code-point sequences from a text, under a rule and a relocation.
pub fn multi_table(data: &[u8], rule: Rule, relocation: Relocation) -> (r: Result<
    FxHashMap<u64, Vec<u32>>,
    TableError,
>)
    ensures
        match r {
            Ok(table) => multis(data@, rule, relocation) == Ok::<Map<u64, Seq<u32>>, TableError>(
                entries(table@),
            ),
            Err(e) => multis(data@, rule, relocation) == Err::<Map<u64, Seq<u32>>, TableError>(e),
        },
{
    let ranges = split_lines(data);
    let mut table: FxHashMap<u64, Vec<u32>> = FxHashMap::default();
    let ghost rows = multi_rows(data@, rule, relocation);
    let mut i: usize = 0;
    proof {
        lemma_entries_empty::<u64>();
    }
    while i < ranges.len()
        invariant
            i <= ranges.len(),
            slices(data@, ranges@) == lines(data@),
            forall|k: int|
                0 <= k < ranges.len() ==> (#[trigger] ranges[k]).0 <= ranges[k].1 <= data.len(),
            rows == multi_rows(data@, rule, relocation),
            assemble(rows.take(i as int)) == Ok::<Map<u64, Seq<u32>>, TableError>(
                entries(table@),
            ),
        decreases ranges.len() - i,
    {
        let read = read_multi(part(data, ranges[i]), rule, relocation);
        match apply(&mut table, i, read, Ghost(rows)) {
            Err(e) => {
                return Err(e);
            },
            Ok(()) => {},
        }
        i += 1;
    }
    proof {
        assert(rows.take(i as int) =~= rows);
    }
    Ok(table)
}

/// Builds the dense table of the small code points from a text, under a rule. Every entry of
/// the table is the first packed weight of the last line for its code point, or 0 where the
/// text has no such line.
pub fn low_table(data: &[u8], rule: Rule) -> (r: Result<[u32; 183], TableError>)
    ensures
        match r {
            Ok(table) => lows(data@, rule) is Ok && forall|i: int|
                0 <= i < LOW_LEN ==> #[trigger] table@[i] == dense_value(
                    lows(data@, rule)->Ok_0,
                    i,
                ),
            Err(e) => lows(data@, rule) == Err::<Map<u32, u32>, TableError>(e),
        },
        r matches Ok(table) ==> table@[0x4C] == 0 && table@[0x6C] == 0,
{
    let ranges = split_lines(data);
    let mut table: [u32; 183] = [0u32;183];
    let ghost rows = low_rows(data@, rule);
    let ghost mut found: Map<u32, u32> = Map::empty();
    let mut i: usize = 0;
    while i < ranges.len()
        invariant
            i <= ranges.len(),
            slices(data@, ranges@) == lines(data@),
            forall|k: int|
                0 <= k < ranges.len() ==> (#[trigger] ranges[k]).0 <= ranges[k].1 <= data.len(),
            rows == low_rows(data@, rule),
            assemble(rows.take(i as int)) == Ok::<Map<u32, u32>, TableError>(found),
            forall|k: int| 0 <= k < LOW_LEN ==> #[trigger] table@[k] == dense_value(found, k),
        decreases ranges.len() - i,
    {
        let line = part(data, ranges[i]);
        proof {
            lemma_assemble_step(rows, i as int);
        }
        match read_low(line, rule) {
            Err(kind) => {
                proof {
                    lemma_assemble_fails(rows, i + 1);
                }
                return Err(TableError { line: i, kind });
            },
            Ok(None) => {},
            Ok(Some((key, w))) => {
                table[key as usize] = w;
                proof {
                    found = found.insert(key, w);
                }
            },
        }
        i += 1;
    }
    proof {
        assert(rows.take(i as int) =~= rows);
        if found.contains_key(0x4C) {
            lemma_low_keys(data@, rule, 0x4C);
        }
        if found.contains_key(0x6C) {
            lemma_low_keys(data@, rule, 0x6C);
        }
    }
    Ok(table)
}

/// Builds the set of variable code points from a text.
pub fn variable_table(data: &[u8]) -> (r: Result<FxHashSet<u32>, TableError>)
    ensures
        match r {
            Ok(set) => variables(data@) == Ok::<Set<u32>, TableError>(set@),
            Err(e) => variables(data@) == Err::<Set<u32>, TableError>(e),
        },
{
    let ranges = split_lines(data);
    let mut set: FxHashSet<u32> = FxHashSet::default();
    let ghost rows = variable_rows(data@);
    let ghost mut found: Map<u32, ()> = Map::empty();
    let mut i: usize = 0;
    while i < ranges.len()
        invariant
            i <= ranges.len(),
            slices(data@, ranges@) == lines(data@),
            forall|k: int|
                0 <= k < ranges.len() ==> (#[trigger] ranges[k]).0 <= ranges[k].1 <= data.len(),
            rows == variable_rows(data@),
            assemble(rows.take(i as int)) == Ok::<Map<u32, ()>, TableError>(found),
            set@ == found.dom(),
        decreases ranges.len() - i,
    {
        let line = part(data, ranges[i]);
        proof {
            lemma_assemble_step(rows, i as int);
        }
        match read_variable(line) {
            Err(kind) => {
                proof {
                    lemma_assemble_fails(rows, i + 1);
                }
                return Err(TableError { line: i, kind });
            },
            Ok(None) => {},
            Ok(Some(key)) => {
                mark(&mut set, key);
                proof {
                    found = found.insert(key, ());
                }
            },
        }
        i += 1;
    }
    proof {
        assert(rows.take(i as int) =~= rows);
    }
    Ok(set)
}

/// Gives the rule for the single code points of a table.
pub fn rule_for_singles(keys: Tailoring) -> (rule: Rule)
    ensures
        rule == single_rule(keys),
{
    match keys {
        Tailoring::Cldr => Rule { bump: true, shift: true },
        Tailoring::Ducet => Rule { bump: false, shift: false },
    }
}

/// Gives the rule for the code-point sequences of a table.
pub fn rule_for_multis(keys: Tailoring) -> (rule: Rule)
    ensures
        rule == multi_rule(keys),
{
    match keys {
        Tailoring::Cldr => Rule { bump: false, shift: true },
        Tailoring::Ducet => Rule { bump: false, shift: false },
    }
}

/// Compiles the dense table of the code points up to `LOW_MAX` from the text of a table of
/// collation elements: at each index the first weight of that code point, for the tailored
/// table bumped and shifted, in its packed form; 0 for a code point without a record, and for
/// the two letters that the table leaves out.
pub fn map_low(data: &[u8], keys: Tailoring) -> (r: Result<[u32; 183], TableError>)
    ensures
        match r {
            Ok(table) => lows(data@, single_rule(keys)) is Ok && forall|i: int|
                0 <= i < LOW_LEN ==> #[trigger] table@[i] == dense_value(
                    lows(data@, single_rule(keys))->Ok_0,
                    i,
                ),
            Err(e) => lows(data@, single_rule(keys)) == Err::<Map<u32, u32>, TableError>(e),
        },
        r matches Ok(table) ==> table@[0x4C] == 0 && table@[0x6C] == 0,
{
    low_table(data, rule_for_singles(keys))
}

/// Compiles the table of the code-point sequences from the text of a table of collation
/// elements: for each sequence of two or three code points, packed into one key, its packed
/// weights, for the tailored table shifted, in their packed form.
pub fn map_multi(data: &[u8], keys: Tailoring) -> (r: Result<FxHashMap<u64, Vec<u32>>, TableError>)
    ensures
        match r {
            Ok(table) => multis(data@, multi_rule(keys), Relocation::Keep) == Ok::<
                Map<u64, Seq<u32>>,
                TableError,
            >(entries(table@)),
            Err(e) => multis(data@, multi_rule(keys), Relocation::Keep) == Err::<
                Map<u64, Seq<u32>>,
                TableError,
            >(e),
        },
{
    multi_table(data, rule_for_multis(keys), Relocation::Keep)
}

/// Compiles the table of the single code points from the text of a table of collation
/// elements: for each code point its weights, for the tailored table bumped and shifted, in
/// their packed form.
pub fn map_sing(data: &[u8], keys: Tailoring) -> (r: Result<FxHashMap<u32, Vec<u32>>, TableError>)
    ensures
        match r {
            Ok(table) => singles(data@, single_rule(keys), Relocation::Keep) == Ok::<
                Map<u32, Seq<u32>>,
                TableError,
            >(entries(table@)),
            Err(e) => singles(data@, single_rule(keys), Relocation::Keep) == Err::<
                Map<u32, Seq<u32>>,
                TableError,
            >(e),
        },
{
    single_table(data, rule_for_singles(keys), Relocation::Keep)
}

/// Compiles the set of variable code points from the text of the default table of collation
/// elements: the single code points with a weight that is marked variable or whose primary
/// level is 0.
pub fn map_variable(data: &[u8]) -> (r: Result<FxHashSet<u32>, TableError>)
    ensures
        match r {
            Ok(set) => variables(data@) == Ok::<Set<u32>, TableError>(set@),
            Err(e) => variables(data@) == Err::<Set<u32>, TableError>(e),
        },
{
    variable_table(data)
}

} // verus!
