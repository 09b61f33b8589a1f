//! The tables of the tailoring that interleaves the Arabic letters with the Latin letters.

use crate::error::TableError;
use crate::remap::{Relocation, Rule};
use crate::store::entries;
use crate::tables::{multi_table, multis, plain_rule, single_table, singles};
use rustc_hash::FxHashMap;
use vstd::prelude::*;

verus! {

/// Compiles the code-point sequences of the interleaved Arabic letters from the text of the
/// tailored table: the records with the weight of such a letter, each letter moved to its
/// place among the Latin letters.
pub fn map_arabic_interleaved_multi(data: &[u8]) -> (r: Result<
    FxHashMap<u64, Vec<u32>>,
    TableError,
>)
    ensures
        match r {
            Ok(table) => multis(data@, plain_rule(), Relocation::Interleaved) == Ok::<
                Map<u64, Seq<u32>>,
                TableError,
            >(entries(table@)),
            Err(e) => multis(data@, plain_rule(), Relocation::Interleaved) == Err::<
                Map<u64, Seq<u32>>,
                TableError,
            >(e),
        },
{
    multi_table(data, Rule { bump: false, shift: false }, Relocation::Interleaved)
}

/// Compiles the single code points of the interleaved Arabic letters from the text of the
/// tailored table: the records with the weight of such a letter, each letter moved to its
/// place among the Latin letters.
pub fn map_arabic_interleaved_sing(data: &[u8]) -> (r: Result<
    FxHashMap<u32, Vec<u32>>,
    TableError,
>)
    ensures
        match r {
            Ok(table) => singles(data@, plain_rule(), Relocation::Interleaved) == Ok::<
                Map<u32, Seq<u32>>,
                TableError,
            >(entries(table@)),
            Err(e) => singles(data@, plain_rule(), Relocation::Interleaved) == Err::<
                Map<u32, Seq<u32>>,
                TableError,
            >(e),
        },
{
    single_table(data, Rule { bump: false, shift: false }, Relocation::Interleaved)
}

} // verus!
