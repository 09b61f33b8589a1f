//! The tables of the tailoring that sorts the Arabic script before the Latin script.

use crate::error::TableError;
use crate::remap::{Relocation, Rule};
use crate::store::entries;
use crate::tables::{multi_table, multis, plain_rule, single_table, singles};
use rustc_hash::FxHashMap;
use vstd::prelude::*;

verus! {

/// Compiles the code-point sequences of the Arabic script from the text of the tailored
/// table: the records with a weight of the Arabic block, that block moved down to stand
/// before the Latin script.
pub fn map_arabic_script_multi(data: &[u8]) -> (r: Result<FxHashMap<u64, Vec<u32>>, TableError>)
    ensures
        match r {
            Ok(table) => multis(data@, plain_rule(), Relocation::Script) == Ok::<
                Map<u64, Seq<u32>>,
                TableError,
            >(entries(table@)),
            Err(e) => multis(data@, plain_rule(), Relocation::Script) == Err::<
                Map<u64, Seq<u32>>,
                TableError,
            >(e),
        },
{
    multi_table(data, Rule { bump: false, shift: false }, Relocation::Script)
}

/// Compiles the single code points of the Arabic script from the text of the tailored table:
/// the records with a weight of the Arabic block, that block moved down to stand before the
/// Latin script.
pub fn map_arabic_script_sing(data: &[u8]) -> (r: Result<FxHashMap<u32, Vec<u32>>, TableError>)
    ensures
        match r {
            Ok(table) => singles(data@, plain_rule(), Relocation::Script) == Ok::<
                Map<u32, Seq<u32>>,
                TableError,
            >(entries(table@)),
            Err(e) => singles(data@, plain_rule(), Relocation::Script) == Err::<
                Map<u32, Seq<u32>>,
                TableError,
            >(e),
        },
{
    single_table(data, Rule { bump: false, shift: false }, Relocation::Script)
}

} // verus!
