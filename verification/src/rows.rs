//! One line of a collation-element table: its key, its weights, and the record that a table
//! makes of it.

use crate::error::{ErrorKind, TableError};
use crate::remap::{
    adjust_primary, adjusted, in_arabic_block, lemma_script_target_fits, relocate_primary,
    relocated, relocates, Relocation, Rule, FIRST_LATIN_PRIMARY, LAST_PRIMARY_BEFORE_LATIN,
    OFFSET,
};
use crate::text::{
    before, code_points, field, field_range, find_byte, find_groups, groups, levels, part,
    read_code_points, read_levels, slices, ASTERISK, AT_SIGN, HASH, SEMICOLON,
};
use crate::weights::{
    lemma_unpack_pack, pack_code_points, pack_weights, packed, packed_key, unpacked,
    within_maxima, Weight, SEC_MAX, TER_MAX,
};
use vstd::prelude::*;

verus! {

/// What a table makes of one line.
pub enum Row<K, V> {
    /// The line gives the table nothing.
    Skip,
    /// The line gives the table a value for a key.
    Entry(K, V),
    /// The line violates a condition.
    Fail(ErrorKind),
}

/// The row that a reader hands back: nothing, an entry or an error.
pub open spec fn row_of<K>(read: Result<Option<(K, Vec<u32>)>, ErrorKind>) -> Row<K, Seq<u32>> {
    match read {
        Ok(None) => Row::Skip,
        Ok(Some((key, value))) => Row::Entry(key, value@),
        Err(e) => Row::Fail(e),
    }
}

/// The table that a sequence of rows builds up, from the first row to the last: a later entry
/// replaces an earlier one with the same key, and the first row that fails ends the table with
/// its number.
pub open spec fn assemble<K, V>(rows: Seq<Row<K, V>>) -> Result<Map<K, V>, TableError>
    decreases rows.len(),
{
    if rows.len() == 0 {
        Ok(Map::empty())
    } else {
        match assemble(rows.drop_last()) {
            Err(e) => Err(e),
            Ok(table) => match rows.last() {
                Row::Skip => Ok(table),
                Row::Entry(key, value) => Ok(table.insert(key, value)),
                Row::Fail(kind) => Err(TableError { line: (rows.len() - 1) as usize, kind }),
            },
        }
    }
}

/// The table after one more row is the table before it with that row applied.
pub proof fn lemma_assemble_step<K, V>(rows: Seq<Row<K, V>>, n: int)
    requires
        0 <= n < rows.len(),
    ensures
        assemble(rows.take(n + 1)) == match assemble(rows.take(n)) {
            Err(e) => Err(e),
            Ok(table) => match rows[n] {
                Row::Skip => Ok(table),
                Row::Entry(key, value) => Ok(table.insert(key, value)),
                Row::Fail(kind) => Err(TableError { line: n as usize, kind }),
            },
        },
{
    assert(rows.take(n + 1).drop_last() =~= rows.take(n));
    assert(rows.take(n + 1).last() == rows[n]);
}

/// Once the first rows have failed, the table has failed, with the same error.
pub proof fn lemma_assemble_fails<K, V>(rows: Seq<Row<K, V>>, n: int)
    requires
        0 <= n <= rows.len(),
        assemble(rows.take(n)) is Err,
    ensures
        assemble(rows) == assemble(rows.take(n)),
    decreases rows.len() - n,
{
    if n == rows.len() {
        assert(rows.take(n) =~= rows);
    } else {
        lemma_assemble_step(rows, n);
        lemma_assemble_fails(rows, n + 1);
    }
}

/// A table that fails, fails with the condition of one of its rows.
pub proof fn lemma_assemble_failure<K, V>(rows: Seq<Row<K, V>>)
    requires
        assemble(rows) is Err,
    ensures
        exists|i: int|
            0 <= i < rows.len() && #[trigger] rows[i] == Row::<K, V>::Fail(
                assemble(rows)->Err_0.kind,
            ),
    decreases rows.len(),
{
    if rows.len() > 0 {
        let front = rows.drop_last();
        if assemble(front) is Err {
            lemma_assemble_failure(front);
            let i = choose|i: int|
                0 <= i < front.len() && #[trigger] front[i] == Row::<K, V>::Fail(
                    assemble(front)->Err_0.kind,
                );
            assert(rows[i] == front[i]);
        } else {
            assert(rows[rows.len() - 1] == rows.last());
        }
    }
}

/// A table holds a key exactly if one of the rows is an entry for it, provided that no row
/// fails.
pub proof fn lemma_assemble_keys<K, V>(rows: Seq<Row<K, V>>, key: K)
    requires
        assemble(rows) is Ok,
    ensures
        assemble(rows)->Ok_0.contains_key(key) <==> exists|i: int|
            0 <= i < rows.len() && (#[trigger] rows[i]) is Entry && rows[i]->Entry_0 == key,
    decreases rows.len(),
{
    if rows.len() > 0 {
        let front = rows.drop_last();
        lemma_assemble_keys(front, key);
        if assemble(front)->Ok_0.contains_key(key) {
            let i = choose|i: int|
                0 <= i < front.len() && (#[trigger] front[i]) is Entry && front[i]->Entry_0
                    == key;
            assert(rows[i] == front[i]);
        }
        if exists|i: int|
            0 <= i < rows.len() && (#[trigger] rows[i]) is Entry && rows[i]->Entry_0 == key {
            let i = choose|i: int|
                0 <= i < rows.len() && (#[trigger] rows[i]) is Entry && rows[i]->Entry_0 == key;
            if i < rows.len() - 1 {
                assert(front[i] == rows[i]);
            }
        }
    }
}

/// The value of a key in a table is the value of the last row that is an entry for the key.
pub proof fn lemma_assemble_last_entry<K, V>(rows: Seq<Row<K, V>>, key: K)
    requires
        assemble(rows) is Ok,
        assemble(rows)->Ok_0.contains_key(key),
    ensures
        exists|i: int|
            {
                &&& 0 <= i < rows.len()
                &&& #[trigger] rows[i] == Row::Entry(key, assemble(rows)->Ok_0[key])
                &&& forall|j: int|
                    i < j < rows.len() ==> !((#[trigger] rows[j]) is Entry && rows[j]->Entry_0
                        == key)
            },
    decreases rows.len(),
{
    let table = assemble(rows)->Ok_0;
    let front = rows.drop_last();
    let n = rows.len() - 1;
    if rows.last() is Entry && rows.last()->Entry_0 == key {
        assert(rows[n] == Row::Entry(key, table[key]));
    } else {
        lemma_assemble_last_entry(front, key);
        let i = choose|i: int|
            {
                &&& 0 <= i < front.len()
                &&& #[trigger] front[i] == Row::Entry(key, assemble(front)->Ok_0[key])
                &&& forall|j: int|
                    i < j < front.len() ==> !((#[trigger] front[j]) is Entry && front[j]->Entry_0
                        == key)
            };
        assert(rows[i] == front[i]);
        assert forall|j: int| i < j < rows.len() implies !((#[trigger] rows[j]) is Entry
            && rows[j]->Entry_0 == key) by {
            if j < n {
                assert(front[j] == rows[j]);
            }
        }
    }
}

/// A table fails exactly if one of the rows fails, and then with the number and the
/// condition of the first row that does, as long as the number fits the machine's word.
pub proof fn lemma_assemble_first_failure<K, V>(rows: Seq<Row<K, V>>)
    requires
        rows.len() <= usize::MAX,
    ensures
        assemble(rows) is Ok <==> forall|i: int|
            0 <= i < rows.len() ==> !((#[trigger] rows[i]) is Fail),
        assemble(rows) matches Err(e) ==> {
            &&& 0 <= e.line < rows.len()
            &&& rows[e.line as int] == Row::<K, V>::Fail(e.kind)
            &&& forall|j: int| 0 <= j < e.line ==> !((#[trigger] rows[j]) is Fail)
        },
    decreases rows.len(),
{
    if rows.len() > 0 {
        let front = rows.drop_last();
        let n = rows.len() - 1;
        lemma_assemble_first_failure(front);
        match assemble(front) {
            Err(e) => {
                assert(rows[e.line as int] == front[e.line as int]);
                assert forall|j: int| 0 <= j < e.line implies !((#[trigger] rows[j]) is Fail) by {
                    assert(front[j] == rows[j]);
                }
            },
            Ok(table) => {
                if rows.last() is Fail {
                    assert(rows[n] is Fail);
                    assert forall|j: int| 0 <= j < n implies !((#[trigger] rows[j]) is Fail) by {
                        assert(front[j] == rows[j]);
                    }
                } else {
                    assert forall|i: int| 0 <= i < rows.len() implies !((#[trigger] rows[i])
                        is Fail) by {
                        if i < n {
                            assert(front[i] == rows[i]);
                        }
                    }
                }
            },
        }
    }
}

/// A line that holds no record: an empty line, or one that starts with `@` or `#`.
pub open spec fn is_remark(line: Seq<u8>) -> bool {
    line.len() == 0 || line[0] == AT_SIGN || line[0] == HASH
}

/// The part of a line that names the code points: what stands before the first semicolon.
pub open spec fn key_field(line: Seq<u8>) -> Seq<u8> {
    before(line, SEMICOLON)
}

/// The part of a line that holds the weights: the second field, up to the `#` that starts the
/// commentary. A line without a semicolon has none.
pub open spec fn weight_field(line: Seq<u8>) -> Option<Seq<u8>> {
    match field(line, 1) {
        Some(f) => Some(before(f, HASH)),
        None => None,
    }
}

/// The weight that a group denotes under a rule. The group is variable where it starts with
/// an asterisk; its first three levels are the primary, secondary and tertiary weights, of
/// which the last two must be within their maxima; the primary weight is adjusted.
pub open spec fn group_weight(group: Seq<u8>, rule: Rule) -> Result<Weight, ErrorKind> {
    let l = levels(group);
    if l.len() < 3 {
        Err(ErrorKind::MissingLevel)
    } else if l[1] > SEC_MAX || l[2] > TER_MAX {
        Err(ErrorKind::WeightOutOfRange)
    } else {
        Ok(
            Weight {
                variable: group[0] == ASTERISK,
                primary: adjusted(l[0], rule),
                secondary: l[1],
                tertiary: l[2],
            },
        )
    }
}

/// The weights that a sequence of groups denotes, in order; the error of the first group
/// that has one.
pub open spec fn group_weights(gs: Seq<Seq<u8>>, rule: Rule) -> Result<Seq<Weight>, ErrorKind>
    decreases gs.len(),
{
    if gs.len() == 0 {
        Ok(Seq::empty())
    } else {
        match group_weights(gs.drop_last(), rule) {
            Err(e) => Err(e),
            Ok(ws) => match group_weight(gs.last(), rule) {
                Err(e) => Err(e),
                Ok(w) => Ok(ws.push(w)),
            },
        }
    }
}

/// A weight with its primary level relocated and its other fields kept.
pub open spec fn relocated_weight(relocation: Relocation, w: Weight) -> Weight {
    Weight {
        variable: w.variable,
        primary: relocated(relocation, w.primary),
        secondary: w.secondary,
        tertiary: w.tertiary,
    }
}

/// Whether a relocation moves any of the given weights.
pub open spec fn touches(relocation: Relocation, ws: Seq<Weight>) -> bool {
    exists|i: int| 0 <= i < ws.len() && relocates(relocation, (#[trigger] ws[i]).primary)
}

/// Whether a table with the given relocation keeps a record with the given weights: a table
/// that relocates keeps the records that it moves a weight of, and no others.
pub open spec fn keeps(relocation: Relocation, ws: Seq<Weight>) -> bool {
    relocation is Keep || touches(relocation, ws)
}

/// The given weights, each relocated and packed.
pub open spec fn packed_weights(relocation: Relocation, ws: Seq<Weight>) -> Seq<u32> {
    ws.map_values(|w: Weight| packed(relocated_weight(relocation, w)))
}

/// What a table of single code points makes of a line. Remarks and lines that name several
/// code points are skipped; the line must have its two fields and name a code point; its
/// weights are read under the rule, relocated and packed.
pub open spec fn single_row(line: Seq<u8>, rule: Rule, relocation: Relocation) -> Row<
    u32,
    Seq<u32>,
> {
    if is_remark(line) {
        Row::Skip
    } else {
        match weight_field(line) {
            None => Row::Fail(ErrorKind::MissingField),
            Some(wf) => {
                let points = code_points(key_field(line));
                if points.len() > 1 {
                    Row::Skip
                } else if points.len() == 0 {
                    Row::Fail(ErrorKind::MissingKey)
                } else {
                    match group_weights(groups(wf), rule) {
                        Err(e) => Row::Fail(e),
                        Ok(ws) => if keeps(relocation, ws) {
                            Row::Entry(points[0], packed_weights(relocation, ws))
                        } else {
                            Row::Skip
                        },
                    }
                }
            },
        }
    }
}

/// What a table of code-point sequences makes of a line. Remarks and lines that name fewer
/// than two code points are skipped; the line must have its two fields; its weights are read
/// under the rule, relocated and packed; a record that the table keeps must name at most
/// three code points, which are packed into its key.
pub open spec fn multi_row(line: Seq<u8>, rule: Rule, relocation: Relocation) -> Row<
    u64,
    Seq<u32>,
> {
    if is_remark(line) {
        Row::Skip
    } else {
        match weight_field(line) {
            None => Row::Fail(ErrorKind::MissingField),
            Some(wf) => {
                let points = code_points(key_field(line));
                if points.len() < 2 {
                    Row::Skip
                } else {
                    match group_weights(groups(wf), rule) {
                        Err(e) => Row::Fail(e),
                        Ok(ws) => if !keeps(relocation, ws) {
                            Row::Skip
                        } else if points.len() > 3 {
                            Row::Fail(ErrorKind::KeyTooLong)
                        } else {
                            Row::Entry(packed_key(points), packed_weights(relocation, ws))
                        },
                    }
                }
            },
        }
    }
}

/// Largest code point of the dense table.
pub const LOW_MAX: u32 = 0xB6;

/// The two code points that the dense table leaves out: the capital and the small letter L.
pub open spec fn is_left_out(code_point: u32) -> bool {
    code_point == 0x4C || code_point == 0x6C
}

/// What the dense table of small code points makes of a line. Remarks are skipped; the line
/// must have its two fields and name a code point; lines that name several code points, lines
/// for code points above `LOW_MAX` and lines for the two letters left out are skipped; the
/// line must have a group of weights, of which the first is read under the rule and packed.
pub open spec fn low_row(line: Seq<u8>, rule: Rule) -> Row<u32, u32> {
    if is_remark(line) {
        Row::Skip
    } else {
        match weight_field(line) {
            None => Row::Fail(ErrorKind::MissingField),
            Some(wf) => {
                let points = code_points(key_field(line));
                if points.len() == 0 {
                    Row::Fail(ErrorKind::MissingKey)
                } else if points.len() > 1 {
                    Row::Skip
                } else if points[0] > LOW_MAX || is_left_out(points[0]) {
                    Row::Skip
                } else if groups(wf).len() == 0 {
                    Row::Fail(ErrorKind::MissingWeights)
                } else {
                    match group_weight(groups(wf)[0], rule) {
                        Err(e) => Row::Fail(e),
                        Ok(w) => Row::Entry(points[0], packed(w)),
                    }
                }
            },
        }
    }
}

/// Whether the first group that decides it makes a record variable: the groups are read in
/// order, each must have a primary level, and the first one that is marked variable or has
/// the primary weight 0 decides. Groups behind it are not read.
pub open spec fn any_variable(gs: Seq<Seq<u8>>) -> Result<bool, ErrorKind>
    decreases gs.len(),
{
    if gs.len() == 0 {
        Ok(false)
    } else {
        let l = levels(gs[0]);
        if l.len() == 0 {
            Err(ErrorKind::MissingLevel)
        } else if gs[0][0] == ASTERISK || l[0] == 0 {
            Ok(true)
        } else {
            any_variable(gs.skip(1))
        }
    }
}

/// What the set of variable code points makes of a line. Remarks and lines that name several
/// code points are skipped; the line must have its two fields and name a code point, which
/// the set takes where one of the groups makes the record variable.
pub open spec fn variable_row(line: Seq<u8>) -> Row<u32, ()> {
    if is_remark(line) {
        Row::Skip
    } else {
        match weight_field(line) {
            None => Row::Fail(ErrorKind::MissingField),
            Some(wf) => {
                let points = code_points(key_field(line));
                if points.len() > 1 {
                    Row::Skip
                } else if points.len() == 0 {
                    Row::Fail(ErrorKind::MissingKey)
                } else {
                    match any_variable(groups(wf)) {
                        Err(e) => Row::Fail(e),
                        Ok(true) => Row::Entry(points[0], ()),
                        Ok(false) => Row::Skip,
                    }
                }
            },
        }
    }
}

/// Every weight of a line that is read without error is within the maxima.
pub proof fn lemma_group_weights_within_maxima(gs: Seq<Seq<u8>>, rule: Rule)
    requires
        group_weights(gs, rule) is Ok,
    ensures
        group_weights(gs, rule)->Ok_0.len() == gs.len(),
        forall|i: int|
            0 <= i < gs.len() ==> within_maxima(#[trigger] group_weights(gs, rule)->Ok_0[i]),
    decreases gs.len(),
{
    if gs.len() > 0 {
        lemma_group_weights_within_maxima(gs.drop_last(), rule);
    }
}

/// Once the first groups have an error, the whole sequence has the same error.
pub proof fn lemma_group_weights_fail(gs: Seq<Seq<u8>>, rule: Rule, n: int)
    requires
        0 <= n <= gs.len(),
        group_weights(gs.take(n), rule) is Err,
    ensures
        group_weights(gs, rule) == group_weights(gs.take(n), rule),
    decreases gs.len() - n,
{
    if n == gs.len() {
        assert(gs.take(n) =~= gs);
    } else {
        assert(gs.take(n + 1).drop_last() =~= gs.take(n));
        lemma_group_weights_fail(gs, rule, n + 1);
    }
}

/// A weight within the maxima that is relocated and packed unpacks to the relocated primary
/// level and to every other field as it was.
pub proof fn lemma_relocated_weight(relocation: Relocation, w: Weight)
    requires
        within_maxima(w),
    ensures
        unpacked(packed(relocated_weight(relocation, w))) == relocated_weight(relocation, w),
        relocation is Keep ==> relocated_weight(relocation, w) == w,
{
    lemma_unpack_pack(relocated_weight(relocation, w));
}

/// The packed weights of a record unpack to the weights that were read, each with its primary
/// level relocated and every other field as it was read.
pub proof fn lemma_packed_weights_unpack(relocation: Relocation, ws: Seq<Weight>, i: int)
    requires
        forall|k: int| 0 <= k < ws.len() ==> within_maxima(#[trigger] ws[k]),
        0 <= i < ws.len(),
    ensures
        packed_weights(relocation, ws).len() == ws.len(),
        unpacked(packed_weights(relocation, ws)[i]) == relocated_weight(relocation, ws[i]),
{
    lemma_relocated_weight(relocation, ws[i]);
}

/// A weight of the Arabic block, relocated with the block and packed, holds a primary level
/// lowered by `OFFSET`, which lies strictly between the last primary weight below the Latin
/// script and the first primary weight of the shifted Latin script; its other fields are as
/// before.
pub proof fn lemma_arabic_weight_relocated(w: Weight)
    requires
        within_maxima(w),
        in_arabic_block(w.primary),
    ensures
        unpacked(packed(relocated_weight(Relocation::Script, w))).primary == w.primary - OFFSET,
        LAST_PRIMARY_BEFORE_LATIN < unpacked(
            packed(relocated_weight(Relocation::Script, w)),
        ).primary < FIRST_LATIN_PRIMARY,
        unpacked(packed(relocated_weight(Relocation::Script, w))).variable == w.variable,
        unpacked(packed(relocated_weight(Relocation::Script, w))).secondary == w.secondary,
        unpacked(packed(relocated_weight(Relocation::Script, w))).tertiary == w.tertiary,
{
    lemma_relocated_weight(Relocation::Script, w);
    lemma_script_target_fits(w.primary);
}

/// A line that names exactly one code point gives no entry to a table of code-point
/// sequences, and a line that names several gives none to a table of single code points, nor
/// to the dense table.
pub proof fn lemma_multiplicity(line: Seq<u8>, rule: Rule, relocation: Relocation)
    ensures
        code_points(key_field(line)).len() == 1 ==> !(multi_row(line, rule, relocation) is Entry),
        code_points(key_field(line)).len() >= 2 ==> !(single_row(line, rule, relocation)
            is Entry) && !(low_row(line, rule) is Entry),
        code_points(key_field(line)).len() == 0 ==> !(single_row(line, rule, relocation)
            is Entry) && !(multi_row(line, rule, relocation) is Entry) && !(low_row(line, rule)
            is Entry),
{
}

/// A line that gives an entry to a table of single code points names exactly one code point,
/// the key of the entry, and gives nothing to any table of code-point sequences.
pub proof fn lemma_single_entry(
    line: Seq<u8>,
    rule: Rule,
    relocation: Relocation,
    other_rule: Rule,
    other_relocation: Relocation,
)
    requires
        single_row(line, rule, relocation) is Entry,
    ensures
        code_points(key_field(line)) == seq![single_row(line, rule, relocation)->Entry_0],
        multi_row(line, other_rule, other_relocation) is Skip,
{
    let points = code_points(key_field(line));
    assert(points =~= seq![points[0]]);
}

/// A line that gives an entry to a table of code-point sequences names two or three code
/// points, which pack to the key of the entry, and gives nothing to any table of single code
/// points.
pub proof fn lemma_multi_entry(
    line: Seq<u8>,
    rule: Rule,
    relocation: Relocation,
    other_rule: Rule,
    other_relocation: Relocation,
)
    requires
        multi_row(line, rule, relocation) is Entry,
    ensures
        2 <= code_points(key_field(line)).len() <= 3,
        multi_row(line, rule, relocation)->Entry_0 == packed_key(code_points(key_field(line))),
        single_row(line, other_rule, other_relocation) is Skip,
{
}

/// Tells whether a line holds no record.
pub fn is_remark_line(line: &[u8]) -> (r: bool)
    ensures
        r == is_remark(line@),
{
    line.len() == 0 || line[0] == AT_SIGN || line[0] == HASH
}

/// The two fields of a line that is no remark: the one that names the code points, and the
/// one that holds the weights.
pub fn split_record(line: &[u8]) -> (r: Option<(&[u8], &[u8])>)
    ensures
        match r {
            Some((kf, wf)) => kf@ == key_field(line@) && weight_field(line@) == Some(wf@),
            None => weight_field(line@) is None,
        },
{
    let key_range = match field_range(line, 0) {
        Some(range) => range,
        None => {
            return None;
        },
    };
    let second = match field_range(line, 1) {
        Some(range) => part(line, range),
        None => {
            return None;
        },
    };
    let cut = find_byte(second, 0, HASH);
    proof {
        assert(second@.skip(0) =~= second@);
    }
    Some((part(line, key_range), part(second, (0, cut))))
}

/// Reads the weight that a group denotes under a rule.
pub fn read_group(group: &[u8], rule: Rule) -> (r: Result<Weight, ErrorKind>)
    ensures
        r == group_weight(group@, rule),
        r matches Ok(w) ==> within_maxima(w),
{
    let l = read_levels(group);
    if l.len() < 3 {
        return Err(ErrorKind::MissingLevel);
    }
    assert(group.len() > 0);
    if l[1] > SEC_MAX || l[2] > TER_MAX {
        return Err(ErrorKind::WeightOutOfRange);
    }
    Ok(
        Weight {
            variable: group[0] == ASTERISK,
            primary: adjust_primary(l[0], rule),
            secondary: l[1],
            tertiary: l[2],
        },
    )
}

/// Reads the weights of a line under a rule.
pub fn read_weights(wf: &[u8], rule: Rule) -> (r: Result<Vec<Weight>, ErrorKind>)
    ensures
        match r {
            Ok(ws) => group_weights(groups(wf@), rule) == Ok::<Seq<Weight>, ErrorKind>(ws@)
                && forall|i: int| 0 <= i < ws.len() ==> within_maxima(#[trigger] ws@[i]),
            Err(e) => group_weights(groups(wf@), rule) == Err::<Seq<Weight>, ErrorKind>(e),
        },
{
    let found = find_groups(wf);
    let ghost gs = groups(wf@);
    let mut out: Vec<Weight> = Vec::new();
    let mut i: usize = 0;
    while i < found.len()
        invariant
            i <= found.len(),
            gs == groups(wf@),
            slices(wf@, found@) == gs,
            forall|k: int|
                0 <= k < found.len() ==> (#[trigger] found[k]).0 + 15 == found[k].1 && found[k].1
                    <= wf.len(),
            group_weights(gs.take(i as int), rule) == Ok::<Seq<Weight>, ErrorKind>(out@),
            forall|k: int| 0 <= k < out.len() ==> within_maxima(#[trigger] out@[k]),
        decreases found.len() - i,
    {
        let group = part(wf, found[i]);
        proof {
            assert(gs.take(i + 1).drop_last() =~= gs.take(i as int));
        }
        match read_group(group, rule) {
            Err(e) => {
                proof {
                    lemma_group_weights_fail(gs, rule, i + 1);
                }
                return Err(e);
            },
            Ok(w) => {
                out.push(w);
            },
        }
        i += 1;
    }
    proof {
        assert(gs.take(i as int) =~= gs);
    }
    Ok(out)
}

/// Relocates and packs each weight, and tells whether the relocation moved any of them.
pub(crate) fn pack_all(relocation: Relocation, ws: &Vec<Weight>) -> (r: (bool, Vec<u32>))
    requires
        forall|i: int| 0 <= i < ws.len() ==> within_maxima(#[trigger] ws@[i]),
    ensures
        r.0 == touches(relocation, ws@),
        r.1@ == packed_weights(relocation, ws@),
{
    let mut out: Vec<u32> = Vec::new();
    let mut touched = false;
    let mut i: usize = 0;
    while i < ws.len()
        invariant
            i <= ws.len(),
            forall|k: int| 0 <= k < ws.len() ==> within_maxima(#[trigger] ws@[k]),
            out@ =~= packed_weights(relocation, ws@).take(i as int),
            touched == touches(relocation, ws@.take(i as int)),
        decreases ws.len() - i,
    {
        let w = ws[i];
        let (moves, target) = relocate_primary(relocation, w.primary);
        proof {
            let a = ws@.take(i as int);
            let b = ws@.take(i + 1);
            assert(b[i as int] == ws@[i as int]);
            if touches(relocation, a) {
                let k = choose|k: int|
                    0 <= k < a.len() && relocates(relocation, (#[trigger] a[k]).primary);
                assert(b[k] == a[k]);
            }
            if touches(relocation, b) && !moves {
                let k = choose|k: int|
                    0 <= k < b.len() && relocates(relocation, (#[trigger] b[k]).primary);
                assert(a[k] == b[k]);
            }
        }
        if moves {
            touched = true;
        }
        out.push(pack_weights(w.variable, target, w.secondary, w.tertiary));
        i += 1;
    }
    proof {
        assert(ws@.take(i as int) =~= ws@);
    }
    (touched, out)
}

/// Reads the packed weights of a record under a rule and a relocation, where the table keeps
/// the record.
pub fn read_record(wf: &[u8], rule: Rule, relocation: Relocation) -> (r: Result<
    Option<Vec<u32>>,
    ErrorKind,
>)
    ensures
        match r {
            Ok(Some(packed)) => group_weights(groups(wf@), rule) is Ok && keeps(
                relocation,
                group_weights(groups(wf@), rule)->Ok_0,
            ) && packed@ == packed_weights(relocation, group_weights(groups(wf@), rule)->Ok_0),
            Ok(None) => group_weights(groups(wf@), rule) is Ok && !keeps(
                relocation,
                group_weights(groups(wf@), rule)->Ok_0,
            ),
            Err(e) => group_weights(groups(wf@), rule) == Err::<Seq<Weight>, ErrorKind>(e),
        },
{
    let ws = match read_weights(wf, rule) {
        Ok(ws) => ws,
        Err(e) => {
            return Err(e);
        },
    };
    let (touched, packed) = pack_all(relocation, &ws);
    match relocation {
        Relocation::Keep => Ok(Some(packed)),
        _ => if touched {
            Ok(Some(packed))
        } else {
            Ok(None)
        },
    }
}

/// Reads what a table of single code points makes of a line: nothing, an entry, or an error.
pub fn read_single(line: &[u8], rule: Rule, relocation: Relocation) -> (r: Result<
    Option<(u32, Vec<u32>)>,
    ErrorKind,
>)
    ensures
        row_of(r) == single_row(line@, rule, relocation),
{
    if is_remark_line(line) {
        return Ok(None);
    }
    let (kf, wf) = match split_record(line) {
        Some(fields) => fields,
        None => {
            return Err(ErrorKind::MissingField);
        },
    };
    let points = read_code_points(kf);
    if points.len() > 1 {
        return Ok(None);
    }
    if points.len() == 0 {
        return Err(ErrorKind::MissingKey);
    }
    match read_record(wf, rule, relocation) {
        Err(e) => Err(e),
        Ok(None) => Ok(None),
        Ok(Some(packed)) => Ok(Some((points[0], packed))),
    }
}

/// Reads what a table of code-point sequences makes of a line: nothing, an entry, or an
/// error.
pub fn read_multi(line: &[u8], rule: Rule, relocation: Relocation) -> (r: Result<
    Option<(u64, Vec<u32>)>,
    ErrorKind,
>)
    ensures
        row_of(r) == multi_row(line@, rule, relocation),
{
    if is_remark_line(line) {
        return Ok(None);
    }
    let (kf, wf) = match split_record(line) {
        Some(fields) => fields,
        None => {
            return Err(ErrorKind::MissingField);
        },
    };
    let points = read_code_points(kf);
    if points.len() < 2 {
        return Ok(None);
    }
    match read_record(wf, rule, relocation) {
        Err(e) => Err(e),
        Ok(None) => Ok(None),
        Ok(Some(packed)) => {
            if points.len() > 3 {
                return Err(ErrorKind::KeyTooLong);
            }
            Ok(Some((pack_code_points(points.as_slice()), packed)))
        },
    }
}

/// Reads what the dense table makes of a line: nothing, an entry, or an error.
pub fn read_low(line: &[u8], rule: Rule) -> (r: Result<Option<(u32, u32)>, ErrorKind>)
    ensures
        match r {
            Ok(None) => low_row(line@, rule) == Row::<u32, u32>::Skip,
            Ok(Some((key, w))) => low_row(line@, rule) == Row::Entry(key, w),
            Err(e) => low_row(line@, rule) == Row::<u32, u32>::Fail(e),
        },
{
    if is_remark_line(line) {
        return Ok(None);
    }
    let (kf, wf) = match split_record(line) {
        Some(fields) => fields,
        None => {
            return Err(ErrorKind::MissingField);
        },
    };
    let points = read_code_points(kf);
    if points.len() == 0 {
        return Err(ErrorKind::MissingKey);
    }
    if points.len() > 1 {
        return Ok(None);
    }
    let code_point = points[0];
    if code_point > LOW_MAX || code_point == 0x4C || code_point == 0x6C {
        return Ok(None);
    }
    let found = find_groups(wf);
    if found.len() == 0 {
        return Err(ErrorKind::MissingWeights);
    }
    let group = part(wf, found[0]);
    match read_group(group, rule) {
        Err(e) => Err(e),
        Ok(w) => Ok(
            Some((code_point, pack_weights(w.variable, w.primary, w.secondary, w.tertiary))),
        ),
    }
}

/// Reads what the set of variable code points makes of a line: nothing, a code point, or an
/// error.
pub fn read_variable(line: &[u8]) -> (r: Result<Option<u32>, ErrorKind>)
    ensures
        match r {
            Ok(None) => variable_row(line@) == Row::<u32, ()>::Skip,
            Ok(Some(key)) => variable_row(line@) == Row::Entry(key, ()),
            Err(e) => variable_row(line@) == Row::<u32, ()>::Fail(e),
        },
{
    if is_remark_line(line) {
        return Ok(None);
    }
    let (kf, wf) = match split_record(line) {
        Some(fields) => fields,
        None => {
            return Err(ErrorKind::MissingField);
        },
    };
    let points = read_code_points(kf);
    if points.len() > 1 {
        return Ok(None);
    }
    if points.len() == 0 {
        return Err(ErrorKind::MissingKey);
    }
    let found = find_groups(wf);
    let ghost gs = groups(wf@);
    let mut i: usize = 0;
    assert(gs.skip(0) =~= gs);
    while i < found.len()
        invariant
            i <= found.len(),
            gs == groups(wf@),
            slices(wf@, found@) == gs,
            forall|k: int|
                0 <= k < found.len() ==> (#[trigger] found[k]).0 + 15 == found[k].1 && found[k].1
                    <= wf.len(),
            any_variable(gs) == any_variable(gs.skip(i as int)),
            !is_remark(line@),
            weight_field(line@) == Some(wf@),
            points@ == code_points(key_field(line@)),
            points.len() == 1,
        decreases found.len() - i,
    {
        let group = part(wf, found[i]);
        let l = read_levels(group);
        proof {
            assert(gs.skip(i as int).skip(1) =~= gs.skip(i + 1));
        }
        if l.len() == 0 {
            return Err(ErrorKind::MissingLevel);
        }
        if group[0] == ASTERISK || l[0] == 0 {
            return Ok(Some(points[0]));
        }
        i += 1;
    }
    Ok(None)
}

} // verus!
