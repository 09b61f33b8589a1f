//! Canonical decompositions: what the character property table lists for a code point, and
//! what that resolves to once every listed code point is itself decomposed.

use crate::error::{ErrorKind, TableError};
use crate::rows::{assemble, lemma_assemble_failure, row_of, Row};
use crate::store::{
    count, covers, entries, holds_at_most, lemma_entries_empty, lemma_entries_insert,
    lemma_holds_at_most, lookup, put,
};
use crate::tables::apply;
use crate::text::{
    before, code_points, field, field_range, find_byte, first_index, lines, number, parse_number,
    part, read_code_points, slices, split_lines, LESS_THAN, SEMICOLON,
};
use rustc_hash::FxHashMap;
use vstd::prelude::*;

verus! {

/// The code points that have no decomposition of interest and are left out of the tables:
/// the ideographs, the Hangul syllables, the surrogates and the private use areas.
pub open spec fn is_ignored(code_point: u32) -> bool {
    ||| 0x3400 <= code_point <= 0x4DBF
    ||| 0x4E00 <= code_point <= 0x9FFF
    ||| 0xAC00 <= code_point <= 0xD7A3
    ||| 0xD800 <= code_point <= 0xDFFF
    ||| 0xE000 <= code_point <= 0xF8FF
    ||| 0x17000 <= code_point <= 0x187F7
    ||| 0x18D00 <= code_point <= 0x18D08
    ||| 0x20000 <= code_point <= 0x2A6DF
    ||| 0x2A700 <= code_point <= 0x2B738
    ||| 0x2B740 <= code_point <= 0x2B81D
    ||| 0x2B820 <= code_point <= 0x2CEA1
    ||| 0x2CEB0 <= code_point <= 0x2EBE0
    ||| 0x30000 <= code_point <= 0x3134A
    ||| 0xF0000 <= code_point <= 0xFFFFD
    ||| 0x10_0000 <= code_point <= 0x10_FFFD
}

/// Whether a byte occurs in a text.
pub open spec fn occurs(s: Seq<u8>, b: u8) -> bool {
    first_index(s, b) < s.len()
}

/// What the listing of decompositions makes of a line of the property table. Empty lines are
/// skipped; the first field must be the code point; lines for ignored code points are
/// skipped; the line must have its sixth field, which is skipped where it is empty or holds a
/// `<`, the mark of a decomposition that is not canonical; any other must name a code point.
pub open spec fn listing_row(line: Seq<u8>) -> Row<u32, Seq<u32>> {
    if line.len() == 0 {
        Row::Skip
    } else {
        match number(before(line, SEMICOLON)) {
            None => Row::Fail(ErrorKind::BadCodePoint),
            Some(code_point) => if is_ignored(code_point) {
                Row::Skip
            } else {
                match field(line, 5) {
                    None => Row::Fail(ErrorKind::MissingField),
                    Some(column) => if column.len() == 0 || occurs(column, LESS_THAN) {
                        Row::Skip
                    } else if code_points(column).len() == 0 {
                        Row::Fail(ErrorKind::EmptyDecomposition)
                    } else {
                        Row::Entry(code_point, code_points(column))
                    },
                }
            },
        }
    }
}

/// What the listing makes of each line of a text.
pub open spec fn listing_rows(text: Seq<u8>) -> Seq<Row<u32, Seq<u32>>> {
    lines(text).map_values(|line: Seq<u8>| listing_row(line))
}

/// The decompositions that a text lists: for each code point the code points of the last
/// line that lists any.
pub open spec fn listed(text: Seq<u8>) -> Result<Map<u32, Seq<u32>>, TableError> {
    assemble(listing_rows(text))
}

/// The code points for which the rows list a decomposition, each with the number of its
/// line, in the order of the lines.
pub open spec fn listings(rows: Seq<Row<u32, Seq<u32>>>) -> Seq<(u32, usize)>
    decreases rows.len(),
{
    if rows.len() == 0 {
        Seq::empty()
    } else {
        let front = listings(rows.drop_last());
        match rows.last() {
            Row::Entry(code_point, _) => front.push((code_point, (rows.len() - 1) as usize)),
            _ => front,
        }
    }
}

/// The resolved decomposition of a code point: the code point itself where no decomposition
/// is listed for it, and else the resolved decompositions of the listed code points, one
/// after the other. Nothing where that takes more than `depth` steps down.
pub open spec fn resolved(listed: Map<u32, Seq<u32>>, code_point: u32, depth: nat) -> Option<
    Seq<u32>,
>
    decreases depth, 0nat, 0nat,
{
    if !listed.contains_key(code_point) {
        Some(seq![code_point])
    } else if depth == 0 {
        None
    } else {
        resolved_all(listed, listed[code_point], (depth - 1) as nat)
    }
}

/// The resolved decompositions of a sequence of code points, one after the other.
pub open spec fn resolved_all(listed: Map<u32, Seq<u32>>, points: Seq<u32>, depth: nat) -> Option<
    Seq<u32>,
>
    decreases depth, 1nat, points.len(),
{
    if points.len() == 0 {
        Some(Seq::empty())
    } else {
        match resolved_all(listed, points.drop_last(), depth) {
            None => None,
            Some(front) => match resolved(listed, points.last(), depth) {
                None => None,
                Some(back) => Some(front + back),
            },
        }
    }
}

/// Whether the decomposition of a code point can be resolved at all: within some number of
/// steps.
pub open spec fn resolves(listed: Map<u32, Seq<u32>>, code_point: u32) -> bool {
    exists|depth: nat| (#[trigger] resolved(listed, code_point, depth)) is Some
}

/// The resolved decomposition of a code point, however many steps it takes; none where the
/// code point leads to a cycle, so that following the listed decompositions never ends.
pub open spec fn resolution(listed: Map<u32, Seq<u32>>, code_point: u32) -> Option<Seq<u32>> {
    if resolves(listed, code_point) {
        resolved(
            listed,
            code_point,
            choose|depth: nat| (#[trigger] resolved(listed, code_point, depth)) is Some,
        )
    } else {
        None
    }
}

/// The resolved decompositions of a sequence of code points, one after the other, however
/// many steps they take; none where one of the code points has none.
pub open spec fn resolution_of_all(listed: Map<u32, Seq<u32>>, points: Seq<u32>) -> Option<
    Seq<u32>,
> {
    if exists|depth: nat| (#[trigger] resolved_all(listed, points, depth)) is Some {
        resolved_all(
            listed,
            points,
            choose|depth: nat| (#[trigger] resolved_all(listed, points, depth)) is Some,
        )
    } else {
        None
    }
}

/// One code point is listed in the decomposition of another.
pub open spec fn leads_to(listed: Map<u32, Seq<u32>>, from: u32, to: u32) -> bool {
    listed.contains_key(from) && listed[from].contains(to)
}

/// The code point at an index of a chain leads to the next one.
pub open spec fn links(listed: Map<u32, Seq<u32>>, chain: Seq<u32>, i: int) -> bool {
    leads_to(listed, chain[i], chain[i + 1])
}

/// A chain of code points, each listed in the decomposition of the one before it.
pub open spec fn is_chain(listed: Map<u32, Seq<u32>>, chain: Seq<u32>) -> bool {
    forall|i: int| 0 <= i < chain.len() - 1 ==> #[trigger] links(listed, chain, i)
}

/// A chain of at least one step that ends where it starts.
pub open spec fn is_cycle(listed: Map<u32, Seq<u32>>, chain: Seq<u32>) -> bool {
    chain.len() >= 2 && is_chain(listed, chain) && chain[0] == chain.last()
}

/// Some code point leads back to itself through the listed decompositions.
pub open spec fn has_cycle(listed: Map<u32, Seq<u32>>) -> bool {
    exists|chain: Seq<u32>| #[trigger] is_cycle(listed, chain)
}

/// The table of resolved decompositions for the given listings: each listed code point with
/// its resolved decomposition. The first listing that has none, because it lies on a cycle or
/// leads to one, ends the table, with the number of its line.
pub open spec fn resolve_listings(listed: Map<u32, Seq<u32>>, order: Seq<(u32, usize)>) -> Result<
    Map<u32, Seq<u32>>,
    TableError,
>
    decreases order.len(),
{
    if order.len() == 0 {
        Ok(Map::empty())
    } else {
        match resolve_listings(listed, order.drop_last()) {
            Err(e) => Err(e),
            Ok(table) => match resolution(listed, order.last().0) {
                None => Err(
                    TableError { line: order.last().1, kind: ErrorKind::CyclicDecomposition },
                ),
                Some(d) => Ok(table.insert(order.last().0, d)),
            },
        }
    }
}

/// The table of canonical decompositions of a text: the listing of the text, each listed
/// code point resolved.
pub open spec fn decompositions(text: Seq<u8>) -> Result<Map<u32, Seq<u32>>, TableError> {
    match listed(text) {
        Err(e) => Err(e),
        Ok(table) => resolve_listings(table, listings(listing_rows(text))),
    }
}

/// A code point without a listed decomposition resolves to itself, whatever the depth.
pub proof fn lemma_base_resolves_to_itself(
    listed: Map<u32, Seq<u32>>,
    code_point: u32,
    depth: nat,
)
    requires
        !listed.contains_key(code_point),
    ensures
        resolved(listed, code_point, depth) == Some(seq![code_point]),
        resolution(listed, code_point) == Some(seq![code_point]),
{
    lemma_resolution_is(listed, code_point, depth);
}

/// No code point of a resolved decomposition has a listed decomposition.
pub proof fn lemma_resolved_is_base(listed: Map<u32, Seq<u32>>, code_point: u32, depth: nat)
    requires
        resolved(listed, code_point, depth) is Some,
    ensures
        forall|i: int|
            0 <= i < resolved(listed, code_point, depth)->0.len() ==> !listed.contains_key(
                #[trigger] resolved(listed, code_point, depth)->0[i],
            ),
    decreases depth, 0nat, 0nat,
{
    if listed.contains_key(code_point) && depth > 0 {
        lemma_resolved_all_is_base(listed, listed[code_point], (depth - 1) as nat);
    }
}

/// No code point of the resolved decompositions of a sequence has a listed decomposition.
pub proof fn lemma_resolved_all_is_base(listed: Map<u32, Seq<u32>>, points: Seq<u32>, depth: nat)
    requires
        resolved_all(listed, points, depth) is Some,
    ensures
        forall|i: int|
            0 <= i < resolved_all(listed, points, depth)->0.len() ==> !listed.contains_key(
                #[trigger] resolved_all(listed, points, depth)->0[i],
            ),
    decreases depth, 1nat, points.len(),
{
    if points.len() > 0 {
        lemma_resolved_all_is_base(listed, points.drop_last(), depth);
        lemma_resolved_is_base(listed, points.last(), depth);
    }
}

/// A sequence of code points without listed decompositions resolves to itself.
pub proof fn lemma_base_sequence_resolves_to_itself(
    listed: Map<u32, Seq<u32>>,
    points: Seq<u32>,
    depth: nat,
)
    requires
        forall|i: int| 0 <= i < points.len() ==> !listed.contains_key(#[trigger] points[i]),
    ensures
        resolved_all(listed, points, depth) == Some(points),
    decreases points.len(),
{
    if points.len() > 0 {
        let front = points.drop_last();
        assert forall|i: int| 0 <= i < front.len() implies !listed.contains_key(
            #[trigger] front[i],
        ) by {
            assert(front[i] == points[i]);
        }
        lemma_base_sequence_resolves_to_itself(listed, front, depth);
        assert(!listed.contains_key(points[points.len() - 1]));
        assert(resolved(listed, points.last(), depth) == Some(seq![points.last()]));
        assert(front + seq![points.last()] =~= points);
        assert(resolved_all(listed, points, depth) == Some(front + seq![points.last()]));
    } else {
        assert(points =~= Seq::<u32>::empty());
    }
}

/// Resolving is idempotent: a resolved decomposition resolves to itself.
pub proof fn lemma_resolved_twice(listed: Map<u32, Seq<u32>>, code_point: u32)
    requires
        resolution(listed, code_point) is Some,
    ensures
        resolution_of_all(listed, resolution(listed, code_point)->0) == resolution(
            listed,
            code_point,
        ),
{
    let depth = choose|depth: nat| (#[trigger] resolved(listed, code_point, depth)) is Some;
    lemma_resolved_is_base(listed, code_point, depth);
    lemma_base_sequence_resolves_to_itself(listed, resolved(listed, code_point, depth)->0, depth);
    lemma_resolution_of_all_is(listed, resolved(listed, code_point, depth)->0, depth);
}

/// What resolves within some depth resolves to the same within any greater depth.
pub proof fn lemma_resolved_deeper(
    listed: Map<u32, Seq<u32>>,
    code_point: u32,
    depth: nat,
    deeper: nat,
)
    requires
        resolved(listed, code_point, depth) is Some,
        depth <= deeper,
    ensures
        resolved(listed, code_point, deeper) == resolved(listed, code_point, depth),
    decreases depth, 0nat, 0nat,
{
    if listed.contains_key(code_point) {
        lemma_resolved_all_deeper(
            listed,
            listed[code_point],
            (depth - 1) as nat,
            (deeper - 1) as nat,
        );
    }
}

/// What resolves within some depth resolves to the same within any greater depth.
pub proof fn lemma_resolved_all_deeper(
    listed: Map<u32, Seq<u32>>,
    points: Seq<u32>,
    depth: nat,
    deeper: nat,
)
    requires
        resolved_all(listed, points, depth) is Some,
        depth <= deeper,
    ensures
        resolved_all(listed, points, deeper) == resolved_all(listed, points, depth),
    decreases depth, 1nat, points.len(),
{
    if points.len() > 0 {
        lemma_resolved_all_deeper(listed, points.drop_last(), depth, deeper);
        lemma_resolved_deeper(listed, points.last(), depth, deeper);
    }
}

/// Once the first code points of a sequence cannot be resolved, the sequence cannot.
pub proof fn lemma_resolved_all_fails(
    listed: Map<u32, Seq<u32>>,
    points: Seq<u32>,
    depth: nat,
    n: int,
)
    requires
        0 <= n <= points.len(),
        resolved_all(listed, points.take(n), depth) is None,
    ensures
        resolved_all(listed, points, depth) is None,
    decreases points.len() - n,
{
    if n == points.len() {
        assert(points.take(n) =~= points);
    } else {
        assert(points.take(n + 1).drop_last() =~= points.take(n));
        lemma_resolved_all_fails(listed, points, depth, n + 1);
    }
}

/// Where a code point cannot be resolved within some depth, a chain of listed code points
/// starts at it that is one code point longer than the depth.
pub proof fn lemma_unresolved_chain(
    listed: Map<u32, Seq<u32>>,
    code_point: u32,
    depth: nat,
) -> (chain: Seq<u32>)
    requires
        resolved(listed, code_point, depth) is None,
    ensures
        chain.len() == depth + 1,
        chain[0] == code_point,
        is_chain(listed, chain),
        listed.contains_key(chain.last()),
    decreases depth, 0nat, 0nat,
{
    if depth == 0 {
        seq![code_point]
    } else {
        let rest = lemma_unresolved_all_chain(listed, listed[code_point], (depth - 1) as nat);
        let chain = seq![code_point] + rest;
        assert forall|i: int| 0 <= i < chain.len() - 1 implies #[trigger] links(
            listed,
            chain,
            i,
        ) by {
            if i > 0 {
                assert(links(listed, rest, i - 1));
                assert(chain[i] == rest[i - 1] && chain[i + 1] == rest[i]);
            } else {
                assert(chain[1] == rest[0]);
            }
        }
        assert(chain.last() == rest.last());
        chain
    }
}

/// Where the code points of a sequence cannot all be resolved within some depth, a chain of
/// listed code points starts at one of them that is one code point longer than the depth.
pub proof fn lemma_unresolved_all_chain(
    listed: Map<u32, Seq<u32>>,
    points: Seq<u32>,
    depth: nat,
) -> (chain: Seq<u32>)
    requires
        resolved_all(listed, points, depth) is None,
    ensures
        chain.len() == depth + 1,
        points.contains(chain[0]),
        is_chain(listed, chain),
        listed.contains_key(chain.last()),
    decreases depth, 1nat, points.len(),
{
    if resolved_all(listed, points.drop_last(), depth) is None {
        let front = points.drop_last();
        let chain = lemma_unresolved_all_chain(listed, front, depth);
        let i = choose|i: int| 0 <= i < front.len() && front[i] == chain[0];
        assert(points[i] == chain[0]);
        chain
    } else {
        let chain = lemma_unresolved_chain(listed, points.last(), depth);
        assert(points[points.len() - 1] == chain[0]);
        chain
    }
}

/// A chain of listed code points that is longer than the number of listed decompositions
/// passes some code point twice.
pub proof fn lemma_long_chain_repeats(listed: Map<u32, Seq<u32>>, chain: Seq<u32>, n: nat) -> (at: (
    int,
    int,
))
    requires
        holds_at_most(listed.dom(), n),
        is_chain(listed, chain),
        chain.len() > n,
        listed.contains_key(chain.last()),
    ensures
        0 <= at.0 < at.1 < chain.len(),
        chain[at.0] == chain[at.1],
{
    assert forall|i: int| 0 <= i < chain.len() implies listed.contains_key(#[trigger] chain[i]) by {
        if i < chain.len() - 1 {
            assert(links(listed, chain, i));
        }
    }
    if chain.no_duplicates() {
        let listing = choose|listing: Seq<u32>|
            #[trigger] covers(listing, listed.dom()) && listing.len() == n;
        assert forall|code_point: u32|
            chain.to_set().contains(code_point) implies listing.to_set().contains(code_point) by {
            let i = choose|i: int| 0 <= i < chain.len() && chain[i] == code_point;
            assert(listed.contains_key(chain[i]));
            assert(listing.contains(code_point));
        }
        chain.unique_seq_to_set();
        listing.lemma_cardinality_of_set();
        vstd::seq_lib::seq_to_set_is_finite(listing);
        vstd::set_lib::lemma_len_subset(chain.to_set(), listing.to_set());
        (0, 0)
    } else {
        let (i, j) = choose|i: int, j: int|
            0 <= i < chain.len() && 0 <= j < chain.len() && i != j && chain[i] == chain[j];
        if i < j {
            (i, j)
        } else {
            (j, i)
        }
    }
}

/// Where one of the code points of a sequence cannot be resolved, the sequence cannot.
pub proof fn lemma_resolved_all_fails_at(
    listed: Map<u32, Seq<u32>>,
    points: Seq<u32>,
    depth: nat,
    i: int,
)
    requires
        0 <= i < points.len(),
        resolved(listed, points[i], depth) is None,
    ensures
        resolved_all(listed, points, depth) is None,
    decreases points.len(),
{
    if i < points.len() - 1 {
        assert(points.drop_last()[i] == points[i]);
        lemma_resolved_all_fails_at(listed, points.drop_last(), depth, i);
    }
}

/// A code point on a cycle cannot be resolved, however many steps are followed.
pub proof fn lemma_cycle_never_resolves(listed: Map<u32, Seq<u32>>, cycle: Seq<u32>, depth: nat)
    requires
        is_cycle(listed, cycle),
    ensures
        resolved(listed, cycle[0], depth) is None,
    decreases depth,
{
    assert(links(listed, cycle, 0));
    if depth > 0 {
        let turned = cycle.skip(1).push(cycle[1]);
        assert forall|i: int| 0 <= i < turned.len() - 1 implies #[trigger] links(
            listed,
            turned,
            i,
        ) by {
            if i < cycle.len() - 2 {
                assert(links(listed, cycle, i + 1));
            }
        }
        lemma_cycle_never_resolves(listed, turned, (depth - 1) as nat);
        let i = choose|i: int| 0 <= i < listed[cycle[0]].len() && listed[cycle[0]][i] == cycle[1];
        lemma_resolved_all_fails_at(listed, listed[cycle[0]], (depth - 1) as nat, i);
    }
}

/// Where the last code point of a chain cannot be resolved within some depth, the first one
/// cannot be resolved within that depth and the steps of the chain.
pub proof fn lemma_chain_never_resolves(listed: Map<u32, Seq<u32>>, chain: Seq<u32>, depth: nat)
    requires
        chain.len() >= 1,
        is_chain(listed, chain),
        resolved(listed, chain.last(), depth) is None,
    ensures
        resolved(listed, chain[0], (depth + chain.len() - 1) as nat) is None,
    decreases chain.len(),
{
    if chain.len() > 1 {
        let rest = chain.skip(1);
        assert forall|i: int| 0 <= i < rest.len() - 1 implies #[trigger] links(listed, rest, i) by {
            assert(links(listed, chain, i + 1));
        }
        assert(rest.last() == chain.last());
        lemma_chain_never_resolves(listed, rest, depth);
        assert(links(listed, chain, 0));
        let i = choose|i: int| 0 <= i < listed[chain[0]].len() && listed[chain[0]][i] == chain[1];
        lemma_resolved_all_fails_at(
            listed,
            listed[chain[0]],
            (depth + chain.len() - 2) as nat,
            i,
        );
    }
}

/// What resolves within some depth is the resolved decomposition.
pub proof fn lemma_resolution_is(listed: Map<u32, Seq<u32>>, code_point: u32, depth: nat)
    requires
        resolved(listed, code_point, depth) is Some,
    ensures
        resolution(listed, code_point) == resolved(listed, code_point, depth),
{
    let chosen = choose|d: nat| (#[trigger] resolved(listed, code_point, d)) is Some;
    if chosen <= depth {
        lemma_resolved_deeper(listed, code_point, chosen, depth);
    } else {
        lemma_resolved_deeper(listed, code_point, depth, chosen);
    }
}

/// What resolves within some depth are the resolved decompositions of a sequence.
pub proof fn lemma_resolution_of_all_is(listed: Map<u32, Seq<u32>>, points: Seq<u32>, depth: nat)
    requires
        resolved_all(listed, points, depth) is Some,
    ensures
        resolution_of_all(listed, points) == resolved_all(listed, points, depth),
{
    let chosen = choose|d: nat| (#[trigger] resolved_all(listed, points, d)) is Some;
    if chosen <= depth {
        lemma_resolved_all_deeper(listed, points, chosen, depth);
    } else {
        lemma_resolved_all_deeper(listed, points, depth, chosen);
    }
}

/// The resolved decomposition of a code point is the code point itself where no
/// decomposition is listed for it, and else the resolved decompositions of the listed code
/// points, one after the other.
pub proof fn lemma_resolution_unfolds(listed: Map<u32, Seq<u32>>, code_point: u32)
    ensures
        resolution(listed, code_point) == if listed.contains_key(code_point) {
            resolution_of_all(listed, listed[code_point])
        } else {
            Some(seq![code_point])
        },
{
    if !listed.contains_key(code_point) {
        lemma_base_resolves_to_itself(listed, code_point, 0);
    } else if resolves(listed, code_point) {
        let depth = choose|depth: nat| (#[trigger] resolved(listed, code_point, depth)) is Some;
        lemma_resolution_of_all_is(listed, listed[code_point], (depth - 1) as nat);
    } else if resolution_of_all(listed, listed[code_point]) is Some {
        let depth = choose|depth: nat|
            (#[trigger] resolved_all(listed, listed[code_point], depth)) is Some;
        assert(resolved(listed, code_point, depth + 1) is Some);
    }
}

/// The resolved decompositions of a sequence of code points are those of all but the last
/// one, followed by the resolved decomposition of the last one.
pub proof fn lemma_resolution_of_all_unfolds(listed: Map<u32, Seq<u32>>, points: Seq<u32>)
    ensures
        resolution_of_all(listed, points) == if points.len() == 0 {
            Some(Seq::<u32>::empty())
        } else {
            match resolution_of_all(listed, points.drop_last()) {
                None => None,
                Some(front) => match resolution(listed, points.last()) {
                    None => None,
                    Some(back) => Some(front + back),
                },
            }
        },
{
    if points.len() == 0 {
        lemma_resolution_of_all_is(listed, points, 0);
    } else if resolution_of_all(listed, points) is Some {
        let depth = choose|depth: nat| (#[trigger] resolved_all(listed, points, depth)) is Some;
        lemma_resolution_of_all_is(listed, points.drop_last(), depth);
        lemma_resolution_is(listed, points.last(), depth);
    } else if resolution_of_all(listed, points.drop_last()) is Some && resolution(
        listed,
        points.last(),
    ) is Some {
        let a = choose|depth: nat|
            (#[trigger] resolved_all(listed, points.drop_last(), depth)) is Some;
        let b = choose|depth: nat| (#[trigger] resolved(listed, points.last(), depth)) is Some;
        let depth = if a <= b {
            b
        } else {
            a
        };
        lemma_resolved_all_deeper(listed, points.drop_last(), a, depth);
        lemma_resolved_deeper(listed, points.last(), b, depth);
        assert(resolved_all(listed, points, depth) is Some);
    }
}

/// What does not resolve within as many steps as there are listed decompositions never
/// resolves, and the listed decompositions hold a cycle.
pub proof fn lemma_no_resolution(listed: Map<u32, Seq<u32>>, code_point: u32, n: nat, depth: nat)
    requires
        holds_at_most(listed.dom(), n),
        depth >= n,
        resolved(listed, code_point, depth) is None,
    ensures
        resolution(listed, code_point) is None,
        has_cycle(listed),
{
    let chain = lemma_unresolved_chain(listed, code_point, depth);
    let (a, b) = lemma_long_chain_repeats(listed, chain, n);
    let cycle = chain.subrange(a, b + 1);
    assert forall|k: int| 0 <= k < cycle.len() - 1 implies #[trigger] links(listed, cycle, k) by {
        assert(links(listed, chain, a + k));
    }
    assert(is_cycle(listed, cycle));
    let start = chain.take(a + 1);
    assert forall|k: int| 0 <= k < start.len() - 1 implies #[trigger] links(listed, start, k) by {
        assert(links(listed, chain, k));
    }
    assert forall|d: nat| (#[trigger] resolved(listed, code_point, d)) is None by {
        lemma_cycle_never_resolves(listed, cycle, d);
        lemma_chain_never_resolves(listed, start, d);
        if resolved(listed, code_point, d) is Some {
            lemma_resolved_deeper(listed, code_point, d, (d + a) as nat);
        }
    }
}

/// The listings of a text cover the code points for which it lists a decomposition.
pub proof fn lemma_listings_cover(rows: Seq<Row<u32, Seq<u32>>>)
    requires
        assemble(rows) is Ok,
    ensures
        holds_at_most(assemble(rows)->Ok_0.dom(), listings(rows).len()),
{
    let listing = listings(rows).map_values(|l: (u32, usize)| l.0);
    assert forall|key: u32|
        assemble(rows)->Ok_0.dom().contains(key) implies #[trigger] listing.contains(key) by {
        lemma_listings_keys(rows, key);
        let j = choose|j: int|
            0 <= j < listings(rows).len() && (#[trigger] listings(rows)[j]).0 == key;
        assert(listing[j] == key);
    }
    assert(covers(listing, assemble(rows)->Ok_0.dom()));
}

/// The table of canonical decompositions fails for a cycle exactly if the text lists its
/// decompositions without error and these hold a cycle.
pub proof fn lemma_decompositions_fail_on_cycles(text: Seq<u8>)
    ensures
        (decompositions(text) is Err && decompositions(text)->Err_0.kind
            == ErrorKind::CyclicDecomposition) <==> (listed(text) is Ok && has_cycle(
            listed(text)->Ok_0,
        )),
{
    let rows = listing_rows(text);
    if listed(text) is Err {
        lemma_assemble_failure(rows);
    } else {
        let table = listed(text)->Ok_0;
        let order = listings(rows);
        lemma_listings_cover(rows);
        if resolve_listings(table, order) is Err {
            let j = lemma_resolve_listings_failure(table, order);
            lemma_not_resolved_within(table, order[j].0, order.len());
            lemma_no_resolution(table, order[j].0, order.len(), order.len());
        } else if has_cycle(table) {
            let cycle = choose|cycle: Seq<u32>| #[trigger] is_cycle(table, cycle);
            assert(links(table, cycle, 0));
            lemma_listings_keys(rows, cycle[0]);
            lemma_resolve_listings_holds(table, order, cycle[0]);
            let depth = choose|depth: nat| (#[trigger] resolved(table, cycle[0], depth)) is Some;
            lemma_cycle_never_resolves(table, cycle, depth);
        }
    }
}

/// What has no resolved decomposition is not resolved within any depth.
pub proof fn lemma_not_resolved_within(listed: Map<u32, Seq<u32>>, code_point: u32, depth: nat)
    requires
        resolution(listed, code_point) is None,
    ensures
        resolved(listed, code_point, depth) is None,
{
    if resolved(listed, code_point, depth) is Some {
        lemma_resolution_is(listed, code_point, depth);
    }
}

/// A table of resolved decompositions that fails, fails for a cycle, at a listing that has no
/// resolved decomposition.
pub proof fn lemma_resolve_listings_failure(
    listed: Map<u32, Seq<u32>>,
    order: Seq<(u32, usize)>,
) -> (j: int)
    requires
        resolve_listings(listed, order) is Err,
    ensures
        0 <= j < order.len(),
        resolution(listed, order[j].0) is None,
        resolve_listings(listed, order)->Err_0.kind == ErrorKind::CyclicDecomposition,
    decreases order.len(),
{
    if resolve_listings(listed, order.drop_last()) is Err {
        let j = lemma_resolve_listings_failure(listed, order.drop_last());
        assert(order.drop_last()[j] == order[j]);
        j
    } else {
        order.len() - 1
    }
}

/// Once the first listings cannot be resolved, the table has failed, with the same error.
pub proof fn lemma_resolve_listings_fails(
    listed: Map<u32, Seq<u32>>,
    order: Seq<(u32, usize)>,
    n: int,
)
    requires
        0 <= n <= order.len(),
        resolve_listings(listed, order.take(n)) is Err,
    ensures
        resolve_listings(listed, order) == resolve_listings(listed, order.take(n)),
    decreases order.len() - n,
{
    if n == order.len() {
        assert(order.take(n) =~= order);
    } else {
        assert(order.take(n + 1).drop_last() =~= order.take(n));
        lemma_resolve_listings_fails(listed, order, n + 1);
    }
}

/// The listings name exactly the code points that the listed decompositions hold.
pub proof fn lemma_listings_keys(rows: Seq<Row<u32, Seq<u32>>>, code_point: u32)
    requires
        assemble(rows) is Ok,
    ensures
        assemble(rows)->Ok_0.contains_key(code_point) <==> exists|j: int|
            0 <= j < listings(rows).len() && (#[trigger] listings(rows)[j]).0 == code_point,
    decreases rows.len(),
{
    if rows.len() > 0 {
        let front = rows.drop_last();
        lemma_listings_keys(front, code_point);
        let before = listings(front);
        let all = listings(rows);
        if exists|j: int| 0 <= j < before.len() && (#[trigger] before[j]).0 == code_point {
            let j = choose|j: int| 0 <= j < before.len() && (#[trigger] before[j]).0 == code_point;
            assert(all[j] == before[j]);
        }
        if exists|j: int| 0 <= j < all.len() && (#[trigger] all[j]).0 == code_point {
            let j = choose|j: int| 0 <= j < all.len() && (#[trigger] all[j]).0 == code_point;
            if j < before.len() {
                assert(before[j] == all[j]);
            }
        }
        if rows.last() is Entry && rows.last()->Entry_0 == code_point {
            assert(all[all.len() - 1].0 == code_point);
        }
    }
}

/// A table of resolved decompositions holds exactly the code points of its listings, each
/// with its resolved decomposition.
pub proof fn lemma_resolve_listings_holds(
    listed: Map<u32, Seq<u32>>,
    order: Seq<(u32, usize)>,
    code_point: u32,
)
    requires
        resolve_listings(listed, order) is Ok,
    ensures
        resolve_listings(listed, order)->Ok_0.contains_key(code_point) <==> exists|j: int|
            0 <= j < order.len() && (#[trigger] order[j]).0 == code_point,
        resolve_listings(listed, order)->Ok_0.contains_key(code_point) ==> resolution(
            listed,
            code_point,
        ) == Some(resolve_listings(listed, order)->Ok_0[code_point]),
    decreases order.len(),
{
    if order.len() > 0 {
        let front = order.drop_last();
        lemma_resolve_listings_holds(listed, front, code_point);
        if exists|j: int| 0 <= j < front.len() && (#[trigger] front[j]).0 == code_point {
            let j = choose|j: int| 0 <= j < front.len() && (#[trigger] front[j]).0 == code_point;
            assert(order[j] == front[j]);
        }
        if exists|j: int| 0 <= j < order.len() && (#[trigger] order[j]).0 == code_point {
            let j = choose|j: int| 0 <= j < order.len() && (#[trigger] order[j]).0 == code_point;
            if j < front.len() {
                assert(front[j] == order[j]);
            }
        }
        if order.last().0 == code_point {
            assert(order[order.len() - 1].0 == code_point);
        }
    }
}

/// The table of canonical decompositions of a text holds exactly the code points for which
/// the text lists a decomposition, each with its resolved decomposition.
pub proof fn lemma_decompositions_hold(text: Seq<u8>, code_point: u32)
    requires
        decompositions(text) is Ok,
    ensures
        listed(text) is Ok,
        decompositions(text)->Ok_0.contains_key(code_point) <==> listed(text)->Ok_0.contains_key(
            code_point,
        ),
        decompositions(text)->Ok_0.contains_key(code_point) ==> resolution(
            listed(text)->Ok_0,
            code_point,
        ) == Some(decompositions(text)->Ok_0[code_point]),
{
    let rows = listing_rows(text);
    lemma_listings_keys(rows, code_point);
    lemma_resolve_listings_holds(listed(text)->Ok_0, listings(rows), code_point);
}

/// No code point in a decomposition of the table has a listed decomposition of its own: the
/// table is fully resolved.
pub proof fn lemma_decompositions_are_resolved(text: Seq<u8>, code_point: u32, i: int)
    requires
        decompositions(text) is Ok,
        decompositions(text)->Ok_0.contains_key(code_point),
        0 <= i < decompositions(text)->Ok_0[code_point].len(),
    ensures
        !decompositions(text)->Ok_0.contains_key(decompositions(text)->Ok_0[code_point][i]),
{
    let table = decompositions(text)->Ok_0;
    let inner = table[code_point][i];
    lemma_decompositions_hold(text, code_point);
    lemma_decompositions_hold(text, inner);
    let depth = choose|depth: nat|
        (#[trigger] resolved(listed(text)->Ok_0, code_point, depth)) is Some;
    lemma_resolved_is_base(listed(text)->Ok_0, code_point, depth);
    let d = resolution(listed(text)->Ok_0, code_point)->0;
    assert(d == table[code_point]);
    assert(!listed(text)->Ok_0.contains_key(d[i]));
}

/// Every listed decomposition holds a code point.
pub open spec fn all_hold_a_code_point(listed: Map<u32, Seq<u32>>) -> bool {
    forall|k: u32| listed.contains_key(k) ==> (#[trigger] listed[k]).len() > 0
}

/// Where every listed decomposition holds a code point, so does every resolved one.
pub proof fn lemma_resolved_holds_a_code_point(
    listed: Map<u32, Seq<u32>>,
    code_point: u32,
    depth: nat,
)
    requires
        all_hold_a_code_point(listed),
        resolved(listed, code_point, depth) is Some,
    ensures
        resolved(listed, code_point, depth)->0.len() > 0,
    decreases depth, 0nat, 0nat,
{
    if listed.contains_key(code_point) {
        assert(listed[code_point].len() > 0);
        lemma_resolved_all_holds_a_code_point(listed, listed[code_point], (depth - 1) as nat);
    }
}

/// Where every listed decomposition holds a code point, the resolved decompositions of a
/// sequence of code points hold at least one.
pub proof fn lemma_resolved_all_holds_a_code_point(
    listed: Map<u32, Seq<u32>>,
    points: Seq<u32>,
    depth: nat,
)
    requires
        all_hold_a_code_point(listed),
        resolved_all(listed, points, depth) is Some,
        points.len() > 0,
    ensures
        resolved_all(listed, points, depth)->0.len() > 0,
    decreases depth, 1nat, points.len(),
{
    lemma_resolved_holds_a_code_point(listed, points.last(), depth);
}

/// Every decomposition that a text lists holds a code point.
pub proof fn lemma_listed_hold_a_code_point(rows: Seq<Row<u32, Seq<u32>>>)
    requires
        assemble(rows) is Ok,
        forall|i: int|
            0 <= i < rows.len() && (#[trigger] rows[i]) is Entry ==> rows[i]->Entry_1.len() > 0,
    ensures
        all_hold_a_code_point(assemble(rows)->Ok_0),
    decreases rows.len(),
{
    if rows.len() > 0 {
        let front = rows.drop_last();
        assert forall|i: int|
            0 <= i < front.len() && (#[trigger] front[i]) is Entry implies front[i]->Entry_1.len()
            > 0 by {
            assert(front[i] == rows[i]);
        }
        lemma_listed_hold_a_code_point(front);
        assert(rows.last() == rows[rows.len() - 1]);
    }
}

/// Every decomposition of the table of canonical decompositions holds a code point, so that
/// the table of combining classes finds a first and a last code point in each.
pub proof fn lemma_decompositions_hold_a_code_point(text: Seq<u8>, code_point: u32)
    requires
        decompositions(text) is Ok,
        decompositions(text)->Ok_0.contains_key(code_point),
    ensures
        decompositions(text)->Ok_0[code_point].len() > 0,
{
    let rows = listing_rows(text);
    lemma_decompositions_hold(text, code_point);
    lemma_listed_hold_a_code_point(rows);
    let depth = choose|depth: nat|
        (#[trigger] resolved(listed(text)->Ok_0, code_point, depth)) is Some;
    lemma_resolved_holds_a_code_point(listed(text)->Ok_0, code_point, depth);
}

/// Tells whether a code point is left out of the tables.
pub fn is_ignored_code_point(code_point: u32) -> (r: bool)
    ensures
        r == is_ignored(code_point),
{
    (0x3400 <= code_point && code_point <= 0x4DBF) || (0x4E00 <= code_point && code_point
        <= 0x9FFF) || (0xAC00 <= code_point && code_point <= 0xD7A3) || (0xD800 <= code_point
        && code_point <= 0xDFFF) || (0xE000 <= code_point && code_point <= 0xF8FF) || (0x17000
        <= code_point && code_point <= 0x187F7) || (0x18D00 <= code_point && code_point
        <= 0x18D08) || (0x20000 <= code_point && code_point <= 0x2A6DF) || (0x2A700
        <= code_point && code_point <= 0x2B738) || (0x2B740 <= code_point && code_point
        <= 0x2B81D) || (0x2B820 <= code_point && code_point <= 0x2CEA1) || (0x2CEB0
        <= code_point && code_point <= 0x2EBE0) || (0x30000 <= code_point && code_point
        <= 0x3134A) || (0xF0000 <= code_point && code_point <= 0xFFFFD) || (0x10_0000
        <= code_point && code_point <= 0x10_FFFD)
}

/// Reads what the listing of decompositions makes of a line: nothing, an entry, or an error.
pub fn read_listing(line: &[u8]) -> (r: Result<Option<(u32, Vec<u32>)>, ErrorKind>)
    ensures
        row_of(r) == listing_row(line@),
{
    if line.len() == 0 {
        return Ok(None);
    }
    let code_point = match read_code_point(line) {
        Some(code_point) => code_point,
        None => {
            return Err(ErrorKind::BadCodePoint);
        },
    };
    if is_ignored_code_point(code_point) {
        return Ok(None);
    }
    let column = match field_range(line, 5) {
        Some(range) => part(line, range),
        None => {
            return Err(ErrorKind::MissingField);
        },
    };
    if column.len() == 0 {
        return Ok(None);
    }
    let mark = find_byte(column, 0, LESS_THAN);
    assert(column@.skip(0) =~= column@);
    if mark < column.len() {
        return Ok(None);
    }
    let points = read_code_points(column);
    if points.len() == 0 {
        return Err(ErrorKind::EmptyDecomposition);
    }
    Ok(Some((code_point, points)))
}

/// Reads the code point that the first field of a line denotes.
pub fn read_code_point(line: &[u8]) -> (r: Option<u32>)
    ensures
        r == number(before(line@, SEMICOLON)),
{
    let end = find_byte(line, 0, SEMICOLON);
    proof {
        assert(line@.skip(0) =~= line@);
    }
    parse_number(part(line, (0, end)))
}

/// Resolves the decomposition of a code point against the listed decompositions, following
/// them at most `depth` steps down.
fn resolve_within(listed: &FxHashMap<u32, Vec<u32>>, code_point: u32, depth: usize) -> (r: Option<
    Vec<u32>,
>)
    ensures
        match r {
            Some(d) => resolved(entries(listed@), code_point, depth as nat) == Some(d@),
            None => resolved(entries(listed@), code_point, depth as nat) is None,
        },
    decreases depth,
{
    let ghost table = entries(listed@);
    match lookup(listed, &code_point) {
        None => {
            let mut out: Vec<u32> = Vec::new();
            out.push(code_point);
            Some(out)
        },
        Some(decomp) => {
            if depth == 0 {
                return None;
            }
            let mut out: Vec<u32> = Vec::new();
            let mut i: usize = 0;
            while i < decomp.len()
                invariant
                    i <= decomp.len(),
                    depth > 0,
                    table == entries(listed@),
                    table.contains_key(code_point),
                    table[code_point] == decomp@,
                    resolved_all(table, decomp@.take(i as int), (depth - 1) as nat) == Some(out@),
                decreases decomp.len() - i,
            {
                proof {
                    assert(decomp@.take(i + 1).drop_last() =~= decomp@.take(i as int));
                }
                match resolve_within(listed, decomp[i], depth - 1) {
                    None => {
                        proof {
                            lemma_resolved_all_fails(
                                table,
                                decomp@,
                                (depth - 1) as nat,
                                i + 1,
                            );
                        }
                        return None;
                    },
                    Some(mut found) => {
                        out.append(&mut found);
                    },
                }
                i += 1;
            }
            proof {
                assert(decomp@.take(i as int) =~= decomp@);
            }
            Some(out)
        },
    }
}

/// Resolves the decomposition of a code point against the listed decompositions: the code
/// point itself where none is listed for it, and else the resolved decompositions of the
/// listed code points, one after the other. There is none only where the listed
/// decompositions hold a cycle.
pub fn get_canonical_decomp(listed: &FxHashMap<u32, Vec<u32>>, code_point: u32) -> (r: Option<
    Vec<u32>,
>)
    ensures
        match r {
            Some(d) => resolution(entries(listed@), code_point) == Some(d@),
            None => resolution(entries(listed@), code_point) is None,
        },
        r is None ==> has_cycle(entries(listed@)),
        r matches Some(d) ==> forall|i: int|
            0 <= i < d.len() ==> !entries(listed@).contains_key(#[trigger] d@[i]),
        r matches Some(d) ==> (all_hold_a_code_point(entries(listed@)) ==> d.len() > 0),
{
    let depth = count(listed);
    let r = resolve_within(listed, code_point, depth);
    proof {
        assert(entries(listed@).dom() =~= listed@.dom());
        lemma_holds_at_most(listed@.dom(), depth as nat);
        if r is None {
            lemma_no_resolution(entries(listed@), code_point, depth as nat, depth as nat);
        } else {
            lemma_resolution_is(entries(listed@), code_point, depth as nat);
            lemma_resolved_is_base(entries(listed@), code_point, depth as nat);
            if all_hold_a_code_point(entries(listed@)) {
                lemma_resolved_holds_a_code_point(entries(listed@), code_point, depth as nat);
            }
        }
    }
    r
}

/// Compiles the table of canonical decompositions from the text of the character property
/// table: for each code point with a listed canonical decomposition, that decomposition
/// resolved down to code points without one, however deep that leads. The table fails only
/// for a line that is rejected, or where the listed decompositions hold a cycle.
pub fn map_decomps(data: &[u8]) -> (r: Result<FxHashMap<u32, Vec<u32>>, TableError>)
    ensures
        match r {
            Ok(table) => decompositions(data@) == Ok::<Map<u32, Seq<u32>>, TableError>(
                entries(table@),
            ),
            Err(e) => decompositions(data@) == Err::<Map<u32, Seq<u32>>, TableError>(e),
        },
        r matches Err(e) && e.kind == ErrorKind::CyclicDecomposition ==> self::listed(data@) is Ok
            && has_cycle(self::listed(data@)->Ok_0),
        r is Ok <==> self::listed(data@) is Ok && !has_cycle(self::listed(data@)->Ok_0),
{
    let ranges = split_lines(data);
    let mut listed: FxHashMap<u32, Vec<u32>> = FxHashMap::default();
    let mut order: Vec<(u32, usize)> = Vec::new();
    let ghost rows = listing_rows(data@);
    let mut i: usize = 0;
    proof {
        lemma_entries_empty::<u32>();
    }
    while i < ranges.len()
        invariant
            i <= ranges.len(),
            slices(data@, ranges@) == lines(data@),
            forall|k: int|
                0 <= k < ranges.len() ==> (#[trigger] ranges[k]).0 <= ranges[k].1 <= data.len(),
            rows == listing_rows(data@),
            assemble(rows.take(i as int)) == Ok::<Map<u32, Seq<u32>>, TableError>(
                entries(listed@),
            ),
            order@ == listings(rows.take(i as int)),
        decreases ranges.len() - i,
    {
        let read = read_listing(part(data, ranges[i]));
        let key = match &read {
            Ok(Some(entry)) => Some(entry.0),
            _ => None,
        };
        proof {
            assert(rows.take(i + 1).drop_last() =~= rows.take(i as int));
        }
        match apply(&mut listed, i, read, Ghost(rows)) {
            Err(e) => {
                return Err(e);
            },
            Ok(()) => {},
        }
        match key {
            Some(key) => {
                order.push((key, i));
            },
            None => {},
        }
        i += 1;
    }
    proof {
        assert(rows.take(i as int) =~= rows);
        lemma_listings_cover(rows);
    }
    let mut table: FxHashMap<u32, Vec<u32>> = FxHashMap::default();
    let mut j: usize = 0;
    while j < order.len()
        invariant
            j <= order.len(),
            self::listed(data@) == Ok::<Map<u32, Seq<u32>>, TableError>(entries(listed@)),
            order@ == listings(listing_rows(data@)),
            holds_at_most(entries(listed@).dom(), order@.len()),
            resolve_listings(entries(listed@), order@.take(j as int)) == Ok::<
                Map<u32, Seq<u32>>,
                TableError,
            >(entries(table@)),
        decreases order.len() - j,
    {
        let (code_point, line) = order[j];
        proof {
            assert(order@.take(j + 1).drop_last() =~= order@.take(j as int));
        }
        match resolve_within(&listed, code_point, order.len()) {
            None => {
                proof {
                    lemma_no_resolution(
                        entries(listed@),
                        code_point,
                        order@.len(),
                        order@.len(),
                    );
                    lemma_resolve_listings_fails(entries(listed@), order@, j + 1);
                }
                return Err(TableError { line, kind: ErrorKind::CyclicDecomposition });
            },
            Some(d) => {
                proof {
                    lemma_resolution_is(entries(listed@), code_point, order@.len());
                    lemma_entries_insert(table@, code_point, d);
                }
                put(&mut table, code_point, d);
            },
        }
        j += 1;
    }
    proof {
        assert(order@.take(j as int) =~= order@);
        lemma_decompositions_fail_on_cycles(data@);
    }
    Ok(table)
}

} // verus!
