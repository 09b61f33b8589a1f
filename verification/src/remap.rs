//! Adjustments of primary weights: the two shifts of the tailored table, and the two ways of
//! moving the Arabic script next to the Latin script.

use vstd::prelude::*;

verus! {

/// First primary weight that the bump moves (Latin small capital A).
pub const BUMP_START: u16 = 0x2384;

/// Last primary weight that the bump moves; the weight directly above it is unused.
pub const BUMP_END: u16 = 0x2454;

/// Distance of the bump.
pub const BUMP: u16 = 1;

/// First primary weight that the shift moves: the start of the Latin script.
pub const SHIFT_START: u16 = 0x2380;

/// Last primary weight that the shift moves; the weights directly above it are unused.
pub const SHIFT_END: u16 = 0x72B6;

/// Distance of the shift.
pub const SHIFT: u16 = 0x400;

/// Primary weight of the first letter of the Arabic block (HAMZA).
pub const FIRST_ARABIC_PRIMARY: u16 = 0x2A68;

/// Primary weight of the last letter of the Arabic block (VERTICAL TAIL).
pub const LAST_ARABIC_PRIMARY: u16 = 0x2B56;

/// Distance by which the Arabic block moves down to stand before the Latin script.
pub const OFFSET: u16 = 0x600;

/// Last primary weight below the Latin script.
pub const LAST_PRIMARY_BEFORE_LATIN: u16 = 0x237F;

/// First primary weight of the Latin script once it is shifted.
pub const FIRST_LATIN_PRIMARY: u16 = 0x2380 + SHIFT;

/// Which adjustments a table applies to each primary weight that it reads.
#[derive(Clone, Copy, Debug, PartialEq, Eq, Structural)]
pub struct Rule {
    /// Move the weights of the bump range up by `BUMP`.
    pub bump: bool,
    /// Move the weights of the shift range up by `SHIFT`.
    pub shift: bool,
}

/// How a table treats the weights of the Arabic script.
#[derive(Clone, Copy, Debug, PartialEq, Eq, Structural)]
pub enum Relocation {
    /// Every record is kept as it is read.
    Keep,
    /// Only records with a weight of the Arabic block are kept, and the block moves down as a
    /// whole.
    Script,
    /// Only records with the weight of a chosen Arabic letter are kept, and each such letter
    /// moves to its own place among the Latin letters.
    Interleaved,
}

/// A primary weight that the bump moves.
pub open spec fn in_bump_range(primary: u16) -> bool {
    BUMP_START <= primary <= BUMP_END
}

/// A primary weight that the shift moves.
pub open spec fn in_shift_range(primary: u16) -> bool {
    SHIFT_START <= primary <= SHIFT_END
}

/// A primary weight of the Arabic block.
pub open spec fn in_arabic_block(primary: u16) -> bool {
    FIRST_ARABIC_PRIMARY <= primary <= LAST_ARABIC_PRIMARY
}

/// The primary weight after the bump.
pub open spec fn bumped(primary: u16) -> u16 {
    if in_bump_range(primary) {
        (primary + BUMP) as u16
    } else {
        primary
    }
}

/// The primary weight after the shift.
pub open spec fn shifted(primary: u16) -> u16 {
    if in_shift_range(primary) {
        (primary + SHIFT) as u16
    } else {
        primary
    }
}

/// The primary weight after the adjustments of a rule: first the bump, then the shift, each
/// only where the rule asks for it.
pub open spec fn adjusted(primary: u16, rule: Rule) -> u16 {
    let b = if rule.bump {
        bumped(primary)
    } else {
        primary
    };
    if rule.shift {
        shifted(b)
    } else {
        b
    }
}

/// The place of a primary weight once the Arabic block has moved down.
pub open spec fn script_target(primary: u16) -> u16 {
    if in_arabic_block(primary) {
        (primary - OFFSET) as u16
    } else {
        primary
    }
}

/// The place among the Latin letters of the Arabic letter with the given primary weight, for
/// the letters that have one.
pub open spec fn interleaved_target(primary: u16) -> Option<u16> {
    if primary == 0x2A69 {
        Some((0x2381 + SHIFT) as u16)  // alif madda
    } else if primary == 0x2A6A {
        Some((0x2382 + SHIFT) as u16)  // alif hamza above
    } else if primary == 0x2A6E {
        Some((0x2383 + SHIFT) as u16)  // alif hamza below
    } else if primary == 0x2A76 {
        Some((0x2384 + SHIFT) as u16)  // alif
    } else if primary == 0x2A78 {
        Some((0x239B + BUMP + SHIFT) as u16)  // ba
    } else if primary == 0x2AA9 {
        Some((0x23CB + BUMP + SHIFT) as u16)  // dal
    } else if primary == 0x2AAA {
        Some((0x23CC + BUMP + SHIFT) as u16)  // dhal
    } else if primary == 0x2AD8 {
        Some((0x23CD + BUMP + SHIFT) as u16)  // dad
    } else if primary == 0x2AED {
        Some((0x2423 + BUMP + SHIFT) as u16)  // fa
    } else if primary == 0x2AE5 {
        Some((0x2432 + BUMP + SHIFT) as u16)  // ghayn
    } else if primary == 0x2A9E {
        Some((0x2459 + SHIFT) as u16)  // hah
    } else if primary == 0x2B30 {
        Some((0x245A + SHIFT) as u16)  // ha
    } else if primary == 0x2A93 {
        Some((0x2490 + SHIFT) as u16)  // jim
    } else if primary == 0x2A9F {
        Some((0x24A9 + SHIFT) as u16)  // kha
    } else if primary == 0x2B00 {
        Some((0x24AA + SHIFT) as u16)  // kaf
    } else if primary == 0x2B19 {
        Some((0x24BD + SHIFT) as u16)  // lam
    } else if primary == 0x2B21 {
        Some((0x24F7 + SHIFT) as u16)  // mim
    } else if primary == 0x2B25 {
        Some((0x2506 + SHIFT) as u16)  // nun
    } else if primary == 0x2AF9 {
        Some((0x2572 + SHIFT) as u16)  // qaf
    } else if primary == 0x2AB9 {
        Some((0x2585 + SHIFT) as u16)  // ra
    } else if primary == 0x2ACC {
        Some((0x25C7 + SHIFT) as u16)  // sin
    } else if primary == 0x2ACD {
        Some((0x25C8 + SHIFT) as u16)  // shin
    } else if primary == 0x2AD7 {
        Some((0x25C9 + SHIFT) as u16)  // sad
    } else if primary == 0x2A89 {
        Some((0x25F2 + SHIFT) as u16)  // ta
    } else if primary == 0x2A8A {
        Some((0x25F3 + SHIFT) as u16)  // tha
    } else if primary == 0x2ADD {
        Some((0x25F4 + SHIFT) as u16)  // tah
    } else if primary == 0x2B36 {
        Some((0x2657 + SHIFT) as u16)  // waw
    } else if primary == 0x2B45 {
        Some((0x266D + SHIFT) as u16)  // ya
    } else if primary == 0x2ABA {
        Some((0x2683 + SHIFT) as u16)  // zayn
    } else if primary == 0x2ADE {
        Some((0x2684 + SHIFT) as u16)  // zah
    } else {
        None
    }
}

/// Whether a relocation moves the given primary weight.
pub open spec fn relocates(relocation: Relocation, primary: u16) -> bool {
    match relocation {
        Relocation::Keep => false,
        Relocation::Script => in_arabic_block(primary),
        Relocation::Interleaved => interleaved_target(primary) is Some,
    }
}

/// The primary weight after a relocation.
pub open spec fn relocated(relocation: Relocation, primary: u16) -> u16 {
    match relocation {
        Relocation::Keep => primary,
        Relocation::Script => script_target(primary),
        Relocation::Interleaved => match interleaved_target(primary) {
            Some(target) => target,
            None => primary,
        },
    }
}

/// Applies the adjustments of a rule to a primary weight.
pub fn adjust_primary(primary: u16, rule: Rule) -> (p: u16)
    ensures
        p == adjusted(primary, rule),
{
    let mut p = primary;
    if rule.bump && BUMP_START <= p && p <= BUMP_END {
        p = p + BUMP;
    }
    if rule.shift && SHIFT_START <= p && p <= SHIFT_END {
        p = p + SHIFT;
    }
    p
}

/// Gives the place of an Arabic letter among the Latin letters, if it has one.
pub fn interleave_primary(primary: u16) -> (target: Option<u16>)
    ensures
        target == interleaved_target(primary),
{
    match primary {
        0x2A69 => Some(0x2381 + SHIFT),
        0x2A6A => Some(0x2382 + SHIFT),
        0x2A6E => Some(0x2383 + SHIFT),
        0x2A76 => Some(0x2384 + SHIFT),
        0x2A78 => Some(0x239B + BUMP + SHIFT),
        0x2AA9 => Some(0x23CB + BUMP + SHIFT),
        0x2AAA => Some(0x23CC + BUMP + SHIFT),
        0x2AD8 => Some(0x23CD + BUMP + SHIFT),
        0x2AED => Some(0x2423 + BUMP + SHIFT),
        0x2AE5 => Some(0x2432 + BUMP + SHIFT),
        0x2A9E => Some(0x2459 + SHIFT),
        0x2B30 => Some(0x245A + SHIFT),
        0x2A93 => Some(0x2490 + SHIFT),
        0x2A9F => Some(0x24A9 + SHIFT),
        0x2B00 => Some(0x24AA + SHIFT),
        0x2B19 => Some(0x24BD + SHIFT),
        0x2B21 => Some(0x24F7 + SHIFT),
        0x2B25 => Some(0x2506 + SHIFT),
        0x2AF9 => Some(0x2572 + SHIFT),
        0x2AB9 => Some(0x2585 + SHIFT),
        0x2ACC => Some(0x25C7 + SHIFT),
        0x2ACD => Some(0x25C8 + SHIFT),
        0x2AD7 => Some(0x25C9 + SHIFT),
        0x2A89 => Some(0x25F2 + SHIFT),
        0x2A8A => Some(0x25F3 + SHIFT),
        0x2ADD => Some(0x25F4 + SHIFT),
        0x2B36 => Some(0x2657 + SHIFT),
        0x2B45 => Some(0x266D + SHIFT),
        0x2ABA => Some(0x2683 + SHIFT),
        0x2ADE => Some(0x2684 + SHIFT),
        _ => None,
    }
}

/// Tells whether a relocation moves a primary weight, and where to.
pub fn relocate_primary(relocation: Relocation, primary: u16) -> (r: (bool, u16))
    ensures
        r.0 == relocates(relocation, primary),
        r.1 == relocated(relocation, primary),
{
    match relocation {
        Relocation::Keep => (false, primary),
        Relocation::Script => {
            if FIRST_ARABIC_PRIMARY <= primary && primary <= LAST_ARABIC_PRIMARY {
                (true, primary - OFFSET)
            } else {
                (false, primary)
            }
        },
        Relocation::Interleaved => match interleave_primary(primary) {
            Some(target) => (true, target),
            None => (false, primary),
        },
    }
}

/// The Arabic block, moved down by `OFFSET`, does not collide with its neighbours: its first
/// weight lands above the last primary weight below the Latin script, and its last weight
/// lands below the first primary weight of the shifted Latin script.
pub proof fn lemma_script_relocation_fits()
    ensures
        FIRST_ARABIC_PRIMARY - OFFSET > LAST_PRIMARY_BEFORE_LATIN,
        LAST_ARABIC_PRIMARY - OFFSET < FIRST_LATIN_PRIMARY,
{
}

/// Every primary weight of the Arabic block is moved down by `OFFSET` and lands strictly
/// between the last primary weight below the Latin script and the first primary weight of the
/// shifted Latin script, outside the Arabic block.
pub proof fn lemma_script_target_fits(primary: u16)
    requires
        in_arabic_block(primary),
    ensures
        script_target(primary) == primary - OFFSET,
        LAST_PRIMARY_BEFORE_LATIN < script_target(primary) < FIRST_LATIN_PRIMARY,
        !in_arabic_block(script_target(primary)),
{
}

/// The relocation of the Arabic block keeps the order of the weights within the block.
pub proof fn lemma_script_relocation_keeps_order(p: u16, q: u16)
    requires
        in_arabic_block(p),
        in_arabic_block(q),
        p < q,
    ensures
        script_target(p) < script_target(q),
{
}

/// The bump and the shift together keep the order of any two primary weights, as long as
/// neither lies in the unused weights directly above the two ranges, into which the ranges
/// move.
pub proof fn lemma_adjustment_keeps_order(p: u16, q: u16, rule: Rule)
    requires
        p < q,
        rule.bump ==> !(BUMP_END < p <= BUMP_END + BUMP) && !(BUMP_END < q <= BUMP_END + BUMP),
        rule.shift ==> !(SHIFT_END < p <= SHIFT_END + SHIFT) && !(SHIFT_END < q <= SHIFT_END
            + SHIFT),
    ensures
        adjusted(p, rule) < adjusted(q, rule),
{
}

/// Every Arabic letter that is interleaved lies in the Arabic block and lands above the first
/// primary weight of the shifted Latin script, within the weights that the shift range moves
/// to.
pub proof fn lemma_interleaved_target_in_latin(primary: u16)
    requires
        interleaved_target(primary) is Some,
    ensures
        in_arabic_block(primary),
        FIRST_LATIN_PRIMARY < interleaved_target(primary)->0 <= SHIFT_END + SHIFT,
        in_shift_range((interleaved_target(primary)->0 - SHIFT) as u16),
{
}

/// No two Arabic letters are interleaved at the same place.
pub proof fn lemma_interleaved_targets_differ(p: u16, q: u16)
    requires
        interleaved_target(p) is Some,
        interleaved_target(q) is Some,
        p != q,
    ensures
        interleaved_target(p) != interleaved_target(q),
{
}

} // verus!
