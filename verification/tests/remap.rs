use feruca_mapper::remap::{
    adjust_primary, interleave_primary, relocate_primary, Relocation, Rule, BUMP, BUMP_END,
    BUMP_START, FIRST_ARABIC_PRIMARY, FIRST_LATIN_PRIMARY, LAST_ARABIC_PRIMARY,
    LAST_PRIMARY_BEFORE_LATIN, OFFSET, SHIFT, SHIFT_END, SHIFT_START,
};

const TAILORED: Rule = Rule { bump: true, shift: true };
const SHIFTED: Rule = Rule { bump: false, shift: true };
const PLAIN: Rule = Rule { bump: false, shift: false };

#[test]
fn first_latin_primary_is_the_shifted_start() {
    assert_eq!(FIRST_LATIN_PRIMARY, 0x2380 + SHIFT);
    assert_eq!(FIRST_LATIN_PRIMARY, 0x2780);
    assert_eq!(LAST_PRIMARY_BEFORE_LATIN, 0x237F);
    assert_eq!(BUMP, 1);
    assert_eq!(SHIFT, 0x400);
    assert_eq!(OFFSET, 0x600);
}

#[test]
fn shift_moves_its_range_up() {
    assert_eq!(adjust_primary(SHIFT_START - 1, SHIFTED), SHIFT_START - 1);
    assert_eq!(adjust_primary(SHIFT_START, SHIFTED), 0x2780);
    assert_eq!(adjust_primary(0x3000, SHIFTED), 0x3400);
    assert_eq!(adjust_primary(SHIFT_END, SHIFTED), 0x76B6);
    assert_eq!(adjust_primary(SHIFT_END + 1, SHIFTED), SHIFT_END + 1);
}

#[test]
fn bump_comes_before_the_shift() {
    assert_eq!(adjust_primary(BUMP_START - 1, TAILORED), BUMP_START - 1 + SHIFT);
    assert_eq!(adjust_primary(BUMP_START, TAILORED), 0x2785);
    assert_eq!(adjust_primary(BUMP_END, TAILORED), 0x2855);
    assert_eq!(adjust_primary(BUMP_END + 2, TAILORED), BUMP_END + 2 + SHIFT);
    assert_eq!(adjust_primary(BUMP_START, SHIFTED), BUMP_START + SHIFT);
}

#[test]
fn plain_rule_changes_nothing() {
    for primary in [0u16, 0x2380, 0x2384, 0x2454, 0x72B6, 0xFFFF] {
        assert_eq!(adjust_primary(primary, PLAIN), primary);
    }
}

#[test]
fn adjustment_keeps_the_order_outside_the_gaps() {
    let weights = [
        0u16, 0x2000, 0x237F, 0x2380, 0x2383, 0x2384, 0x2400, 0x2454, 0x2456, 0x72B6, 0x76B7,
        0xFFFF,
    ];
    for pair in weights.windows(2) {
        assert!(adjust_primary(pair[0], TAILORED) < adjust_primary(pair[1], TAILORED));
    }
}

#[test]
fn arabic_block_moves_down_as_a_whole() {
    assert_eq!(
        relocate_primary(Relocation::Script, FIRST_ARABIC_PRIMARY),
        (true, 0x2468)
    );
    assert_eq!(
        relocate_primary(Relocation::Script, LAST_ARABIC_PRIMARY),
        (true, 0x2556)
    );
    assert_eq!(relocate_primary(Relocation::Script, 0x2B00), (true, 0x2500));
    assert_eq!(
        relocate_primary(Relocation::Script, FIRST_ARABIC_PRIMARY - 1),
        (false, FIRST_ARABIC_PRIMARY - 1)
    );
    assert_eq!(
        relocate_primary(Relocation::Script, LAST_ARABIC_PRIMARY + 1),
        (false, LAST_ARABIC_PRIMARY + 1)
    );
}

#[test]
fn every_arabic_primary_lands_between_its_neighbours() {
    for primary in FIRST_ARABIC_PRIMARY..=LAST_ARABIC_PRIMARY {
        let (moved, target) = relocate_primary(Relocation::Script, primary);
        assert!(moved);
        assert_eq!(target, primary - OFFSET);
        assert!(target > LAST_PRIMARY_BEFORE_LATIN);
        assert!(target < FIRST_LATIN_PRIMARY);
    }
}

#[test]
fn keep_moves_nothing() {
    for primary in [0u16, FIRST_ARABIC_PRIMARY, 0x2A69, 0xFFFF] {
        assert_eq!(relocate_primary(Relocation::Keep, primary), (false, primary));
    }
}

#[test]
fn interleaved_letters_have_their_places() {
    assert_eq!(interleave_primary(0x2A69), Some(0x2781));
    assert_eq!(interleave_primary(0x2A76), Some(0x2784));
    assert_eq!(interleave_primary(0x2A78), Some(0x279C));
    assert_eq!(interleave_primary(0x2AE5), Some(0x2833));
    assert_eq!(interleave_primary(0x2A9E), Some(0x2859));
    assert_eq!(interleave_primary(0x2ADE), Some(0x2A84));
    assert_eq!(interleave_primary(0x2A68), None);
    assert_eq!(interleave_primary(0x2A77), None);
    assert_eq!(interleave_primary(0), None);
}

#[test]
fn interleaved_places_are_thirty_and_distinct() {
    let mut targets: Vec<u16> = Vec::new();
    for primary in 0..=u16::MAX {
        if let Some(target) = interleave_primary(primary) {
            assert!(primary >= FIRST_ARABIC_PRIMARY && primary <= LAST_ARABIC_PRIMARY);
            assert!(target > FIRST_LATIN_PRIMARY);
            assert!(!targets.contains(&target));
            targets.push(target);
            assert_eq!(
                relocate_primary(Relocation::Interleaved, primary),
                (true, target)
            );
        } else {
            assert_eq!(
                relocate_primary(Relocation::Interleaved, primary),
                (false, primary)
            );
        }
    }
    assert_eq!(targets.len(), 30);
}
