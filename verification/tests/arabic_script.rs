use feruca_mapper::remap::{FIRST_ARABIC_PRIMARY, LAST_ARABIC_PRIMARY, OFFSET};
use feruca_mapper::SHIFT;

const LAST_PRIMARY_BEFORE_LATIN: u16 = 0x237F;
const FIRST_LATIN_PRIMARY: u16 = 0x2380 + SHIFT; // 0061, "LATIN SMALL LETTER A"

#[test]
fn verify_offset() {
    assert!((FIRST_ARABIC_PRIMARY - OFFSET) > LAST_PRIMARY_BEFORE_LATIN);
    assert!((LAST_ARABIC_PRIMARY - OFFSET) < FIRST_LATIN_PRIMARY);
}

#[test]
fn library_names_the_same_neighbours() {
    assert_eq!(feruca_mapper::remap::LAST_PRIMARY_BEFORE_LATIN, LAST_PRIMARY_BEFORE_LATIN);
    assert_eq!(feruca_mapper::remap::FIRST_LATIN_PRIMARY, FIRST_LATIN_PRIMARY);
}
