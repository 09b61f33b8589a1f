use feruca_mapper::decomp::{get_canonical_decomp, is_ignored_code_point, map_decomps};
use feruca_mapper::error::{ErrorKind, TableError};
use feruca_mapper::fcd::{entry_of_classes, fcd_entry, map_fcd, pack_fcd};
use rustc_hash::FxHashMap;

const SAMPLE: &str = "\
0041;LATIN CAPITAL LETTER A;Lu;0;L;;;;;N;;;;0061;
00A0;NO-BREAK SPACE;Zs;0;CS;<noBreak> 0020;;;;N;NON-BREAKING SPACE;;;;
00C5;LATIN CAPITAL LETTER A WITH RING ABOVE;Lu;0;L;0041 030A;;;;N;LATIN CAPITAL LETTER A RING;;;00E5;
01FA;LATIN CAPITAL LETTER A WITH RING ABOVE AND ACUTE;Lu;0;L;00C5 0301;;;;N;;;;01FB;
0301;COMBINING ACUTE ACCENT;Mn;230;NSM;;;;;N;NON-SPACING ACUTE;;;;
0340;COMBINING GRAVE TONE MARK;Mn;230;NSM;0300;;;;N;NON-SPACING GRAVE TONE MARK;;;;
0344;COMBINING GREEK DIALYTIKA TONOS;Mn;230;NSM;0308 0301;;;;N;GREEK NON-SPACING DIAERESIS TONOS;;;;
0F73;TIBETAN VOWEL SIGN II;Mn;0;NSM;0F71 0F72;;;;N;;;;;
212B;ANGSTROM SIGN;Lu;0;L;00C5;;;;N;ANGSTROM UNIT;;;00E5;
4E00;<CJK Ideograph, First>;Lo;0;L;;;;;N;;;;;
AC00;<Hangul Syllable, First>;Lo;0;L;;;;;N;;;;;
F900;CJK COMPATIBILITY IDEOGRAPH-F900;Lo;0;L;8C48;;;;N;;;;;
";

fn listed(entries: &[(u32, &[u32])]) -> FxHashMap<u32, Vec<u32>> {
    let mut map = FxHashMap::default();
    for (key, value) in entries {
        map.insert(*key, value.to_vec());
    }
    map
}

#[test]
fn decompositions_are_resolved() {
    let table = map_decomps(SAMPLE.as_bytes()).unwrap();
    assert_eq!(table.len(), 7);
    assert_eq!(table[&0x340], vec![0x300]);
    assert_eq!(table[&0xC5], vec![0x41, 0x30A]);
    assert_eq!(table[&0x1FA], vec![0x41, 0x30A, 0x301]);
    assert_eq!(table[&0x344], vec![0x308, 0x301]);
    assert_eq!(table[&0xF73], vec![0xF71, 0xF72]);
    assert_eq!(table[&0x212B], vec![0x41, 0x30A]);
    assert_eq!(table[&0xF900], vec![0x8C48]);
    assert!(!table.contains_key(&0x41));
    assert!(!table.contains_key(&0xA0));
}

#[test]
fn base_code_point_resolves_to_itself() {
    let map = listed(&[(0xC5, &[0x41, 0x30A])]);
    assert_eq!(get_canonical_decomp(&map, 0x41), Some(vec![0x41]));
    assert_eq!(get_canonical_decomp(&map, 0x30A), Some(vec![0x30A]));
    assert_eq!(get_canonical_decomp(&map, 0x10FFFF), Some(vec![0x10FFFF]));
    assert_eq!(get_canonical_decomp(&listed(&[]), 0x41), Some(vec![0x41]));
}

#[test]
fn resolved_decomposition_resolves_to_itself() {
    let table = map_decomps(SAMPLE.as_bytes()).unwrap();
    let map = listed(&[
        (0xC5, &[0x41, 0x30A]),
        (0x1FA, &[0xC5, 0x301]),
        (0x212B, &[0xC5]),
    ]);
    for code_point in [0xC5u32, 0x1FA, 0x212B] {
        let first = get_canonical_decomp(&map, code_point).unwrap();
        assert_eq!(first, table[&code_point]);
        let mut again = Vec::new();
        for c in &first {
            again.extend(get_canonical_decomp(&map, *c).unwrap());
        }
        assert_eq!(again, first);
    }
}

#[test]
fn chains_are_followed_to_the_end() {
    let map = listed(&[
        (1, &[2, 3]),
        (2, &[4]),
        (4, &[5]),
        (5, &[6, 7]),
        (3, &[8]),
    ]);
    assert_eq!(get_canonical_decomp(&map, 1), Some(vec![6, 7, 8]));
    assert_eq!(get_canonical_decomp(&map, 2), Some(vec![6, 7]));
    assert_eq!(get_canonical_decomp(&map, 3), Some(vec![8]));
    assert_eq!(get_canonical_decomp(&map, 9), Some(vec![9]));
}

#[test]
fn long_chains_are_followed_to_the_end() {
    let mut entries: Vec<(u32, Vec<u32>)> = Vec::new();
    for code_point in 1..=300u32 {
        entries.push((code_point, vec![code_point + 1]));
    }
    let mut map = FxHashMap::default();
    for (key, value) in &entries {
        map.insert(*key, value.clone());
    }
    assert_eq!(get_canonical_decomp(&map, 1), Some(vec![301]));
    assert_eq!(get_canonical_decomp(&map, 283), Some(vec![301]));
    assert_eq!(get_canonical_decomp(&map, 300), Some(vec![301]));
    assert_eq!(get_canonical_decomp(&map, 301), Some(vec![301]));
}

#[test]
fn chain_of_eighteen_listings_is_resolved() {
    let mut data = String::new();
    for code_point in 1..=18u32 {
        let next = code_point + 1;
        data.push_str(&format!("{code_point:04X};X;Lu;0;L;{next:04X} 0300;;;;N;;;;;\n"));
    }
    let table = map_decomps(data.as_bytes()).unwrap();
    assert_eq!(table.len(), 18);
    let mut expected = vec![19u32];
    for code_point in (1..=18u32).rev() {
        expected.push(0x300);
        assert_eq!(table[&code_point], expected);
    }
}

#[test]
fn code_point_on_a_cycle_has_no_resolved_decomposition() {
    let map = listed(&[(1, &[2]), (2, &[3, 4]), (4, &[1]), (5, &[1]), (6, &[7]), (8, &[8])]);
    assert_eq!(get_canonical_decomp(&map, 1), None);
    assert_eq!(get_canonical_decomp(&map, 2), None);
    assert_eq!(get_canonical_decomp(&map, 4), None);
    assert_eq!(get_canonical_decomp(&map, 5), None);
    assert_eq!(get_canonical_decomp(&map, 8), None);
    assert_eq!(get_canonical_decomp(&map, 3), Some(vec![3]));
    assert_eq!(get_canonical_decomp(&map, 6), Some(vec![7]));
}

#[test]
fn cycle_is_rejected() {
    let data = "0041;A;Lu;0;L;0042 0043;;;;N;;;;;\n0042;B;Lu;0;L;0041;;;;N;;;;;\n";
    assert_eq!(
        map_decomps(data.as_bytes()),
        Err(TableError { line: 0, kind: ErrorKind::CyclicDecomposition })
    );
    let data = "0041;A;Lu;0;L;0043;;;;N;;;;;\n\n0042;B;Lu;0;L;0042;;;;N;;;;;\n";
    assert_eq!(
        map_decomps(data.as_bytes()),
        Err(TableError { line: 2, kind: ErrorKind::CyclicDecomposition })
    );
    let data = "0041;A;Lu;0;L;0042;;;;N;;;;;\n\n0042;B;Lu;0;L;0042;;;;N;;;;;\n";
    assert_eq!(
        map_decomps(data.as_bytes()),
        Err(TableError { line: 0, kind: ErrorKind::CyclicDecomposition })
    );
}

#[test]
fn later_listing_replaces_earlier_one() {
    let data = "0041;A;Lu;0;L;0042;;;;N;;;;;\n0041;A;Lu;0;L;0043 0044;;;;N;;;;;\n";
    let table = map_decomps(data.as_bytes()).unwrap();
    assert_eq!(table.len(), 1);
    assert_eq!(table[&0x41], vec![0x43, 0x44]);
}

#[test]
fn ignored_ranges() {
    for code_point in [
        0x3400u32, 0x4DBF, 0x4E00, 0x9FFF, 0xAC00, 0xD7A3, 0xD800, 0xDFFF, 0xE000, 0xF8FF, 0x17000,
        0x187F7, 0x18D00, 0x18D08, 0x20000, 0x2A6DF, 0x2A700, 0x2B738, 0x2B740, 0x2B81D, 0x2B820,
        0x2CEA1, 0x2CEB0, 0x2EBE0, 0x30000, 0x3134A, 0xF0000, 0xFFFFD, 0x100000, 0x10FFFD,
    ] {
        assert!(is_ignored_code_point(code_point));
    }
    for code_point in [
        0u32, 0x41, 0x33FF, 0x4DC0, 0x4DFF, 0xA000, 0xABFF, 0xD7A4, 0xF900, 0x16FFF, 0x187F8,
        0x18CFF, 0x18D09, 0x1FFFF, 0x2A6E0, 0x2B739, 0x2B81E, 0x2CEA2, 0x2EBE1, 0x2FFFF, 0x3134B,
        0xEFFFF, 0xFFFFE, 0x10FFFE, u32::MAX,
    ] {
        assert!(!is_ignored_code_point(code_point));
    }
}

#[test]
fn lines_for_ignored_code_points_are_skipped_unread() {
    let table = map_decomps(b"4E00\nAC00;x\n").unwrap();
    assert!(table.is_empty());
}

#[test]
fn property_lines_are_checked() {
    assert_eq!(
        map_decomps(b"0041;A;Lu;0;L;;;;;N;;;;;\nxyz;A;Lu;0;L;;;;;N;;;;;\n"),
        Err(TableError { line: 1, kind: ErrorKind::BadCodePoint })
    );
    assert_eq!(
        map_decomps(b";A;Lu;0;L;;;;;N;;;;;\n"),
        Err(TableError { line: 0, kind: ErrorKind::BadCodePoint })
    );
    assert_eq!(
        map_decomps(b"0041;A;Lu;0;L\n"),
        Err(TableError { line: 0, kind: ErrorKind::MissingField })
    );
    assert_eq!(
        map_decomps(b"0041;A;Lu;0;L;041 30A;;;;N;;;;;\n"),
        Err(TableError { line: 0, kind: ErrorKind::EmptyDecomposition })
    );
    assert!(map_decomps(b"\n\n").unwrap().is_empty());
}

#[test]
fn packed_pair_of_classes() {
    assert_eq!(pack_fcd(0, 0), 0);
    assert_eq!(pack_fcd(0, 230), 0x00E6);
    assert_eq!(pack_fcd(230, 0), 0xE600);
    assert_eq!(pack_fcd(230, 220), 0xE6DC);
    assert_eq!(pack_fcd(255, 255), 0xFFFF);
}

#[test]
fn entry_for_two_classes() {
    assert_eq!(entry_of_classes(0, 0), None);
    assert_eq!(entry_of_classes(0, 230), Some(0x00E6));
    assert_eq!(entry_of_classes(230, 0), Some(0xE600));
    assert_eq!(entry_of_classes(1, 1), Some(0x0101));
    assert_eq!(entry_of_classes(255, 255), Some(0xFFFF));
}

#[test]
fn entry_of_a_decomposition() {
    assert_eq!(fcd_entry(0x41, 0x41), None);
    assert_eq!(fcd_entry(0x41, 0x30A), Some(0x00E6));
    assert_eq!(fcd_entry(0x308, 0x301), Some(0xE6E6));
    assert_eq!(fcd_entry(0x301, 0x301), Some(0xE6E6));
    assert_eq!(fcd_entry(0xF71, 0xF72), Some(0x8182));
    assert_eq!(fcd_entry(0x323, 0x41), Some(0xDC00));
    assert_eq!(fcd_entry(0x110000, u32::MAX), None);
}

#[test]
fn classes_of_the_decompositions() {
    let decomps = map_decomps(SAMPLE.as_bytes()).unwrap();
    let table = map_fcd(SAMPLE.as_bytes(), &decomps).unwrap();
    assert_eq!(table.len(), 6);
    assert_eq!(table[&0x340], 0xE6E6);
    assert_eq!(table[&0xC5], 0x00E6);
    assert_eq!(table[&0x1FA], 0x00E6);
    assert_eq!(table[&0x344], 0xE6E6);
    assert_eq!(table[&0xF73], 0x8182);
    assert_eq!(table[&0x212B], 0x00E6);
    assert!(!table.contains_key(&0xF900));
    assert!(!table.contains_key(&0x301));
}

#[test]
fn classes_need_a_decomposition_with_a_code_point() {
    let decomps = listed(&[(0x41, &[]), (0xAC00, &[]), (0x42, &[0x301])]);
    assert_eq!(
        map_fcd(b"0042;B\n0041;A\n", &decomps),
        Err(TableError { line: 1, kind: ErrorKind::EmptyDecomposition })
    );
    assert_eq!(
        map_fcd(b"0042;B\n\nzz\n", &decomps),
        Err(TableError { line: 2, kind: ErrorKind::BadCodePoint })
    );
    let table = map_fcd(b"0042;B\nAC00;x\n0043;C\n42\n", &decomps).unwrap();
    assert_eq!(table.len(), 1);
    assert_eq!(table[&0x42], 0xE6E6);
}
