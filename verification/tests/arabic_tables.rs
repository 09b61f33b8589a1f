use feruca_mapper::arabic_interleaved::{map_arabic_interleaved_multi, map_arabic_interleaved_sing};
use feruca_mapper::arabic_script::{map_arabic_script_multi, map_arabic_script_sing};
use feruca_mapper::error::{ErrorKind, TableError};
use feruca_mapper::remap::{
    FIRST_ARABIC_PRIMARY, FIRST_LATIN_PRIMARY, LAST_ARABIC_PRIMARY, LAST_PRIMARY_BEFORE_LATIN,
    OFFSET,
};
use feruca_mapper::weights::{pack_code_points, pack_weights, unpack_weights};

const SAMPLE: &str = "\
@version 16.0.0
0041  ; [.2380.0020.0008] # LATIN CAPITAL LETTER A
0621  ; [.2A68.0020.0002] # ARABIC LETTER HAMZA
0622  ; [.2A69.0020.0002] # ARABIC LETTER ALEF WITH MADDA ABOVE
0628  ; [.2A78.0020.0002] # ARABIC LETTER BEH
088E  ; [.2B56.0020.0002] # ARABIC VERTICAL TAIL
FB50  ; [.2A77.0020.0019] # ARABIC LETTER ALEF WASLA ISOLATED FORM
FDF2  ; [.2A76.0020.0015][.2B19.0020.0015][*0209.0021.0015][.2B57.0020.0002] # LIGATURE
0627 0653 ; [.2A69.0020.0002] # ALEF, MADDA
0627 0041 ; [.2A76.0020.0002][.2380.0020.0008] # ALEF, A
0041 0042 ; [.2380.0020.0008][.2390.0020.0008] # A, B
";

#[test]
fn arabic_shift_example() {
    let line = "0621 ; [.2A68.0020.0002] # ARABIC LETTER HAMZA";
    let table = map_arabic_script_sing(line.as_bytes()).unwrap();
    let (variable, primary, secondary, tertiary) = unpack_weights(table[&0x621][0]);
    assert_eq!(primary, 0x2A68 - OFFSET);
    assert_eq!(primary, 0x2468);
    assert!(primary > LAST_PRIMARY_BEFORE_LATIN);
    assert!(primary < FIRST_LATIN_PRIMARY);
    assert_eq!((variable, secondary, tertiary), (false, 0x20, 0x2));
}

#[test]
fn arabic_script_singles() {
    let table = map_arabic_script_sing(SAMPLE.as_bytes()).unwrap();
    assert_eq!(table.len(), 6);
    assert_eq!(table[&0x621], vec![pack_weights(false, 0x2468, 0x20, 0x2)]);
    assert_eq!(table[&0x622], vec![pack_weights(false, 0x2469, 0x20, 0x2)]);
    assert_eq!(table[&0x88E], vec![pack_weights(false, 0x2556, 0x20, 0x2)]);
    assert_eq!(table[&0xFB50], vec![pack_weights(false, 0x2477, 0x20, 0x19)]);
    assert_eq!(
        table[&0xFDF2],
        vec![
            pack_weights(false, 0x2476, 0x20, 0x15),
            pack_weights(false, 0x2519, 0x20, 0x15),
            pack_weights(true, 0x0209, 0x21, 0x15),
            pack_weights(false, 0x2B57, 0x20, 0x2),
        ]
    );
    assert!(!table.contains_key(&0x41));
}

#[test]
fn arabic_script_multis() {
    let table = map_arabic_script_multi(SAMPLE.as_bytes()).unwrap();
    assert_eq!(table.len(), 2);
    assert_eq!(
        table[&pack_code_points(&[0x627, 0x653])],
        vec![pack_weights(false, 0x2469, 0x20, 0x2)]
    );
    assert_eq!(
        table[&pack_code_points(&[0x627, 0x41])],
        vec![
            pack_weights(false, 0x2476, 0x20, 0x2),
            pack_weights(false, 0x2380, 0x20, 0x8),
        ]
    );
}

#[test]
fn arabic_block_relocated_weights_stay_between_the_neighbours() {
    let mut data = String::new();
    for primary in FIRST_ARABIC_PRIMARY..=LAST_ARABIC_PRIMARY {
        data.push_str(&format!("{:04X} ; [.{:04X}.0020.0002]\n", primary, primary));
    }
    let table = map_arabic_script_sing(data.as_bytes()).unwrap();
    assert_eq!(table.len(), (LAST_ARABIC_PRIMARY - FIRST_ARABIC_PRIMARY + 1) as usize);
    for primary in FIRST_ARABIC_PRIMARY..=LAST_ARABIC_PRIMARY {
        let (_, moved, _, _) = unpack_weights(table[&(primary as u32)][0]);
        assert_eq!(moved, primary - OFFSET);
        assert!(moved > LAST_PRIMARY_BEFORE_LATIN && moved < FIRST_LATIN_PRIMARY);
    }
}

#[test]
fn interleaved_singles() {
    let table = map_arabic_interleaved_sing(SAMPLE.as_bytes()).unwrap();
    assert_eq!(table.len(), 3);
    assert_eq!(table[&0x622], vec![pack_weights(false, 0x2781, 0x20, 0x2)]);
    assert_eq!(table[&0x628], vec![pack_weights(false, 0x279C, 0x20, 0x2)]);
    assert_eq!(
        table[&0xFDF2],
        vec![
            pack_weights(false, 0x2784, 0x20, 0x15),
            pack_weights(false, 0x28BD, 0x20, 0x15),
            pack_weights(true, 0x0209, 0x21, 0x15),
            pack_weights(false, 0x2B57, 0x20, 0x2),
        ]
    );
    assert!(!table.contains_key(&0x621));
    assert!(!table.contains_key(&0xFB50));
}

#[test]
fn interleaved_multis() {
    let table = map_arabic_interleaved_multi(SAMPLE.as_bytes()).unwrap();
    assert_eq!(table.len(), 2);
    assert_eq!(
        table[&pack_code_points(&[0x627, 0x653])],
        vec![pack_weights(false, 0x2781, 0x20, 0x2)]
    );
    assert_eq!(
        table[&pack_code_points(&[0x627, 0x41])],
        vec![
            pack_weights(false, 0x2784, 0x20, 0x2),
            pack_weights(false, 0x2380, 0x20, 0x8),
        ]
    );
}

#[test]
fn arabic_tables_reject_levels_above_the_maxima() {
    assert_eq!(
        map_arabic_script_sing(b"0621 ; [.2A68.0127.0002]\n"),
        Err(TableError { line: 0, kind: ErrorKind::WeightOutOfRange })
    );
    assert_eq!(
        map_arabic_interleaved_multi(b"0627 0653 ; [.2A69.0020.001F]\n"),
        Err(TableError { line: 0, kind: ErrorKind::WeightOutOfRange })
    );
    let table = map_arabic_script_sing(b"0621 ; [.2A68.0126.001E]\n").unwrap();
    assert_eq!(unpack_weights(table[&0x621][0]), (false, 0x2468, 0x126, 0x1E));
}

#[test]
fn arabic_tables_reject_malformed_lines() {
    assert_eq!(
        map_arabic_script_sing(b"0621 [.2A68.0020.0002]\n"),
        Err(TableError { line: 0, kind: ErrorKind::MissingField })
    );
    assert_eq!(
        map_arabic_interleaved_sing(b"; [.2A69.0020.0002]\n"),
        Err(TableError { line: 0, kind: ErrorKind::MissingKey })
    );
    assert_eq!(
        map_arabic_script_multi(b"0627 0653 ; [.2A69.0020.002]\n\n0627 0653 ; [.2A69.0020.....]\n"),
        Err(TableError { line: 2, kind: ErrorKind::MissingLevel })
    );
    assert_eq!(
        map_arabic_interleaved_multi(b"0627 0653 0654 0655 ; [.2A69.0020.0002]\n"),
        Err(TableError { line: 0, kind: ErrorKind::KeyTooLong })
    );
    assert!(map_arabic_interleaved_multi(b"0627 0653 0654 0655 ; [.2A68.0020.0002]\n")
        .unwrap()
        .is_empty());
}
