use feruca_mapper::error::{ErrorKind, TableError};
use feruca_mapper::remap::{Relocation, Rule};
use feruca_mapper::tables::{
    map_low, map_multi, map_sing, map_variable, multi_table, single_table, Tailoring, LOW_LEN,
};
use feruca_mapper::weights::{pack_code_points, pack_weights, unpack_weights};

const SAMPLE: &str = "\
@version 16.0.0
# a remark

0000  ; [.0000.0000.0000] # NULL
0020  ; [*0209.0020.0002] # SPACE
0041  ; [.0B7E.0020.0008]  # LATIN CAPITAL LETTER A
004C  ; [.0C00.0020.0008] # LATIN CAPITAL LETTER L
00B6  ; [*0400.0020.0002] # PILCROW SIGN
00B7  ; [*0287.0020.0002] # MIDDLE DOT
00C5  ; [.0B7E.0020.0008][.0000.0029.0002] # LATIN CAPITAL LETTER A WITH RING ABOVE
1D00  ; [.2384.0020.0004] # LATIN LETTER SMALL CAPITAL A
004C 00B7 ; [.0C00.0020.0008][.0000.0126.001E] # L WITH MIDDLE DOT
0FB2 0F71 0F80 ; [.3000.0020.0002] # TIBETAN
1F600 ; [.72B6.0020.0002][.72B7.0020.0002] # FACE
";

fn error(line: usize, kind: ErrorKind) -> TableError {
    TableError { line, kind }
}

#[test]
fn end_to_end_latin_capital_a() {
    let line = "0041 ; [.0B7E.0020.0008]  # LATIN CAPITAL LETTER A";
    let table = map_sing(line.as_bytes(), Tailoring::Ducet).unwrap();
    assert_eq!(table.len(), 1);
    let weights = &table[&0x41];
    assert_eq!(weights.len(), 1);
    assert_eq!(unpack_weights(weights[0]), (false, 0x0B7E, 0x0020, 0x0008));
    assert!(map_multi(line.as_bytes(), Tailoring::Ducet).unwrap().is_empty());
}

#[test]
fn singles_of_the_default_table() {
    let table = map_sing(SAMPLE.as_bytes(), Tailoring::Ducet).unwrap();
    assert_eq!(table.len(), 9);
    assert_eq!(table[&0x0], vec![0]);
    assert_eq!(table[&0x20], vec![0x0209_8420]);
    assert_eq!(table[&0x41], vec![0x0B7E_1020]);
    assert_eq!(
        table[&0xC5],
        vec![
            pack_weights(false, 0x0B7E, 0x20, 0x8),
            pack_weights(false, 0, 0x29, 0x2)
        ]
    );
    assert_eq!(table[&0x1D00], vec![pack_weights(false, 0x2384, 0x20, 0x4)]);
    assert_eq!(
        table[&0x1F600],
        vec![
            pack_weights(false, 0x72B6, 0x20, 0x2),
            pack_weights(false, 0x72B7, 0x20, 0x2)
        ]
    );
    assert!(!table.contains_key(&0x0FB2));
}

#[test]
fn singles_of_the_tailored_table_are_bumped_and_shifted() {
    let table = map_sing(SAMPLE.as_bytes(), Tailoring::Cldr).unwrap();
    assert_eq!(table.len(), 9);
    assert_eq!(table[&0x41], vec![0x0B7E_1020]);
    assert_eq!(table[&0x1D00], vec![pack_weights(false, 0x2785, 0x20, 0x4)]);
    assert_eq!(table[&0x1D00], vec![0x2785_0820]);
    assert_eq!(
        table[&0x1F600],
        vec![
            pack_weights(false, 0x76B6, 0x20, 0x2),
            pack_weights(false, 0x72B7, 0x20, 0x2)
        ]
    );
}

#[test]
fn multis_pack_their_keys() {
    let table = map_multi(SAMPLE.as_bytes(), Tailoring::Ducet).unwrap();
    assert_eq!(table.len(), 2);
    assert_eq!(
        table[&pack_code_points(&[0x4C, 0xB7])],
        vec![
            pack_weights(false, 0x0C00, 0x20, 0x8),
            pack_weights(false, 0, 0x126, 0x1E)
        ]
    );
    assert_eq!(
        table[&((0x0FB2u64 << 42) | (0x0F71u64 << 21) | 0x0F80)],
        vec![pack_weights(false, 0x3000, 0x20, 0x2)]
    );
}

#[test]
fn multis_of_the_tailored_table_are_shifted_but_not_bumped() {
    let data = "0061 0062 ; [.2384.0020.0002][.2380.0020.0002][.237F.0020.0002]\n";
    let table = map_multi(data.as_bytes(), Tailoring::Cldr).unwrap();
    assert_eq!(
        table[&pack_code_points(&[0x61, 0x62])],
        vec![
            pack_weights(false, 0x2784, 0x20, 0x2),
            pack_weights(false, 0x2780, 0x20, 0x2),
            pack_weights(false, 0x237F, 0x20, 0x2)
        ]
    );
    let table = map_multi(data.as_bytes(), Tailoring::Ducet).unwrap();
    assert_eq!(
        table[&pack_code_points(&[0x61, 0x62])],
        vec![
            pack_weights(false, 0x2384, 0x20, 0x2),
            pack_weights(false, 0x2380, 0x20, 0x2),
            pack_weights(false, 0x237F, 0x20, 0x2)
        ]
    );
}

#[test]
fn a_line_is_in_one_table_only() {
    let singles = map_sing(SAMPLE.as_bytes(), Tailoring::Ducet).unwrap();
    let multis = map_multi(SAMPLE.as_bytes(), Tailoring::Ducet).unwrap();
    for line in SAMPLE.lines() {
        let one = map_sing(line.as_bytes(), Tailoring::Ducet).unwrap();
        let many = map_multi(line.as_bytes(), Tailoring::Ducet).unwrap();
        assert!(one.is_empty() || many.is_empty());
        assert!(one.len() + many.len() <= 1);
    }
    assert_eq!(singles.len() + multis.len(), 11);
}

#[test]
fn later_line_replaces_earlier_one() {
    let data = "0041 ; [.0001.0020.0002]\n0042 ; [.0002.0020.0002]\n0041 ; [.0003.0020.0002]\n";
    let table = map_sing(data.as_bytes(), Tailoring::Ducet).unwrap();
    assert_eq!(table.len(), 2);
    assert_eq!(table[&0x41], vec![pack_weights(false, 3, 0x20, 2)]);
    let low = map_low(data.as_bytes(), Tailoring::Ducet).unwrap();
    assert_eq!(low[0x41], pack_weights(false, 3, 0x20, 2));
    assert_eq!(low[0x42], pack_weights(false, 2, 0x20, 2));
}

#[test]
fn record_without_groups_has_no_weights() {
    let table = map_sing(b"0041 ; # nothing\n", Tailoring::Ducet).unwrap();
    assert_eq!(table[&0x41], Vec::<u32>::new());
}

#[test]
fn second_field_ends_at_semicolon_and_hash() {
    let data = "0041 ; [.0001.0020.0002] ; [.0002.0020.0002] # [.0003.0020.0002]\n\
                0042 ; [.0004.0020.0002] # [.0005.0020.0002] ; [.0006.0020.0002]\n";
    let table = map_sing(data.as_bytes(), Tailoring::Ducet).unwrap();
    assert_eq!(table[&0x41], vec![pack_weights(false, 1, 0x20, 2)]);
    assert_eq!(table[&0x42], vec![pack_weights(false, 4, 0x20, 2)]);
}

#[test]
fn low_table_is_dense() {
    let low = map_low(SAMPLE.as_bytes(), Tailoring::Ducet).unwrap();
    assert_eq!(low.len(), LOW_LEN);
    assert_eq!(low.len(), 183);
    let singles = map_sing(SAMPLE.as_bytes(), Tailoring::Ducet).unwrap();
    for (i, value) in low.iter().enumerate() {
        let code_point = i as u32;
        if code_point == 0x4C || code_point == 0x6C {
            assert_eq!(*value, 0);
        } else {
            let expected = singles.get(&code_point).map_or(0, |weights| weights[0]);
            assert_eq!(*value, expected);
        }
    }
    assert_eq!(low[0x20], 0x0209_8420);
    assert_eq!(low[0x41], 0x0B7E_1020);
    assert_eq!(low[0xB6], pack_weights(true, 0x0400, 0x20, 0x2));
    assert_eq!(low[0], 0);
    assert_eq!(low[0x42], 0);
}

#[test]
fn low_table_takes_single_code_points_only() {
    let line = "0041 0300 ; [.0B7E.0020.0008][.0000.0025.0002] # A, GRAVE";
    let low = map_low(line.as_bytes(), Tailoring::Ducet).unwrap();
    assert!(low.iter().all(|w| *w == 0));
    let data = "0041 ; [.0001.0020.0002]\n0041 0042 ; [.0009.0020.0002]\n0042 0041 ; bad\n";
    let low = map_low(data.as_bytes(), Tailoring::Ducet).unwrap();
    assert_eq!(low[0x41], pack_weights(false, 1, 0x20, 2));
    assert_eq!(low.iter().filter(|w| **w != 0).count(), 1);
}

#[test]
fn low_table_takes_the_first_group_and_leaves_out_l() {
    let data = "0041 ; [.0001.0020.0002][.0002.0020.0002]\n\
                004C ; [.0003.0020.0002]\n\
                006C ; [.0004.0020.0002]\n\
                00B7 ; bad\n";
    let low = map_low(data.as_bytes(), Tailoring::Ducet).unwrap();
    assert_eq!(low[0x41], pack_weights(false, 1, 0x20, 2));
    assert_eq!(low[0x4C], 0);
    assert_eq!(low[0x6C], 0);
    assert_eq!(low.iter().filter(|w| **w != 0).count(), 1);
}

#[test]
fn low_table_of_the_tailored_table_is_bumped_and_shifted() {
    let data = "0061 ; [.2380.0020.0002]\n0062 ; [.2384.0020.0002]\n0063 ; [.72B7.0020.0002]\n";
    let low = map_low(data.as_bytes(), Tailoring::Cldr).unwrap();
    assert_eq!(low[0x61], pack_weights(false, 0x2780, 0x20, 2));
    assert_eq!(low[0x62], pack_weights(false, 0x2785, 0x20, 2));
    assert_eq!(low[0x63], pack_weights(false, 0x72B7, 0x20, 2));
    let low = map_low(data.as_bytes(), Tailoring::Ducet).unwrap();
    assert_eq!(low[0x61], pack_weights(false, 0x2380, 0x20, 2));
    assert_eq!(low[0x62], pack_weights(false, 0x2384, 0x20, 2));
}

#[test]
fn variable_set_holds_variable_and_zero_primaries() {
    let set = map_variable(SAMPLE.as_bytes()).unwrap();
    let mut found: Vec<u32> = set.into_iter().collect();
    found.sort();
    assert_eq!(found, vec![0x0, 0x20, 0xB6, 0xB7, 0xC5]);
}

#[test]
fn variable_set_stops_at_the_deciding_group() {
    let set =
        map_variable(b"0041 ; [.0001.0020.0002][*0002.0020.0002][...............]\n").unwrap();
    assert!(set.contains(&0x41));
    assert_eq!(
        map_variable(b"0041 ; [.0001.0020.0002][...............][*0002.0020.0002]\n"),
        Err(error(0, ErrorKind::MissingLevel))
    );
    assert!(map_variable(b"0041 ; [.0001.0020.0002]\n").unwrap().is_empty());
    assert!(map_variable(b"0041 0042 ; [*0001.0020.0002]\n").unwrap().is_empty());
}

#[test]
fn line_without_separator_is_rejected() {
    let data = "0041 ; [.0001.0020.0002]\n0042 [.0002.0020.0002]\n";
    assert_eq!(
        map_sing(data.as_bytes(), Tailoring::Ducet),
        Err(error(1, ErrorKind::MissingField))
    );
    assert_eq!(
        map_multi(data.as_bytes(), Tailoring::Ducet),
        Err(error(1, ErrorKind::MissingField))
    );
    assert_eq!(
        map_low(data.as_bytes(), Tailoring::Ducet),
        Err(error(1, ErrorKind::MissingField))
    );
    assert_eq!(
        map_variable(data.as_bytes()),
        Err(error(1, ErrorKind::MissingField))
    );
}

#[test]
fn line_without_code_point_is_rejected() {
    let data = "\n\n041 ; [.0001.0020.0002]\n";
    assert_eq!(
        map_sing(data.as_bytes(), Tailoring::Ducet),
        Err(error(2, ErrorKind::MissingKey))
    );
    assert_eq!(
        map_low(data.as_bytes(), Tailoring::Ducet),
        Err(error(2, ErrorKind::MissingKey))
    );
    assert_eq!(
        map_variable(data.as_bytes()),
        Err(error(2, ErrorKind::MissingKey))
    );
    assert!(map_multi(data.as_bytes(), Tailoring::Ducet).unwrap().is_empty());
}

#[test]
fn group_with_too_few_levels_is_rejected() {
    let data = "0041 ; [.0001.0020.0002][.0001.0020.002.]\n";
    assert_eq!(
        map_sing(data.as_bytes(), Tailoring::Ducet),
        Err(error(0, ErrorKind::MissingLevel))
    );
    let data = "0041 0042 ; [.0001.0020.002.]\n";
    assert_eq!(
        map_multi(data.as_bytes(), Tailoring::Cldr),
        Err(error(0, ErrorKind::MissingLevel))
    );
    assert!(map_sing(data.as_bytes(), Tailoring::Cldr).unwrap().is_empty());
    assert!(map_low(data.as_bytes(), Tailoring::Ducet).unwrap().iter().all(|w| *w == 0));
    assert_eq!(
        map_low(b"0041 ; [.0001.0020.002.]\n", Tailoring::Ducet),
        Err(error(0, ErrorKind::MissingLevel))
    );
}

#[test]
fn low_table_needs_a_group() {
    assert_eq!(
        map_low(b"0041 ; [.0001.0020.002]\n", Tailoring::Ducet),
        Err(error(0, ErrorKind::MissingWeights))
    );
}

#[test]
fn weights_above_their_maxima_are_rejected() {
    assert_eq!(
        map_sing(b"0041 ; [.0001.0127.0002]\n", Tailoring::Ducet),
        Err(error(0, ErrorKind::WeightOutOfRange))
    );
    assert_eq!(
        map_sing(b"0041 ; [.0001.0126.001F]\n", Tailoring::Cldr),
        Err(error(0, ErrorKind::WeightOutOfRange))
    );
    assert_eq!(
        map_multi(b"# x\n0041 0042 ; [.0001.0126.001F]\n", Tailoring::Ducet),
        Err(error(1, ErrorKind::WeightOutOfRange))
    );
    assert_eq!(
        map_low(b"0041 ; [.0001.0127.0002]\n", Tailoring::Ducet),
        Err(error(0, ErrorKind::WeightOutOfRange))
    );
    let table = map_sing(b"0041 ; [.0001.0126.001E]\n", Tailoring::Ducet).unwrap();
    assert_eq!(unpack_weights(table[&0x41][0]), (false, 1, 0x126, 0x1E));
}

#[test]
fn key_of_four_code_points_is_rejected() {
    assert_eq!(
        map_multi(b"0041 0042 0043 0044 ; [.0001.0020.0002]\n", Tailoring::Ducet),
        Err(error(0, ErrorKind::KeyTooLong))
    );
}

#[test]
fn first_error_ends_the_table() {
    let data = "0041 ; [.0001.0020.0002]\n0042 ; [.0001.0127.0002]\n0043\n";
    assert_eq!(
        map_sing(data.as_bytes(), Tailoring::Ducet),
        Err(error(1, ErrorKind::WeightOutOfRange))
    );
}

#[test]
fn tables_are_built_under_any_rule() {
    let rule = Rule { bump: true, shift: false };
    let data = b"0041 ; [.2384.0020.0002][.2380.0020.0002]\n0041 0042 ; [.2454.0020.0002]\n";
    let table = single_table(data, rule, Relocation::Keep).unwrap();
    assert_eq!(
        table[&0x41],
        vec![pack_weights(false, 0x2385, 0x20, 2), pack_weights(false, 0x2380, 0x20, 2)]
    );
    let table = multi_table(data, rule, Relocation::Keep).unwrap();
    assert_eq!(
        table[&pack_code_points(&[0x41, 0x42])],
        vec![pack_weights(false, 0x2455, 0x20, 2)]
    );
}
