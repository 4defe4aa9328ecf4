use qr_restore::{
    alignment_positions_native, block_layout_native, canonicalize_qr_data_tail, data_coordinates,
    data_coordinates_native, deinterleave_native, extract_codewords_native, format_bits_native,
    function_matrix_native, function_modules, interleave_native, mask_applies_native,
    matrix_from_codewords_native, num_raw_data_modules_native, repair_data_tail_native,
    symbol_size_native, version_bits_native, version_from_size_native, BlockSpec, EcLevel, QrError,
    FULL_RELIABILITY,
};
use std::collections::BTreeSet;

const EC_LEVELS: [char; 4] = ['L', 'M', 'Q', 'H'];

#[test]
fn known_format_values_match_qr_standard() {
    assert_eq!(format_bits_native("L", 0).unwrap(), 0x77c4);
    assert_eq!(format_bits_native("M", 2).unwrap(), 0x5e7c);
    let mut values = BTreeSet::new();
    for level in EC_LEVELS {
        for mask in 0..8 {
            values.insert(format_bits_native(&level.to_string(), mask).unwrap());
        }
    }
    assert_eq!(values.len(), 32);
}

#[test]
fn every_version_and_ec_layout_has_the_expected_length() {
    for version in 1..=40 {
        for level in EC_LEVELS {
            let layout = block_layout_native(version, &level.to_string()).unwrap();
            let total: usize = layout
                .iter()
                .map(|spec| spec.data_codewords + spec.ecc_codewords)
                .sum();
            assert_eq!(
                total,
                num_raw_data_modules_native(version).unwrap() as usize / 8,
                "version={version}, level={level}"
            );
        }
    }
}

#[test]
fn matrix_codewords_round_trip_for_all_versions() {
    // Golden hashes lock the function-map, traversal, interleaving, and
    // masking behavior across every Model 2 version and EC level.
    let expected_hashes: [u64; 40] = [
        0xe7b84d07b0ac8094,
        0xdea2d5644017ea43,
        0x1d31964f7ad8e196,
        0x136bbcc7527fa689,
        0x4c823f0d8782e831,
        0xff0bbd5ef72f8087,
        0xd7a7c47ef0e6ed57,
        0x0b4e964e8c99460a,
        0x42d679bfad46be70,
        0x2f2c11b64d22a736,
        0x06ca0cf98079cc69,
        0x55f1cbb2134f57d2,
        0x6f192345698beef3,
        0xa5985236c623b8dd,
        0xb38d77f40194f059,
        0x6e3ada22ab669b76,
        0x71ec4ef122145fdf,
        0x84f728821027ba9d,
        0x87edf2493c80914a,
        0x5f7686412a8b9b5b,
        0xd7a5af066b4c6a2c,
        0xb294215982692e24,
        0x1a78f926272fb667,
        0xfff7a249dbea5af8,
        0xc95317d2d32add3a,
        0x7448e6ab3b31d508,
        0x6541302df7c8ae5f,
        0x8d8b563936c438f1,
        0x5dedd3171fc116ce,
        0x0a7c5cd1a8080176,
        0x3d76eebcd04dc323,
        0x2a9266de433f350b,
        0xad742498b3e0c162,
        0xf1d7a6ff274ea16a,
        0x1d0cfafdf5d07469,
        0xd34c804a54e41280,
        0x0d2fc288ade5b717,
        0x4abd6370896d347a,
        0xa97889713c3ba5f4,
        0xcd28f50654064406,
    ];
    for version in 1..=40u8 {
        let level = EC_LEVELS[version as usize % EC_LEVELS.len()].to_string();
        let mask = version % 8;
        let count = num_raw_data_modules_native(version).unwrap() as usize / 8;
        let codewords: Vec<u8> = (0..count).map(|index| index as u8).collect();
        let matrix = matrix_from_codewords_native(&codewords, version, &level, mask).unwrap();
        let hash = matrix.iter().fold(0xcbf29ce484222325u64, |hash, byte| {
            (hash ^ u64::from(*byte)).wrapping_mul(0x100000001b3)
        });
        assert_eq!(hash, expected_hashes[version as usize - 1]);
        let confidence = vec![FULL_RELIABILITY; matrix.len()];
        let extracted =
            extract_codewords_native(&matrix, &confidence, version, &level, mask).unwrap();
        assert_eq!(extracted.codewords, codewords);
    }
}

#[test]
fn canonical_tail_repair_preserves_deformed_payload_bits() {
    fn hex(value: &str) -> Vec<u8> {
        value
            .as_bytes()
            .chunks_exact(2)
            .map(|pair| u8::from_str_radix(std::str::from_utf8(pair).unwrap(), 16).unwrap())
            .collect()
    }

    let damaged = hex(
        "41a68747470733a2f2f7777772e64796e616d736f66742e636f6d2f0ec11fdb9ec11ef5241fffe18ca3c561d",
    );
    let expected = hex(
        "41a68747470733a2f2f7777772e64796e616d736f66742e636f6d2f0ec11ec11ec11ef52e5ffff51ea26abe3",
    );
    let repaired = repair_data_tail_native(&damaged, 2, "L")
        .unwrap()
        .expect("complete segment should permit deterministic tail repair");
    assert_eq!(repaired.codewords, expected);
    assert!(repaired.corrected_symbols > 0);
    let changed = damaged
        .iter()
        .zip(&expected)
        .filter(|(a, b)| a != b)
        .count();
    assert_eq!(repaired.corrected_symbols, changed);
    assert_eq!(repaired.search_cost, 2 * changed as u64 + 12);
    // What was repaired needs no repair.
    assert!(repair_data_tail_native(&expected, 2, "L").unwrap().is_none());
}

#[test]
fn sizes_and_versions_determine_each_other() {
    for version in 1..=40u8 {
        let size = symbol_size_native(version).unwrap();
        assert_eq!(size, 17 + 4 * u16::from(version));
        assert_eq!(version_from_size_native(size).unwrap(), version);
    }
    assert_eq!(symbol_size_native(0), Err(QrError::Version));
    assert_eq!(symbol_size_native(41), Err(QrError::Version));
    for size in [0, 20, 22, u16::MAX] {
        assert_eq!(version_from_size_native(size), Err(QrError::MatrixSize(size)));
    }
    assert_eq!(version_from_size_native(181), Err(QrError::Version));
    // 1024 modules more than the smallest symbol has.
    assert_eq!(version_from_size_native(1045), Err(QrError::Version));
}

#[test]
fn capacities_and_layouts_have_their_known_values() {
    assert_eq!(num_raw_data_modules_native(1), Ok(208));
    assert_eq!(num_raw_data_modules_native(7), Ok(1568));
    assert_eq!(num_raw_data_modules_native(40), Ok(29648));
    assert_eq!(num_raw_data_modules_native(0), Err(QrError::Version));
    let blocks = block_layout_native(5, "Q").unwrap();
    let sizes: Vec<(usize, usize)> = blocks
        .iter()
        .map(|spec| (spec.data_codewords, spec.ecc_codewords))
        .collect();
    assert_eq!(sizes, vec![(15, 18), (15, 18), (16, 18), (16, 18)]);
    assert!(matches!(block_layout_native(0, "L"), Err(QrError::Version)));
    assert!(matches!(block_layout_native(5, "l"), Err(QrError::EcLevel)));
    assert!(matches!(block_layout_native(5, ""), Err(QrError::EcLevel)));
}

#[test]
fn alignment_centres_have_their_known_values() {
    assert_eq!(alignment_positions_native(1), Ok(vec![]));
    assert_eq!(alignment_positions_native(2), Ok(vec![6, 18]));
    assert_eq!(alignment_positions_native(7), Ok(vec![6, 22, 38]));
    assert_eq!(
        alignment_positions_native(32),
        Ok(vec![6, 34, 60, 86, 112, 138])
    );
    assert_eq!(
        alignment_positions_native(40),
        Ok(vec![6, 30, 58, 86, 114, 142, 170])
    );
    assert_eq!(alignment_positions_native(41), Err(QrError::Version));
}

#[test]
fn version_words_have_their_known_values() {
    assert_eq!(version_bits_native(7), Ok(0x07c94));
    assert_eq!(version_bits_native(40), Ok(0x28c69));
    assert_eq!(version_bits_native(0), Err(QrError::Version));
}

#[test]
fn format_words_refuse_other_levels_and_masks() {
    assert_eq!(format_bits_native("X", 0), Err(QrError::EcLevel));
    assert_eq!(format_bits_native("L", 8), Err(QrError::Mask));
}

#[test]
fn masks_follow_their_rules() {
    assert_eq!(mask_applies_native(0, 1, 1), Ok(true));
    assert_eq!(mask_applies_native(0, 1, 2), Ok(false));
    assert_eq!(mask_applies_native(1, 5, 2), Ok(true));
    assert_eq!(mask_applies_native(2, 3, 1), Ok(true));
    assert_eq!(mask_applies_native(4, 3, 2), Ok(true));
    assert_eq!(mask_applies_native(4, 3, 1), Ok(false));
    assert_eq!(mask_applies_native(7, u16::MAX, u16::MAX), Ok(true));
    assert_eq!(mask_applies_native(8, 0, 0), Err(QrError::Mask));
}

#[test]
fn function_maps_leave_the_raw_capacity_free() {
    for version in [1u8, 2, 6, 7, 21, 40] {
        let (_, functions) = function_matrix_native(version, "M", 3).unwrap();
        let free = functions.iter().filter(|function| !**function).count();
        assert_eq!(free as u32, num_raw_data_modules_native(version).unwrap());
    }
    assert!(function_matrix_native(0, "M", 3).is_err());
    assert!(function_matrix_native(1, "M", 9).is_err());
}

#[test]
fn function_codes_tell_dark_light_and_data_apart() {
    let codes = function_modules(1, "L", 0).unwrap();
    let (matrix, functions) = function_matrix_native(1, "L", 0).unwrap();
    assert_eq!(codes.len(), 441);
    for index in 0..codes.len() {
        let expected = if functions[index] {
            matrix[index] + 1
        } else {
            0
        };
        assert_eq!(codes[index], expected, "index={index}");
    }
}

#[test]
fn data_coordinates_start_at_the_lower_right() {
    let list = data_coordinates_native(1, "L", 0).unwrap();
    assert_eq!(list.len(), 208);
    assert_eq!(&list[..4], &[(20, 20), (19, 20), (20, 19), (19, 19)]);
    let distinct: BTreeSet<(u16, u16)> = list.iter().copied().collect();
    assert_eq!(distinct.len(), list.len());
    let flat = data_coordinates(1, "L", 0).unwrap();
    assert_eq!(flat.len(), 416);
    assert_eq!(&flat[..4], &[20, 20, 19, 20]);
    assert!(data_coordinates(41, "L", 0).is_err());
}

#[test]
fn drawing_refuses_what_is_no_symbol() {
    let confidence = vec![FULL_RELIABILITY; 441];
    let modules = vec![0u8; 441];
    assert!(matches!(
        extract_codewords_native(&modules, &confidence, 0, "L", 0),
        Err(QrError::Version)
    ));
    assert!(matches!(
        extract_codewords_native(&modules[1..], &confidence, 1, "L", 0),
        Err(QrError::ModuleCount)
    ));
    assert!(matches!(
        extract_codewords_native(&modules, &confidence[1..], 1, "L", 0),
        Err(QrError::ConfidenceCount)
    ));
    assert!(matches!(
        extract_codewords_native(&modules, &confidence, 1, "L", 8),
        Err(QrError::Mask)
    ));
    assert!(matches!(
        extract_codewords_native(&modules, &confidence, 1, "x", 0),
        Err(QrError::EcLevel)
    ));
    assert_eq!(
        matrix_from_codewords_native(&[0; 25], 1, "L", 0),
        Err(QrError::CodewordCount {
            expected: 26,
            actual: 25
        })
    );
}

#[test]
fn interleaving_undoes_deinterleaving_on_every_layout() {
    for version in [1u8, 5, 14, 40] {
        for level in ["L", "M", "Q", "H"] {
            let count = num_raw_data_modules_native(version).unwrap() as usize / 8;
            let codewords: Vec<u8> = (0..count).map(|index| (index * 31 % 251) as u8).collect();
            let reliability: Vec<u32> = (0..count * 8).map(|index| index as u32).collect();
            let taken = deinterleave_native(&codewords, &reliability, version, level).unwrap();
            assert_eq!(
                interleave_native(&taken.blocks, &taken.specs).unwrap(),
                codewords
            );
        }
    }
}

#[test]
fn deinterleaving_deals_codewords_to_blocks_in_turn() {
    // Two blocks of fifteen and two of sixteen data codewords.
    let codewords: Vec<u8> = (0..134).map(|index| index as u8).collect();
    let reliability: Vec<u32> = (0..134 * 8).map(|index| index as u32).collect();
    let taken = deinterleave_native(&codewords, &reliability, 5, "Q").unwrap();
    assert_eq!(&taken.blocks[0][..3], &[0, 4, 8]);
    assert_eq!(&taken.blocks[3][..3], &[3, 7, 11]);
    assert_eq!(taken.blocks[0].len(), 33);
    assert_eq!(taken.blocks[2][15], 60);
    assert_eq!(taken.blocks[0][15], 62);
    assert_eq!(&taken.reliabilities[1][..3], &[8, 9, 10]);
}

#[test]
fn streams_of_the_wrong_length_are_refused() {
    let reliability = vec![0u32; 8 * 26];
    assert!(matches!(
        deinterleave_native(&[0; 25], &reliability[8..], 1, "L"),
        Err(QrError::LayoutMismatch)
    ));
    assert!(matches!(
        deinterleave_native(&[0; 26], &reliability[1..], 1, "L"),
        Err(QrError::ReliabilityCount)
    ));
    assert!(matches!(
        deinterleave_native(&[0; 26], &reliability, 41, "L"),
        Err(QrError::Version)
    ));
    let spec = BlockSpec {
        data_codewords: 1,
        ecc_codewords: 1,
    };
    assert!(matches!(
        interleave_native(&vec![], &vec![spec]),
        Err(QrError::BlockCount)
    ));
}

#[test]
fn canonical_tails_end_with_padding() {
    // One byte "A" and the terminator, then noise where the padding belongs.
    let mut data = vec![0x40, 0x14, 0x10];
    data.extend(vec![0x55; 13]);
    let repaired = canonicalize_qr_data_tail(&data, 1).unwrap();
    assert_eq!(&repaired[..5], &[0x40, 0x14, 0x10, 0xec, 0x11]);
    assert_eq!(repaired.len(), 16);
    assert_eq!(canonicalize_qr_data_tail(&repaired, 1).unwrap(), repaired);
    // A segment that does not fit has no tail.
    assert!(canonicalize_qr_data_tail(&[0x4f, 0xf0, 0x00], 1).is_none());
}

#[test]
fn errors_are_reported_in_words() {
    assert_eq!(
        QrError::MatrixSize(22).message(),
        "invalid QR Model 2 matrix size: 22"
    );
    let texts = [
        QrError::Version.message(),
        QrError::MatrixSize(22).message(),
        QrError::EcLevel.message(),
        QrError::Mask.message(),
        QrError::CodewordCount {
            expected: 26,
            actual: 25,
        }
        .message(),
    ];
    for text in &texts {
        assert!(!text.is_empty());
    }
    assert!(texts[1].contains("22"));
    assert!(texts[4].contains("26") && texts[4].contains("25"));
}

#[test]
fn levels_are_named_by_their_letters() {
    let names: Vec<&str> = [EcLevel::L, EcLevel::M, EcLevel::Q, EcLevel::H]
        .iter()
        .map(|level| level.name())
        .collect();
    assert_eq!(names, vec!["L", "M", "Q", "H"]);
}

#[test]
fn interleaving_takes_no_more_than_the_layout_asks_for() {
    let specs = vec![
        BlockSpec {
            data_codewords: 2,
            ecc_codewords: 1,
        },
        BlockSpec {
            data_codewords: 1,
            ecc_codewords: 3,
        },
    ];
    // The first block is longer than it needs to be, the second has more parity.
    let blocks = vec![vec![1, 2, 3, 4, 5], vec![6, 7, 8, 9]];
    assert_eq!(
        interleave_native(&blocks, &specs).unwrap(),
        vec![1, 6, 2, 3, 7]
    );
    assert!(matches!(
        interleave_native(&blocks[..1].to_vec(), &specs),
        Err(QrError::BlockCount)
    ));
}
