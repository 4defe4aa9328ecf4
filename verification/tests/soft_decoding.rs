use qr_restore::{
    block_layout_native, correct_block_candidates_native, correct_interleaved_native,
    deinterleave_native, erasure_plan, erasure_plans, interleave_native, ErasureOutcome, QrError,
    FULL_RELIABILITY,
};
use reed_solomon::{Decoder, Encoder};

/// Decodes a block with each list of erasures.
fn decode_erasures(block: &[u8], ecc: usize, lists: &[Vec<u8>]) -> Vec<Option<ErasureOutcome>> {
    lists
        .iter()
        .map(|erasures| {
            Decoder::new(ecc)
                .correct_err_count(block, Some(erasures))
                .ok()
                .map(|(fixed, count)| ErasureOutcome {
                    codewords: fixed[..].to_vec(),
                    corrected_symbols: count as u8,
                })
        })
        .collect()
}

fn none() -> Vec<Option<ErasureOutcome>> {
    Vec::new()
}

#[test]
fn errors_and_erasures_are_corrected() {
    let encoded = Encoder::new(18).encode(b"soft decision");
    let original = encoded[..].to_vec();
    assert_eq!(
        original,
        vec![
            0x73, 0x6f, 0x66, 0x74, 0x20, 0x64, 0x65, 0x63, 0x69, 0x73, 0x69, 0x6f, 0x6e, 0x13,
            0x59, 0x1c, 0x46, 0xb5, 0x09, 0x4a, 0xf5, 0x17, 0xaf, 0xa3, 0xcc, 0x49, 0x7a, 0x76,
            0xbe, 0x83, 0x82,
        ]
    );
    let mut damaged = original.clone();
    damaged[0] ^= 0x55;
    damaged[3] ^= 0xa1;
    let mut reliability = vec![FULL_RELIABILITY; damaged.len() * 8];
    reliability[..8].fill(FULL_RELIABILITY / 1000);
    reliability[24..32].fill(FULL_RELIABILITY / 500);
    let plan = erasure_plan(&damaged, &reliability, 18).unwrap();
    let outcomes = decode_erasures(&damaged, 18, &plan);
    let (candidates, attempts) =
        correct_block_candidates_native(&damaged, &reliability, 18, 8, 2_000, 3, &outcomes)
            .unwrap();
    assert!(attempts > 0);
    assert!(candidates
        .iter()
        .any(|candidate| candidate.codewords == original));
}

#[test]
fn erasures_are_tried_from_the_least_reliable_byte_on() {
    let block = vec![0u8; 6];
    let mut reliability = vec![FULL_RELIABILITY; 48];
    reliability[20] = 5000;
    reliability[3] = 10000;
    let plan = erasure_plan(&block, &reliability, 3).unwrap();
    assert_eq!(plan, vec![vec![2], vec![2, 0], vec![2, 0, 1]]);
    // Where nothing is less reliable than the rest, no erasure is worth trying.
    let even = vec![FULL_RELIABILITY; 48];
    assert!(erasure_plan(&block, &even, 3).unwrap().is_empty());
}

#[test]
fn a_clean_block_is_found_at_no_cost() {
    let block = Encoder::new(10).encode(b"clean block")[..].to_vec();
    let reliability = vec![FULL_RELIABILITY; block.len() * 8];
    let (found, attempts) =
        correct_block_candidates_native(&block, &reliability, 10, 0, 100, 3, &none()).unwrap();
    assert_eq!(attempts, 1);
    assert_eq!(found.len(), 1);
    assert_eq!(found[0].codewords, block);
    assert_eq!((found[0].corrected_symbols, found[0].search_cost), (0, 0));
}

#[test]
fn hard_errors_cost_two_half_units_each() {
    let original = Encoder::new(10).encode(b"two errors")[..].to_vec();
    let mut block = original.clone();
    block[1] ^= 1;
    block[7] ^= 0x80;
    let reliability = vec![FULL_RELIABILITY; block.len() * 8];
    let (found, _) =
        correct_block_candidates_native(&block, &reliability, 10, 0, 100, 3, &none()).unwrap();
    assert_eq!(found[0].codewords, original);
    assert_eq!((found[0].corrected_symbols, found[0].search_cost), (2, 4));
}

#[test]
fn flipping_unreliable_bits_reaches_further_than_hard_decoding() {
    let original = Encoder::new(4).encode(b"flip a bit")[..].to_vec();
    let mut block = original.clone();
    for index in 0..3 {
        block[index] ^= 0x80;
    }
    let mut reliability = vec![FULL_RELIABILITY; block.len() * 8];
    reliability[0] = 1000;
    let (without, _) =
        correct_block_candidates_native(&block, &reliability, 4, 0, 50, 5, &none()).unwrap();
    assert!(!without.iter().any(|word| word.codewords == original));
    let (found, _) =
        correct_block_candidates_native(&block, &reliability, 4, 1, 50, 5, &none()).unwrap();
    let word = found
        .iter()
        .find(|word| word.codewords == original)
        .unwrap();
    // Two codewords corrected and one bit flipped.
    assert_eq!((word.corrected_symbols, word.search_cost), (2, 5));
}

#[test]
fn searches_keep_to_their_limits() {
    let block: Vec<u8> = (0..30).map(|index| (index * 73 + 11) as u8).collect();
    let mut reliability = vec![FULL_RELIABILITY; block.len() * 8];
    for (index, value) in reliability.iter_mut().enumerate() {
        *value -= index as u32 * 1000;
    }
    let (_, attempts) =
        correct_block_candidates_native(&block, &reliability, 6, 13, 40, 3, &none()).unwrap();
    assert!(attempts <= 40);
    let (found, attempts) =
        correct_block_candidates_native(&block, &reliability, 6, 13, 0, 3, &none()).unwrap();
    assert_eq!((found.len(), attempts), (0, 0));
    let clean = Encoder::new(6).encode(b"nothing wanted")[..].to_vec();
    let reliability = vec![FULL_RELIABILITY; clean.len() * 8];
    let (found, _) =
        correct_block_candidates_native(&clean, &reliability, 6, 0, 10, 0, &none()).unwrap();
    assert!(found.is_empty());
}

#[test]
fn blocks_of_impossible_dimensions_are_refused() {
    let reliability = vec![FULL_RELIABILITY; 80];
    for (block, ecc) in [(vec![], 1), (vec![0; 10], 0), (vec![0; 10], 10), (vec![0; 256], 4)] {
        assert!(matches!(
            correct_block_candidates_native(&block, &reliability, ecc, 0, 1, 1, &none()),
            Err(QrError::BlockDimensions)
        ));
        assert!(matches!(
            erasure_plan(&block, &reliability, ecc),
            Err(QrError::BlockDimensions)
        ));
    }
    assert!(matches!(
        correct_block_candidates_native(&[0; 10], &reliability[1..], 4, 0, 1, 1, &none()),
        Err(QrError::ReliabilityCount)
    ));
}

/// A stream for the given version and level, filled with the given bytes.
fn stream(version: u8, level: &str, seed: u8) -> Vec<u8> {
    let specs = block_layout_native(version, level).unwrap();
    let blocks: Vec<Vec<u8>> = specs
        .iter()
        .enumerate()
        .map(|(block, spec)| {
            let data: Vec<u8> = (0..spec.data_codewords)
                .map(|index| (index as u8).wrapping_mul(7).wrapping_add(seed + block as u8))
                .collect();
            Encoder::new(spec.ecc_codewords).encode(&data)[..].to_vec()
        })
        .collect();
    interleave_native(&blocks, &specs).unwrap()
}

#[test]
fn damaged_streams_are_corrected_block_by_block() {
    let original = stream(5, "Q", 3);
    let mut damaged = original.clone();
    for index in [0usize, 1, 2, 3, 50, 90] {
        damaged[index] ^= 0x42;
    }
    let reliability = vec![FULL_RELIABILITY; damaged.len() * 8];
    let (streams, attempts) =
        correct_interleaved_native(&damaged, &reliability, 5, "Q", 0, 100, 8, &Vec::new())
            .unwrap();
    assert_eq!(streams.len(), 1);
    assert_eq!(streams[0].codewords, original);
    assert_eq!(streams[0].corrected_symbols, 6);
    assert_eq!(streams[0].search_cost, 12);
    assert_eq!(attempts, 4);
}

#[test]
fn one_block_beyond_repair_leaves_no_stream() {
    let mut damaged = stream(5, "Q", 9);
    for index in 0..15 {
        damaged[4 * index] ^= 0x5a;
    }
    let reliability = vec![FULL_RELIABILITY; damaged.len() * 8];
    let (streams, attempts) =
        correct_interleaved_native(&damaged, &reliability, 5, "Q", 0, 100, 8, &Vec::new())
            .unwrap();
    assert!(streams.is_empty());
    assert!(attempts >= 1);
}

#[test]
fn erasure_plans_name_the_blocks_of_a_stream() {
    let original = stream(5, "Q", 1);
    let mut reliability = vec![FULL_RELIABILITY; original.len() * 8];
    reliability[..8].fill(0);
    let plans = erasure_plans(&original, &reliability, 5, "Q").unwrap();
    let taken = deinterleave_native(&original, &reliability, 5, "Q").unwrap();
    assert_eq!(plans.len(), 4);
    for (plan, block) in plans.iter().zip(&taken.blocks) {
        assert_eq!(&plan.block, block);
        assert_eq!(plan.ecc_codewords, 18);
    }
    assert_eq!(plans[0].erasures.len(), 18);
    assert_eq!(plans[0].erasures[0], vec![0]);
    assert!(plans[1].erasures.is_empty());
    assert!(matches!(
        erasure_plans(&original, &reliability[8..], 5, "Q"),
        Err(QrError::ReliabilityCount)
    ));
}

#[test]
fn erasures_correct_what_hard_decoding_cannot() {
    let original = stream(1, "L", 5);
    let mut damaged = original.clone();
    let mut reliability = vec![FULL_RELIABILITY; damaged.len() * 8];
    for index in 0..6 {
        damaged[index] ^= 0x99;
        reliability[index * 8..index * 8 + 8].fill(1000 + index as u32);
    }
    let plans = erasure_plans(&damaged, &reliability, 1, "L").unwrap();
    let outcomes: Vec<Vec<Option<ErasureOutcome>>> = plans
        .iter()
        .map(|plan| {
            let six: Vec<Vec<u8>> = plan.erasures.iter().take(6).cloned().collect();
            // Only the list that names all six errors is decoded.
            six.iter()
                .enumerate()
                .map(|(index, list)| {
                    if index < 5 {
                        None
                    } else {
                        decode_erasures(&plan.block, plan.ecc_codewords, &[list.clone()])
                            .remove(0)
                    }
                })
                .collect()
        })
        .collect();
    let (streams, attempts) =
        correct_interleaved_native(&damaged, &reliability, 1, "L", 0, 100, 8, &outcomes).unwrap();
    assert_eq!(streams[0].codewords, original);
    assert_eq!(streams[0].corrected_symbols, 6);
    assert!(attempts >= 7);
}

#[test]
fn an_undamaged_stream_comes_first_and_costs_nothing() {
    let clean = stream(5, "Q", 7);
    let mut reliability = vec![FULL_RELIABILITY; clean.len() * 8];
    reliability[17] = FULL_RELIABILITY / 4;
    reliability[300] = FULL_RELIABILITY / 8;
    let outcomes: Vec<Vec<Option<ErasureOutcome>>> = erasure_plans(&clean, &reliability, 5, "Q")
        .unwrap()
        .iter()
        .map(|plan| decode_erasures(&plan.block, plan.ecc_codewords, &plan.erasures))
        .collect();
    let (found, _) =
        correct_interleaved_native(&clean, &reliability, 5, "Q", 8, 2_000, 16, &outcomes).unwrap();
    assert_eq!(found[0].codewords, clean);
    assert_eq!((found[0].corrected_symbols, found[0].search_cost), (0, 0));
}
