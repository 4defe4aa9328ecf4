use qr_restore::grids::{
    deformed_search, needs_deformed_samples, needs_fallback, needs_resampling, version_detected,
    versions_to_try,
};
use qr_restore::recovery_result::SCORE_BOUND;
use qr_restore::{
    accept_reading, add_vote, block_layout_native, function_modules, grids_from_samples, interleave_native,
    matrix_from_codewords_native, merge_recovery_results_native, plan_decode, rank_hypotheses,
    DecodeOutcome, EcLevel, ModuleGrid, PreviewImage, Reading, RecoveryCandidate,
    RecoveryDiagnostics, RecoveryError, RecoveryOptions, RecoveryOptionsInput, RecoveryResult,
    RecoverySession, RecoveryStatus, SampledGrid, ScoreComponent, TerminationReason,
    FULL_RELIABILITY,
};
use reed_solomon::Encoder;

const POINT: i128 = 1 << 52;

/// A number of points in the units of a score.
fn units(points: f64) -> i128 {
    (points * POINT as f64) as i128
}

/// The sum of components in plain double precision.
fn total(parts: &[ScoreComponent]) -> i128 {
    let points: f64 = parts.iter().map(|part| part.value as f64 / POINT as f64).sum();
    units(points)
}

fn options(change: impl Fn(&mut RecoveryOptionsInput)) -> RecoveryOptions {
    let mut input = RecoveryOptionsInput {
        effort: "balanced".into(),
        max_micros: None,
        version: None,
        ec_level: None,
        payload_prefix: None,
        payload_regex: None,
        expected_text: None,
        fallback_encoding: None,
        batch_index: None,
        batch_count: None,
    };
    change(&mut input);
    RecoveryOptions::compile(input).unwrap()
}

/// The codewords of a symbol that holds a short text in one byte segment.
fn codewords(text: &[u8], version: u8, level: &str) -> Vec<u8> {
    let specs = block_layout_native(version, level).unwrap();
    let capacity: usize = specs.iter().map(|spec| spec.data_codewords).sum();
    let mut bits: Vec<u8> = Vec::new();
    let mut push = |value: usize, count: usize| {
        for index in (0..count).rev() {
            bits.push((value >> index & 1) as u8);
        }
    };
    push(4, 4);
    push(text.len(), 8);
    for byte in text {
        push(*byte as usize, 8);
    }
    push(0, 4);
    let mut data: Vec<u8> = bits
        .chunks(8)
        .map(|chunk| chunk.iter().fold(0, |byte, bit| byte << 1 | bit))
        .collect();
    let mut padding = [0xecu8, 0x11].iter().cycle();
    while data.len() < capacity {
        data.push(*padding.next().unwrap());
    }
    let mut start = 0;
    let blocks: Vec<Vec<u8>> = specs
        .iter()
        .map(|spec| {
            let part = &data[start..start + spec.data_codewords];
            start += spec.data_codewords;
            Encoder::new(spec.ecc_codewords).encode(part)[..].to_vec()
        })
        .collect();
    interleave_native(&blocks, &specs).unwrap()
}

fn grid(version: u8, modules: Vec<u8>, deformed: bool) -> ModuleGrid {
    let confidence = vec![FULL_RELIABILITY; modules.len()];
    ModuleGrid {
        version,
        modules,
        confidence,
        deformed,
    }
}

fn decode(
    grids: Vec<ModuleGrid>,
    name: &str,
    quality: f64,
    wanted: &RecoveryOptions,
) -> DecodeOutcome {
    let quality = units(quality) as u64;
    let plan = plan_decode(grids, name, quality, wanted);
    plan.carry_out(name, quality, wanted, 2000, 0, &Vec::new())
}

fn candidate(payload: &str, points: i64, evidence: u64, source: &str) -> RecoveryCandidate {
    RecoveryCandidate {
        payload: payload.as_bytes().to_vec(),
        text: payload.into(),
        version: 1,
        ec_level: "M".into(),
        mask: 0,
        matrix: vec![0; 441],
        matrix_kind: "exact".into(),
        corrected_symbols: 0,
        score: i128::from(points) * POINT,
        score_components: vec![ScoreComponent {
            name: "decoder".into(),
            value: i128::from(points) * POINT,
        }],
        confidence: "high".into(),
        source: source.into(),
        evidence_count: evidence,
    }
}

fn outcome(candidates: Vec<RecoveryCandidate>) -> DecodeOutcome {
    let read = u64::from(!candidates.is_empty());
    DecodeOutcome {
        candidates,
        valid_reads: read,
        invalid_reads: 1 - read,
        attempts: 3,
    }
}

fn preview(value: u8) -> PreviewImage {
    PreviewImage {
        width: 1,
        height: 1,
        data: vec![value; 4],
    }
}

fn report(candidates: Vec<RecoveryCandidate>, name: Option<&str>) -> RecoveryResult {
    RecoveryResult {
        status: RecoveryStatus::Decoded,
        candidates,
        diagnostics: RecoveryDiagnostics {
            examined_variants: 10,
            valid_reads: 2,
            invalid_reads: 1,
            soft_decode_attempts: 4,
            elapsed_micros: 500,
            input_count: 1,
            runtime: "elsewhere".into(),
        },
        discarded_frames: Vec::new(),
        termination_reason: None,
        best_variant: name.map(|_| preview(9)),
        best_variant_name: name.map(|text| text.to_string()),
    }
}

#[test]
fn rust_merger_combines_batch_evidence_and_diagnostics() {
    let make_result = |quality: i128, evidence_count: u64, examined_variants: u64| {
        let independent = (i128::from(evidence_count) - 1).max(0) * 4 * POINT;
        let component = |name: &str, value: i128| ScoreComponent {
            name: name.into(),
            value,
        };
        let score_components = vec![
            component("decoder", 100 * POINT),
            component("imageVariant", quality * POINT),
            component("independentEvidence", independent),
        ];
        RecoveryResult {
            status: RecoveryStatus::Decoded,
            candidates: vec![RecoveryCandidate {
                payload: b"same payload".to_vec(),
                text: "same payload".into(),
                version: 1,
                ec_level: "M".into(),
                mask: 0,
                matrix: vec![0; 21 * 21],
                matrix_kind: "exact".into(),
                corrected_symbols: 0,
                score: total(&score_components),
                score_components,
                confidence: "high".into(),
                source: format!("batch-quality-{quality}"),
                evidence_count,
            }],
            diagnostics: RecoveryDiagnostics {
                examined_variants,
                valid_reads: evidence_count,
                invalid_reads: 1,
                soft_decode_attempts: 2,
                elapsed_micros: quality as u64 * 1_000_000,
                input_count: 1,
                runtime: "rust-wasm+photon+rxing+rqrr".into(),
            },
            discarded_frames: Vec::new(),
            termination_reason: None,
            best_variant: Some(PreviewImage {
                width: 1,
                height: 1,
                data: vec![quality as u8; 4],
            }),
            best_variant_name: Some(format!("quality-{quality}")),
        }
    };
    let merged =
        merge_recovery_results_native(vec![make_result(1, 2, 10), make_result(3, 3, 12)]).unwrap();
    assert_eq!(merged.status.name(), "decoded");
    assert_eq!(merged.diagnostics.examined_variants, 22);
    assert_eq!(merged.diagnostics.valid_reads, 5);
    assert_eq!(merged.candidates[0].evidence_count, 5);
    assert_eq!(merged.best_variant_name.as_deref(), Some("quality-3"));
    // A hundred for the decoder, three for the variant, and four for each of the
    // four reads after the first.
    assert_eq!(merged.candidates[0].score, 119 * POINT);
    assert_eq!(merged.diagnostics.elapsed_micros, 3_000_000);
    assert_eq!(merged.diagnostics.runtime, "rust-wasm+photon+rxing+rqrr");
}

#[test]
fn merging_needs_results_about_the_same_inputs() {
    assert!(matches!(
        merge_recovery_results_native(Vec::new()),
        Err(RecoveryError::NoBatchResult)
    ));
    let mut other = report(Vec::new(), None);
    other.diagnostics.input_count = 2;
    let error = merge_recovery_results_native(vec![report(Vec::new(), None), other]).unwrap_err();
    assert_eq!(
        error.message(),
        "batch results must describe the same number of inputs"
    );
}

#[test]
fn merging_nothing_readable_is_unrecoverable() {
    let mut late = report(Vec::new(), None);
    late.termination_reason = Some("time_limit".into());
    late.discarded_frames = vec!["b".into(), "a".into()];
    let mut other = report(Vec::new(), None);
    other.termination_reason = Some("confidence_limit".into());
    other.discarded_frames = vec!["c".into(), "a".into()];
    let merged = merge_recovery_results_native(vec![late, other]).unwrap();
    assert_eq!(merged.status, RecoveryStatus::Unrecoverable);
    assert_eq!(merged.termination_reason.as_deref(), Some("time_limit"));
    assert_eq!(merged.discarded_frames, vec!["a", "b", "c"]);
    assert!(merged.best_variant.is_none() && merged.best_variant_name.is_none());
}

#[test]
fn close_rivals_are_ambiguous_and_clear_leads_are_not() {
    let merged = |first: i64, second: i64| {
        merge_recovery_results_native(vec![
            report(vec![candidate("b", second, 1, "x")], Some("second")),
            report(vec![candidate("a", first, 1, "x")], Some("first")),
        ])
        .unwrap()
    };
    let close = merged(100, 89);
    assert_eq!(close.status.name(), "ambiguous");
    assert!(close
        .candidates
        .iter()
        .all(|candidate| candidate.confidence == "low"));
    let clear = merged(100, 88);
    assert_eq!(clear.status, RecoveryStatus::Decoded);
    assert_eq!(clear.candidates[0].text, "a");
    assert_eq!(clear.candidates[0].confidence, "high");
    assert_eq!(clear.best_variant_name.as_deref(), Some("first"));
    // Equal scores are ordered by payload.
    let equal = merged(100, 100);
    assert_eq!(equal.candidates[0].text, "a");
}

#[test]
fn a_deformed_reading_stands_out_with_enough_evidence() {
    let merged = |evidence: u64, source: &str| {
        merge_recovery_results_native(vec![report(
            vec![
                candidate("a", 100, evidence, source),
                candidate("b", 90, 2, "x"),
            ],
            None,
        )])
        .unwrap()
        .status
    };
    assert_eq!(merged(4, "rxing-rust:x:deformed-v2"), RecoveryStatus::Decoded);
    assert_eq!(merged(3, "rxing-rust:x:deformed-v2"), RecoveryStatus::Ambiguous);
    assert_eq!(merged(4, "rxing-rust:x:resampled-v2"), RecoveryStatus::Ambiguous);
}

#[test]
fn no_more_than_ten_candidates_are_reported() {
    let many: Vec<RecoveryCandidate> = (0..12)
        .map(|index| candidate(&format!("payload {index:02}"), 50 + index, 1, "x"))
        .collect();
    let merged = merge_recovery_results_native(vec![report(many, None)]).unwrap();
    assert_eq!(merged.candidates.len(), 10);
    assert_eq!(merged.candidates[0].text, "payload 11");
    assert_eq!(merged.candidates[9].text, "payload 02");
}

#[test]
fn a_search_of_one_frame_ends_once_it_is_confirmed() {
    let wanted = options(|_| {});
    let mut session = RecoverySession::new(1, &wanted).unwrap();
    assert!(!session.record(0, "first", outcome(Vec::new()), &preview(0)));
    for index in 0..6 {
        let found = vec![candidate("a", 100, 1, "x")];
        let stop = session.record(0, "next", outcome(found), &preview(index));
        assert!(!stop, "index={index}");
    }
    // The first read was the second variant, and six more were tried after it.
    let found = vec![candidate("a", 101, 1, "x")];
    assert!(session.record(0, "last", outcome(found), &preview(7)));
    // Balanced searches ask for three reads.
    assert!(session.candidates[0].evidence_count >= 3 && session.valid_reads >= 3);
    assert_eq!(
        session.termination_reason,
        Some(TerminationReason::ConfidenceLimit)
    );
    let result = session.finish(1234);
    assert_eq!(result.status, RecoveryStatus::Decoded);
    assert_eq!(result.termination_reason.as_deref(), Some("confidence_limit"));
    assert_eq!(result.diagnostics.examined_variants, 8);
    assert_eq!(result.diagnostics.valid_reads, 7);
    assert_eq!(result.diagnostics.invalid_reads, 1);
    assert_eq!(result.diagnostics.soft_decode_attempts, 24);
    assert_eq!(result.diagnostics.elapsed_micros, 1234);
    assert_eq!(result.candidates[0].evidence_count, 7);
    // Five reads take the first score up by four points each, and the last adds
    // four more.
    assert_eq!(result.candidates[0].score, 124 * POINT);
    let independent = result.candidates[0]
        .score_components
        .iter()
        .find(|part| part.name == "independentEvidence")
        .unwrap();
    assert_eq!(independent.value, 28 * POINT);
    // The preview is that of the best read.
    assert_eq!(result.best_variant_name.as_deref(), Some("last"));
    assert_eq!(result.best_variant.unwrap().data, vec![7; 4]);
}

#[test]
fn one_of_several_batches_ends_with_its_first_read() {
    let wanted = options(|input| {
        input.batch_index = Some(1);
        input.batch_count = Some(4);
    });
    let mut session = RecoverySession::new(1, &wanted).unwrap();
    assert!(!session.record(0, "empty", outcome(Vec::new()), &preview(0)));
    assert!(session.record(
        0,
        "read",
        outcome(vec![candidate("a", 100, 1, "x")]),
        &preview(1)
    ));
}

#[test]
fn deformed_readings_are_confirmed_by_similar_variants_only() {
    let mut session = RecoverySession::new(1, &options(|_| {})).unwrap();
    assert!(session.wants("s2-contrast"));
    session.record(
        0,
        "s2-otsu",
        outcome(vec![candidate("a", 100, 1, "rxing-rust:s2-otsu:deformed-v3")]),
        &preview(0),
    );
    assert!(!session.wants("s2-contrast"));
    assert!(session.wants("s3-otsu"));
}

#[test]
fn frames_that_share_nothing_contradict_each_other() {
    let status = |first: Vec<&str>, second: Vec<&str>| {
        let mut session = RecoverySession::new(2, &options(|_| {})).unwrap();
        for (frame, payloads) in [first, second].iter().enumerate() {
            let found = payloads
                .iter()
                .enumerate()
                .map(|(index, text)| candidate(text, 200 - 50 * index as i64, 1, "x"))
                .collect();
            session.record(frame, "variant", outcome(found), &preview(0));
        }
        session.finish(0).status
    };
    assert_eq!(status(vec!["a"], vec!["b"]), RecoveryStatus::Ambiguous);
    assert_eq!(status(vec!["a"], vec!["a"]), RecoveryStatus::Decoded);
    assert_eq!(status(vec!["a", "c"], vec!["a", "b"]), RecoveryStatus::Decoded);
    assert_eq!(status(vec!["a"], vec![]), RecoveryStatus::Decoded);
    assert_eq!(status(vec![], vec![]), RecoveryStatus::Unrecoverable);
}

#[test]
fn fused_frames_count_for_each_of_them() {
    let mut session = RecoverySession::new(3, &options(|_| {})).unwrap();
    assert!(session.wants_fusion(5, 10));
    assert!(!session.wants_fusion(10, 10));
    session.record_fused(
        "fusion-mean",
        outcome(vec![candidate("a", 100, 1, "x")]),
        &preview(4),
    );
    assert!(!session.wants_fusion(5, 10));
    session.record_fused(
        "fusion-mean-adaptive",
        outcome(vec![candidate("a", 100, 1, "x")]),
        &preview(5),
    );
    let result = session.finish(0);
    assert_eq!(result.candidates[0].evidence_count, 4);
    assert_eq!(result.candidates[0].score, 116 * POINT);
    assert_eq!(result.best_variant_name.as_deref(), Some("fusion-mean"));
    assert_eq!(result.diagnostics.input_count, 3);
}

#[test]
fn the_time_limit_ends_a_search() {
    let mut session = RecoverySession::new(1, &options(|_| {})).unwrap();
    assert!(!session.check_time(9, 10));
    assert_eq!(session.termination_reason, None);
    assert!(session.check_time(10, 10));
    assert_eq!(
        session.finish(10).termination_reason.as_deref(),
        Some("time_limit")
    );
    assert!(matches!(
        RecoverySession::new(0, &options(|_| {})),
        Err(RecoveryError::NoObservation)
    ));
}

#[test]
fn flat_symbols_are_read_from_their_modules() {
    let stream = codewords(b"flat symbol", 1, "M");
    let matrix = matrix_from_codewords_native(&stream, 1, "M", 5).unwrap();
    let result = decode(vec![grid(1, matrix.clone(), false)], "gray", 1.5, &options(|_| {}));
    assert_eq!((result.valid_reads, result.invalid_reads), (1, 0));
    assert_eq!(result.candidates.len(), 1);
    let found = &result.candidates[0];
    assert_eq!(found.text, "flat symbol");
    assert_eq!(found.payload, b"flat symbol".to_vec());
    assert_eq!((found.version, found.mask), (1, 5));
    assert_eq!(found.ec_level, "M");
    assert_eq!(found.matrix, matrix);
    assert_eq!(found.matrix_kind, "exact");
    assert_eq!(found.source, "rxing-rust:gray:resampled-v1");
    // A hundred for the decoder, one and a half for the variant.
    assert_eq!(found.score, units(101.5));
}

#[test]
fn damaged_symbols_are_read_at_a_cost() {
    let stream = codewords(b"damaged", 1, "H");
    let clean = matrix_from_codewords_native(&stream, 1, "H", 2).unwrap();
    let mut matrix = clean.clone();
    // One codeword wrong, in the lower right corner.
    matrix[20 * 21 + 20] ^= 1;
    let result = decode(vec![grid(1, matrix, false)], "gray", 0.0, &options(|_| {}));
    assert_eq!(result.candidates[0].text, "damaged");
    assert_eq!(result.candidates[0].matrix, clean);
    assert_eq!(result.candidates[0].corrected_symbols, 1);
    assert_eq!(result.candidates[0].score, 99 * POINT);
}

#[test]
fn level_hints_leave_other_levels_out() {
    let stream = codewords(b"hinted", 1, "L");
    let matrix = matrix_from_codewords_native(&stream, 1, "L", 0).unwrap();
    let wanted = options(|input| input.ec_level = Some("H".into()));
    let result = decode(vec![grid(1, matrix, false)], "gray", 0.0, &wanted);
    assert!(result.candidates.is_empty());
    assert_eq!((result.valid_reads, result.invalid_reads), (0, 1));
    let nothing = decode(Vec::new(), "gray", 0.0, &wanted);
    assert_eq!((nothing.valid_reads, nothing.invalid_reads), (0, 0));
    assert_eq!(nothing.attempts, 0);
}

#[test]
fn deformed_symbols_are_read_from_their_segments() {
    let clean = codewords(b"https://example.org/", 2, "L");
    let mut damaged = clean.clone();
    // Padding and error correction are lost, the segment is not.
    for index in [26usize, 29, 31, 33, 36, 38, 40] {
        damaged[index] ^= 0x3c;
    }
    let matrix = matrix_from_codewords_native(&damaged, 2, "L", 4).unwrap();
    let grids = vec![
        grid(2, matrix.clone(), true),
        grid(2, matrix.clone(), true),
        grid(2, matrix, true),
    ];
    let result = decode(grids, "s2-otsu", 3.0, &options(|_| {}));
    assert_eq!(result.candidates.len(), 1);
    let found = &result.candidates[0];
    assert_eq!(found.text, "https://example.org/");
    assert_eq!(found.source, "rxing-rust:s2-otsu:deformed-v2");
    assert_eq!(found.evidence_count, 3);
    assert_eq!(found.corrected_symbols, 7);
    let part = |name: &str| {
        found
            .score_components
            .iter()
            .find(|part| part.name == name)
            .unwrap()
            .value
    };
    assert_eq!(part("imageVariant"), 3 * POINT);
    assert_eq!(part("utf8Evidence"), 4 * POINT);
    assert_eq!(part("formatEvidence"), 0);
    assert_eq!(part("structureEvidence"), 0);
    assert_eq!(part("correctionCost"), -13 * POINT);
    assert_eq!(part("deformationGeometry"), 4 * POINT);
    // Four bits of seven codewords differ, out of 625 modules.
    assert_eq!(
        part("imageAgreement"),
        units(f64::from((625.0f32 - 28.0) / 625.0 * 20.0))
    );
    assert_eq!(found.score, total(&found.score_components));
}

#[test]
fn bytes_that_are_no_text_are_read_with_replacements() {
    let stream = codewords(&[0x41, 0xff, 0x42], 1, "M");
    let matrix = matrix_from_codewords_native(&stream, 1, "M", 1).unwrap();
    let result = decode(vec![grid(1, matrix, false)], "gray", 0.0, &options(|_| {}));
    assert_eq!(result.candidates[0].payload, vec![0x41, 0xff, 0x42]);
    assert_eq!(result.candidates[0].text, "A\u{fffd}B");
}

#[test]
fn readings_of_another_format_are_not_accepted() {
    let reading = |version: usize, level: u16, mask: u16| {
        Some(Reading {
            version,
            level,
            mask,
            payload: vec![7],
        })
    };
    assert_eq!(
        accept_reading(reading(3, 2, 6), 3, EcLevel::H, 6),
        Some(vec![7])
    );
    assert_eq!(accept_reading(reading(4, 2, 6), 3, EcLevel::H, 6), None);
    assert_eq!(accept_reading(reading(3, 1, 6), 3, EcLevel::H, 6), None);
    assert_eq!(accept_reading(reading(3, 2, 5), 3, EcLevel::H, 6), None);
    assert_eq!(accept_reading(None, 3, EcLevel::H, 6), None);
}

#[test]
fn a_drawn_symbol_is_its_own_best_hypothesis() {
    for (level, mask) in [("L", 0u8), ("M", 3), ("Q", 6), ("H", 7)] {
        let stream = codewords(b"x", 7, level);
        let matrix = matrix_from_codewords_native(&stream, 7, level, mask).unwrap();
        let list = rank_hypotheses(&vec![grid(7, matrix, false)], None);
        assert!(list.len() <= 6);
        assert_eq!(list[0].level.name(), level);
        assert_eq!(list[0].mask, mask);
        assert_eq!((list[0].distance, list[0].error), (0, 0));
        assert!(list.iter().skip(1).all(|other| other.distance > 0));
    }
}

#[test]
fn samples_of_other_sizes_are_no_grids() {
    let sample = |width: usize, height: usize, value: u8| SampledGrid {
        width,
        height,
        modules: vec![value; width * height],
    };
    let samples = || {
        vec![
            sample(21, 21, 0),
            sample(22, 22, 0),
            sample(25, 21, 0),
            sample(21, 21, 0),
            sample(25, 25, 1),
            sample(181, 181, 0),
            sample(17, 17, 0),
        ]
    };
    let versions = |grids: Vec<ModuleGrid>| -> Vec<u8> {
        grids.iter().map(|grid| grid.version).collect()
    };
    assert_eq!(
        versions(grids_from_samples(samples(), None, true)),
        vec![1, 2]
    );
    assert_eq!(
        versions(grids_from_samples(samples(), None, false)),
        vec![1, 1, 2]
    );
    assert_eq!(
        versions(grids_from_samples(samples(), Some(2), true)),
        vec![2]
    );
    let grids = grids_from_samples(samples(), None, true);
    assert_eq!(grids[1].modules, vec![1; 625]);
    assert_eq!(grids[1].confidence, vec![FULL_RELIABILITY; 625]);
    assert!(!grids[1].deformed);
}

#[test]
fn deformed_grids_vote_by_their_confidence() {
    let with = |value: u8, confidence: u32| ModuleGrid {
        version: 1,
        modules: vec![value; 441],
        confidence: vec![confidence; 441],
        deformed: true,
    };
    let half = FULL_RELIABILITY / 2;
    let mut grids = vec![with(1, half), with(0, half), with(0, FULL_RELIABILITY)];
    add_vote(&mut grids);
    assert_eq!(grids.len(), 4);
    assert_eq!(grids[3].modules, vec![0; 441]);
    // Three quarters of the weight against one.
    assert_eq!(grids[3].confidence, vec![half; 441]);
    let mut unanimous = vec![with(1, half), with(1, 0), with(1, half)];
    add_vote(&mut unanimous);
    assert_eq!(unanimous[3].modules, vec![1; 441]);
    assert_eq!(unanimous[3].confidence, vec![FULL_RELIABILITY; 441]);
    // Two are not enough, and flat grids have no vote.
    let mut few = vec![with(1, half), with(0, half), grid(1, vec![0; 441], false)];
    add_vote(&mut few);
    assert_eq!(few.len(), 3);
}

#[test]
fn nearby_versions_are_tried_in_turn() {
    assert_eq!(
        versions_to_try(10, None),
        vec![10, 11, 9, 12, 8, 13, 7, 14, 6]
    );
    assert_eq!(versions_to_try(1, None), vec![1, 2, 3, 4, 5]);
    assert_eq!(versions_to_try(40, None), vec![40, 39, 38, 37, 36]);
    assert_eq!(versions_to_try(10, Some(3)), vec![3]);
    assert_eq!(version_detected(0), 1);
    assert_eq!(version_detected(29), 3);
    assert_eq!(version_detected(500), 40);
}

#[test]
fn images_are_sampled_again_where_it_may_help() {
    let found = vec![grid(1, vec![0; 441], false)];
    assert!(needs_resampling(&Vec::new(), 0, "gray"));
    assert!(!needs_resampling(&found, 12, "gray"));
    assert!(needs_resampling(&found, 12, "s2-otsu"));
    assert!(!deformed_search(0, "s2-otsu"));
}

#[test]
fn the_second_detector_looks_where_the_first_found_nothing() {
    assert!(needs_fallback(&Vec::new()));
    assert!(!needs_fallback(&vec![grid(1, vec![0; 441], false)]));
}

#[test]
fn deformed_shapes_are_sampled_in_the_detected_version_only() {
    assert!(needs_deformed_samples(12, "s2-otsu", 3, None));
    assert!(needs_deformed_samples(12, "s2-otsu", 3, Some(3)));
    assert!(!needs_deformed_samples(12, "s2-otsu", 3, Some(4)));
    assert!(!needs_deformed_samples(12, "s2-gray", 3, Some(3)));
    assert!(!needs_deformed_samples(0, "s2-otsu", 3, None));
}

#[test]
fn hints_rank_payloads_and_add_none() {
    let stream = codewords(b"hinted text", 1, "M");
    let matrix = matrix_from_codewords_native(&stream, 1, "M", 6).unwrap();
    let plain = decode(vec![grid(1, matrix.clone(), false)], "gray", 0.0, &options(|_| {}));
    let kept = options(|input| {
        input.payload_prefix = Some("hinted".into());
        input.expected_text = Some("hinted text".into());
    });
    let missed = options(|input| {
        input.payload_prefix = Some("other".into());
        input.payload_regex = Some("^[0-9]+$".into());
    });
    for (wanted, better) in [(kept, true), (missed, false)] {
        let result = decode(vec![grid(1, matrix.clone(), false)], "gray", 0.0, &wanted);
        assert_eq!(result.candidates.len(), 1);
        assert_eq!(result.candidates[0].payload, plain.candidates[0].payload);
        assert_eq!(result.candidates[0].score > plain.candidates[0].score, better);
    }
}

#[test]
fn reported_matrices_show_their_payload() {
    let clean = codewords(b"https://example.org/", 2, "L");
    let mut damaged = clean.clone();
    for index in [27usize, 30, 32] {
        damaged[index] ^= 0x3c;
    }
    let matrix = matrix_from_codewords_native(&damaged, 2, "L", 1).unwrap();
    let grids = vec![grid(2, matrix.clone(), true), grid(2, matrix, true)];
    let read = decode(grids, "gray", 0.0, &options(|_| {}));
    let mut session = RecoverySession::new(1, &options(|_| {})).unwrap();
    session.record(0, "gray", read, &preview(1));
    let first = session.finish(5);
    let both = merge_recovery_results_native(vec![first]).unwrap();
    let found = &both.candidates[0];
    assert_eq!(found.payload, b"https://example.org/".to_vec());
    let again = decode(
        vec![grid(found.version, found.matrix.clone(), false)],
        "gray",
        0.0,
        &options(|_| {}),
    );
    assert_eq!(again.candidates[0].payload, found.payload);
    assert_eq!(again.candidates[0].mask, found.mask);
    assert_eq!(again.candidates[0].ec_level, found.ec_level);
    assert_eq!(again.candidates[0].corrected_symbols, 0);
}

#[test]
fn one_deformed_geometry_is_not_enough() {
    let clean = codewords(b"https://example.org/", 2, "L");
    let mut damaged = clean.clone();
    for index in [27usize, 30, 32] {
        damaged[index] ^= 0x3c;
    }
    let matrix = matrix_from_codewords_native(&damaged, 2, "L", 1).unwrap();
    let once = decode(vec![grid(2, matrix.clone(), true)], "gray", 0.0, &options(|_| {}));
    assert!(once.candidates.is_empty());
    assert_eq!((once.valid_reads, once.invalid_reads), (0, 1));
    let grids = vec![grid(2, matrix.clone(), true), grid(2, matrix, true)];
    let twice = decode(grids, "gray", 0.0, &options(|_| {}));
    assert_eq!(twice.candidates[0].evidence_count, 2);
    assert_eq!(twice.candidates[0].confidence, "high");
    let agreement = twice.candidates[0]
        .score_components
        .iter()
        .find(|part| part.name == "imageAgreement")
        .unwrap()
        .value;
    assert!(agreement >= 16_400_000);
}

#[test]
fn what_needed_flips_starts_less_sure() {
    let stream = codewords(b"flips", 1, "L");
    let mut damaged = stream.clone();
    // Seven codewords correct three of their block; the fourth takes a flip.
    damaged[20] ^= 0x80;
    let flipped = matrix_from_codewords_native(&damaged, 1, "L", 3).unwrap();
    let clean = matrix_from_codewords_native(&stream, 1, "L", 3).unwrap();
    for index in [0usize, 5, 11] {
        damaged[index] ^= 0x5a;
    }
    let matrix = matrix_from_codewords_native(&damaged, 1, "L", 3).unwrap();
    let mut unsure = grid(1, matrix, false);
    for (module, wanted) in clean.iter().enumerate() {
        if flipped[module] != *wanted {
            unsure.confidence[module] = FULL_RELIABILITY / 4;
        }
    }
    let plan = plan_decode(vec![unsure], "gray", 0, &options(|_| {}));
    let found = plan.carry_out("gray", 0, &options(|_| {}), 2000, 12, &Vec::new());
    assert_eq!(found.candidates[0].payload, b"flips".to_vec());
    assert_eq!(found.candidates[0].confidence, "medium");
    let sure = decode(vec![grid(1, clean, false)], "gray", 0.0, &options(|_| {}));
    assert_eq!(sure.candidates[0].confidence, "high");
    // Another read of the payload makes up for it.
    let mut session = RecoverySession::new(1, &options(|_| {})).unwrap();
    session.record(0, "gray", found, &preview(1));
    assert_eq!(session.candidates[0].confidence, "medium");
    session.record(0, "luma-1x-contrast", sure, &preview(2));
    assert_eq!(session.candidates[0].confidence, "high");
}

#[test]
fn merging_a_merged_result_changes_nothing() {
    let first = report(
        vec![candidate("one", 120, 2, "a"), candidate("two", 90, 1, "a")],
        Some("left"),
    );
    let second = report(vec![candidate("two", 95, 3, "b")], Some("right"));
    let once = merge_recovery_results_native(vec![first, second]).unwrap();
    let summary = |result: &RecoveryResult| {
        (
            result.status,
            result
                .candidates
                .iter()
                .map(|found| (found.payload.clone(), found.score, found.evidence_count))
                .collect::<Vec<_>>(),
            result.diagnostics.examined_variants,
            result.diagnostics.elapsed_micros,
            result.best_variant_name.clone(),
        )
    };
    let before = summary(&once);
    assert_eq!(before.1[1].2, 4);
    let again = merge_recovery_results_native(vec![once]).unwrap();
    assert_eq!(summary(&again), before);
}

#[test]
fn scores_are_the_sums_of_their_parts() {
    let stream = codewords(b"SUMS", 2, "Q");
    let mut matrix = matrix_from_codewords_native(&stream, 2, "Q", 3).unwrap();
    // A wrong function module, a wrong format module and a wrong codeword.
    matrix[24] ^= 1;
    matrix[8 * 25 + 1] ^= 1;
    matrix[24 * 25 + 24] ^= 1;
    let result = decode(vec![grid(2, matrix, false)], "gray", 1.7, &options(|_| {}));
    assert_eq!(result.candidates.len(), 1);
    assert_eq!(result.candidates[0].text, "SUMS");
    let functions = function_modules(2, "Q", 3).unwrap();
    let weight = functions.iter().filter(|code| **code != 0).count() as f32;
    let expected = [
        ("correctionCost", -1.0),
        ("decoder", 100.0),
        ("formatEvidence", -1.0),
        ("imageVariant", 1.7),
        ("payloadHints", 0.0),
        ("structureEvidence", -f64::from(2.0 / weight * 20.0)),
    ];
    let found = &result.candidates[0];
    let parts: Vec<(&str, i128)> = found
        .score_components
        .iter()
        .map(|part| (part.name.as_str(), part.value))
        .collect();
    assert_eq!(parts, expected.map(|(name, points)| (name, units(points))).to_vec());
    assert_eq!(found.score, total(&found.score_components));
    let points: f64 = expected.iter().map(|(_, points)| points).sum();
    assert_eq!(found.score, units(points));
}

#[test]
fn evidence_adds_up_in_double_precision() {
    for tenth in 0..100 {
        let points = 100.0 + f64::from(tenth) * 0.1;
        let mut session = RecoverySession::new(3, &options(|_| {})).unwrap();
        let mut expected = points;
        for index in 0..5 {
            let mut found = candidate("a", 0, 1, "x");
            found.score = units(points);
            session.record(0, "next", outcome(vec![found]), &preview(index));
            if index > 0 {
                expected = expected.max(points) + 4.0;
            }
        }
        let mut rival = candidate("b", 0, 1, "x");
        rival.score = units(points + 4.0);
        session.record(0, "rival", outcome(vec![rival]), &preview(9));
        let result = session.finish(0);
        assert_eq!(result.candidates[0].score, units(expected));
        let ahead = expected - (points + 4.0) >= 12.0;
        assert_eq!(result.status == RecoveryStatus::Decoded, ahead, "points={points}");
    }
}

#[test]
fn far_scores_and_much_evidence_are_still_told_apart() {
    let far = |payload: &str, score: i128, evidence: u64| {
        let mut made = candidate(payload, 0, evidence, "x");
        made.score = score;
        made
    };
    let merged = merge_recovery_results_native(vec![
        report(vec![far("a", -SCORE_BOUND, u64::from(u32::MAX))], None),
        report(vec![far("b", SCORE_BOUND, u64::from(u32::MAX))], None),
    ])
    .unwrap();
    assert_eq!(merged.status, RecoveryStatus::Decoded);
    assert_eq!(merged.candidates[0].text, "b");
    let again = merge_recovery_results_native(vec![
        report(vec![candidate("a", 100, 1_000_000_000_000, "x")], None),
        report(vec![candidate("a", 100, 1_000_000_000_000, "x")], None),
    ])
    .unwrap();
    assert_eq!(again.candidates[0].evidence_count, 2_000_000_000_000);
    assert_eq!(again.candidates[0].score, 8_000_000_000_096 * POINT);
}
