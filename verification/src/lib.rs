//! QR Code Model 2 structure, soft-decision decoding and image recovery.
//!
//! Every function here is specified over mathematical models and proved
//! against them. Single- and double-precision numbers are counted in integer
//! units and rounded as IEEE arithmetic rounds them.

pub mod bch;
pub mod bits;
pub mod cache;
pub mod candidates;
pub mod codewords;
pub mod correction;
pub mod count;
pub mod effort;
pub mod error;
pub mod formats;
pub mod function_pattern;
pub mod grid_laws;
pub mod grids;
pub mod image;
pub mod image_laws;
pub mod interleave;
pub mod layout;
pub mod mask;
pub mod merge;
pub mod merge_laws;
pub mod option_laws;
pub mod options;
pub mod order;
pub mod otsu;
pub mod otsu_laws;
pub mod phrases;
pub mod plan;
pub mod plan_laws;
pub mod plan_length;
pub mod preflight;
pub mod preflight_laws;
pub mod reading;
pub mod reading_laws;
pub mod recovery_result;
pub mod reed_solomon_code;
pub mod render;
pub mod render_laws;
pub mod repair;
pub mod result_laws;
pub mod rounding;
pub mod rounding_laws;
pub mod search_laws;
pub mod segment_laws;
pub mod segments;
pub mod session;
pub mod session_laws;
pub mod stream_laws;
pub mod streams;
pub mod symbol_laws;
pub mod symbol_reading_laws;
pub mod text;
pub mod text_laws;
pub mod traversal;

pub use bch::{format_bits_native, version_bits_native};
pub use cache::{render_variant, GaussianInput, RenderCache};
pub use candidates::CorrectedBlock;
pub use codewords::{
    extract_codewords_native, matrix_from_codewords_native, ExtractedCodewords, FULL_RELIABILITY,
};
pub use correction::{correct_block_candidates_native, erasure_plan, ErasureOutcome};
pub use effort::{effort_profile, Channel, Effort, EffortProfile};
pub use error::QrError;
pub use formats::{rank_hypotheses, Hypothesis};
pub use function_pattern::{function_matrix_native, function_modules};
pub use grids::{add_vote, grids_from_samples, ModuleGrid, SampledGrid};
pub use image::{fuse_mean_images, gray_pixels, ImageError, WasmImage};
pub use interleave::{deinterleave_native, interleave_native, Deinterleaved};
pub use layout::{
    alignment_positions_native, block_layout_native, num_raw_data_modules_native,
    symbol_size_native, version_from_size_native, BlockSpec, EcLevel,
};
pub use mask::mask_applies_native;
pub use merge::merge_recovery_results_native;
pub use options::{hint_score, RecoveryError, RecoveryOptions, RecoveryOptionsInput};
pub use plan::{build_variant_plan, select_variant_batch, Recipe, Terminal, VariantSpec};
pub use preflight::{analyze_preflight, preferred_scale_for, prioritize_variant_plan};
pub use reading::{accept_reading, plan_decode, DecodeOutcome, DecodePlan, Reading};
pub use recovery_result::{
    PreviewImage, RecoveryCandidate, RecoveryDiagnostics, RecoveryResult, RecoveryStatus,
    ScoreComponent,
};
pub use render::{fused_variants, FusedVariant, ToneTables};
pub use repair::{repair_data_tail_native, CorrectedStream};
pub use segments::canonicalize_qr_data_tail;
pub use session::{variant_effort, RecoverySession, TerminationReason};
pub use streams::{correct_interleaved_native, erasure_plans, ErasurePlan};
pub use traversal::{data_coordinates, data_coordinates_native};
