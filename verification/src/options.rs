//! What a recovery is asked for, and how a read payload fits it.

use vstd::prelude::*;

use crate::effort::{default_micros, effort_named, effort_profile, Effort};
use crate::layout::{ec_level_named, level_named, valid_version, EcLevel};
use crate::phrases::{begins_with, stands_at};

verus! {

/// Why a recovery was refused.
#[derive(Debug)]
pub enum RecoveryError {
    /// There is no such effort.
    Effort,
    /// The time allowed is not positive and finite.
    MaxSeconds,
    /// There is no such version.
    Version,
    /// There is no such error-correction level.
    EcLevel,
    /// The payload pattern is no regular expression, for the given reason.
    PayloadRegex(String),
    /// There are too few or too many batches.
    BatchCount,
    /// There is no batch of this index.
    BatchIndex,
    /// There is nothing to recover from.
    NoObservation,
    /// There is nothing to merge.
    NoBatchResult,
    /// The results to merge are not about the same inputs.
    InputCounts,
}

/// Why a recovery is refused.
pub ghost enum Refusal {
    Effort,
    MaxSeconds,
    Version,
    EcLevel,
    PayloadRegex(Seq<char>),
    BatchCount,
    BatchIndex,
    NoObservation,
    NoBatchResult,
    InputCounts,
}

impl View for RecoveryError {
    type V = Refusal;

    open spec fn view(&self) -> Refusal {
        match self {
            RecoveryError::Effort => Refusal::Effort,
            RecoveryError::MaxSeconds => Refusal::MaxSeconds,
            RecoveryError::Version => Refusal::Version,
            RecoveryError::EcLevel => Refusal::EcLevel,
            RecoveryError::PayloadRegex(reason) => Refusal::PayloadRegex(reason@),
            RecoveryError::BatchCount => Refusal::BatchCount,
            RecoveryError::BatchIndex => Refusal::BatchIndex,
            RecoveryError::NoObservation => Refusal::NoObservation,
            RecoveryError::NoBatchResult => Refusal::NoBatchResult,
            RecoveryError::InputCounts => Refusal::InputCounts,
        }
    }
}

/// The words in which a refusal is reported.
pub open spec fn refusal_text(refusal: Refusal) -> Seq<char> {
    match refusal {
        Refusal::Effort => "effort must be fast, balanced, or thorough"@,
        Refusal::MaxSeconds => "maxSeconds must be positive and finite"@,
        Refusal::Version => "version must be between 1 and 40"@,
        Refusal::EcLevel => "ecLevel must be L, M, Q, or H"@,
        Refusal::PayloadRegex(reason) => "invalid payloadRegex: "@ + reason,
        Refusal::BatchCount => "batchCount must be between 1 and 8"@,
        Refusal::BatchIndex => "batchIndex must be smaller than batchCount"@,
        Refusal::NoObservation => "at least one observation is required"@,
        Refusal::NoBatchResult => "at least one batch result is required"@,
        Refusal::InputCounts => "batch results must describe the same number of inputs"@,
    }
}

impl RecoveryError {
    /// Reports the refusal in words.
    pub fn message(&self) -> (text: String)
        ensures
            text@ == refusal_text(self@),
    {
        match self {
            RecoveryError::Effort => String::from_str("effort must be fast, balanced, or thorough"),
            RecoveryError::MaxSeconds => String::from_str("maxSeconds must be positive and finite"),
            RecoveryError::Version => String::from_str("version must be between 1 and 40"),
            RecoveryError::EcLevel => String::from_str("ecLevel must be L, M, Q, or H"),
            RecoveryError::PayloadRegex(reason) => String::from_str(
                "invalid payloadRegex: ",
            ).concat(reason.as_str()),
            RecoveryError::BatchCount => String::from_str("batchCount must be between 1 and 8"),
            RecoveryError::BatchIndex => String::from_str(
                "batchIndex must be smaller than batchCount",
            ),
            RecoveryError::NoObservation => String::from_str(
                "at least one observation is required",
            ),
            RecoveryError::NoBatchResult => String::from_str(
                "at least one batch result is required",
            ),
            RecoveryError::InputCounts => String::from_str(
                "batch results must describe the same number of inputs",
            ),
        }
    }
}

/// Why `regex::Regex::new` rejects a pattern, if it does.
pub uninterp spec fn regex_rejection(pattern: Seq<char>) -> Option<Seq<char>>;

/// Whether `regex::Regex::is_match` finds a pattern in a text.
pub uninterp spec fn regex_accepts(pattern: Seq<char>, text: Seq<char>) -> bool;

/// Calls `regex::Regex::new`. Claimed: whether and why a pattern is rejected
/// depends on the pattern alone.
#[verifier::external_body]
fn regex_error(pattern: &str) -> (reason: Option<String>)
    ensures
        match reason {
            Some(text) => regex_rejection(pattern@) == Some(text@),
            None => regex_rejection(pattern@) is None,
        },
{
    match regex::Regex::new(pattern) {
        Ok(_) => None,
        Err(error) => Some(error.to_string()),
    }
}

/// Calls `regex::Regex::is_match`. Claimed: for a pattern that is not rejected,
/// the answer depends on the pattern and the text alone.
#[verifier::external_body]
fn regex_finds(pattern: &str, text: &str) -> (found: Option<bool>)
    ensures
        found is None <==> regex_rejection(pattern@) is Some,
        found matches Some(answer) ==> answer == regex_accepts(pattern@, text@),
{
    match regex::Regex::new(pattern) {
        Ok(regex) => Some(regex.is_match(text)),
        Err(_) => None,
    }
}

/// What a recovery is asked for, before it was looked at.
#[derive(Debug)]
pub struct RecoveryOptionsInput {
    pub effort: String,
    /// The time allowed in microseconds; zero stands for a time that is not
    /// positive and finite.
    pub max_micros: Option<u64>,
    pub version: Option<u8>,
    pub ec_level: Option<String>,
    pub payload_prefix: Option<String>,
    pub payload_regex: Option<String>,
    pub expected_text: Option<String>,
    pub fallback_encoding: Option<String>,
    pub batch_index: Option<usize>,
    pub batch_count: Option<usize>,
}

/// What a recovery is asked for.
#[derive(Debug)]
pub struct RecoveryOptions {
    pub effort: Effort,
    pub max_micros: u64,
    pub version: Option<u8>,
    pub ec_level: Option<EcLevel>,
    pub payload_prefix: Option<String>,
    pub payload_regex: Option<String>,
    pub expected_text: Option<String>,
    pub fallback_encoding: Option<String>,
    pub batch_index: usize,
    pub batch_count: usize,
}

/// How many batches were asked for.
pub open spec fn batches_asked(input: RecoveryOptionsInput) -> usize {
    match input.batch_count {
        Some(count) => count,
        None => 1,
    }
}

/// Which batch was asked for.
pub open spec fn batch_asked(input: RecoveryOptionsInput) -> usize {
    match input.batch_index {
        Some(index) => index,
        None => 0,
    }
}

/// Why a request is refused, if it is. The first fault in the order of these
/// tests is reported.
pub open spec fn options_refusal(input: RecoveryOptionsInput) -> Option<Refusal> {
    if effort_named(input.effort@) is None {
        Some(Refusal::Effort)
    } else if input.max_micros == Some(0u64) {
        Some(Refusal::MaxSeconds)
    } else if input.version is Some && !valid_version(input.version->Some_0 as int) {
        Some(Refusal::Version)
    } else if input.ec_level is Some && level_named(input.ec_level->Some_0@) is None {
        Some(Refusal::EcLevel)
    } else if input.payload_regex is Some && regex_rejection(
        input.payload_regex->Some_0@,
    ) is Some {
        Some(Refusal::PayloadRegex(regex_rejection(input.payload_regex->Some_0@)->Some_0))
    } else if !(1 <= batches_asked(input) <= 8) {
        Some(Refusal::BatchCount)
    } else if batch_asked(input) >= batches_asked(input) {
        Some(Refusal::BatchIndex)
    } else {
        None
    }
}

impl RecoveryOptions {
    /// Looks at a request and refuses it where it makes no sense.
    pub fn compile(input: RecoveryOptionsInput) -> (compiled: Result<
        RecoveryOptions,
        RecoveryError,
    >)
        ensures
            match options_refusal(input) {
                Some(refusal) => compiled is Err && compiled->Err_0@ == refusal,
                None => compiled is Ok && {
                    let options = compiled->Ok_0;
                    let effort = effort_named(input.effort@)->Some_0;
                    &&& options.effort == effort
                    &&& options.max_micros == (match input.max_micros {
                        Some(micros) => micros as int,
                        None => default_micros(effort),
                    })
                    &&& options.version == input.version
                    &&& options.ec_level == (match input.ec_level {
                        Some(text) => level_named(text@),
                        None => None,
                    })
                    &&& options.payload_prefix == input.payload_prefix
                    &&& options.payload_regex == input.payload_regex
                    &&& options.expected_text == input.expected_text
                    &&& options.fallback_encoding == input.fallback_encoding
                    &&& options.batch_index == batch_asked(input)
                    &&& options.batch_count == batches_asked(input)
                },
            },
    {
        let effort: Effort = match Effort::parse(input.effort.as_str()) {
            Some(effort) => effort,
            None => {
                return Err(RecoveryError::Effort);
            },
        };
        let max_micros: u64 = match input.max_micros {
            Some(micros) => micros,
            None => effort_profile(effort).default_micros,
        };
        if max_micros == 0 {
            return Err(RecoveryError::MaxSeconds);
        }
        if let Some(version) = input.version {
            if version < 1 || version > 40 {
                return Err(RecoveryError::Version);
            }
        }
        let ec_level: Option<EcLevel> = match &input.ec_level {
            Some(text) => match ec_level_named(text.as_str()) {
                Ok(level) => Some(level),
                Err(_) => {
                    return Err(RecoveryError::EcLevel);
                },
            },
            None => None,
        };
        if let Some(pattern) = &input.payload_regex {
            if let Some(reason) = regex_error(pattern.as_str()) {
                return Err(RecoveryError::PayloadRegex(reason));
            }
        }
        let batch_count: usize = match input.batch_count {
            Some(count) => count,
            None => 1,
        };
        let batch_index: usize = match input.batch_index {
            Some(index) => index,
            None => 0,
        };
        if batch_count < 1 || batch_count > 8 {
            return Err(RecoveryError::BatchCount);
        }
        if batch_index >= batch_count {
            return Err(RecoveryError::BatchIndex);
        }
        Ok(
            RecoveryOptions {
                effort,
                max_micros,
                version: input.version,
                ec_level,
                payload_prefix: input.payload_prefix,
                payload_regex: input.payload_regex,
                expected_text: input.expected_text,
                fallback_encoding: input.fallback_encoding,
                batch_index,
                batch_count,
            },
        )
    }
}

/// Points for a payload that meets a hint, or misses it; none without a hint.
pub open spec fn hint_points(given: bool, met: bool, reward: int, penalty: int) -> int {
    if !given {
        0
    } else if met {
        reward
    } else {
        -penalty
    }
}

/// How well a payload fits what was asked for, in points.
pub open spec fn payload_points(
    options: RecoveryOptions,
    empty: bool,
    text: Seq<char>,
    version: u8,
    level: EcLevel,
) -> int {
    hint_points(options.version is Some, options.version == Some(version), 3, 6) + hint_points(
        options.ec_level is Some,
        options.ec_level == Some(level),
        3,
        6,
    ) + hint_points(
        options.payload_prefix is Some,
        options.payload_prefix is Some && stands_at(text, options.payload_prefix->Some_0@, 0),
        5,
        5,
    ) + hint_points(
        options.expected_text is Some,
        options.expected_text is Some && text == options.expected_text->Some_0@,
        10,
        8,
    ) + hint_points(
        options.payload_regex is Some,
        options.payload_regex is Some && regex_rejection(options.payload_regex->Some_0@) is None
            && regex_accepts(options.payload_regex->Some_0@, text),
        5,
        5,
    ) + hint_points(empty, false, 0, 20)
}

/// How well a payload fits what was asked for, in points.
pub fn hint_score(
    payload: &Vec<u8>,
    text: &String,
    version: u8,
    level: EcLevel,
    options: &RecoveryOptions,
) -> (points: i64)
    ensures
        points == payload_points(*options, payload@.len() == 0, text@, version, level),
        -100 <= points <= 100,
{
    let version_met: bool = match options.version {
        Some(expected) => expected == version,
        None => false,
    };
    let level_met: bool = match options.ec_level {
        Some(expected) => expected == level,
        None => false,
    };
    let prefix_met: bool = match &options.payload_prefix {
        Some(prefix) => begins_with(text.as_str(), prefix.as_str()),
        None => false,
    };
    let text_met: bool = match &options.expected_text {
        Some(expected) => *text == *expected,
        None => false,
    };
    let pattern_met: bool = match &options.payload_regex {
        Some(pattern) => match regex_finds(pattern.as_str(), text.as_str()) {
            Some(found) => found,
            None => false,
        },
        None => false,
    };
    hint_value(options.version.is_some(), version_met, 3, 6) + hint_value(
        options.ec_level.is_some(),
        level_met,
        3,
        6,
    ) + hint_value(options.payload_prefix.is_some(), prefix_met, 5, 5) + hint_value(
        options.expected_text.is_some(),
        text_met,
        10,
        8,
    ) + hint_value(options.payload_regex.is_some(), pattern_met, 5, 5) + hint_value(
        payload.len() == 0,
        false,
        0,
        20,
    )
}

fn hint_value(given: bool, met: bool, reward: i64, penalty: i64) -> (points: i64)
    requires
        0 <= reward <= 10,
        0 <= penalty <= 20,
    ensures
        points == hint_points(given, met, reward as int, penalty as int),
        -penalty <= points <= reward,
{
    if !given {
        0
    } else if met {
        reward
    } else {
        -penalty
    }
}

} // verus!
