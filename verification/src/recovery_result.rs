//! Candidates, previews, and what they add up to.

use vstd::prelude::*;

use crate::order::{
    byte_string_before, comes_before, copy_bytes, lemma_before_total, lemma_before_transitive,
    same_bytes,
};
use crate::phrases::{comes_before_text, contains_part, has_part, text_before};
use crate::rounding::{
    lemma_divide_each_other, lemma_divides_spacing, lemma_exact, lemma_powers,
    lemma_signed_monotone, lemma_signed_within, lemma_spacing, lemma_spacing_divides, nearest,
    round_signed, rounded, rounded_signed, spacing, two_to, DOUBLE,
};

verus! {

/// One point of a score: two to the 52nd. Scores and their components are
/// double-precision numbers.
pub const POINT: i128 = 4_503_599_627_370_496;

/// So much evidence can be counted for one payload: two to the 53rd, as far as
/// double precision counts.
pub const EVIDENCE_BOUND: u64 = 9_007_199_254_740_992;

/// A component of a score lies within this bound, both ways: two to the 107th,
/// four points for all evidence.
pub const PART_BOUND: i128 = 162259276829213363391578010288128;

/// So many components can be added up: two to the 17th.
pub const PART_LIMIT: usize = 131_072;

/// The score of what was just read lies within this bound, both ways: two to the
/// 124th.
pub const READ_SCORE_BOUND: i128 = 21267647932558653966460912964485513216;

/// Every score lies within this bound, both ways: two to the 125th.
pub const SCORE_BOUND: i128 = 42535295865117307932921825928971026432;

/// The runtime that results are attributed to.
pub const RUNTIME: &'static str = "rust-wasm+photon+rxing+rqrr";

/// A named part of a score.
#[derive(Debug)]
pub struct ScoreComponent {
    pub name: String,
    pub value: i128,
}

/// A payload that was read, and what speaks for it.
#[derive(Debug)]
pub struct RecoveryCandidate {
    pub payload: Vec<u8>,
    pub text: String,
    pub version: u8,
    pub ec_level: String,
    pub mask: u8,
    pub matrix: Vec<u8>,
    pub matrix_kind: String,
    pub corrected_symbols: usize,
    pub score: i128,
    pub score_components: Vec<ScoreComponent>,
    pub confidence: String,
    pub source: String,
    pub evidence_count: u64,
}

/// What was done to recover something.
#[derive(Debug)]
pub struct RecoveryDiagnostics {
    pub examined_variants: u64,
    pub valid_reads: u64,
    pub invalid_reads: u64,
    pub soft_decode_attempts: u64,
    pub elapsed_micros: u64,
    pub input_count: u64,
    pub runtime: String,
}

/// The image that a candidate was read from.
#[derive(Debug)]
pub struct PreviewImage {
    pub width: u32,
    pub height: u32,
    pub data: Vec<u8>,
}

/// How a recovery ended.
#[derive(Clone, Copy, Debug, PartialEq, Eq, Structural)]
pub enum RecoveryStatus {
    Decoded,
    Ambiguous,
    Unrecoverable,
}

/// The outcome of a recovery.
#[derive(Debug)]
pub struct RecoveryResult {
    pub status: RecoveryStatus,
    pub candidates: Vec<RecoveryCandidate>,
    pub diagnostics: RecoveryDiagnostics,
    pub discarded_frames: Vec<String>,
    pub termination_reason: Option<String>,
    pub best_variant: Option<PreviewImage>,
    pub best_variant_name: Option<String>,
}

/// The name of a status.
pub open spec fn status_name(status: RecoveryStatus) -> Seq<char> {
    match status {
        RecoveryStatus::Decoded => "decoded"@,
        RecoveryStatus::Ambiguous => "ambiguous"@,
        RecoveryStatus::Unrecoverable => "unrecoverable"@,
    }
}

impl RecoveryStatus {
    /// The name of the status.
    pub fn name(&self) -> (name: &'static str)
        ensures
            name@ == status_name(*self),
    {
        match self {
            RecoveryStatus::Decoded => "decoded",
            RecoveryStatus::Ambiguous => "ambiguous",
            RecoveryStatus::Unrecoverable => "unrecoverable",
        }
    }
}

/// A named part of a score.
pub ghost struct Component {
    pub name: Seq<char>,
    pub value: int,
}

/// A payload that was read, and what speaks for it.
pub ghost struct Candidate {
    pub payload: Seq<u8>,
    pub text: Seq<char>,
    pub version: u8,
    pub ec_level: Seq<char>,
    pub mask: u8,
    pub matrix: Seq<u8>,
    pub matrix_kind: Seq<char>,
    pub corrected_symbols: int,
    pub score: int,
    pub components: Seq<Component>,
    pub confidence: Seq<char>,
    pub source: Seq<char>,
    pub evidence_count: int,
}

/// The image that a candidate was read from.
pub ghost struct Preview {
    pub width: int,
    pub height: int,
    pub data: Seq<u8>,
}

impl View for ScoreComponent {
    type V = Component;

    open spec fn view(&self) -> Component {
        Component { name: self.name@, value: self.value as int }
    }
}

/// What a list of components holds.
pub open spec fn components(list: Seq<ScoreComponent>) -> Seq<Component> {
    Seq::new(list.len(), |i: int| list[i]@)
}

impl View for RecoveryCandidate {
    type V = Candidate;

    open spec fn view(&self) -> Candidate {
        Candidate {
            payload: self.payload@,
            text: self.text@,
            version: self.version,
            ec_level: self.ec_level@,
            mask: self.mask,
            matrix: self.matrix@,
            matrix_kind: self.matrix_kind@,
            corrected_symbols: self.corrected_symbols as int,
            score: self.score as int,
            components: components(self.score_components@),
            confidence: self.confidence@,
            source: self.source@,
            evidence_count: self.evidence_count as int,
        }
    }
}

/// What a list of candidates holds.
pub open spec fn candidates(list: Seq<RecoveryCandidate>) -> Seq<Candidate> {
    Seq::new(list.len(), |i: int| list[i]@)
}

impl View for PreviewImage {
    type V = Preview;

    open spec fn view(&self) -> Preview {
        Preview { width: self.width as int, height: self.height as int, data: self.data@ }
    }
}

/// What was done to recover something.
pub ghost struct Diagnosis {
    pub examined_variants: int,
    pub valid_reads: int,
    pub invalid_reads: int,
    pub soft_decode_attempts: int,
    pub elapsed_micros: int,
    pub input_count: int,
    pub runtime: Seq<char>,
}

impl View for RecoveryDiagnostics {
    type V = Diagnosis;

    open spec fn view(&self) -> Diagnosis {
        Diagnosis {
            examined_variants: self.examined_variants as int,
            valid_reads: self.valid_reads as int,
            invalid_reads: self.invalid_reads as int,
            soft_decode_attempts: self.soft_decode_attempts as int,
            elapsed_micros: self.elapsed_micros as int,
            input_count: self.input_count as int,
            runtime: self.runtime@,
        }
    }
}

/// The outcome of a recovery.
pub ghost struct Report {
    pub status: RecoveryStatus,
    pub candidates: Seq<Candidate>,
    pub diagnostics: Diagnosis,
    pub discarded_frames: Seq<Seq<char>>,
    pub termination_reason: Option<Seq<char>>,
    pub best_variant: Option<Preview>,
    pub best_variant_name: Option<Seq<char>>,
}

/// What an optional text reads.
pub open spec fn text_of(text: Option<String>) -> Option<Seq<char>> {
    match text {
        Some(text) => Some(text@),
        None => None,
    }
}

/// What a list of texts reads.
pub open spec fn texts(list: Seq<String>) -> Seq<Seq<char>> {
    Seq::new(list.len(), |i: int| list[i]@)
}

impl View for RecoveryResult {
    type V = Report;

    open spec fn view(&self) -> Report {
        Report {
            status: self.status,
            candidates: candidates(self.candidates@),
            diagnostics: self.diagnostics@,
            discarded_frames: texts(self.discarded_frames@),
            termination_reason: text_of(self.termination_reason),
            best_variant: match self.best_variant {
                Some(preview) => Some(preview@),
                None => None,
            },
            best_variant_name: text_of(self.best_variant_name),
        }
    }
}

/// The place of a component among the first `n`, or -1.
pub open spec fn component_place(list: Seq<Component>, name: Seq<char>, n: int) -> int
    decreases n,
{
    if n <= 0 {
        -1
    } else if list[n - 1].name == name {
        n - 1
    } else {
        component_place(list, name, n - 1)
    }
}

/// The value of a component, zero if there is none of that name.
pub open spec fn component_value(list: Seq<Component>, name: Seq<char>) -> int {
    let at = component_place(list, name, list.len() as int);
    if at < 0 {
        0
    } else {
        list[at].value
    }
}

/// Where a new component stands among the first `n`: behind those whose names
/// come before.
pub open spec fn name_place(list: Seq<Component>, name: Seq<char>, n: int) -> int
    decreases n,
{
    if n <= 0 {
        0
    } else if text_before(list[n - 1].name, name) {
        n
    } else {
        name_place(list, name, n - 1)
    }
}

/// The components after one was set: an earlier value of that name is replaced,
/// else the new one goes where its name belongs.
pub open spec fn with_component(list: Seq<Component>, name: Seq<char>, value: int) -> Seq<
    Component,
> {
    let at = component_place(list, name, list.len() as int);
    if at < 0 {
        list.insert(name_place(list, name, list.len() as int), Component { name, value })
    } else {
        list.update(at, Component { name, value })
    }
}

/// The sum of the first `n` components, in double precision.
pub open spec fn component_total(list: Seq<Component>, n: int) -> int
    decreases n,
{
    if n <= 0 {
        0
    } else {
        rounded_signed(component_total(list, n - 1) + list[n - 1].value)
    }
}

/// The score that components add up to.
pub open spec fn total_score(list: Seq<Component>) -> int {
    component_total(list, list.len() as int)
}

/// Components few and small enough to be added up.
pub open spec fn summable(list: Seq<Component>) -> bool {
    &&& list.len() <= PART_LIMIT
    &&& forall|i: int|
        0 <= i < list.len() ==> -PART_BOUND <= (#[trigger] list[i]).value <= PART_BOUND
}

proof fn lemma_part_bound()
    ensures
        two_to(107) == PART_BOUND,
{
    lemma_powers();
}

proof fn lemma_component_total(list: Seq<Component>, n: int)
    requires
        summable(list),
        0 <= n <= list.len(),
    ensures
        -PART_BOUND * n <= component_total(list, n) <= PART_BOUND * n,
    decreases n,
{
    if n > 0 {
        lemma_component_total(list, n - 1);
        lemma_part_bound();
        lemma_exact(n, 107);
        lemma_signed_within(
            component_total(list, n - 1) + list[n - 1].value,
            two_to(107) * n,
        );
    }
}

pub(crate) proof fn lemma_component_place(list: Seq<Component>, name: Seq<char>, n: int)
    requires
        0 <= n <= list.len(),
    ensures
        -1 <= component_place(list, name, n) < n || n == 0,
        component_place(list, name, n) < list.len(),
    decreases n,
{
    if n > 0 {
        lemma_component_place(list, name, n - 1);
    }
}

fn find_component(list: &Vec<ScoreComponent>, name: &String) -> (place: Option<usize>)
    ensures
        match place {
            Some(at) => at == component_place(
                components(list@),
                name@,
                list@.len() as int,
            ) && at < list@.len(),
            None => component_place(components(list@), name@, list@.len() as int) == -1,
        },
{
    let mut n: usize = list.len();
    while n > 0
        invariant
            n <= list@.len(),
            component_place(components(list@), name@, list@.len() as int) == component_place(
                components(list@),
                name@,
                n as int,
            ),
        decreases n,
    {
        if list[n - 1].name == *name {
            return Some(n - 1);
        }
        n -= 1;
    }
    None
}

/// The value of a component, zero if there is none of that name.
pub(crate) fn value_of(list: &Vec<ScoreComponent>, name: &str) -> (value: i128)
    ensures
        value == component_value(components(list@), name@),
{
    let name: String = String::from_str(name);
    match find_component(list, &name) {
        Some(at) => list[at].value,
        None => 0,
    }
}

pub proof fn lemma_name_place(list: Seq<Component>, name: Seq<char>, n: int)
    requires
        0 <= n <= list.len(),
    ensures
        0 <= name_place(list, name, n) <= n,
    decreases n,
{
    if n > 0 {
        lemma_name_place(list, name, n - 1);
    }
}

proof fn lemma_place_found(list: Seq<Component>, name: Seq<char>, n: int, at: int)
    requires
        0 <= at < n <= list.len(),
        list[at].name == name,
    ensures
        0 <= component_place(list, name, n),
    decreases n,
{
    if at < n - 1 {
        lemma_place_found(list, name, n - 1, at);
    }
}

/// A component that is set can be set again at its place.
pub proof fn lemma_with_component(list: Seq<Component>, name: Seq<char>, value: int, other: int)
    ensures
        with_component(with_component(list, name, value), name, other).len() == with_component(
            list,
            name,
            value,
        ).len(),
        with_component(list, name, value).len() == with_component(list, name, other).len(),
        list.len() <= with_component(list, name, value).len() <= list.len() + 1,
        forall|i: int|
            0 <= i < with_component(list, name, value).len() ==> (#[trigger] with_component(
                list,
                name,
                value,
            )[i]).value == value || list.contains(with_component(list, name, value)[i]),
{
    let next = with_component(list, name, value);
    let n = list.len() as int;
    lemma_component_place(list, name, n);
    lemma_name_place(list, name, n);
    let at = component_place(list, name, n);
    if at < 0 {
        let place = name_place(list, name, n);
        assert(next[place].name == name);
        lemma_place_found(next, name, n + 1, place);
        lemma_component_place(next, name, n + 1);
        assert forall|i: int| 0 <= i < next.len() implies (#[trigger] next[i]).value == value
            || list.contains(next[i]) by {
            if i < place {
                assert(next[i] == list[i]);
            } else if i > place {
                assert(next[i] == list[i - 1]);
            }
        }
    } else {
        lemma_component_kept(list, next, name, at, n);
        assert forall|i: int| 0 <= i < next.len() implies (#[trigger] next[i]).value == value
            || list.contains(next[i]) by {
            if i != at {
                assert(next[i] == list[i]);
            }
        }
    }
}

/// Setting a component keeps components within their bounds if it lies within
/// them and there is room.
pub proof fn lemma_set_summable(list: Seq<Component>, name: Seq<char>, value: int)
    requires
        summable(list),
        -PART_BOUND <= value <= PART_BOUND,
        with_component(list, name, value).len() <= PART_LIMIT,
    ensures
        summable(with_component(list, name, value)),
{
    let next = with_component(list, name, value);
    lemma_with_component(list, name, value, 0);
    assert forall|i: int| 0 <= i < next.len() implies -PART_BOUND <= (#[trigger] next[i]).value
        <= PART_BOUND by {
        if next[i].value != value {
            let k = list.index_of(next[i]);
            assert(list[k] == next[i]);
        }
    }
}

/// Components that can be added up give a score within bounds.
pub proof fn lemma_total_bounded(list: Seq<Component>)
    requires
        summable(list),
    ensures
        -READ_SCORE_BOUND <= total_score(list) <= READ_SCORE_BOUND,
{
    lemma_component_total(list, list.len() as int);
}

/// So does a component of theirs.
pub proof fn lemma_value_bounded(list: Seq<Component>, name: Seq<char>)
    requires
        summable(list),
    ensures
        -PART_BOUND <= component_value(list, name) <= PART_BOUND,
{
    lemma_component_place(list, name, list.len() as int);
}

pub(crate) proof fn lemma_component_kept(
    list: Seq<Component>,
    next: Seq<Component>,
    name: Seq<char>,
    at: int,
    n: int,
)
    requires
        0 <= at < n <= list.len(),
        at == component_place(list, name, n),
        next.len() == list.len(),
        next[at].name == name,
        forall|i: int| 0 <= i < n && i != at ==> next[i] == list[i],
    ensures
        component_place(next, name, n) == at,
    decreases n,
{
    if n - 1 > at {
        lemma_component_kept(list, next, name, at, n - 1);
    }
}

/// Where a new component belongs.
fn find_place(list: &Vec<ScoreComponent>, name: &String) -> (place: usize)
    ensures
        place == name_place(components(list@), name@, list@.len() as int),
        place <= list@.len(),
{
    let mut n: usize = list.len();
    while n > 0
        invariant
            n <= list@.len(),
            name_place(components(list@), name@, list@.len() as int) == name_place(
                components(list@),
                name@,
                n as int,
            ),
        decreases n,
    {
        if comes_before_text(&list[n - 1].name, name) {
            return n;
        }
        n -= 1;
    }
    0
}

/// Sets a component.
pub(crate) fn set_component(list: &mut Vec<ScoreComponent>, name: &str, value: i128)
    ensures
        components(final(list)@) == with_component(
            components(old(list)@),
            name@,
            value as int,
        ),
{
    let name: String = String::from_str(name);
    let ghost before = components(list@);
    match find_component(list, &name) {
        Some(at) => {
            list.set(at, ScoreComponent { name, value });
        },
        None => {
            let at: usize = find_place(list, &name);
            list.insert(at, ScoreComponent { name, value });
        },
    }
    assert(components(list@) =~= with_component(before, name@, value as int));
}

/// Adds up the components.
pub(crate) fn sum_components(list: &Vec<ScoreComponent>) -> (total: i128)
    requires
        summable(components(list@)),
    ensures
        total == total_score(components(list@)),
{
    let mut total: i128 = 0;
    let mut n: usize = 0;
    while n < list.len()
        invariant
            summable(components(list@)),
            n <= list@.len(),
            total == component_total(components(list@), n as int),
        decreases list@.len() - n,
    {
        proof {
            lemma_component_total(components(list@), n as int);
            assert(components(list@)[n as int].value == list@[n as int].value);
        }
        total = round_signed(total + list[n].value);
        n += 1;
    }
    total
}

/// The bound of scores needs no rounding.
pub proof fn lemma_score_bound()
    ensures
        rounded(SCORE_BOUND as int, DOUBLE as int) == SCORE_BOUND,
{
    lemma_powers();
    lemma_exact(1, 125);
}

/// Four points more keep a score within its bound.
pub proof fn lemma_score_grows(score: int)
    requires
        -SCORE_BOUND <= score <= SCORE_BOUND,
    ensures
        -SCORE_BOUND <= rounded_signed(score + 4 * POINT) <= SCORE_BOUND,
{
    let d = DOUBLE as int;
    let top = SCORE_BOUND + 4 * POINT;
    lemma_score_bound();
    lemma_signed_monotone(score + 4 * POINT, top);
    lemma_signed_monotone(-SCORE_BOUND as int, score + 4 * POINT);
    lemma_powers();
    let step = two_to(73);
    lemma_spacing(top, d);
    lemma_spacing_divides(top, d, 73);
    lemma_divides_spacing(top, d, 72);
    lemma_divide_each_other(spacing(top, d), step);
    assert(1 * step == step);
    assert(top / step == 4503599627370496 && top % step == 4 * POINT);
    assert(nearest(top, 1, step) == SCORE_BOUND);
}

/// The place of a payload among the first `n` candidates, or -1.
pub open spec fn candidate_place(list: Seq<Candidate>, payload: Seq<u8>, n: int) -> int
    decreases n,
{
    if n <= 0 {
        -1
    } else if list[n - 1].payload == payload {
        n - 1
    } else {
        candidate_place(list, payload, n - 1)
    }
}

/// Finds the candidate with the given payload.
pub(crate) fn find_candidate(list: &Vec<RecoveryCandidate>, payload: &Vec<u8>) -> (place: Option<
    usize,
>)
    ensures
        match place {
            Some(at) => at == candidate_place(
                candidates(list@),
                payload@,
                list@.len() as int,
            ) && at < list@.len(),
            None => candidate_place(candidates(list@), payload@, list@.len() as int) == -1,
        },
{
    let mut n: usize = list.len();
    while n > 0
        invariant
            n <= list@.len(),
            candidate_place(candidates(list@), payload@, list@.len() as int) == candidate_place(
                candidates(list@),
                payload@,
                n as int,
            ),
        decreases n,
    {
        if same_bytes(list[n - 1].payload.as_slice(), payload.as_slice()) {
            return Some(n - 1);
        }
        n -= 1;
    }
    None
}

/// Whether a candidate was read from a deformed symbol.
pub open spec fn is_deformed(candidate: Candidate) -> bool {
    contains_part(candidate.source, ":deformed-v"@)
}

pub(crate) fn deformed(candidate: &RecoveryCandidate) -> (result: bool)
    ensures
        result == is_deformed(candidate@),
{
    has_part(candidate.source.as_str(), ":deformed-v")
}

/// The confidence in a payload that another observation agrees on.
pub open spec fn agreed(confidence: Seq<char>) -> Seq<char> {
    if confidence == "medium"@ {
        "high"@
    } else {
        confidence
    }
}

pub(crate) fn agree(confidence: &mut String)
    ensures
        final(confidence)@ == agreed(old(confidence)@),
{
    if *confidence == String::from_str("medium") {
        *confidence = String::from_str("high");
    }
}

/// The higher score leads; equal scores are led by the payload that comes first
/// in a dictionary.
pub open spec fn leads(a: Candidate, b: Candidate) -> bool {
    a.score > b.score || (a.score == b.score && comes_before(a.payload, b.payload))
}

/// `candidate` put into a list in front of everything it leads.
pub open spec fn with_led(list: Seq<Candidate>, candidate: Candidate) -> Seq<Candidate>
    decreases list.len(),
{
    if list.len() == 0 || !leads(candidate, list.last()) {
        list.push(candidate)
    } else {
        with_led(list.drop_last(), candidate).push(list.last())
    }
}

/// The first `n` candidates in the order of their scores.
pub open spec fn ordered(list: Seq<Candidate>, n: int) -> Seq<Candidate>
    decreases n,
{
    if n <= 0 {
        Seq::empty()
    } else {
        with_led(ordered(list, n - 1), list[n - 1])
    }
}

proof fn lemma_with_led_at(list: Seq<Candidate>, candidate: Candidate, at: int)
    requires
        0 <= at <= list.len(),
        at == 0 || !leads(candidate, list[at - 1]),
        forall|i: int| at <= i < list.len() ==> leads(candidate, #[trigger] list[i]),
    ensures
        with_led(list, candidate) == list.insert(at, candidate),
    decreases list.len(),
{
    if at == list.len() {
        assert(list.insert(at, candidate) =~= list.push(candidate));
    } else {
        assert(list.last() == list[list.len() - 1]);
        lemma_with_led_at(list.drop_last(), candidate, at);
        assert(list.insert(at, candidate) =~= list.drop_last().insert(at, candidate).push(
            list.last(),
        ));
    }
}

/// Where a candidate goes in an ordered list.
spec fn led_place(list: Seq<Candidate>, candidate: Candidate) -> int
    decreases list.len(),
{
    if list.len() == 0 || !leads(candidate, list.last()) {
        list.len() as int
    } else {
        led_place(list.drop_last(), candidate)
    }
}

proof fn lemma_led_place(list: Seq<Candidate>, candidate: Candidate)
    ensures
        0 <= led_place(list, candidate) <= list.len(),
        led_place(list, candidate) == 0 || !leads(
            candidate,
            list[led_place(list, candidate) - 1],
        ),
        forall|i: int|
            led_place(list, candidate) <= i < list.len() ==> leads(candidate, #[trigger] list[i]),
    decreases list.len(),
{
    if list.len() > 0 && leads(candidate, list.last()) {
        let rest = list.drop_last();
        lemma_led_place(rest, candidate);
        assert forall|i: int| led_place(list, candidate) <= i < list.len() implies leads(
            candidate,
            #[trigger] list[i],
        ) by {
            if i < rest.len() {
                assert(rest[i] == list[i]);
            }
        }
    }
}

proof fn lemma_leads(a: Candidate, b: Candidate, c: Candidate)
    ensures
        !(leads(a, b) && leads(b, a)),
        leads(a, b) && leads(b, c) ==> leads(a, c),
        leads(a, b) || leads(b, a) || (a.score == b.score && a.payload == b.payload),
{
    lemma_before_total(a.payload, b.payload, 0);
    if comes_before(a.payload, b.payload) && comes_before(b.payload, c.payload) {
        lemma_before_transitive(a.payload, b.payload, c.payload, 0);
    }
}

/// Whether no candidate of a list is led by a later one.
pub open spec fn is_ordered(list: Seq<Candidate>) -> bool {
    forall|i: int, j: int|
        0 <= i < j < list.len() ==> !leads(#[trigger] list[j], #[trigger] list[i])
}

proof fn lemma_with_led_ordered(list: Seq<Candidate>, candidate: Candidate)
    requires
        is_ordered(list),
    ensures
        is_ordered(with_led(list, candidate)),
        with_led(list, candidate).len() == list.len() + 1,
        forall|i: int|
            0 <= i < with_led(list, candidate).len() ==> #[trigger] with_led(list, candidate)[i]
                == candidate || list.contains(with_led(list, candidate)[i]),
{
    let at = led_place(list, candidate);
    lemma_led_place(list, candidate);
    lemma_with_led_at(list, candidate, at);
    let next = list.insert(at, candidate);
    assert forall|i: int| 0 <= i < next.len() implies #[trigger] next[i] == candidate
        || list.contains(next[i]) by {
        if i < at {
            assert(list.contains(list[i]));
        } else if i > at {
            assert(list.contains(list[i - 1]));
        }
    }
    assert forall|i: int, j: int| 0 <= i < j < next.len() implies !leads(
        #[trigger] next[j],
        #[trigger] next[i],
    ) by {
        if j == at {
            assert(next[i] == list[i]);
            if leads(candidate, list[i]) && i < at - 1 {
                assert(!leads(list[at - 1], list[i]));
                lemma_leads(list[i], list[at - 1], candidate);
                lemma_leads(candidate, list[i], list[at - 1]);
                lemma_leads(list[at - 1], list[i], candidate);
            }
        } else if i == at {
            assert(next[j] == list[j - 1]);
            lemma_leads(candidate, list[j - 1], candidate);
        } else {
            let oi = if i < at {
                i
            } else {
                i - 1
            };
            let oj = if j < at {
                j
            } else {
                j - 1
            };
            assert(next[i] == list[oi] && next[j] == list[oj]);
        }
    }
}

/// Ordering a list keeps its candidates and puts higher scores first.
pub proof fn ordering_is_sorted(list: Seq<Candidate>, n: int)
    requires
        0 <= n <= list.len(),
    ensures
        is_ordered(ordered(list, n)),
        ordered(list, n).len() == n,
        forall|i: int|
            0 <= i < n ==> list.contains(#[trigger] ordered(list, n)[i]),
    decreases n,
{
    if n > 0 {
        ordering_is_sorted(list, n - 1);
        let before = ordered(list, n - 1);
        lemma_with_led_ordered(before, list[n - 1]);
        assert forall|i: int| 0 <= i < n implies list.contains(#[trigger] ordered(list, n)[i]) by {
            let item = ordered(list, n)[i];
            if item == list[n - 1] {
                assert(list.contains(list[n - 1]));
            } else {
                let k = before.index_of(item);
                assert(before[k] == item);
            }
        }
    }
}

fn leads_of(a: &RecoveryCandidate, b: &RecoveryCandidate) -> (result: bool)
    ensures
        result == leads(a@, b@),
{
    a.score > b.score || (a.score == b.score && byte_string_before(&a.payload, &b.payload))
}

/// Orders candidates by their scores.
pub(crate) fn order_candidates(list: Vec<RecoveryCandidate>) -> (sorted: Vec<RecoveryCandidate>)
    ensures
        candidates(sorted@) == ordered(candidates(list@), list@.len() as int),
{
    let ghost all = candidates(list@);
    let mut rest: Vec<RecoveryCandidate> = list;
    let mut sorted: Vec<RecoveryCandidate> = Vec::new();
    assert(candidates(sorted@) =~= Seq::<Candidate>::empty());
    assert(candidates(rest@) =~= all.subrange(0, all.len() as int));
    while rest.len() > 0
        invariant
            rest@.len() <= all.len(),
            candidates(rest@) == all.subrange(all.len() - rest@.len(), all.len() as int),
            candidates(sorted@) == ordered(all, all.len() - rest@.len()),
        decreases rest@.len(),
    {
        let ghost before = rest@;
        let candidate: RecoveryCandidate = rest.remove(0);
        proof {
            assert(candidate@ == candidates(before)[0]);
            assert(candidates(rest@) =~= candidates(before).subrange(1, before.len() as int));
            assert(candidates(rest@) =~= all.subrange(
                all.len() - rest@.len(),
                all.len() as int,
            ));
        }
        let mut at: usize = sorted.len();
        while at > 0 && leads_of(&candidate, &sorted[at - 1])
            invariant
                at <= sorted@.len(),
                forall|i: int|
                    at <= i < sorted@.len() ==> leads(
                        candidate@,
                        #[trigger] candidates(sorted@)[i],
                    ),
            decreases at,
        {
            at -= 1;
        }
        proof {
            lemma_with_led_at(candidates(sorted@), candidate@, at as int);
            assert(candidates(sorted@.insert(at as int, candidate)) =~= candidates(sorted@).insert(
                at as int,
                candidate@,
            ));
        }
        sorted.insert(at, candidate);
    }
    sorted
}

/// The best preview of a payload so far.
#[derive(Debug)]
pub struct PreviewEntry {
    pub payload: Vec<u8>,
    pub score: i128,
    pub preview: PreviewImage,
    pub name: String,
}

/// The best preview of a payload so far.
pub ghost struct PreviewNote {
    pub payload: Seq<u8>,
    pub score: int,
    pub preview: Preview,
    pub name: Seq<char>,
}

impl View for PreviewEntry {
    type V = PreviewNote;

    open spec fn view(&self) -> PreviewNote {
        PreviewNote {
            payload: self.payload@,
            score: self.score as int,
            preview: self.preview@,
            name: self.name@,
        }
    }
}

/// What a list of previews holds.
pub open spec fn preview_notes(list: Seq<PreviewEntry>) -> Seq<PreviewNote> {
    Seq::new(list.len(), |i: int| list[i]@)
}

/// The place of a payload among the first `n` previews, or -1.
pub open spec fn preview_place(list: Seq<PreviewNote>, payload: Seq<u8>, n: int) -> int
    decreases n,
{
    if n <= 0 {
        -1
    } else if list[n - 1].payload == payload {
        n - 1
    } else {
        preview_place(list, payload, n - 1)
    }
}

/// The previews after another one was offered: of two for one payload, the one
/// with the higher score is kept, and of equals the first.
pub open spec fn with_preview(list: Seq<PreviewNote>, note: PreviewNote) -> Seq<PreviewNote> {
    let at = preview_place(list, note.payload, list.len() as int);
    if at < 0 {
        list.push(note)
    } else if note.score > list[at].score {
        list.update(at, note)
    } else {
        list
    }
}

fn find_preview(list: &Vec<PreviewEntry>, payload: &Vec<u8>) -> (place: Option<usize>)
    ensures
        match place {
            Some(at) => at == preview_place(
                preview_notes(list@),
                payload@,
                list@.len() as int,
            ) && at < list@.len(),
            None => preview_place(preview_notes(list@), payload@, list@.len() as int) == -1,
        },
{
    let mut n: usize = list.len();
    while n > 0
        invariant
            n <= list@.len(),
            preview_place(preview_notes(list@), payload@, list@.len() as int) == preview_place(
                preview_notes(list@),
                payload@,
                n as int,
            ),
        decreases n,
    {
        if same_bytes(list[n - 1].payload.as_slice(), payload.as_slice()) {
            return Some(n - 1);
        }
        n -= 1;
    }
    None
}

/// Offers a preview.
pub(crate) fn offer_preview(list: &mut Vec<PreviewEntry>, entry: PreviewEntry)
    ensures
        preview_notes(final(list)@) == with_preview(preview_notes(old(list)@), entry@),
{
    let ghost before = preview_notes(list@);
    match find_preview(list, &entry.payload) {
        Some(at) => {
            if entry.score > list[at].score {
                list.set(at, entry);
            }
        },
        None => {
            list.push(entry);
        },
    }
    assert(preview_notes(list@) =~= with_preview(before, entry@));
}

/// A copy of a preview.
pub(crate) fn copy_preview(preview: &PreviewImage) -> (copied: PreviewImage)
    ensures
        copied@ == preview@,
{
    PreviewImage {
        width: preview.width,
        height: preview.height,
        data: copy_bytes(preview.data.as_slice()),
    }
}

/// The lead of the first candidate over the second, in double precision.
pub open spec fn lead(list: Seq<Candidate>) -> int {
    rounded_signed(list[0].score - list[1].score)
}

/// Whether a deformed reading stands out: at least four variants speak for it,
/// two more than for the runner-up, and it leads by ten points.
pub open spec fn stands_out(list: Seq<Candidate>) -> bool {
    &&& list.len() > 1
    &&& is_deformed(list[0])
    &&& list[0].evidence_count >= 4
    &&& list[0].evidence_count >= list[1].evidence_count + 2
    &&& lead(list) >= 10 * POINT
}

/// How candidates in the order of their scores are settled: decoded if there is
/// one candidate only, or the first leads by twelve points or stands out, and
/// the frames do not contradict each other.
pub open spec fn settled_status(list: Seq<Candidate>, conflicting: bool) -> RecoveryStatus {
    if list.len() == 0 {
        RecoveryStatus::Unrecoverable
    } else if conflicting {
        RecoveryStatus::Ambiguous
    } else if list.len() == 1 || lead(list) >= 12 * POINT || stands_out(list) {
        RecoveryStatus::Decoded
    } else {
        RecoveryStatus::Ambiguous
    }
}

/// A candidate as it is reported: in an ambiguous case none has high confidence.
pub open spec fn judged(candidate: Candidate, status: RecoveryStatus) -> Candidate {
    if status == RecoveryStatus::Ambiguous {
        Candidate { confidence: "low"@, ..candidate }
    } else {
        candidate
    }
}

/// What is reported of the candidates.
pub ghost struct Conclusion {
    pub status: RecoveryStatus,
    pub candidates: Seq<Candidate>,
    pub best: Option<(Preview, Seq<char>)>,
}

/// The ten best candidates, how they are settled, and the preview of the first.
pub open spec fn concluded(
    list: Seq<Candidate>,
    previews: Seq<PreviewNote>,
    conflicting: bool,
) -> Conclusion {
    let sorted = ordered(list, list.len() as int);
    let status = settled_status(sorted, conflicting);
    let shown = if sorted.len() > 10 {
        10
    } else {
        sorted.len()
    };
    Conclusion {
        status,
        candidates: Seq::new(shown, |i: int| judged(sorted[i], status)),
        best: if sorted.len() == 0 {
            None
        } else {
            let at = preview_place(previews, sorted[0].payload, previews.len() as int);
            if at < 0 {
                None
            } else {
                Some((previews[at].preview, previews[at].name))
            }
        },
    }
}

/// What is reported of the candidates.
pub(crate) struct Settlement {
    pub status: RecoveryStatus,
    pub candidates: Vec<RecoveryCandidate>,
    pub best: Option<(PreviewImage, String)>,
}

/// What a settlement reports.
pub(crate) open spec fn reported(settled: Settlement) -> Conclusion {
    Conclusion {
        status: settled.status,
        candidates: candidates(settled.candidates@),
        best: match settled.best {
            Some((preview, name)) => Some((preview@, name@)),
            None => None,
        },
    }
}

/// Which leads are rounded to ten and to twelve points or more.
pub(crate) proof fn lemma_rounded_lead(lead: int)
    ensures
        (rounded_signed(lead) >= 10 * POINT) == (lead >= 10 * POINT - 4),
        (rounded_signed(lead) >= 12 * POINT) == (lead >= 12 * POINT - 4),
{
    let d = DOUBLE as int;
    let (ten, twelve) = (10 * POINT, 12 * POINT);
    reveal_with_fuel(spacing, 5);
    assert(spacing(ten - 4, d) == 8 && spacing(ten - 5, d) == 8);
    assert(spacing(twelve - 4, d) == 8 && spacing(twelve - 5, d) == 8);
    assert(1 * 8 == 8int);
    assert(nearest(ten - 4, 1, 8) == ten && nearest(ten - 5, 1, 8) == ten - 8);
    assert(nearest(twelve - 4, 1, 8) == twelve && nearest(twelve - 5, 1, 8) == twelve - 8);
    if lead >= ten - 4 {
        lemma_signed_monotone(ten - 4, lead);
    } else {
        lemma_signed_monotone(lead, ten - 5);
    }
    if lead >= twelve - 4 {
        lemma_signed_monotone(twelve - 4, lead);
    } else {
        lemma_signed_monotone(lead, twelve - 5);
    }
}

/// Whether one score is `points` above another at least.
fn is_ahead(score: i128, other: i128, points: i128) -> (ahead: bool)
    requires
        points == 10 * POINT || points == 12 * POINT,
    ensures
        ahead == (rounded_signed(score - other) >= points),
{
    proof {
        lemma_rounded_lead(score - other);
    }
    let least: i128 = points - 4;
    other <= i128::MAX - least && score >= other + least
}

fn settle_status(list: &Vec<RecoveryCandidate>, conflicting: bool) -> (status: RecoveryStatus)
    ensures
        status == settled_status(candidates(list@), conflicting),
{
    if list.len() == 0 {
        return RecoveryStatus::Unrecoverable;
    }
    if conflicting {
        return RecoveryStatus::Ambiguous;
    }
    if list.len() == 1 {
        return RecoveryStatus::Decoded;
    }
    let (first, second): (&RecoveryCandidate, &RecoveryCandidate) = (&list[0], &list[1]);
    assert(first@ == candidates(list@)[0] && second@ == candidates(list@)[1]);
    if is_ahead(first.score, second.score, 12 * POINT) {
        return RecoveryStatus::Decoded;
    }
    let out: bool = deformed(first) && first.evidence_count >= 4 && first.evidence_count - 2
        >= second.evidence_count && is_ahead(first.score, second.score, 10 * POINT);
    if out {
        RecoveryStatus::Decoded
    } else {
        RecoveryStatus::Ambiguous
    }
}

/// Judges candidates and picks what is reported.
pub(crate) fn conclude(
    list: Vec<RecoveryCandidate>,
    previews: Vec<PreviewEntry>,
    conflicting: bool,
) -> (settled: Settlement)
    ensures
        reported(settled) == concluded(candidates(list@), preview_notes(previews@), conflicting),
{
    let ghost all = candidates(list@);
    let ghost notes = preview_notes(previews@);
    let mut sorted: Vec<RecoveryCandidate> = order_candidates(list);
    let ghost whole = candidates(sorted@);
    let status: RecoveryStatus = settle_status(&sorted, conflicting);
    let mut previews: Vec<PreviewEntry> = previews;
    let best: Option<(PreviewImage, String)> = if sorted.len() == 0 {
        None
    } else {
        assert(whole[0].payload == sorted@[0].payload@);
        match find_preview(&previews, &sorted[0].payload) {
            Some(at) => {
                let entry: PreviewEntry = previews.remove(at);
                assert(entry@ == notes[at as int]);
                Some((entry.preview, entry.name))
            },
            None => None,
        }
    };
    if sorted.len() > 10 {
        sorted.truncate(10);
        assert(candidates(sorted@) =~= whole.take(10));
    }
    let shown: usize = sorted.len();
    assert(candidates(sorted@) =~= whole.take(shown as int));
    let mut done: Vec<RecoveryCandidate> = Vec::new();
    let ghost target = Seq::new(shown as nat, |i: int| judged(whole[i], status));
    while sorted.len() > 0
        invariant
            sorted@.len() + done@.len() == shown <= whole.len(),
            target == Seq::new(shown as nat, |i: int| judged(whole[i], status)),
            candidates(sorted@) == whole.subrange(done@.len() as int, shown as int),
            candidates(done@) == target.take(done@.len() as int),
        decreases sorted@.len(),
    {
        let ghost before = sorted@;
        let mut candidate: RecoveryCandidate = sorted.remove(0);
        proof {
            assert(candidate@ == candidates(before)[0]);
            assert(candidates(before)[0] == whole[done@.len() as int]);
            assert(candidates(sorted@) =~= candidates(before).subrange(1, before.len() as int));
        }
        if status == RecoveryStatus::Ambiguous {
            candidate.confidence = String::from_str("low");
        }
        let ghost earlier = done@;
        done.push(candidate);
        proof {
            assert(candidate@ == judged(whole[earlier.len() as int], status));
            assert(candidates(done@) =~= candidates(earlier).push(candidate@));
            assert(candidates(done@) =~= target.take(done@.len() as int));
            assert(candidates(sorted@) =~= whole.subrange(done@.len() as int, shown as int));
        }
    }
    assert(candidates(done@) =~= target);
    Settlement { status, candidates: done, best }
}

/// Several candidates are never settled as decoded unless the first leads by
/// ten points at least.
pub proof fn decoded_needs_a_lead(list: Seq<Candidate>, conflicting: bool)
    requires
        settled_status(list, conflicting) == RecoveryStatus::Decoded,
    ensures
        list.len() >= 1,
        !conflicting,
        list.len() >= 2 ==> lead(list) >= 10 * POINT,
{
}

/// Nothing ambiguous is reported with high confidence.
pub proof fn ambiguity_lowers_confidence(
    list: Seq<Candidate>,
    previews: Seq<PreviewNote>,
    conflicting: bool,
    i: int,
)
    requires
        concluded(list, previews, conflicting).status == RecoveryStatus::Ambiguous,
        0 <= i < concluded(list, previews, conflicting).candidates.len(),
    ensures
        concluded(list, previews, conflicting).candidates[i].confidence == "low"@,
{
}

/// Whether two candidates differ in nothing but their confidence.
pub open spec fn same_but_confidence(a: Candidate, b: Candidate) -> bool {
    Candidate { confidence: b.confidence, ..a } == b
}

/// Whether a candidate is one of a list, but for its confidence.
pub open spec fn is_one_of(candidate: Candidate, list: Seq<Candidate>) -> bool {
    exists|k: int| 0 <= k < list.len() && same_but_confidence(candidate, #[trigger] list[k])
}

/// A conclusion names ten candidates at most, the better ones first, and each of
/// them is one of those it was drawn from, but for its confidence.
pub proof fn conclusions_are_ordered(
    list: Seq<Candidate>,
    previews: Seq<PreviewNote>,
    conflicting: bool,
)
    ensures
        concluded(list, previews, conflicting).candidates.len() <= 10,
        concluded(list, previews, conflicting).candidates.len() <= list.len(),
        list.len() > 0 ==> concluded(list, previews, conflicting).candidates.len() > 0,
        is_ordered(concluded(list, previews, conflicting).candidates),
        forall|i: int|
            0 <= i < concluded(list, previews, conflicting).candidates.len() ==> is_one_of(
                #[trigger] concluded(list, previews, conflicting).candidates[i],
                list,
            ),
{
    let n = list.len() as int;
    ordering_is_sorted(list, n);
    let sorted = ordered(list, n);
    let shown = concluded(list, previews, conflicting).candidates;
    assert forall|i: int, j: int| 0 <= i < j < shown.len() implies !leads(
        #[trigger] shown[j],
        #[trigger] shown[i],
    ) by {
        assert(!leads(sorted[j], sorted[i]));
    }
    assert forall|i: int| 0 <= i < shown.len() implies is_one_of(#[trigger] shown[i], list) by {
        let k = list.index_of(sorted[i]);
        assert(list.contains(sorted[i]));
        assert(list[k] == sorted[i]);
        assert(same_but_confidence(shown[i], list[k]));
    }
}

} // verus!
