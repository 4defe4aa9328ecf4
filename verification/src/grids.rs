//! Module grids: what was sampled from an image, and where several samples of a
//! deformed symbol agree.

use vstd::prelude::*;

use crate::codewords::FULL_RELIABILITY;
use crate::layout::{symbol_side, valid_version};
use crate::order::same_bytes;
use crate::phrases::{contains_part, has_part};
use crate::rounding::{
    lemma_nearest_between, lemma_rounded_again, lemma_rounded_monotone, lemma_single_sum,
    lemma_spacing_divides, nearest, round_quotient, round_to, rounded, rounded_quotient, spacing,
    two_to, SINGLE, SINGLE_SUM,
};

verus! {

/// The weight of a module is no smaller than this: a twentieth.
pub const LEAST_WEIGHT: u32 = 53687092;

/// A module's confidence is no smaller than this: a hundredth.
pub const LEAST_CONFIDENCE: u32 = 10737418;

/// A rectangle of modules that a detector sampled, row by row; one is dark.
#[derive(Debug)]
pub struct SampledGrid {
    pub width: usize,
    pub height: usize,
    pub modules: Vec<u8>,
}

/// The modules of a symbol, row by row; one is dark.
#[derive(Debug)]
pub struct ModuleGrid {
    pub version: u8,
    pub modules: Vec<u8>,
    pub confidence: Vec<u32>,
    /// Whether the symbol was sampled as one that is not flat.
    pub deformed: bool,
}

/// The modules of a symbol.
pub ghost struct GridModel {
    pub version: int,
    pub modules: Seq<u8>,
    pub confidence: Seq<u32>,
    pub deformed: bool,
}

impl View for ModuleGrid {
    type V = GridModel;

    open spec fn view(&self) -> GridModel {
        GridModel {
            version: self.version as int,
            modules: self.modules@,
            confidence: self.confidence@,
            deformed: self.deformed,
        }
    }
}

/// What a list of grids holds.
pub open spec fn grid_models(list: Seq<ModuleGrid>) -> Seq<GridModel> {
    Seq::new(list.len(), |i: int| list[i]@)
}

/// Whether a grid has the modules of its version.
pub open spec fn is_grid(grid: GridModel) -> bool {
    &&& valid_version(grid.version)
    &&& grid.modules.len() == symbol_side(grid.version) * symbol_side(grid.version)
    &&& grid.confidence.len() == grid.modules.len()
}

/// Whether all grids have the modules of their versions.
pub open spec fn are_grids(grids: Seq<GridModel>) -> bool {
    forall|i: int| 0 <= i < grids.len() ==> is_grid(#[trigger] grids[i])
}

/// The version of a sample, if it has the size of a symbol.
pub open spec fn sample_version(width: int, height: int) -> Option<int> {
    if 21 <= width <= 177 && width == height && (width - 17) % 4 == 0 {
        Some((width - 17) / 4)
    } else {
        None
    }
}

/// The grid that a sample is, all of it equally certain.
pub open spec fn sampled_grid(version: int, modules: Seq<u8>) -> GridModel {
    GridModel {
        version,
        modules,
        confidence: Seq::new(modules.len(), |i: int| FULL_RELIABILITY),
        deformed: false,
    }
}

/// Whether the same modules were sampled before.
pub open spec fn is_known(grids: Seq<GridModel>, version: int, modules: Seq<u8>) -> bool {
    exists|i: int|
        0 <= i < grids.len() && (#[trigger] grids[i]).version == version && grids[i].modules
            == modules
}

/// The grids among the first `n` samples: those with the size of a symbol, of
/// the expected version if there is one, and where asked only what is new.
pub open spec fn found_grids(
    samples: Seq<SampledGrid>,
    expected: Option<u8>,
    distinct: bool,
    n: int,
) -> Seq<GridModel>
    decreases n,
{
    if n <= 0 {
        Seq::empty()
    } else {
        let before = found_grids(samples, expected, distinct, n - 1);
        let sample = samples[n - 1];
        match sample_version(sample.width as int, sample.height as int) {
            Some(version) => if expected is Some && expected->Some_0 != version {
                before
            } else if distinct && is_known(before, version, sample.modules@) {
                before
            } else {
                before.push(sampled_grid(version, sample.modules@))
            },
            None => before,
        }
    }
}

fn knows(grids: &Vec<ModuleGrid>, version: u8, modules: &Vec<u8>) -> (known: bool)
    ensures
        known == is_known(grid_models(grids@), version as int, modules@),
{
    let mut i: usize = 0;
    while i < grids.len()
        invariant
            i <= grids@.len(),
            forall|j: int|
                0 <= j < i ==> !((#[trigger] grid_models(grids@)[j]).version == version
                    && grid_models(grids@)[j].modules == modules@),
        decreases grids@.len() - i,
    {
        if grids[i].version == version && same_bytes(
            grids[i].modules.as_slice(),
            modules.as_slice(),
        ) {
            assert(grid_models(grids@)[i as int].version == version);
            return true;
        }
        i += 1;
    }
    false
}

fn certain(count: usize) -> (confidence: Vec<u32>)
    ensures
        confidence@ == Seq::new(count as nat, |i: int| FULL_RELIABILITY),
{
    let mut confidence: Vec<u32> = Vec::new();
    while confidence.len() < count
        invariant
            confidence@.len() <= count,
            forall|i: int| 0 <= i < confidence@.len() ==> confidence@[i] == FULL_RELIABILITY,
        decreases count - confidence@.len(),
    {
        confidence.push(FULL_RELIABILITY);
    }
    assert(confidence@ =~= Seq::new(count as nat, |i: int| FULL_RELIABILITY));
    confidence
}

proof fn lemma_found_grids(
    samples: Seq<SampledGrid>,
    expected: Option<u8>,
    distinct: bool,
    n: int,
)
    requires
        0 <= n <= samples.len(),
        forall|i: int|
            0 <= i < samples.len() ==> (#[trigger] samples[i]).modules@.len() == samples[i].width
                * samples[i].height,
    ensures
        are_grids(found_grids(samples, expected, distinct, n)),
        found_grids(samples, expected, distinct, n).len() <= n,
    decreases n,
{
    if n > 0 {
        lemma_found_grids(samples, expected, distinct, n - 1);
        let sample = samples[n - 1];
        let before = found_grids(samples, expected, distinct, n - 1);
        if let Some(version) = sample_version(sample.width as int, sample.height as int) {
            assert(symbol_side(version) == sample.width);
            let next = before.push(sampled_grid(version, sample.modules@));
            assert forall|i: int| 0 <= i < next.len() implies is_grid(#[trigger] next[i]) by {
                if i < before.len() {
                    assert(next[i] == before[i]);
                }
            }
        }
    }
}

/// Picks the grids among what a detector sampled.
pub fn grids_from_samples(
    samples: Vec<SampledGrid>,
    expected: Option<u8>,
    distinct: bool,
) -> (grids: Vec<ModuleGrid>)
    requires
        forall|i: int|
            0 <= i < samples@.len() ==> (#[trigger] samples@[i]).modules@.len()
                == samples@[i].width * samples@[i].height,
    ensures
        grid_models(grids@) == found_grids(
            samples@,
            expected,
            distinct,
            samples@.len() as int,
        ),
        are_grids(grid_models(grids@)),
        grids@.len() <= samples@.len(),
{
    let ghost all = samples@;
    let mut rest: Vec<SampledGrid> = samples;
    let mut grids: Vec<ModuleGrid> = Vec::new();
    assert(grid_models(grids@) =~= Seq::<GridModel>::empty());
    assert(rest@ =~= all.subrange(0, all.len() as int));
    while rest.len() > 0
        invariant
            rest@.len() <= all.len(),
            rest@ == all.subrange(all.len() - rest@.len(), all.len() as int),
            grid_models(grids@) == found_grids(all, expected, distinct, all.len() - rest@.len()),
        decreases rest@.len(),
    {
        let ghost before = rest@;
        let sample: SampledGrid = rest.remove(0);
        proof {
            assert(sample == all[all.len() - before.len()]);
            assert(rest@ =~= all.subrange(all.len() - rest@.len(), all.len() as int));
        }
        let size: usize = sample.width;
        if size >= 21 && size <= 177 && size == sample.height && (size - 17) % 4 == 0 {
            let version: u8 = ((size - 17) / 4) as u8;
            let fits: bool = match expected {
                Some(hint) => hint == version,
                None => true,
            };
            if fits && !(distinct && knows(&grids, version, &sample.modules)) {
                let count: usize = sample.modules.len();
                let ghost earlier = grid_models(grids@);
                let grid: ModuleGrid = ModuleGrid {
                    version,
                    modules: sample.modules,
                    confidence: certain(count),
                    deformed: false,
                };
                grids.push(grid);
                assert(grid_models(grids@) =~= earlier.push(grid@));
            }
        }
    }
    proof {
        lemma_found_grids(all, expected, distinct, all.len() as int);
    }
    grids
}

/// Whether a variant is searched for deformed symbols.
pub open spec fn searches_deformed(chase_bits: int, name: Seq<char>) -> bool {
    chase_bits > 0 && contains_part(name, "otsu"@)
}

/// Decides whether a variant is searched for deformed symbols.
pub fn deformed_search(chase_bits: usize, name: &str) -> (search: bool)
    ensures
        search == searches_deformed(chase_bits as int, name@),
{
    chase_bits > 0 && has_part(name, "otsu")
}

/// Decides whether an image is sampled again, at other versions and shapes.
pub fn needs_resampling(grids: &Vec<ModuleGrid>, chase_bits: usize, name: &str) -> (again: bool)
    ensures
        again == (grids@.len() == 0 || searches_deformed(chase_bits as int, name@)),
{
    grids.len() == 0 || deformed_search(chase_bits, name)
}

/// Decides whether the second detector looks at an image: only where the first
/// one gave no grid.
pub fn needs_fallback(grids: &Vec<ModuleGrid>) -> (needed: bool)
    ensures
        needed == (grids@.len() == 0),
{
    grids.len() == 0
}

/// Whether a symbol is sampled in deformed shapes: not where a version is given
/// that it was not detected in.
pub open spec fn samples_deformed(
    chase_bits: int,
    name: Seq<char>,
    detected: u8,
    expected: Option<u8>,
) -> bool {
    searches_deformed(chase_bits, name) && (expected matches Some(version) ==> version == detected)
}

/// Decides whether a detected symbol is sampled in deformed shapes.
pub fn needs_deformed_samples(
    chase_bits: usize,
    name: &str,
    detected: u8,
    expected: Option<u8>,
) -> (needed: bool)
    ensures
        needed == samples_deformed(chase_bits as int, name@, detected, expected),
{
    deformed_search(chase_bits, name) && match expected {
        Some(version) => version == detected,
        None => true,
    }
}

/// The version that a detected size is closest below, within the valid ones.
pub open spec fn detected_version(size: int) -> int {
    if size < 21 {
        1
    } else if size >= 177 {
        40
    } else {
        (size - 17) / 4
    }
}

/// The version of the symbol that was detected.
pub fn version_detected(size: u32) -> (version: u8)
    ensures
        version == detected_version(size as int),
        valid_version(version as int),
{
    if size < 21 {
        1
    } else if size >= 177 {
        40
    } else {
        ((size - 17) / 4) as u8
    }
}

/// How far the `i`th version to try is from the detected one: none, one up, one
/// down, two up, and so on.
pub open spec fn version_offset(i: int) -> int {
    if i % 2 == 1 {
        (i + 1) / 2
    } else {
        -(i / 2)
    }
}

/// The versions among the first `n` to try.
pub open spec fn nearby_versions(detected: int, n: int) -> Seq<u8>
    decreases n,
{
    if n <= 0 {
        Seq::empty()
    } else {
        let version = detected + version_offset(n - 1);
        if valid_version(version) {
            nearby_versions(detected, n - 1).push(version as u8)
        } else {
            nearby_versions(detected, n - 1)
        }
    }
}

/// The versions to sample an image at: the expected one, or the detected one and
/// those up to four away.
pub fn versions_to_try(detected: u8, expected: Option<u8>) -> (versions: Vec<u8>)
    requires
        valid_version(detected as int),
    ensures
        versions@ == (match expected {
            Some(version) => seq![version],
            None => nearby_versions(detected as int, 9),
        }),
{
    let mut versions: Vec<u8> = Vec::new();
    if let Some(version) = expected {
        versions.push(version);
        assert(versions@ =~= seq![version]);
        return versions;
    }
    let mut i: i16 = 0;
    while i < 9
        invariant
            0 <= i <= 9,
            valid_version(detected as int),
            versions@ == nearby_versions(detected as int, i as int),
        decreases 9 - i,
    {
        let offset: i16 = if i % 2 == 1 {
            (i + 1) / 2
        } else {
            -(i / 2)
        };
        let version: i16 = detected as i16 + offset;
        if version >= 1 && version <= 40 {
            versions.push(version as u8);
        }
        i += 1;
    }
    versions
}

/// Every version within four of the detected one is tried.
pub proof fn nearby_versions_are_tried(detected: int, version: int)
    requires
        valid_version(version),
        -4 <= version - detected <= 4,
    ensures
        nearby_versions(detected, 9).contains(version as u8),
{
    let i = if version > detected {
        2 * (version - detected) - 1
    } else {
        2 * (detected - version)
    };
    assert(version_offset(i) == version - detected);
    lemma_nearby(detected, i, 9);
}

proof fn lemma_nearby(detected: int, i: int, n: int)
    requires
        0 <= i < n,
        valid_version(detected + version_offset(i)),
    ensures
        nearby_versions(detected, n).contains((detected + version_offset(i)) as u8),
    decreases n,
{
    let before = nearby_versions(detected, n - 1);
    let after = nearby_versions(detected, n);
    let version = (detected + version_offset(i)) as u8;
    if i == n - 1 {
        assert(after[before.len() as int] == version);
    } else {
        lemma_nearby(detected, i, n - 1);
        let k = before.index_of(version);
        assert(after[k] == version);
    }
}

/// The deformed ones among the first `n` grids.
pub open spec fn deformed_grids(grids: Seq<GridModel>, n: int) -> Seq<GridModel>
    decreases n,
{
    if n <= 0 {
        Seq::empty()
    } else if grids[n - 1].deformed {
        deformed_grids(grids, n - 1).push(grids[n - 1])
    } else {
        deformed_grids(grids, n - 1)
    }
}

/// The weight of a module with the given confidence.
pub open spec fn module_weight(confidence: u32) -> int {
    if confidence < LEAST_WEIGHT {
        LEAST_WEIGHT as int
    } else {
        confidence as int
    }
}

/// A sum of weights, in single precision.
pub open spec fn weighed(sum: int, more: int) -> int {
    rounded(sum + more, SINGLE as int)
}

/// What a share counts in one: two to the 44th.
pub const SHARE_UNIT: u64 = 17592186044416;

/// A part of a weight as a share of it, in single precision. The whole counts for
/// one certain module at least.
pub open spec fn share(part: int, whole: int) -> int {
    rounded_quotient(
        part * SHARE_UNIT,
        if whole < FULL_RELIABILITY {
            FULL_RELIABILITY as int
        } else {
            whole
        },
        SINGLE as int,
    )
}

/// The weight of module `at` in the first `n` grids.
pub open spec fn votes(grids: Seq<GridModel>, at: int, n: int) -> int
    decreases n,
{
    if n <= 0 {
        0
    } else {
        weighed(votes(grids, at, n - 1), module_weight(grids[n - 1].confidence[at]))
    }
}

/// The weight of module `at` in those of the first `n` grids where it is dark.
pub open spec fn dark_votes(grids: Seq<GridModel>, at: int, n: int) -> int
    decreases n,
{
    if n <= 0 {
        0
    } else {
        weighed(
            dark_votes(grids, at, n - 1),
            if grids[n - 1].modules[at] == 1 {
                module_weight(grids[n - 1].confidence[at])
            } else {
                0
            },
        )
    }
}

/// The module that a vote decides for: dark if half of the weight or more is.
pub open spec fn vote_module(dark: int, total: int) -> u8 {
    if 2 * dark >= total {
        1
    } else {
        0
    }
}

/// The lead of one side of a vote over the other.
pub open spec fn vote_lead(dark: int, total: int) -> int {
    rounded(
        if 2 * dark >= total {
            2 * dark - total
        } else {
            total - 2 * dark
        },
        SINGLE as int,
    )
}

/// How clear a vote is: the lead of one side over the other, as a share of all,
/// from a hundredth up to one.
pub open spec fn vote_confidence(dark: int, total: int) -> u32 {
    let share = rounded_quotient(
        vote_lead(dark, total) * FULL_RELIABILITY,
        total,
        SINGLE as int,
    );
    if share < LEAST_CONFIDENCE {
        LEAST_CONFIDENCE
    } else if share > FULL_RELIABILITY {
        FULL_RELIABILITY
    } else {
        share as u32
    }
}

/// The grid that a vote of grids decides for.
pub open spec fn voted_grid(grids: Seq<GridModel>) -> GridModel {
    let n = grids.len() as int;
    GridModel {
        version: grids[0].version,
        modules: Seq::new(
            grids[0].modules.len(),
            |at: int| vote_module(dark_votes(grids, at, n), votes(grids, at, n)),
        ),
        confidence: Seq::new(
            grids[0].modules.len(),
            |at: int| vote_confidence(dark_votes(grids, at, n), votes(grids, at, n)),
        ),
        deformed: true,
    }
}

/// Whether all grids are of one version.
pub open spec fn one_version(grids: Seq<GridModel>) -> bool {
    forall|i: int| 0 <= i < grids.len() ==> (#[trigger] grids[i]).version == grids[0].version
}

/// Grids, and where three or more deformed ones of one version are among them,
/// what these agree on.
pub open spec fn with_vote(grids: Seq<GridModel>) -> Seq<GridModel> {
    let voters = deformed_grids(grids, grids.len() as int);
    if voters.len() >= 3 && one_version(voters) {
        grids.push(voted_grid(voters))
    } else {
        grids
    }
}

proof fn lemma_votes(grids: Seq<GridModel>, at: int, n: int)
    requires
        0 <= n <= grids.len(),
    ensures
        0 <= dark_votes(grids, at, n) <= votes(grids, at, n) <= SINGLE_SUM,
        n > 0 ==> votes(grids, at, n) >= LEAST_WEIGHT,
        rounded(votes(grids, at, n), SINGLE as int) == votes(grids, at, n),
    decreases n,
{
    let single = SINGLE as int;
    if n > 0 {
        lemma_votes(grids, at, n - 1);
        let weight = module_weight(grids[n - 1].confidence[at]);
        let (dark, all) = (dark_votes(grids, at, n - 1), votes(grids, at, n - 1));
        lemma_weighed(dark, 0);
        lemma_weighed(dark, weight);
        lemma_weighed(all, weight);
        lemma_rounded_monotone(dark, all + weight, single);
        lemma_rounded_monotone(dark + weight, all + weight, single);
        lemma_rounded_again(all + weight, single);
    } else {
        assert(rounded(0, single) == 0) by {
            assert(spacing(0, single) == 1);
        }
    }
}

/// Weights add up within bounds, to no less than the least weight if one is
/// added.
pub proof fn lemma_weighed(sum: int, more: int)
    requires
        0 <= sum <= SINGLE_SUM,
        0 <= more <= 0x1_0000_0000,
    ensures
        0 <= weighed(sum, more) <= SINGLE_SUM,
        more >= LEAST_WEIGHT ==> weighed(sum, more) >= LEAST_WEIGHT,
{
    let single = SINGLE as int;
    lemma_single_sum(sum, more);
    if more >= LEAST_WEIGHT {
        lemma_rounded_monotone(LEAST_WEIGHT as int, more, single);
        reveal_with_fuel(spacing, 3);
        assert(spacing(LEAST_WEIGHT as int, single) == 4);
        let least = LEAST_WEIGHT as int;
        assert(1 * 4 == 4int);
        assert(least / 4 == 13421773 && least % 4 == 0);
        assert(nearest(least, 1, 4) == least);
    }
}

/// Adds a weight.
pub(crate) fn weigh(sum: u128, more: u32) -> (result: u128)
    requires
        sum <= SINGLE_SUM,
    ensures
        result == weighed(sum as int, more as int),
        result <= SINGLE_SUM,
        more >= LEAST_WEIGHT ==> result >= LEAST_WEIGHT,
{
    proof {
        lemma_weighed(sum as int, more as int);
    }
    round_to(sum + more as u128, SINGLE)
}

/// What grows by a weight does not shrink, and stays in single precision.
pub proof fn lemma_weighed_grows(sum: int, more: int)
    requires
        0 <= sum <= SINGLE_SUM,
        0 <= more <= 0x1_0000_0000,
        rounded(sum, SINGLE as int) == sum,
    ensures
        sum <= weighed(sum, more) <= SINGLE_SUM,
        rounded(weighed(sum, more), SINGLE as int) == weighed(sum, more),
{
    lemma_weighed(sum, more);
    lemma_rounded_monotone(sum, sum + more, SINGLE as int);
    lemma_rounded_again(sum + more, SINGLE as int);
}

/// No part is more than the whole.
pub proof fn lemma_share(part: int, whole: int)
    requires
        0 <= part <= whole,
    ensures
        0 <= share(part, whole) <= SHARE_UNIT,
{
    let d = if whole < FULL_RELIABILITY {
        FULL_RELIABILITY as int
    } else {
        whole
    };
    let n = part * SHARE_UNIT;
    let quotient = n / d;
    assert(0 <= n <= d * SHARE_UNIT && 0 <= quotient <= SHARE_UNIT) by (nonlinear_arith)
        requires
            n == part * SHARE_UNIT,
            quotient == n / d,
            0 <= part <= d,
            0 < d,
    ;
    reveal_with_fuel(two_to, 22);
    lemma_spacing_divides(quotient, SINGLE as int, 21);
    let s = spacing(quotient, SINGLE as int);
    let c = two_to(21) / s;
    vstd::arithmetic::div_mod::lemma_fundamental_div_mod(two_to(21), s);
    assert(SHARE_UNIT == (8388608 * c) * s) by (nonlinear_arith)
        requires
            2097152 == s * c,
            SHARE_UNIT == 8388608 * 2097152,
    ;
    vstd::arithmetic::div_mod::lemma_mod_multiples_basic(8388608 * c, s);
    lemma_nearest_between(n, d, s, SHARE_UNIT as int);
    vstd::arithmetic::div_mod::lemma_mod_multiples_basic(0, s);
    lemma_nearest_between(n, d, s, 0);
}

/// The share that a part is of a whole.
pub(crate) fn share_of(part: u128, whole: u128) -> (result: u64)
    requires
        part <= whole <= SINGLE_SUM,
    ensures
        result == share(part as int, whole as int),
        result <= SHARE_UNIT,
{
    proof {
        lemma_share(part as int, whole as int);
    }
    let base: u128 = if whole < FULL_RELIABILITY as u128 {
        FULL_RELIABILITY as u128
    } else {
        whole
    };
    round_quotient(part * SHARE_UNIT as u128, base, SINGLE) as u64
}

/// The places of the deformed ones among the first `n` grids.
spec fn deformed_places(grids: Seq<GridModel>, n: int) -> Seq<int>
    decreases n,
{
    if n <= 0 {
        Seq::empty()
    } else if grids[n - 1].deformed {
        deformed_places(grids, n - 1).push(n - 1)
    } else {
        deformed_places(grids, n - 1)
    }
}

proof fn lemma_deformed_places(grids: Seq<GridModel>, n: int)
    requires
        0 <= n <= grids.len(),
    ensures
        deformed_grids(grids, n).len() == deformed_places(grids, n).len(),
        deformed_places(grids, n).len() <= n,
        forall|i: int|
            0 <= i < deformed_places(grids, n).len() ==> 0 <= #[trigger] deformed_places(
                grids,
                n,
            )[i] < n,
        forall|i: int|
            0 <= i < deformed_grids(grids, n).len() ==> #[trigger] deformed_grids(grids, n)[i]
                == grids[deformed_places(grids, n)[i]],
    decreases n,
{
    if n > 0 {
        lemma_deformed_places(grids, n - 1);
        let (before, places) = (deformed_grids(grids, n - 1), deformed_places(grids, n - 1));
        let (after, next) = (deformed_grids(grids, n), deformed_places(grids, n));
        assert forall|i: int| 0 <= i < next.len() implies 0 <= #[trigger] next[i] < n by {
            if i < places.len() {
                assert(next[i] == places[i]);
            }
        }
        assert forall|i: int| 0 <= i < after.len() implies #[trigger] after[i]
            == grids[next[i]] by {
            if i < before.len() {
                assert(after[i] == before[i] && next[i] == places[i]);
            }
        }
    }
}

/// Voting keeps grids grids.
pub proof fn voting_keeps_grids(grids: Seq<GridModel>)
    requires
        are_grids(grids),
    ensures
        are_grids(with_vote(grids)),
        grids.len() <= with_vote(grids).len() <= grids.len() + 1,
        forall|i: int| 0 <= i < grids.len() ==> with_vote(grids)[i] == grids[i],
{
    let n = grids.len() as int;
    let voters = deformed_grids(grids, n);
    lemma_deformed_places(grids, n);
    if voters.len() >= 3 && one_version(voters) {
        assert(is_grid(voters[0])) by {
            assert(voters[0] == grids[deformed_places(grids, n)[0]]);
        }
        assert(is_grid(voted_grid(voters)));
    }
}

/// A vote of grids that all show the same module goes that way, with full
/// confidence.
pub proof fn unanimous_votes_are_certain(grids: Seq<GridModel>, at: int, dark: bool)
    requires
        grids.len() > 0,
        0 <= at < grids[0].modules.len(),
        forall|i: int|
            0 <= i < grids.len() ==> (#[trigger] grids[i]).modules[at] == (if dark {
                1u8
            } else {
                0u8
            }),
    ensures
        voted_grid(grids).modules[at] == (if dark {
            1u8
        } else {
            0u8
        }),
        voted_grid(grids).confidence[at] == FULL_RELIABILITY,
{
    let n = grids.len() as int;
    lemma_votes(grids, at, n);
    lemma_unanimous(grids, at, dark, n);
    let total = votes(grids, at, n);
    lemma_whole_share(total);
}

/// All of a weight is a full share of it.
proof fn lemma_whole_share(total: int)
    requires
        total > 0,
    ensures
        rounded_quotient(total * FULL_RELIABILITY, total, SINGLE as int) == FULL_RELIABILITY,
{
    let full = FULL_RELIABILITY as int;
    assert((total * full) / total == full) by (nonlinear_arith)
        requires
            total > 0,
    ;
    reveal_with_fuel(spacing, 8);
    assert(spacing(full, SINGLE as int) == 128);
    let whole = total * 128;
    assert((total * full) % whole == 0 && (total * full) / whole == 8388608) by (nonlinear_arith)
        requires
            whole == total * 128,
            total > 0,
            full == 128 * 8388608,
    ;
}

proof fn lemma_unanimous(grids: Seq<GridModel>, at: int, dark: bool, n: int)
    requires
        0 <= n <= grids.len(),
        forall|i: int|
            0 <= i < grids.len() ==> (#[trigger] grids[i]).modules[at] == (if dark {
                1u8
            } else {
                0u8
            }),
    ensures
        dark_votes(grids, at, n) == (if dark {
            votes(grids, at, n)
        } else {
            0
        }),
    decreases n,
{
    assert(weighed(0, 0) == 0) by {
        assert(spacing(0, SINGLE as int) == 1);
    }
    if n > 0 {
        lemma_unanimous(grids, at, dark, n - 1);
        assert(grids[n - 1].modules[at] == (if dark {
            1u8
        } else {
            0u8
        }));
    }
}

/// Counts the votes on one module.
fn count_votes(grids: &Vec<ModuleGrid>, at: usize) -> (counted: (u128, u128))
    requires
        forall|i: int|
            0 <= i < grids@.len() && (#[trigger] grids@[i]).deformed ==> at
                < grids@[i].modules@.len() && at < grids@[i].confidence@.len(),
    ensures
        ({
            let voters = deformed_grids(grid_models(grids@), grids@.len() as int);
            &&& counted.0 == dark_votes(voters, at as int, voters.len() as int)
            &&& counted.1 == votes(voters, at as int, voters.len() as int)
        }),
{
    let ghost all = grid_models(grids@);
    let mut dark: u128 = 0;
    let mut total: u128 = 0;
    let mut i: usize = 0;
    while i < grids.len()
        invariant
            i <= grids@.len(),
            all == grid_models(grids@),
            dark <= SINGLE_SUM,
            total <= SINGLE_SUM,
            forall|k: int|
                0 <= k < grids@.len() && (#[trigger] grids@[k]).deformed ==> at
                    < grids@[k].modules@.len() && at < grids@[k].confidence@.len(),
            dark == dark_votes(
                deformed_grids(all, i as int),
                at as int,
                deformed_grids(all, i as int).len() as int,
            ),
            total == votes(
                deformed_grids(all, i as int),
                at as int,
                deformed_grids(all, i as int).len() as int,
            ),
        decreases grids@.len() - i,
    {
        let ghost before = deformed_grids(all, i as int);
        proof {
            lemma_votes(before, at as int, before.len() as int);
            lemma_deformed_places(all, i as int);
        }
        if grids[i].deformed {
            let confidence: u32 = grids[i].confidence[at];
            let weight: u32 = if confidence < LEAST_WEIGHT {
                LEAST_WEIGHT
            } else {
                confidence
            };
            proof {
                let after = deformed_grids(all, i + 1);
                lemma_vote_prefix(before, after, at as int, before.len() as int);
                assert(after[before.len() as int] == all[i as int]);
            }
            dark = weigh(
                dark,
                if grids[i].modules[at] == 1 {
                    weight
                } else {
                    0
                },
            );
            total = weigh(total, weight);
        }
        i += 1;
    }
    (dark, total)
}

proof fn lemma_vote_prefix(a: Seq<GridModel>, b: Seq<GridModel>, at: int, n: int)
    requires
        0 <= n <= a.len(),
        n <= b.len(),
        forall|i: int| 0 <= i < n ==> a[i] == b[i],
    ensures
        votes(a, at, n) == votes(b, at, n),
        dark_votes(a, at, n) == dark_votes(b, at, n),
    decreases n,
{
    if n > 0 {
        lemma_vote_prefix(a, b, at, n - 1);
    }
}

fn confidence_of(dark: u128, total: u128) -> (confidence: u32)
    requires
        dark <= total <= SINGLE_SUM,
        0 < total,
    ensures
        confidence == vote_confidence(dark as int, total as int),
{
    let lead: u128 = round_to(
        if 2 * dark >= total {
            2 * dark - total
        } else {
            total - 2 * dark
        },
        SINGLE,
    );
    assert(lead <= 2 * SINGLE_SUM + 1);
    assert(0 <= lead * 1_073_741_824 <= (2 * SINGLE_SUM + 1) * 1_073_741_824);
    let scaled: u128 = lead * FULL_RELIABILITY as u128;
    let share: u128 = round_quotient(scaled, total, SINGLE);
    if share < LEAST_CONFIDENCE as u128 {
        LEAST_CONFIDENCE
    } else if share > FULL_RELIABILITY as u128 {
        FULL_RELIABILITY
    } else {
        share as u32
    }
}

/// Whether a vote is to be held, and among which grid's like.
fn voters_agree(grids: &Vec<ModuleGrid>) -> (leader: Option<usize>)
    ensures
        ({
            let all = grid_models(grids@);
            let voters = deformed_grids(all, all.len() as int);
            match leader {
                Some(at) => {
                    &&& voters.len() >= 3
                    &&& one_version(voters)
                    &&& at < grids@.len()
                    &&& all[at as int] == voters[0]
                    &&& forall|i: int|
                        0 <= i < grids@.len() && (#[trigger] grids@[i]).deformed
                            ==> grids@[i].version == voters[0].version
                },
                None => !(voters.len() >= 3 && one_version(voters)),
            }
        }),
{
    let ghost all = grid_models(grids@);
    let mut count: usize = 0;
    let mut first: usize = 0;
    let mut i: usize = 0;
    while i < grids.len()
        invariant
            i <= grids@.len(),
            all == grid_models(grids@),
            count == deformed_grids(all, i as int).len(),
            count <= i,
            count > 0 ==> first < i && all[first as int] == deformed_grids(all, i as int)[0],
            one_version(deformed_grids(all, i as int)),
            forall|k: int|
                0 <= k < i && (#[trigger] grids@[k]).deformed ==> count > 0 && grids@[k].version
                    == deformed_grids(all, i as int)[0].version,
        decreases grids@.len() - i,
    {
        let ghost before = deformed_grids(all, i as int);
        if grids[i].deformed {
            proof {
                let after = deformed_grids(all, i + 1);
                assert(after =~= before.push(all[i as int]));
                if count > 0 {
                    assert(after[0] == before[0]);
                }
                assert forall|k: int| 0 <= k < before.len() implies (
                #[trigger] before[k]).version == before[0].version by {}
            }
            if count == 0 {
                first = i;
            } else if grids[i].version != grids[first].version {
                proof {
                    let n = all.len() as int;
                    lemma_deformed_grows(all, i + 1, n);
                    let voters = deformed_grids(all, n);
                    assert(voters[count as int].version != voters[0].version);
                }
                return None;
            }
            count += 1;
        }
        i += 1;
    }
    if count >= 3 {
        Some(first)
    } else {
        None
    }
}

proof fn lemma_deformed_grows(grids: Seq<GridModel>, a: int, b: int)
    requires
        0 <= a <= b <= grids.len(),
    ensures
        deformed_grids(grids, a).len() <= deformed_grids(grids, b).len(),
        forall|i: int|
            0 <= i < deformed_grids(grids, a).len() ==> #[trigger] deformed_grids(grids, b)[i]
                == deformed_grids(grids, a)[i],
    decreases b - a,
{
    if a < b {
        lemma_deformed_grows(grids, a, b - 1);
    }
}

/// Adds what the deformed grids agree on.
pub fn add_vote(grids: &mut Vec<ModuleGrid>)
    requires
        are_grids(grid_models(old(grids)@)),
    ensures
        grid_models(final(grids)@) == with_vote(grid_models(old(grids)@)),
        are_grids(grid_models(final(grids)@)),
        final(grids)@.len() <= old(grids)@.len() + 1,
{
    let ghost all = grid_models(grids@);
    let ghost n = all.len() as int;
    let ghost voters = deformed_grids(all, n);
    proof {
        voting_keeps_grids(all);
        lemma_deformed_places(all, n);
    }
    let first: usize = match voters_agree(grids) {
        Some(first) => first,
        None => {
            return;
        },
    };
    let version: u8 = grids[first].version;
    let count: usize = grids[first].modules.len();
    proof {
        assert(is_grid(all[first as int]));
        assert forall|i: int| 0 <= i < grids@.len() && (#[trigger] grids@[i]).deformed implies count
            == grids@[i].modules@.len() && count == grids@[i].confidence@.len() by {
            assert(is_grid(all[i]));
        }
    }
    let mut modules: Vec<u8> = Vec::new();
    let mut confidence: Vec<u32> = Vec::new();
    while modules.len() < count
        invariant
            modules@.len() <= count,
            confidence@.len() == modules@.len(),
            all == grid_models(grids@),
            n == all.len(),
            voters == deformed_grids(all, n),
            voters.len() >= 3,
            voters.len() <= n,
            forall|i: int|
                0 <= i < grids@.len() && (#[trigger] grids@[i]).deformed ==> count
                    == grids@[i].modules@.len() && count == grids@[i].confidence@.len(),
            forall|at: int|
                0 <= at < modules@.len() ==> #[trigger] modules@[at] == vote_module(
                    dark_votes(voters, at, voters.len() as int),
                    votes(voters, at, voters.len() as int),
                ),
            forall|at: int|
                0 <= at < modules@.len() ==> #[trigger] confidence@[at] == vote_confidence(
                    dark_votes(voters, at, voters.len() as int),
                    votes(voters, at, voters.len() as int),
                ),
        decreases count - modules@.len(),
    {
        let at: usize = modules.len();
        let (dark, total): (u128, u128) = count_votes(grids, at);
        proof {
            lemma_votes(voters, at as int, voters.len() as int);
        }
        confidence.push(confidence_of(dark, total));
        modules.push(
            if 2 * dark >= total {
                1
            } else {
                0
            },
        );
    }
    proof {
        let voted = voted_grid(voters);
        assert(modules@ =~= voted.modules);
        assert(confidence@ =~= voted.confidence);
    }
    let grid: ModuleGrid = ModuleGrid { version, modules, confidence, deformed: true };
    grids.push(grid);
    assert(grid_models(grids@) =~= all.push(grid@));
}

} // verus!
