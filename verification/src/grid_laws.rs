//! Which samples become grids, and what a vote of grids shows.

use vstd::prelude::*;

use crate::codewords::FULL_RELIABILITY;
use crate::grids::{
    deformed_grids, found_grids, is_known, one_version, sample_version, sampled_grid, with_vote,
    GridModel, SampledGrid,
};
use crate::layout::{symbol_side, valid_version};

verus! {

/// Whether a sample shows a symbol of the version that is expected.
pub open spec fn shows_version(sample: SampledGrid, version: int, expected: Option<u8>) -> bool {
    &&& valid_version(version)
    &&& sample.width == symbol_side(version)
    &&& sample.height == symbol_side(version)
    &&& expected matches Some(wanted) ==> wanted == version
}

/// Whether a sample shows a symbol of any version that may be expected.
pub open spec fn shows_symbol(sample: SampledGrid, expected: Option<u8>) -> bool {
    exists|version: int| shows_version(sample, version, expected)
}

/// Whether a grid is a sample, all of it certain.
pub open spec fn is_sample(grid: GridModel, sample: SampledGrid) -> bool {
    &&& grid.modules == sample.modules@
    &&& !grid.deformed
    &&& grid.confidence.len() == grid.modules.len()
    &&& forall|i: int|
        0 <= i < grid.confidence.len() ==> #[trigger] grid.confidence[i] == FULL_RELIABILITY
}

/// Whether a grid is one of the first `n` samples.
pub open spec fn comes_from(
    grid: GridModel,
    samples: Seq<SampledGrid>,
    expected: Option<u8>,
    n: int,
) -> bool {
    exists|i: int|
        0 <= i < n && is_sample(grid, #[trigger] samples[i]) && shows_version(
            samples[i],
            grid.version,
            expected,
        )
}

proof fn lemma_sample_version(sample: SampledGrid, version: int, expected: Option<u8>)
    ensures
        shows_version(sample, version, expected) <==> sample_version(
            sample.width as int,
            sample.height as int,
        ) == Some(version) && (expected is Some ==> expected->Some_0 == version),
{
}

/// Every grid is a sample that has the size of a symbol, and of the version that is
/// expected, where one is.
pub proof fn grids_are_samples(
    samples: Seq<SampledGrid>,
    expected: Option<u8>,
    distinct: bool,
    n: int,
    k: int,
)
    requires
        0 <= n <= samples.len(),
        0 <= k < found_grids(samples, expected, distinct, n).len(),
    ensures
        comes_from(found_grids(samples, expected, distinct, n)[k], samples, expected, n),
    decreases n,
{
    if n > 0 {
        let before = found_grids(samples, expected, distinct, n - 1);
        let sample = samples[n - 1];
        let grid = found_grids(samples, expected, distinct, n)[k];
        if k < before.len() {
            grids_are_samples(samples, expected, distinct, n - 1, k);
            let i = choose|i: int|
                0 <= i < n - 1 && is_sample(grid, #[trigger] samples[i]) && shows_version(
                    samples[i],
                    grid.version,
                    expected,
                );
            assert(is_sample(grid, samples[i]));
        } else {
            lemma_sample_version(sample, grid.version, expected);
            assert(is_sample(grid, samples[n - 1]));
        }
    }
}

/// No sample of a symbol of the right version is lost: its modules are among the
/// grids.
pub proof fn samples_become_grids(
    samples: Seq<SampledGrid>,
    expected: Option<u8>,
    distinct: bool,
    n: int,
    i: int,
    version: int,
)
    requires
        0 <= i < n <= samples.len(),
        shows_version(samples[i], version, expected),
    ensures
        exists|k: int|
            0 <= k < found_grids(samples, expected, distinct, n).len() && (
            #[trigger] found_grids(samples, expected, distinct, n)[k]).version == version
                && found_grids(samples, expected, distinct, n)[k].modules == samples[i].modules@,
    decreases n,
{
    let before = found_grids(samples, expected, distinct, n - 1);
    let after = found_grids(samples, expected, distinct, n);
    if i < n - 1 {
        samples_become_grids(samples, expected, distinct, n - 1, i, version);
        let k = choose|k: int|
            0 <= k < before.len() && (#[trigger] before[k]).version == version && before[k].modules
                == samples[i].modules@;
        assert(after[k] == before[k]);
    } else {
        lemma_sample_version(samples[i], version, expected);
        if distinct && is_known(before, version, samples[i].modules@) {
            let k = choose|k: int|
                0 <= k < before.len() && (#[trigger] before[k]).version == version
                    && before[k].modules == samples[i].modules@;
            assert(after[k] == before[k]);
        } else {
            assert(after == before.push(sampled_grid(version, samples[i].modules@)));
            assert(after[before.len() as int].version == version);
        }
    }
}

/// Where only new grids are asked for, no two grids are the same.
pub proof fn distinct_grids_differ(
    samples: Seq<SampledGrid>,
    expected: Option<u8>,
    n: int,
    i: int,
    j: int,
)
    requires
        0 <= n <= samples.len(),
        0 <= i < j < found_grids(samples, expected, true, n).len(),
    ensures
        found_grids(samples, expected, true, n)[i].version != found_grids(
            samples,
            expected,
            true,
            n,
        )[j].version || found_grids(samples, expected, true, n)[i].modules != found_grids(
            samples,
            expected,
            true,
            n,
        )[j].modules,
    decreases n,
{
    if n > 0 {
        let before = found_grids(samples, expected, true, n - 1);
        if j < before.len() {
            distinct_grids_differ(samples, expected, n - 1, i, j);
        } else {
            let after = found_grids(samples, expected, true, n);
            assert(after[i] == before[i]);
            assert(!is_known(before, after[j].version, after[j].modules));
        }
    }
}

/// How many of the first `n` samples show a symbol of the right version.
pub open spec fn symbol_count(samples: Seq<SampledGrid>, expected: Option<u8>, n: int) -> int
    decreases n,
{
    if n <= 0 {
        0
    } else if shows_symbol(samples[n - 1], expected) {
        symbol_count(samples, expected, n - 1) + 1
    } else {
        symbol_count(samples, expected, n - 1)
    }
}

/// Where repeated grids are kept, there are as many as samples of symbols.
pub proof fn repeated_grids_are_kept(samples: Seq<SampledGrid>, expected: Option<u8>, n: int)
    requires
        0 <= n <= samples.len(),
    ensures
        found_grids(samples, expected, false, n).len() == symbol_count(samples, expected, n),
    decreases n,
{
    if n > 0 {
        repeated_grids_are_kept(samples, expected, n - 1);
        let sample = samples[n - 1];
        let found = sample_version(sample.width as int, sample.height as int);
        if found is Some {
            lemma_sample_version(sample, found->Some_0, expected);
        }
        if shows_symbol(sample, expected) {
            let version = choose|version: int| shows_version(sample, version, expected);
            lemma_sample_version(sample, version, expected);
        }
    }
}

proof fn lemma_deformed_member(grids: Seq<GridModel>, n: int, i: int)
    requires
        0 <= n <= grids.len(),
        0 <= i < deformed_grids(grids, n).len(),
    ensures
        exists|k: int|
            0 <= k < n && (#[trigger] grids[k]).deformed && grids[k] == deformed_grids(grids, n)[i],
    decreases n,
{
    if n > 0 {
        let before = deformed_grids(grids, n - 1);
        if i < before.len() {
            lemma_deformed_member(grids, n - 1, i);
            let k = choose|k: int|
                0 <= k < n - 1 && (#[trigger] grids[k]).deformed && grids[k] == before[i];
            assert(grids[k].deformed);
        } else {
            assert(grids[n - 1].deformed);
        }
    }
}

/// How many of the first `n` grids are deformed.
pub open spec fn deformed_count(grids: Seq<GridModel>, n: int) -> int
    decreases n,
{
    if n <= 0 {
        0
    } else if grids[n - 1].deformed {
        deformed_count(grids, n - 1) + 1
    } else {
        deformed_count(grids, n - 1)
    }
}

proof fn lemma_deformed_kept(grids: Seq<GridModel>, n: int, k: int)
    requires
        0 <= k < n <= grids.len(),
        grids[k].deformed,
    ensures
        exists|i: int|
            0 <= i < deformed_grids(grids, n).len() && #[trigger] deformed_grids(grids, n)[i]
                == grids[k],
    decreases n,
{
    let before = deformed_grids(grids, n - 1);
    let after = deformed_grids(grids, n);
    if k < n - 1 {
        lemma_deformed_kept(grids, n - 1, k);
        let i = choose|i: int| 0 <= i < before.len() && #[trigger] before[i] == grids[k];
        assert(after[i] == grids[k]);
    } else {
        assert(after[before.len() as int] == grids[k]);
    }
}

proof fn lemma_deformed_count(grids: Seq<GridModel>, n: int)
    ensures
        deformed_grids(grids, n).len() == deformed_count(grids, n),
    decreases n,
{
    if n > 0 {
        lemma_deformed_count(grids, n - 1);
    }
}

/// A vote is held exactly if there are three deformed grids or more and all of them
/// have one version. It adds one deformed grid of that version.
pub proof fn three_deformed_grids_vote(grids: Seq<GridModel>)
    ensures
        ({
            let n = grids.len() as int;
            let alike = forall|i: int, j: int|
                0 <= i < n && 0 <= j < n && (#[trigger] grids[i]).deformed && (
                #[trigger] grids[j]).deformed ==> grids[i].version == grids[j].version;
            &&& with_vote(grids).len() == grids.len() + (if deformed_count(grids, n) >= 3 && alike {
                1int
            } else {
                0
            })
            &&& with_vote(grids).take(n) == grids
            &&& with_vote(grids).len() > n ==> with_vote(grids)[n].deformed && forall|i: int|
                0 <= i < n && (#[trigger] grids[i]).deformed ==> with_vote(grids)[n].version
                    == grids[i].version
        }),
{
    let n = grids.len() as int;
    let voters = deformed_grids(grids, n);
    lemma_deformed_count(grids, n);
    assert(with_vote(grids).take(n) =~= grids);
    if one_version(voters) {
        assert forall|i: int, j: int|
            0 <= i < n && 0 <= j < n && (#[trigger] grids[i]).deformed && (
            #[trigger] grids[j]).deformed implies grids[i].version == grids[j].version by {
            lemma_deformed_kept(grids, n, i);
            lemma_deformed_kept(grids, n, j);
            let a = choose|a: int| 0 <= a < voters.len() && #[trigger] voters[a] == grids[i];
            let b = choose|b: int| 0 <= b < voters.len() && #[trigger] voters[b] == grids[j];
            assert(voters[a].version == voters[0].version);
            assert(voters[b].version == voters[0].version);
        }
        assert forall|i: int| 0 <= i < n && (#[trigger] grids[i]).deformed implies grids[i].version
            == voters[0].version by {
            lemma_deformed_kept(grids, n, i);
            let a = choose|a: int| 0 <= a < voters.len() && #[trigger] voters[a] == grids[i];
            assert(voters[a].version == voters[0].version);
        }
    } else {
        let i = choose|i: int|
            0 <= i < voters.len() && (#[trigger] voters[i]).version != voters[0].version;
        lemma_deformed_member(grids, n, i);
        lemma_deformed_member(grids, n, 0);
        let a = choose|a: int|
            0 <= a < n && (#[trigger] grids[a]).deformed && grids[a] == voters[i];
        let b = choose|b: int|
            0 <= b < n && (#[trigger] grids[b]).deformed && grids[b] == voters[0];
        assert(grids[a].version != grids[b].version);
    }
}

} // verus!
