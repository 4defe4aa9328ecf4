//! How the codewords of the blocks are interleaved into one stream.

use vstd::prelude::*;

use crate::error::QrError;
use crate::layout::{
    codeword_total, ec_level_named, layout, layout_bounds, layout_fills_symbol, layout_of,
    level_named, total_codewords, valid_version, BlockSpec, EcLevel,
};

verus! {

/// The largest data length among the first `n` blocks.
pub open spec fn max_data(specs: Seq<BlockSpec>, n: int) -> int
    decreases n,
{
    if n <= 0 {
        0
    } else if specs[n - 1].data_codewords > max_data(specs, n - 1) {
        specs[n - 1].data_codewords as int
    } else {
        max_data(specs, n - 1)
    }
}

/// Block and index of the data codewords with index `d` among the first `n`
/// blocks: a block that has no such codeword is passed over.
pub open spec fn data_row(specs: Seq<BlockSpec>, d: int, n: int) -> Seq<(usize, usize)>
    decreases n,
{
    if n <= 0 {
        Seq::empty()
    } else if d < specs[n - 1].data_codewords {
        data_row(specs, d, n - 1).push(((n - 1) as usize, d as usize))
    } else {
        data_row(specs, d, n - 1)
    }
}

/// Block and index of all data codewords with an index below `d`, in stream
/// order.
pub open spec fn data_slots(specs: Seq<BlockSpec>, d: int) -> Seq<(usize, usize)>
    decreases d,
{
    if d <= 0 {
        Seq::empty()
    } else {
        data_slots(specs, d - 1) + data_row(specs, d - 1, specs.len() as int)
    }
}

/// Block and index of the `e`-th error-correction codewords among the first `n`
/// blocks.
pub open spec fn ecc_row(specs: Seq<BlockSpec>, e: int, n: int) -> Seq<(usize, usize)>
    decreases n,
{
    if n <= 0 {
        Seq::empty()
    } else {
        ecc_row(specs, e, n - 1).push(
            ((n - 1) as usize, (specs[n - 1].data_codewords + e) as usize),
        )
    }
}

/// Block and index of the first `e` error-correction codewords of every block,
/// in stream order.
pub open spec fn ecc_slots(specs: Seq<BlockSpec>, e: int) -> Seq<(usize, usize)>
    decreases e,
{
    if e <= 0 {
        Seq::empty()
    } else {
        ecc_slots(specs, e - 1) + ecc_row(specs, e - 1, specs.len() as int)
    }
}

/// Block and index of every codeword in stream order: first the data codewords
/// by index, then the error-correction codewords by index.
pub open spec fn slots(specs: Seq<BlockSpec>) -> Seq<(usize, usize)> {
    data_slots(specs, max_data(specs, specs.len() as int)) + ecc_slots(
        specs,
        specs[0].ecc_codewords as int,
    )
}

/// The stream that `blocks` interleave to.
pub open spec fn interleaved(blocks: Seq<Seq<u8>>, specs: Seq<BlockSpec>) -> Seq<u8> {
    Seq::new(
        slots(specs).len(),
        |k: int| blocks[slots(specs)[k].0 as int][slots(specs)[k].1 as int],
    )
}

/// The blocks that a stream was interleaved from.
pub open spec fn deinterleaved(stream: Seq<u8>, specs: Seq<BlockSpec>) -> Seq<Seq<u8>> {
    Seq::new(
        specs.len(),
        |b: int|
            Seq::new(
                (specs[b].data_codewords + specs[b].ecc_codewords) as nat,
                |i: int| stream[slots(specs).index_of((b as usize, i as usize))],
            ),
    )
}

/// Eight reliabilities per codeword, moved along with their codewords.
pub open spec fn deinterleaved_reliability(
    stream: Seq<u32>,
    specs: Seq<BlockSpec>,
) -> Seq<Seq<u32>> {
    Seq::new(
        specs.len(),
        |b: int|
            Seq::new(
                (8 * (specs[b].data_codewords + specs[b].ecc_codewords)) as nat,
                |i: int|
                    stream[8 * slots(specs).index_of((b as usize, (i / 8) as usize)) + i % 8],
            ),
    )
}

/// Block lists whose blocks share the error-correction length and can be
/// addressed.
pub open spec fn regular(specs: Seq<BlockSpec>) -> bool {
    &&& 1 <= specs.len() <= 256
    &&& forall|b: int|
        0 <= b < specs.len() ==> {
            &&& (#[trigger] specs[b]).ecc_codewords == specs[0].ecc_codewords
            &&& specs[b].data_codewords <= 255
            &&& specs[b].ecc_codewords <= 255
        }
}

/// Blocks with the lengths that `specs` gives.
pub open spec fn shaped(blocks: Seq<Seq<u8>>, specs: Seq<BlockSpec>) -> bool {
    &&& blocks.len() == specs.len()
    &&& forall|b: int|
        0 <= b < specs.len() ==> (#[trigger] blocks[b]).len() == specs[b].data_codewords
            + specs[b].ecc_codewords
}

/// Blocks that are long enough for what is taken from them: their own data and as
/// much error correction as the first block has.
pub open spec fn holds_slots(blocks: Seq<Seq<u8>>, specs: Seq<BlockSpec>) -> bool {
    &&& blocks.len() == specs.len()
    &&& forall|b: int|
        0 <= b < specs.len() ==> (#[trigger] blocks[b]).len() >= specs[b].data_codewords
            + specs[0].ecc_codewords
}

/// Whether every codeword of a block has an index that can be counted.
spec fn countable_slots(specs: Seq<BlockSpec>) -> bool {
    &&& 1 <= specs.len() <= usize::MAX
    &&& forall|b: int|
        0 <= b < specs.len() ==> (#[trigger] specs[b]).data_codewords + specs[0].ecc_codewords
            <= usize::MAX
}

/// Whether every slot lies in a block, as long as that is for its data and `e`
/// more.
spec fn slots_within(list: Seq<(usize, usize)>, specs: Seq<BlockSpec>, e: int) -> bool {
    forall|k: int|
        0 <= k < list.len() ==> {
            let slot = #[trigger] list[k];
            slot.0 < specs.len() && slot.1 < specs[slot.0 as int].data_codewords + e
        }
}

proof fn lemma_data_row_within(specs: Seq<BlockSpec>, d: int, n: int)
    requires
        countable_slots(specs),
        0 <= d,
        0 <= n <= specs.len(),
    ensures
        slots_within(data_row(specs, d, n), specs, 0),
    decreases n,
{
    if n > 0 {
        lemma_data_row_within(specs, d, n - 1);
    }
}

proof fn lemma_data_slots_within(specs: Seq<BlockSpec>, d: int)
    requires
        countable_slots(specs),
        0 <= d,
    ensures
        slots_within(data_slots(specs, d), specs, 0),
    decreases d,
{
    if d > 0 {
        lemma_data_slots_within(specs, d - 1);
        lemma_data_row_within(specs, d - 1, specs.len() as int);
    }
}

proof fn lemma_ecc_row_within(specs: Seq<BlockSpec>, e: int, n: int)
    requires
        countable_slots(specs),
        0 <= e < specs[0].ecc_codewords,
        0 <= n <= specs.len(),
    ensures
        slots_within(ecc_row(specs, e, n), specs, e + 1),
    decreases n,
{
    if n > 0 {
        lemma_ecc_row_within(specs, e, n - 1);
        assert(specs[n - 1].data_codewords + specs[0].ecc_codewords <= usize::MAX);
    }
}

proof fn lemma_ecc_slots_within(specs: Seq<BlockSpec>, e: int)
    requires
        countable_slots(specs),
        0 <= e <= specs[0].ecc_codewords,
    ensures
        slots_within(ecc_slots(specs, e), specs, e),
    decreases e,
{
    if e > 0 {
        lemma_ecc_slots_within(specs, e - 1);
        lemma_ecc_row_within(specs, e - 1, specs.len() as int);
    }
}

/// Interleaving takes nothing from beyond a block's data and its share of error
/// correction.
proof fn lemma_slots_within(specs: Seq<BlockSpec>)
    requires
        countable_slots(specs),
    ensures
        slots_within(slots(specs), specs, specs[0].ecc_codewords as int),
{
    lemma_max_data(specs, specs.len() as int);
    lemma_data_slots_within(specs, max_data(specs, specs.len() as int));
    lemma_ecc_slots_within(specs, specs[0].ecc_codewords as int);
}

proof fn lemma_max_data(specs: Seq<BlockSpec>, n: int)
    requires
        0 <= n <= specs.len(),
    ensures
        forall|b: int| 0 <= b < n ==> (#[trigger] specs[b]).data_codewords <= max_data(specs, n),
        0 <= max_data(specs, n),
        regular(specs) ==> max_data(specs, n) <= 255,
    decreases n,
{
    if n > 0 {
        lemma_max_data(specs, n - 1);
    }
}

spec fn minimum(a: int, b: int) -> int {
    if a <= b {
        a
    } else {
        b
    }
}

/// The data codewords with an index below `d` in the first `n` blocks.
spec fn data_below(specs: Seq<BlockSpec>, d: int, n: int) -> int
    decreases n,
{
    if n <= 0 {
        0
    } else {
        data_below(specs, d, n - 1) + minimum(specs[n - 1].data_codewords as int, d)
    }
}

proof fn lemma_data_row_len(specs: Seq<BlockSpec>, d: int, n: int)
    requires
        0 <= d,
        0 <= n <= specs.len(),
    ensures
        data_row(specs, d, n).len() == data_below(specs, d + 1, n) - data_below(specs, d, n),
    decreases n,
{
    if n > 0 {
        lemma_data_row_len(specs, d, n - 1);
    }
}

proof fn lemma_data_below_zero(specs: Seq<BlockSpec>, n: int)
    requires
        0 <= n <= specs.len(),
    ensures
        data_below(specs, 0, n) == 0,
    decreases n,
{
    if n > 0 {
        lemma_data_below_zero(specs, n - 1);
    }
}

proof fn lemma_data_slots_len(specs: Seq<BlockSpec>, d: int)
    requires
        0 <= d,
    ensures
        data_slots(specs, d).len() == data_below(specs, d, specs.len() as int),
    decreases d,
{
    let n = specs.len() as int;
    if d > 0 {
        lemma_data_slots_len(specs, d - 1);
        lemma_data_row_len(specs, d - 1, n);
    } else {
        lemma_data_below_zero(specs, n);
    }
}

proof fn lemma_ecc_row(specs: Seq<BlockSpec>, e: int, n: int)
    requires
        0 <= n <= specs.len(),
    ensures
        ecc_row(specs, e, n).len() == n,
        forall|b: int|
            0 <= b < n ==> #[trigger] ecc_row(specs, e, n)[b] == (
                b as usize,
                (specs[b].data_codewords + e) as usize,
            ),
    decreases n,
{
    if n > 0 {
        lemma_ecc_row(specs, e, n - 1);
    }
}

proof fn lemma_ecc_slots_len(specs: Seq<BlockSpec>, e: int)
    requires
        0 <= e,
    ensures
        ecc_slots(specs, e).len() == e * specs.len(),
    decreases e,
{
    if e > 0 {
        lemma_ecc_slots_len(specs, e - 1);
        lemma_ecc_row(specs, e - 1, specs.len() as int);
        assert(e * specs.len() == (e - 1) * specs.len() + specs.len()) by (nonlinear_arith);
    } else {
        assert(0 * specs.len() == 0);
    }
}

proof fn lemma_codeword_total(specs: Seq<BlockSpec>, n: int)
    requires
        regular(specs),
        0 <= n <= specs.len(),
    ensures
        codeword_total(specs, n) == data_below(specs, max_data(specs, specs.len() as int), n)
            + specs[0].ecc_codewords * n,
    decreases n,
{
    let ecc = specs[0].ecc_codewords as int;
    if n > 0 {
        lemma_codeword_total(specs, n - 1);
        lemma_max_data(specs, specs.len() as int);
        assert(ecc * n == ecc * (n - 1) + ecc) by (nonlinear_arith);
    } else {
        assert(ecc * 0 == 0);
    }
}

/// The stream has as many codewords as the blocks together.
pub proof fn slots_fill_blocks(specs: Seq<BlockSpec>)
    requires
        regular(specs),
    ensures
        slots(specs).len() == codeword_total(specs, specs.len() as int),
{
    let n = specs.len() as int;
    let ecc = specs[0].ecc_codewords as int;
    lemma_max_data(specs, n);
    lemma_data_slots_len(specs, max_data(specs, n));
    lemma_ecc_slots_len(specs, ecc);
    lemma_codeword_total(specs, n);
    vstd::arithmetic::mul::lemma_mul_is_commutative(ecc, n);
}

proof fn lemma_data_row_members(specs: Seq<BlockSpec>, d: int, n: int)
    requires
        regular(specs),
        0 <= d <= 255,
        0 <= n <= specs.len(),
    ensures
        forall|k: int|
            0 <= k < data_row(specs, d, n).len() ==> {
                let slot = #[trigger] data_row(specs, d, n)[k];
                slot.0 < n && slot.1 == d && d < specs[slot.0 as int].data_codewords
            },
        forall|j: int, k: int|
            0 <= j < k < data_row(specs, d, n).len() ==> (#[trigger] data_row(specs, d, n)[j]).0
                < (#[trigger] data_row(specs, d, n)[k]).0,
        forall|b: int|
            0 <= b < n && d < (#[trigger] specs[b]).data_codewords ==> data_row(
                specs,
                d,
                n,
            ).contains((b as usize, d as usize)),
    decreases n,
{
    if n > 0 {
        lemma_data_row_members(specs, d, n - 1);
        let previous = data_row(specs, d, n - 1);
        let row = data_row(specs, d, n);
        assert forall|b: int|
            0 <= b < n && d < (#[trigger] specs[b]).data_codewords implies row.contains(
            (b as usize, d as usize),
        ) by {
            if b < n - 1 {
                let k = previous.index_of((b as usize, d as usize));
                assert(previous[k] == (b as usize, d as usize));
                assert(row[k] == (b as usize, d as usize));
            } else {
                assert(row[row.len() - 1] == (b as usize, d as usize));
            }
        }
    }
}

proof fn lemma_data_slots_members(specs: Seq<BlockSpec>, d: int)
    requires
        regular(specs),
        0 <= d <= 255,
    ensures
        forall|k: int|
            0 <= k < data_slots(specs, d).len() ==> {
                let slot = #[trigger] data_slots(specs, d)[k];
                slot.0 < specs.len() && slot.1 < d && slot.1
                    < specs[slot.0 as int].data_codewords
            },
        forall|j: int, k: int|
            0 <= j < k < data_slots(specs, d).len() ==> #[trigger] data_slots(specs, d)[j]
                != #[trigger] data_slots(specs, d)[k],
        forall|b: int, i: int|
            0 <= b < specs.len() && 0 <= i < d && i < specs[b].data_codewords
                ==> #[trigger] data_slots(specs, d).contains((b as usize, i as usize)),
    decreases d,
{
    if d > 0 {
        lemma_data_slots_members(specs, d - 1);
        let n = specs.len() as int;
        lemma_data_row_members(specs, d - 1, n);
        let previous = data_slots(specs, d - 1);
        let row = data_row(specs, d - 1, n);
        let all = data_slots(specs, d);
        assert forall|j: int, k: int| 0 <= j < k < all.len() implies #[trigger] all[j]
            != #[trigger] all[k] by {
            if j >= previous.len() {
                assert(all[j] == row[j - previous.len()]);
                assert(all[k] == row[k - previous.len()]);
            } else if k >= previous.len() {
                assert(all[j] == previous[j]);
                assert(all[k] == row[k - previous.len()]);
            } else {
                assert(all[j] == previous[j]);
                assert(all[k] == previous[k]);
            }
        }
        assert forall|k: int| 0 <= k < all.len() implies {
            let slot = #[trigger] all[k];
            slot.0 < specs.len() && slot.1 < d && slot.1 < specs[slot.0 as int].data_codewords
        } by {
            if k < previous.len() {
                assert(all[k] == previous[k]);
            } else {
                assert(all[k] == row[k - previous.len()]);
            }
        }
        assert forall|b: int, i: int|
            0 <= b < specs.len() && 0 <= i < d && i < specs[b].data_codewords
                implies #[trigger] all.contains((b as usize, i as usize)) by {
            let slot = (b as usize, i as usize);
            if i < d - 1 {
                assert(previous.contains(slot));
                let k = previous.index_of(slot);
                assert(all[k] == slot);
            } else {
                let spec = specs[b];
                assert(row.contains(slot));
                let k = row.index_of(slot);
                assert(all[previous.len() + k] == slot);
            }
        }
    }
}

proof fn lemma_ecc_slots_members(specs: Seq<BlockSpec>, e: int)
    requires
        regular(specs),
        0 <= e <= specs[0].ecc_codewords,
    ensures
        forall|k: int|
            0 <= k < ecc_slots(specs, e).len() ==> {
                let slot = #[trigger] ecc_slots(specs, e)[k];
                slot.0 < specs.len() && specs[slot.0 as int].data_codewords <= slot.1
                    < specs[slot.0 as int].data_codewords + e
            },
        forall|j: int, k: int|
            0 <= j < k < ecc_slots(specs, e).len() ==> #[trigger] ecc_slots(specs, e)[j]
                != #[trigger] ecc_slots(specs, e)[k],
        forall|b: int, i: int|
            0 <= b < specs.len() && specs[b].data_codewords <= i < specs[b].data_codewords + e
                ==> #[trigger] ecc_slots(specs, e).contains((b as usize, i as usize)),
    decreases e,
{
    if e > 0 {
        lemma_ecc_slots_members(specs, e - 1);
        let n = specs.len() as int;
        lemma_ecc_row(specs, e - 1, n);
        let previous = ecc_slots(specs, e - 1);
        let row = ecc_row(specs, e - 1, n);
        let all = ecc_slots(specs, e);
        assert forall|k: int| 0 <= k < all.len() implies {
            let slot = #[trigger] all[k];
            slot.0 < specs.len() && specs[slot.0 as int].data_codewords <= slot.1
                < specs[slot.0 as int].data_codewords + e
        } by {
            if k < previous.len() {
                assert(all[k] == previous[k]);
            } else {
                assert(all[k] == row[k - previous.len()]);
            }
        }
        assert forall|j: int, k: int| 0 <= j < k < all.len() implies #[trigger] all[j]
            != #[trigger] all[k] by {
            if j >= previous.len() {
                assert(all[j] == row[j - previous.len()]);
                assert(all[k] == row[k - previous.len()]);
            } else if k >= previous.len() {
                assert(all[j] == previous[j]);
                assert(all[k] == row[k - previous.len()]);
            } else {
                assert(all[j] == previous[j]);
                assert(all[k] == previous[k]);
            }
        }
        assert forall|b: int, i: int|
            0 <= b < specs.len() && specs[b].data_codewords <= i < specs[b].data_codewords + e
                implies #[trigger] all.contains((b as usize, i as usize)) by {
            let slot = (b as usize, i as usize);
            if i < specs[b].data_codewords + e - 1 {
                assert(previous.contains(slot));
                let k = previous.index_of(slot);
                assert(all[k] == slot);
            } else {
                assert(all[previous.len() + b] == row[b]);
                assert(all[previous.len() + b] == slot);
            }
        }
    }
}

/// The stream order visits every codeword of every block exactly once.
pub proof fn slots_enumerate_blocks(specs: Seq<BlockSpec>)
    requires
        regular(specs),
    ensures
        forall|k: int|
            0 <= k < slots(specs).len() ==> {
                let slot = #[trigger] slots(specs)[k];
                slot.0 < specs.len() && slot.1 < specs[slot.0 as int].data_codewords
                    + specs[slot.0 as int].ecc_codewords
            },
        forall|j: int, k: int|
            0 <= j < slots(specs).len() && 0 <= k < slots(specs).len() && j != k
                ==> #[trigger] slots(specs)[j] != #[trigger] slots(specs)[k],
        forall|b: int, i: int|
            0 <= b < specs.len() && 0 <= i < specs[b].data_codewords + specs[b].ecc_codewords
                ==> #[trigger] slots(specs).contains((b as usize, i as usize)),
{
    let n = specs.len() as int;
    lemma_max_data(specs, n);
    let data = data_slots(specs, max_data(specs, n));
    let ecc = ecc_slots(specs, specs[0].ecc_codewords as int);
    let all = slots(specs);
    lemma_data_slots_members(specs, max_data(specs, n));
    lemma_ecc_slots_members(specs, specs[0].ecc_codewords as int);
    assert forall|k: int| 0 <= k < all.len() implies {
        let slot = #[trigger] all[k];
        slot.0 < specs.len() && slot.1 < specs[slot.0 as int].data_codewords
            + specs[slot.0 as int].ecc_codewords
    } by {
        if k < data.len() {
            assert(all[k] == data[k]);
        } else {
            assert(all[k] == ecc[k - data.len()]);
        }
    }
    assert forall|j: int, k: int|
        0 <= j < all.len() && 0 <= k < all.len() && j != k implies #[trigger] all[j]
        != #[trigger] all[k] by {
        let (lo, hi) = if j < k {
            (j, k)
        } else {
            (k, j)
        };
        if lo >= data.len() {
            assert(all[lo] == ecc[lo - data.len()]);
            assert(all[hi] == ecc[hi - data.len()]);
        } else if hi >= data.len() {
            assert(all[lo] == data[lo]);
            assert(all[hi] == ecc[hi - data.len()]);
        } else {
            assert(all[lo] == data[lo]);
            assert(all[hi] == data[hi]);
        }
    }
    assert forall|b: int, i: int|
        0 <= b < specs.len() && 0 <= i < specs[b].data_codewords + specs[b].ecc_codewords
            implies #[trigger] all.contains((b as usize, i as usize)) by {
        let slot = (b as usize, i as usize);
        if i < specs[b].data_codewords {
            assert(data.contains(slot));
            let k = data.index_of(slot);
            assert(all[k] == slot);
        } else {
            assert(ecc.contains(slot));
            let k = ecc.index_of(slot);
            assert(all[data.len() + k] == slot);
        }
    }
}

proof fn lemma_slot_index(specs: Seq<BlockSpec>, k: int)
    requires
        regular(specs),
        0 <= k < slots(specs).len(),
    ensures
        slots(specs).index_of(slots(specs)[k]) == k,
{
    slots_enumerate_blocks(specs);
    let slot = slots(specs)[k];
    assert(slots(specs).contains(slot));
    let j = slots(specs).index_of(slot);
    assert(slots(specs)[j] == slot);
}

/// Taking a stream apart and interleaving it again gives the stream.
pub proof fn interleaving_undoes_deinterleaving(stream: Seq<u8>, specs: Seq<BlockSpec>)
    requires
        regular(specs),
        stream.len() == codeword_total(specs, specs.len() as int),
    ensures
        interleaved(deinterleaved(stream, specs), specs) == stream,
{
    slots_fill_blocks(specs);
    slots_enumerate_blocks(specs);
    let back = interleaved(deinterleaved(stream, specs), specs);
    assert forall|k: int| 0 <= k < stream.len() implies back[k] == stream[k] by {
        lemma_slot_index(specs, k);
        let slot = slots(specs)[k];
    }
    assert(back =~= stream);
}

/// Interleaving blocks and taking the stream apart gives the blocks.
pub proof fn deinterleaving_undoes_interleaving(blocks: Seq<Seq<u8>>, specs: Seq<BlockSpec>)
    requires
        regular(specs),
        shaped(blocks, specs),
    ensures
        deinterleaved(interleaved(blocks, specs), specs) == blocks,
{
    slots_enumerate_blocks(specs);
    let back = deinterleaved(interleaved(blocks, specs), specs);
    assert forall|b: int| 0 <= b < blocks.len() implies #[trigger] back[b] == blocks[b] by {
        assert forall|i: int| 0 <= i < blocks[b].len() implies back[b][i] == blocks[b][i] by {
            assert(slots(specs).contains((b as usize, i as usize)));
            let k = slots(specs).index_of((b as usize, i as usize));
            assert(slots(specs)[k] == (b as usize, i as usize));
        }
        assert(back[b] =~= blocks[b]);
    }
    assert(back =~= blocks);
}

/// The blocks of every layout can be interleaved.
pub proof fn layout_is_regular(version: int, level: EcLevel)
    requires
        valid_version(version),
    ensures
        regular(layout(version, level)),
{
    layout_bounds(version, level);
    let specs = layout(version, level);
    assert forall|b: int| 0 <= b < specs.len() implies {
        &&& (#[trigger] specs[b]).ecc_codewords == specs[0].ecc_codewords
        &&& specs[b].data_codewords <= 255
        &&& specs[b].ecc_codewords <= 255
    } by {
        let first = specs[0];
    }
}

/// Lists block and index of every codeword in stream order.
fn stream_slots(specs: &Vec<BlockSpec>) -> (list: Vec<(usize, usize)>)
    requires
        countable_slots(specs@),
    ensures
        list@ == slots(specs@),
{
    let n: usize = specs.len();
    let mut most: usize = 0;
    let mut b: usize = 0;
    while b < n
        invariant
            n == specs@.len(),
            b <= n,
            most == max_data(specs@, b as int),
        decreases n - b,
    {
        if specs[b].data_codewords > most {
            most = specs[b].data_codewords;
        }
        b += 1;
    }
    proof {
        lemma_max_data(specs@, n as int);
    }
    let mut list: Vec<(usize, usize)> = Vec::new();
    let mut d: usize = 0;
    while d < most
        invariant
            n == specs@.len(),
            d <= most,
            list@ == data_slots(specs@, d as int),
        decreases most - d,
    {
        let mut b: usize = 0;
        while b < n
            invariant
                n == specs@.len(),
                d < most,
                b <= n,
                list@ == data_slots(specs@, d as int) + data_row(specs@, d as int, b as int),
            decreases n - b,
        {
            if d < specs[b].data_codewords {
                list.push((b, d));
            }
            b += 1;
            assert(list@ =~= data_slots(specs@, d as int) + data_row(specs@, d as int, b as int));
        }
        d += 1;
    }
    let ecc: usize = specs[0].ecc_codewords;
    let ghost data = list@;
    let mut e: usize = 0;
    while e < ecc
        invariant
            countable_slots(specs@),
            n == specs@.len(),
            ecc == specs@[0].ecc_codewords,
            e <= ecc,
            list@ == data + ecc_slots(specs@, e as int),
        decreases ecc - e,
    {
        let mut b: usize = 0;
        while b < n
            invariant
                countable_slots(specs@),
                n == specs@.len(),
                ecc == specs@[0].ecc_codewords,
                e < ecc,
                b <= n,
                list@ == data + ecc_slots(specs@, e as int) + ecc_row(
                    specs@,
                    e as int,
                    b as int,
                ),
            decreases n - b,
        {
            assert(specs@[b as int].data_codewords + specs@[0].ecc_codewords <= usize::MAX);
            list.push((b, specs[b].data_codewords + e));
            b += 1;
            assert(list@ =~= data + ecc_slots(specs@, e as int) + ecc_row(
                specs@,
                e as int,
                b as int,
            ));
        }
        e += 1;
        assert(list@ =~= data + ecc_slots(specs@, e as int));
    }
    list
}

/// The contents of a list of blocks.
pub open spec fn contents<T>(blocks: Seq<Vec<T>>) -> Seq<Seq<T>> {
    Seq::new(blocks.len(), |b: int| blocks[b]@)
}

/// Interleaves `blocks` into one stream.
pub fn interleave_native(blocks: &Vec<Vec<u8>>, specs: &Vec<BlockSpec>) -> (stream: Result<
    Vec<u8>,
    QrError,
>)
    requires
        blocks@.len() == specs@.len() && blocks@.len() > 0 ==> holds_slots(
            contents(blocks@),
            specs@,
        ),
    ensures
        stream is Ok <==> blocks@.len() == specs@.len() && blocks@.len() > 0,
        stream matches Ok(bytes) ==> bytes@ == interleaved(contents(blocks@), specs@),
        stream matches Err(error) ==> error == QrError::BlockCount,
{
    if blocks.len() != specs.len() || blocks.len() == 0 {
        return Err(QrError::BlockCount);
    }
    proof {
        assert forall|b: int| 0 <= b < specs@.len() implies (
        #[trigger] specs@[b]).data_codewords + specs@[0].ecc_codewords <= usize::MAX by {
            let block = blocks@[b];
            assert(block@.len() == block.len());
            assert(contents(blocks@)[b] == block@);
        }
        lemma_slots_within(specs@);
    }
    let list: Vec<(usize, usize)> = stream_slots(specs);
    let mut stream: Vec<u8> = Vec::new();
    let mut k: usize = 0;
    while k < list.len()
        invariant
            holds_slots(contents(blocks@), specs@),
            slots_within(slots(specs@), specs@, specs@[0].ecc_codewords as int),
            list@ == slots(specs@),
            k <= list@.len(),
            stream@ == interleaved(contents(blocks@), specs@).take(k as int),
        decreases list@.len() - k,
    {
        let (b, i) = list[k];
        proof {
            assert(slots(specs@)[k as int] == (b, i));
            assert(contents(blocks@)[b as int].len() >= specs@[b as int].data_codewords
                + specs@[0].ecc_codewords);
        }
        stream.push(blocks[b][i]);
        assert(stream@ =~= interleaved(contents(blocks@), specs@).take(k + 1));
        k += 1;
    }
    assert(interleaved(contents(blocks@), specs@).take(k as int) =~= interleaved(
        contents(blocks@),
        specs@,
    ));
    Ok(stream)
}

/// Blocks, their bit reliabilities and their lengths.
#[derive(Debug)]
pub struct Deinterleaved {
    pub blocks: Vec<Vec<u8>>,
    pub reliabilities: Vec<Vec<u32>>,
    pub specs: Vec<BlockSpec>,
}

fn zero_blocks(specs: &Vec<BlockSpec>) -> (blocks: (Vec<Vec<u8>>, Vec<Vec<u32>>))
    requires
        regular(specs@),
    ensures
        blocks.0@.len() == specs@.len(),
        blocks.1@.len() == specs@.len(),
        forall|b: int|
            0 <= b < specs@.len() ==> (#[trigger] blocks.0@[b])@.len() == specs@[b].data_codewords
                + specs@[b].ecc_codewords,
        forall|b: int|
            0 <= b < specs@.len() ==> (#[trigger] blocks.1@[b])@.len() == 8 * (
            specs@[b].data_codewords + specs@[b].ecc_codewords),
{
    let mut bytes: Vec<Vec<u8>> = Vec::new();
    let mut reliabilities: Vec<Vec<u32>> = Vec::new();
    let mut b: usize = 0;
    while b < specs.len()
        invariant
            regular(specs@),
            b <= specs@.len(),
            bytes@.len() == b,
            reliabilities@.len() == b,
            forall|c: int|
                0 <= c < b ==> (#[trigger] bytes@[c])@.len() == specs@[c].data_codewords
                    + specs@[c].ecc_codewords,
            forall|c: int|
                0 <= c < b ==> (#[trigger] reliabilities@[c])@.len() == 8 * (
                specs@[c].data_codewords + specs@[c].ecc_codewords),
        decreases specs@.len() - b,
    {
        let length: usize = specs[b].data_codewords + specs[b].ecc_codewords;
        bytes.push(vec![0u8; length]);
        reliabilities.push(vec![0u32; length * 8]);
        b += 1;
    }
    (bytes, reliabilities)
}

pub(crate) fn deinterleave_of(
    codewords: &[u8],
    bit_reliability: &[u32],
    version: u8,
    level: EcLevel,
) -> (taken: Deinterleaved)
    requires
        valid_version(version as int),
        codewords@.len() == total_codewords(version as int),
        bit_reliability@.len() == 8 * codewords@.len(),
    ensures
        taken.specs@ == layout(version as int, level),
        contents(taken.blocks@) == deinterleaved(codewords@, taken.specs@),
        contents(taken.reliabilities@) == deinterleaved_reliability(bit_reliability@, taken.specs@),
{
    let specs: Vec<BlockSpec> = layout_of(version, level);
    proof {
        layout_is_regular(version as int, level);
        layout_fills_symbol(version as int, level);
        slots_fill_blocks(specs@);
        slots_enumerate_blocks(specs@);
    }
    let list: Vec<(usize, usize)> = stream_slots(&specs);
    let (mut blocks, mut reliabilities) = zero_blocks(&specs);
    let bits: usize = bit_reliability.len();
    let mut k: usize = 0;
    while k < codewords.len()
        invariant
            regular(specs@),
            list@ == slots(specs@),
            list@.len() == codewords@.len(),
            bits == bit_reliability@.len() == 8 * codewords@.len(),
            k <= codewords@.len(),
            blocks@.len() == specs@.len(),
            reliabilities@.len() == specs@.len(),
            forall|b: int|
                0 <= b < specs@.len() ==> (#[trigger] blocks@[b])@.len() == specs@[b].data_codewords
                    + specs@[b].ecc_codewords,
            forall|b: int|
                0 <= b < specs@.len() ==> (#[trigger] reliabilities@[b])@.len() == 8 * (
                specs@[b].data_codewords + specs@[b].ecc_codewords),
            forall|j: int|
                #![trigger list@[j]]
                0 <= j < k ==> {
                    let slot = list@[j];
                    &&& blocks@[slot.0 as int]@[slot.1 as int] == codewords@[j]
                    &&& forall|bit: int|
                        0 <= bit < 8 ==> #[trigger] reliabilities@[slot.0 as int]@[8 * slot.1
                            + bit] == bit_reliability@[8 * j + bit]
                },
        decreases codewords@.len() - k,
    {
        let (b, i) = list[k];
        proof {
            slots_enumerate_blocks(specs@);
            assert(slots(specs@)[k as int] == (b, i));
        }
        let ghost old_blocks = blocks@;
        let ghost old_reliabilities = reliabilities@;
        blocks[b][i] = codewords[k];
        let mut bit: usize = 0;
        while bit < 8
            invariant
                regular(specs@),
                list@ == slots(specs@),
                list@.len() == codewords@.len(),
                bits == bit_reliability@.len() == 8 * codewords@.len(),
                k < codewords@.len(),
                list@[k as int] == (b, i),
                b < specs@.len(),
                i < specs@[b as int].data_codewords + specs@[b as int].ecc_codewords,
                old_reliabilities.len() == specs@.len(),
                reliabilities@.len() == specs@.len(),
                forall|b: int|
                    0 <= b < specs@.len() ==> (#[trigger] reliabilities@[b])@.len() == 8 * (
                    specs@[b].data_codewords + specs@[b].ecc_codewords),
                bit <= 8,
                forall|c: int|
                    0 <= c < specs@.len() && c != b ==> #[trigger] reliabilities@[c]
                        == old_reliabilities[c],
                forall|t: int|
                    0 <= t < reliabilities@[b as int]@.len() && !(8 * i <= t < 8 * i + bit)
                        ==> #[trigger] reliabilities@[b as int]@[t]
                        == old_reliabilities[b as int]@[t],
                forall|t: int|
                    0 <= t < bit ==> #[trigger] reliabilities@[b as int]@[8 * i + t]
                        == bit_reliability@[8 * k + t],
            decreases 8 - bit,
        {
            let value: u32 = bit_reliability[8 * k + bit];
            reliabilities[b][8 * i + bit] = value;
            bit += 1;
        }
        proof {
            assert forall|j: int| #![trigger list@[j]] 0 <= j <= k implies {
                let slot = list@[j];
                &&& blocks@[slot.0 as int]@[slot.1 as int] == codewords@[j]
                &&& forall|bit: int|
                    0 <= bit < 8 ==> #[trigger] reliabilities@[slot.0 as int]@[8 * slot.1 + bit]
                        == bit_reliability@[8 * j + bit]
            } by {
                let slot = list@[j];
                if j < k {
                    slots_enumerate_blocks(specs@);
                    assert(slots(specs@)[j] == slot);
                    assert(slots(specs@)[j] != slots(specs@)[k as int]);
                    assert(old_blocks[slot.0 as int]@[slot.1 as int] == codewords@[j]);
                    assert forall|bit: int| 0 <= bit < 8 implies #[trigger] reliabilities@[
                    slot.0 as int]@[8 * slot.1 + bit] == bit_reliability@[8 * j + bit] by {
                        assert(old_reliabilities[slot.0 as int]@[8 * slot.1 + bit]
                            == bit_reliability@[8 * j + bit]);
                    }
                }
            }
        }
        k += 1;
    }
    proof {
        slots_enumerate_blocks(specs@);
        let expected = deinterleaved(codewords@, specs@);
        let soft = deinterleaved_reliability(bit_reliability@, specs@);
        assert forall|b: int| 0 <= b < specs@.len() implies contents(blocks@)[b] == expected[b] by {
            assert forall|i: int| 0 <= i < expected[b].len() implies blocks@[b]@[i]
                == expected[b][i] by {
                assert(slots(specs@).contains((b as usize, i as usize)));
                let j = slots(specs@).index_of((b as usize, i as usize));
                assert(list@[j] == (b as usize, i as usize));
            }
            assert(blocks@[b]@ =~= expected[b]);
        }
        assert(contents(blocks@) =~= expected);
        assert forall|b: int| 0 <= b < specs@.len() implies contents(reliabilities@)[b]
            == soft[b] by {
            assert forall|t: int| 0 <= t < soft[b].len() implies reliabilities@[b]@[t]
                == soft[b][t] by {
                let i = t / 8;
                assert(slots(specs@).contains((b as usize, i as usize)));
                let j = slots(specs@).index_of((b as usize, i as usize));
                assert(list@[j] == (b as usize, i as usize));
                assert(reliabilities@[b]@[8 * i + t % 8] == bit_reliability@[8 * j + t % 8]);
            }
            assert(reliabilities@[b]@ =~= soft[b]);
        }
        assert(contents(reliabilities@) =~= soft);
    }
    Deinterleaved { blocks, reliabilities, specs }
}

/// Why a stream cannot be taken apart: its reliabilities are looked at first,
/// then version, level and length.
pub open spec fn stream_refusal(
    codewords: nat,
    reliabilities: nat,
    version: u8,
    ec_level: Seq<char>,
) -> Option<QrError> {
    if reliabilities != 8 * codewords {
        Some(QrError::ReliabilityCount)
    } else if !valid_version(version as int) {
        Some(QrError::Version)
    } else if level_named(ec_level) is None {
        Some(QrError::EcLevel)
    } else if codewords != total_codewords(version as int) {
        Some(QrError::LayoutMismatch)
    } else {
        None
    }
}

pub(crate) fn check_stream(
    codewords: &[u8],
    reliabilities: usize,
    version: u8,
    ec_level: &str,
) -> (checked: Result<EcLevel, QrError>)
    ensures
        match stream_refusal(codewords@.len(), reliabilities as nat, version, ec_level@) {
            Some(error) => checked == Err::<EcLevel, QrError>(error),
            None => checked is Ok && level_named(ec_level@) == Some(checked->Ok_0),
        },
{
    if codewords.len() > usize::MAX / 8 || reliabilities != codewords.len() * 8 {
        return Err(QrError::ReliabilityCount);
    }
    if version < 1 || version > 40 {
        return Err(QrError::Version);
    }
    match ec_level_named(ec_level) {
        Ok(level) => if codewords.len() != crate::layout::raw_codewords(version) {
            Err(QrError::LayoutMismatch)
        } else {
            Ok(level)
        },
        Err(error) => Err(error),
    }
}

/// Takes the stream of a symbol apart into its blocks.
pub fn deinterleave_native(
    codewords: &[u8],
    bit_reliability: &[u32],
    version: u8,
    ec_level: &str,
) -> (taken: Result<Deinterleaved, QrError>)
    ensures
        match stream_refusal(codewords@.len(), bit_reliability@.len(), version, ec_level@) {
            Some(error) => taken is Err && taken->Err_0 == error,
            None => taken is Ok && {
                let value = taken->Ok_0;
                &&& value.specs@ == layout(version as int, level_named(ec_level@)->Some_0)
                &&& contents(value.blocks@) == deinterleaved(codewords@, value.specs@)
                &&& contents(value.reliabilities@) == deinterleaved_reliability(
                    bit_reliability@,
                    value.specs@,
                )
            },
        },
{
    match check_stream(codewords, bit_reliability.len(), version, ec_level) {
        Ok(level) => Ok(deinterleave_of(codewords, bit_reliability, version, level)),
        Err(error) => Err(error),
    }
}

} // verus!
