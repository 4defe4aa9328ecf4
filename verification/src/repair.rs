//! Rebuilding what follows the payload of a symbol.

use vstd::prelude::*;

use crate::codewords::FULL_RELIABILITY;
use crate::error::QrError;
use crate::interleave::{
    check_stream, contents, deinterleave_of, deinterleaved, deinterleaving_undoes_interleaving,
    interleave_native, interleaved, layout_is_regular, shaped, stream_refusal, Deinterleaved,
};
use crate::layout::{
    codeword_total, data_total, layout, layout_bounds, layout_fills_symbol, level_named,
    total_codewords, valid_version, BlockSpec, EcLevel,
};
use crate::reed_solomon_code::{is_code_word, rs_encode, rs_encoded};
use crate::segments::{canonicalize_qr_data_tail, terminator, with_canonical_tail};

verus! {

/// A corrected codeword stream. Search costs count half units.
#[derive(Debug)]
pub struct CorrectedStream {
    pub codewords: Vec<u8>,
    pub corrected_symbols: usize,
    pub search_cost: u64,
}

/// The data codewords of the first `n` blocks, one block after the other.
pub open spec fn joined_data(blocks: Seq<Seq<u8>>, specs: Seq<BlockSpec>, n: int) -> Seq<u8>
    decreases n,
{
    if n <= 0 {
        Seq::empty()
    } else {
        joined_data(blocks, specs, n - 1) + blocks[n - 1].take(
            specs[n - 1].data_codewords as int,
        )
    }
}

/// The blocks that carry `data`, each with its error-correction codewords.
pub open spec fn encoded_blocks(data: Seq<u8>, specs: Seq<BlockSpec>) -> Seq<Seq<u8>> {
    Seq::new(
        specs.len(),
        |b: int|
            rs_encoded(
                data.subrange(data_total(specs, b), data_total(specs, b + 1)),
                specs[b].ecc_codewords as nat,
            ),
    )
}

/// In how many of the first `n` places two sequences differ.
pub open spec fn differences(a: Seq<u8>, b: Seq<u8>, n: int) -> int
    decreases n,
{
    if n <= 0 {
        0
    } else {
        differences(a, b, n - 1) + (if a[n - 1] != b[n - 1] {
            1int
        } else {
            0
        })
    }
}

/// The stream with everything after its payload rebuilt, if its segments can
/// be read to their end.
pub open spec fn rebuilt_stream(codewords: Seq<u8>, version: int, level: EcLevel) -> Option<
    Seq<u8>,
> {
    let specs = layout(version, level);
    let data = joined_data(deinterleaved(codewords, specs), specs, specs.len() as int);
    match terminator(data, version) {
        Some(start) => Some(
            interleaved(encoded_blocks(with_canonical_tail(data, start), specs), specs),
        ),
        None => None,
    }
}

proof fn lemma_joined_len(blocks: Seq<Seq<u8>>, specs: Seq<BlockSpec>, n: int)
    requires
        shaped(blocks, specs),
        0 <= n <= specs.len(),
    ensures
        joined_data(blocks, specs, n).len() == data_total(specs, n),
        0 <= data_total(specs, n) <= codeword_total(specs, n),
    decreases n,
{
    if n > 0 {
        lemma_joined_len(blocks, specs, n - 1);
        assert(blocks[n - 1].len() == specs[n - 1].data_codewords + specs[n - 1].ecc_codewords);
    }
}

proof fn lemma_totals_rise(specs: Seq<BlockSpec>, m: int, n: int)
    requires
        0 <= m <= n <= specs.len(),
    ensures
        0 <= data_total(specs, m) <= data_total(specs, n),
    decreases n,
{
    if m < n {
        lemma_totals_rise(specs, m, n - 1);
    } else if m > 0 {
        lemma_totals_rise(specs, m - 1, n - 1);
    }
}

/// Blocks that start with consecutive parts of `data` join to `data`.
proof fn lemma_joined_parts(blocks: Seq<Seq<u8>>, data: Seq<u8>, specs: Seq<BlockSpec>, n: int)
    requires
        blocks.len() == specs.len(),
        0 <= n <= specs.len(),
        data.len() == data_total(specs, specs.len() as int),
        forall|b: int|
            0 <= b < n ==> (#[trigger] blocks[b]).take(specs[b].data_codewords as int)
                == data.subrange(data_total(specs, b), data_total(specs, b + 1)),
    ensures
        joined_data(blocks, specs, n) == data.take(data_total(specs, n)),
    decreases n,
{
    lemma_totals_rise(specs, n, specs.len() as int);
    if n > 0 {
        lemma_joined_parts(blocks, data, specs, n - 1);
        lemma_totals_rise(specs, n - 1, n);
        assert(blocks[n - 1].take(specs[n - 1].data_codewords as int) == data.subrange(
            data_total(specs, n - 1),
            data_total(specs, n),
        ));
        assert(joined_data(blocks, specs, n) =~= data.take(data_total(specs, n)));
    } else {
        assert(joined_data(blocks, specs, n) =~= data.take(0));
    }
}

/// Joins the data codewords of all blocks.
fn join_data(blocks: &Vec<Vec<u8>>, specs: &Vec<BlockSpec>) -> (data: Vec<u8>)
    requires
        shaped(contents(blocks@), specs@),
    ensures
        data@ == joined_data(contents(blocks@), specs@, specs@.len() as int),
{
    let mut data: Vec<u8> = Vec::new();
    let mut b: usize = 0;
    while b < specs.len()
        invariant
            shaped(contents(blocks@), specs@),
            b <= specs@.len(),
            data@ == joined_data(contents(blocks@), specs@, b as int),
        decreases specs@.len() - b,
    {
        let ghost before = data@;
        let ghost block = contents(blocks@)[b as int];
        assert(block.len() == specs@[b as int].data_codewords + specs@[b as int].ecc_codewords);
        let mut i: usize = 0;
        while i < specs[b].data_codewords
            invariant
                b < specs@.len() == blocks@.len(),
                block == blocks@[b as int]@,
                block.len() >= specs@[b as int].data_codewords,
                i <= specs@[b as int].data_codewords,
                data@ == before + block.take(i as int),
            decreases specs@[b as int].data_codewords - i,
        {
            data.push(blocks[b][i]);
            i += 1;
            assert(data@ =~= before + block.take(i as int));
        }
        b += 1;
    }
    data
}

/// Encodes `data` into the blocks of a layout.
fn encode_blocks(data: &Vec<u8>, specs: &Vec<BlockSpec>, Ghost(version): Ghost<int>, Ghost(level):
    Ghost<EcLevel>) -> (blocks: Vec<Vec<u8>>)
    requires
        valid_version(version),
        specs@ == layout(version, level),
        data@.len() == data_total(specs@, specs@.len() as int),
    ensures
        contents(blocks@) == encoded_blocks(data@, specs@),
        shaped(contents(blocks@), specs@),
        joined_data(contents(blocks@), specs@, specs@.len() as int) == data@,
        forall|b: int|
            0 <= b < specs@.len() ==> is_code_word(
                #[trigger] contents(blocks@)[b],
                specs@[b].ecc_codewords as int,
            ),
{
    let mut blocks: Vec<Vec<u8>> = Vec::new();
    let length: usize = data.len();
    let mut cursor: usize = 0;
    let mut b: usize = 0;
    while b < specs.len()
        invariant
            valid_version(version),
            specs@ == layout(version, level),
            length == data@.len() == data_total(specs@, specs@.len() as int),
            b <= specs@.len(),
            cursor == data_total(specs@, b as int),
            blocks@.len() == b,
            forall|c: int|
                0 <= c < b ==> {
                    let block = (#[trigger] blocks@[c])@;
                    let part = data@.subrange(data_total(specs@, c), data_total(specs@, c + 1));
                    &&& block == rs_encoded(part, specs@[c].ecc_codewords as nat)
                    &&& block.len() == specs@[c].data_codewords + specs@[c].ecc_codewords
                    &&& block.take(specs@[c].data_codewords as int) == part
                    &&& is_code_word(block, specs@[c].ecc_codewords as int)
                },
        decreases specs@.len() - b,
    {
        proof {
            lemma_totals_rise(specs@, b + 1, specs@.len() as int);
            layout_bounds(version, level);
            let spec = layout(version, level)[b as int];
        }
        let end: usize = cursor + specs[b].data_codewords;
        let part: &[u8] = vstd::slice::slice_subrange(data.as_slice(), cursor, end);
        blocks.push(rs_encode(part, specs[b].ecc_codewords));
        cursor = end;
        b += 1;
    }
    proof {
        assert(contents(blocks@) =~= encoded_blocks(data@, specs@));
        assert forall|c: int| 0 <= c < specs@.len() implies (#[trigger] contents(blocks@)[c]).take(
            specs@[c].data_codewords as int,
        ) == data@.subrange(data_total(specs@, c), data_total(specs@, c + 1)) by {
            let block = blocks@[c];
        }
        lemma_joined_parts(contents(blocks@), data@, specs@, specs@.len() as int);
        assert(data@.take(data@.len() as int) =~= data@);
    }
    blocks
}

fn count_differences(a: &[u8], b: &Vec<u8>) -> (count: usize)
    requires
        a@.len() == b@.len(),
    ensures
        count == differences(a@, b@, a@.len() as int),
        count <= a@.len(),
        count == 0 ==> a@ == b@,
        count > 0 ==> a@ != b@,
{
    let mut count: usize = 0;
    let mut i: usize = 0;
    while i < a.len()
        invariant
            a@.len() == b@.len(),
            i <= a@.len(),
            count == differences(a@, b@, i as int),
            count <= i,
            count == 0 ==> forall|j: int| 0 <= j < i ==> a@[j] == b@[j],
            count > 0 ==> exists|j: int| 0 <= j < i && a@[j] != b@[j],
        decreases a@.len() - i,
    {
        if a[i] != b[i] {
            count += 1;
        }
        i += 1;
    }
    assert(count == 0 ==> a@ =~= b@);
    count
}

/// The data codewords that a stream carries, one block after the other.
pub open spec fn stream_data(codewords: Seq<u8>, version: int, level: EcLevel) -> Seq<u8> {
    let specs = layout(version, level);
    joined_data(deinterleaved(codewords, specs), specs, specs.len() as int)
}

/// Whether every block of a stream is a code word.
pub open spec fn blocks_are_code_words(codewords: Seq<u8>, version: int, level: EcLevel) -> bool {
    let specs = layout(version, level);
    forall|b: int|
        0 <= b < specs.len() ==> is_code_word(
            #[trigger] deinterleaved(codewords, specs)[b],
            specs[b].ecc_codewords as int,
        )
}

/// Rebuild canonical terminator/padding and RS parity when a geometrically
/// deformed symbol preserves its complete segment payload but damages the tail.
///
/// There is nothing to repair if the segments cannot be read to their end or
/// the tail already is as it should be.
pub fn repair_data_tail_native(codewords: &[u8], version: u8, ec_level: &str) -> (repaired: Result<
    Option<CorrectedStream>,
    QrError,
>)
    requires
        8 * codewords@.len() <= usize::MAX,
    ensures
        match stream_refusal(codewords@.len(), 8 * codewords@.len(), version, ec_level@) {
            Some(error) => repaired is Err && repaired->Err_0 == error,
            None => repaired is Ok && {
                let v = version as int;
                let level = level_named(ec_level@)->Some_0;
                let data = stream_data(codewords@, v, level);
                match rebuilt_stream(codewords@, v, level) {
                    None => repaired->Ok_0 is None,
                    Some(stream) => if stream == codewords@ {
                        repaired->Ok_0 is None
                    } else {
                        &&& repaired->Ok_0 is Some
                        &&& repaired->Ok_0->Some_0.codewords@ == stream
                        &&& repaired->Ok_0->Some_0.corrected_symbols == differences(
                            codewords@,
                            stream,
                            codewords@.len() as int,
                        )
                        &&& repaired->Ok_0->Some_0.search_cost == 2
                            * repaired->Ok_0->Some_0.corrected_symbols + 12
                        &&& stream_data(stream, v, level) == with_canonical_tail(
                            data,
                            terminator(data, v)->Some_0,
                        )
                        &&& blocks_are_code_words(stream, v, level)
                        &&& stream.len() == codewords@.len()
                        &&& repaired->Ok_0->Some_0.corrected_symbols >= 1
                        &&& rebuilt_stream(stream, v, level) == Some(stream)
                    },
                }
            },
        },
{
    let level: EcLevel = match check_stream(codewords, codewords.len() * 8, version, ec_level) {
        Ok(level) => level,
        Err(error) => {
            return Err(error);
        },
    };
    match repair_tail_of(codewords, version, level) {
        Some(stream) => Ok(Some(stream)),
        None => Ok(None),
    }
}

pub(crate) fn repair_tail_of(codewords: &[u8], version: u8, level: EcLevel) -> (repaired: Option<
    CorrectedStream,
>)
    requires
        valid_version(version as int),
        codewords@.len() == total_codewords(version as int),
    ensures
        match rebuilt_stream(codewords@, version as int, level) {
            None => repaired is None,
            Some(stream) => {
                let v = version as int;
                let data = stream_data(codewords@, v, level);
                &&& repaired is None <==> stream == codewords@
                &&& repaired matches Some(value) ==> {
                    &&& value.codewords@ == stream
                    &&& value.corrected_symbols == differences(
                        codewords@,
                        stream,
                        codewords@.len() as int,
                    )
                    &&& value.search_cost == 2 * value.corrected_symbols + 12
                    &&& stream_data(stream, v, level) == with_canonical_tail(
                        data,
                        terminator(data, v)->Some_0,
                    )
                    &&& blocks_are_code_words(stream, v, level)
                    &&& stream.len() == codewords@.len()
                    &&& value.corrected_symbols >= 1
                    &&& rebuilt_stream(stream, v, level) == Some(stream)
                }
            },
        },
{
    let total: usize = crate::layout::raw_codewords(version);
    let reliability: Vec<u32> = vec![FULL_RELIABILITY; total * 8];
    let taken: Deinterleaved = deinterleave_of(
        codewords,
        reliability.as_slice(),
        version,
        level,
    );
    let ghost v = version as int;
    let ghost specs = layout(v, level);
    proof {
        layout_is_regular(v, level);
        layout_fills_symbol(v, level);
        assert(shaped(contents(taken.blocks@), specs));
        lemma_joined_len(contents(taken.blocks@), specs, specs.len() as int);
    }
    let data: Vec<u8> = join_data(&taken.blocks, &taken.specs);
    let canonical: Vec<u8> = match canonicalize_qr_data_tail(data.as_slice(), version) {
        Some(canonical) => canonical,
        None => {
            return None;
        },
    };
    let blocks: Vec<Vec<u8>> = encode_blocks(&canonical, &taken.specs, Ghost(v), Ghost(level));
    let stream: Vec<u8> = match interleave_native(&blocks, &taken.specs) {
        Ok(stream) => stream,
        Err(_) => Vec::new(),
    };
    proof {
        deinterleaving_undoes_interleaving(contents(blocks@), specs);
        crate::interleave::slots_fill_blocks(specs);
    }
    let corrected_symbols: usize = count_differences(codewords, &stream);
    if corrected_symbols == 0 {
        return None;
    }
    Some(
        CorrectedStream {
            codewords: stream,
            corrected_symbols,
            search_cost: 2 * corrected_symbols as u64 + 12,
        },
    )
}

} // verus!
