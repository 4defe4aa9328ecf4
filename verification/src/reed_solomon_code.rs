//! Reed-Solomon code words over the field with 256 elements.

use vstd::prelude::*;

verus! {

/// Twice a field element: polynomials over two elements, reduced by 0x11d.
pub open spec fn field_double(a: u8) -> u8 {
    if a >= 128 {
        (a << 1u8) ^ 0x1d
    } else {
        a << 1u8
    }
}

/// The product of two field elements.
pub open spec fn field_product(a: u8, b: u8) -> u8
    decreases b,
{
    if b == 0 {
        0
    } else {
        (if b % 2 == 1 {
            a
        } else {
            0
        }) ^ field_product(field_double(a), b / 2)
    }
}

/// The `n`-th power of the field's generator, 2.
pub open spec fn field_power(n: int) -> u8
    decreases n,
{
    if n <= 0 {
        1
    } else {
        field_double(field_power(n - 1))
    }
}

/// The value at `x` of the polynomial with the given coefficients, highest
/// degree first.
pub open spec fn polynomial_value(coefficients: Seq<u8>, x: u8) -> u8
    decreases coefficients.len(),
{
    if coefficients.len() == 0 {
        0
    } else {
        field_product(polynomial_value(coefficients.drop_last(), x), x) ^ coefficients.last()
    }
}

/// A code word with `ecc` error-correction codewords vanishes at the first
/// `ecc` powers of the generator.
pub open spec fn is_code_word(word: Seq<u8>, ecc: int) -> bool {
    forall|i: int|
        0 <= i < ecc ==> polynomial_value(word, #[trigger] field_power(i)) == 0
}

/// What `reed_solomon::Encoder::encode` makes of `data`.
pub uninterp spec fn rs_encoded(data: Seq<u8>, ecc: nat) -> Seq<u8>;

/// What `reed_solomon::Decoder::correct_err_count` makes of `word` when no
/// erasures are given: the corrected word and how many codewords it changed.
pub uninterp spec fn rs_corrected(word: Seq<u8>, ecc: nat) -> Option<(Seq<u8>, nat)>;

/// Calls `reed_solomon::Encoder::encode`. Claimed: the result depends on the
/// data and the error-correction length alone, it is the data followed by that
/// many codewords, and it is a code word.
#[verifier::external_body]
pub(crate) fn rs_encode(data: &[u8], ecc: usize) -> (encoded: Vec<u8>)
    requires
        1 <= data@.len(),
        1 <= ecc,
        data@.len() + ecc <= 255,
    ensures
        encoded@ == rs_encoded(data@, ecc as nat),
        encoded@.len() == data@.len() + ecc,
        encoded@.take(data@.len() as int) == data@,
        is_code_word(encoded@, ecc as int),
{
    let encoded = reed_solomon::Encoder::new(ecc).encode(data);
    encoded[..].to_vec()
}

/// Calls `reed_solomon::Decoder::correct_err_count` without erasures. Claimed:
/// the outcome depends on the word and the error-correction length alone; a
/// corrected word is a code word of the same length, and the number of
/// corrections is at most half that of the codewords for error correction; and a
/// code word is its own correction. Which damaged words can be corrected is not
/// said: the crate does not document it. The bound on `ecc` keeps the polynomials
/// within the crate's fixed buffers.
#[verifier::external_body]
pub(crate) fn rs_correct(word: &[u8], ecc: usize) -> (corrected: Option<(Vec<u8>, usize)>)
    requires
        1 <= ecc <= 168,
        ecc < word@.len() <= 255,
    ensures
        match corrected {
            Some((fixed, count)) => {
                &&& rs_corrected(word@, ecc as nat) == Some((fixed@, count as nat))
                &&& fixed@.len() == word@.len()
                &&& is_code_word(fixed@, ecc as int)
                &&& 2 * count <= ecc
            },
            None => rs_corrected(word@, ecc as nat) is None,
        },
        is_code_word(word@, ecc as int) ==> corrected is Some && corrected->Some_0.0@ == word@
            && corrected->Some_0.1 == 0,
{
    match reed_solomon::Decoder::new(ecc).correct_err_count(word, None) {
        Ok((fixed, count)) => Some((fixed[..].to_vec(), count)),
        Err(_) => None,
    }
}

/// Calls `reed_solomon::Decoder::is_corrupted`. Claimed: a word is reported as
/// corrupted exactly if it is not a code word.
#[verifier::external_body]
pub(crate) fn rs_is_corrupted(word: &[u8], ecc: usize) -> (corrupted: bool)
    requires
        1 <= word@.len() <= 255,
        ecc <= 254,
    ensures
        corrupted == !is_code_word(word@, ecc as int),
{
    reed_solomon::Decoder::new(ecc).is_corrupted(word)
}

} // verus!
