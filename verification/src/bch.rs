//! Format and version information: BCH code words.

use vstd::prelude::*;

use crate::error::QrError;
use crate::layout::{
    check_version, ec_format_value, ec_level_named, level_format_value, level_named, valid_version,
    EcLevel,
};

verus! {

/// One step of dividing by the format generator, the polynomial 0x537.
pub open spec fn format_step(remainder: u16) -> u16 {
    (remainder << 1u16) ^ ((remainder >> 9u16) * 0x537) as u16
}

/// The register after `steps` division steps.
pub open spec fn format_register(data: u16, steps: nat) -> u16
    decreases steps,
{
    if steps == 0 {
        data
    } else {
        format_step(format_register(data, (steps - 1) as nat))
    }
}

/// The five bits that name a level and a mask.
pub open spec fn format_data(level: EcLevel, mask: int) -> u16 {
    (8 * level_format_value(level) + mask) as u16
}

/// Fifteen format bits: the five data bits, the ten bits that make the word a
/// multiple of the generator, all under the fixed format mask.
pub open spec fn format_word(level: EcLevel, mask: int) -> u16 {
    let data = format_data(level, mask);
    ((data << 10u16) | format_register(data, 10)) ^ 0x5412
}

/// One step of dividing by the version generator, the polynomial 0x1f25.
pub open spec fn version_step(remainder: u32) -> u32 {
    (remainder << 1u32) ^ ((remainder >> 11u32) * 0x1f25) as u32
}

/// The register after `steps` division steps.
pub open spec fn version_register(data: u32, steps: nat) -> u32
    decreases steps,
{
    if steps == 0 {
        data
    } else {
        version_step(version_register(data, (steps - 1) as nat))
    }
}

/// Eighteen version bits: the version and the twelve bits that make the word a
/// multiple of the generator.
pub open spec fn version_word(version: int) -> u32 {
    let data = version as u32;
    (data << 12u32) | version_register(data, 12)
}

proof fn lemma_format_step(r: u16)
    requires
        r < 1024,
    ensures
        (r >> 9u16) <= 1,
        format_step(r) < 1024,
{
    assert((r >> 9u16) <= 1 && ((r << 1u16) ^ ((r >> 9u16) * 0x537) as u16) < 1024) by (bit_vector)
        requires
            r < 1024,
    ;
}

proof fn lemma_format_register(data: u16, steps: nat)
    requires
        data < 1024,
    ensures
        format_register(data, steps) < 1024,
    decreases steps,
{
    if steps > 0 {
        lemma_format_register(data, (steps - 1) as nat);
        lemma_format_step(format_register(data, (steps - 1) as nat));
    }
}

proof fn lemma_version_step(r: u32)
    requires
        r < 4096,
    ensures
        (r >> 11u32) <= 1,
        version_step(r) < 4096,
{
    assert((r >> 11u32) <= 1 && ((r << 1u32) ^ ((r >> 11u32) * 0x1f25) as u32) < 4096)
        by (bit_vector)
        requires
            r < 4096,
    ;
}

proof fn lemma_version_register(data: u32, steps: nat)
    requires
        data < 4096,
    ensures
        version_register(data, steps) < 4096,
    decreases steps,
{
    if steps > 0 {
        lemma_version_register(data, (steps - 1) as nat);
        lemma_version_step(version_register(data, (steps - 1) as nat));
    }
}

/// A format word has fifteen bits, and its upper five show the data bits under
/// the format mask.
pub proof fn format_word_shows_data(level: EcLevel, mask: int)
    requires
        0 <= mask <= 7,
    ensures
        format_word(level, mask) < 0x8000,
        (format_word(level, mask) ^ 0x5412) >> 10u16 == format_data(level, mask),
{
    let data = format_data(level, mask);
    let r = format_register(data, 10);
    lemma_format_register(data, 10);
    assert((((data << 10u16) | r) ^ 0x5412) < 0x8000 && (((((data << 10u16) | r) ^ 0x5412)
        ^ 0x5412) >> 10u16) == data) by (bit_vector)
        requires
            data < 32,
            r < 1024,
    ;
}

/// The 32 format words are distinct: equal words name the same level and mask.
pub proof fn format_words_distinct(level_a: EcLevel, mask_a: int, level_b: EcLevel, mask_b: int)
    requires
        0 <= mask_a <= 7,
        0 <= mask_b <= 7,
        format_word(level_a, mask_a) == format_word(level_b, mask_b),
    ensures
        level_a == level_b,
        mask_a == mask_b,
{
    format_word_shows_data(level_a, mask_a);
    format_word_shows_data(level_b, mask_b);
}

/// A version word has eighteen bits, and its upper six are the version.
pub proof fn version_word_shows_version(version: int)
    requires
        valid_version(version),
    ensures
        version_word(version) < 0x40000,
        version_word(version) >> 12u32 == version,
{
    let data = version as u32;
    let r = version_register(data, 12);
    lemma_version_register(data, 12);
    assert(((data << 12u32) | r) < 0x40000 && (((data << 12u32) | r) >> 12u32) == data)
        by (bit_vector)
        requires
            data <= 40,
            r < 4096,
    ;
}

pub(crate) fn format_word_of(level: EcLevel, mask: u8) -> (word: u16)
    requires
        mask <= 7,
    ensures
        word == format_word(level, mask as int),
{
    let value: u16 = ec_format_value(level);
    let data: u16 = value << 3 | mask as u16;
    proof {
        let m = mask as u16;
        assert((value << 3 | m) == 8 * value + m) by (bit_vector)
            requires
                value <= 3,
                m <= 7,
        ;
    }
    assert(data == format_data(level, mask as int));
    let mut remainder: u16 = data;
    let mut step: usize = 0;
    while step < 10
        invariant
            step <= 10,
            data < 32,
            remainder == format_register(data, step as nat),
        decreases 10 - step,
    {
        proof {
            lemma_format_register(data, step as nat);
            lemma_format_step(remainder);
        }
        remainder = (remainder << 1) ^ ((remainder >> 9) * 0x537);
        step += 1;
    }
    ((data << 10) | remainder) ^ 0x5412
}

/// The format bits for a level and a mask.
pub fn format_bits_native(ec_level: &str, mask: u8) -> (bits: Result<u16, QrError>)
    ensures
        bits is Ok <==> mask <= 7 && level_named(ec_level@) is Some,
        bits matches Ok(word) ==> word == format_word(
            level_named(ec_level@)->Some_0,
            mask as int,
        ),
        bits matches Err(error) ==> error == (if mask > 7 {
            QrError::Mask
        } else {
            QrError::EcLevel
        }),
{
    if mask > 7 {
        return Err(QrError::Mask);
    }
    match ec_level_named(ec_level) {
        Ok(level) => Ok(format_word_of(level, mask)),
        Err(error) => Err(error),
    }
}

/// The version bits of a version.
pub fn version_bits_native(version: u8) -> (bits: Result<u32, QrError>)
    ensures
        bits is Ok <==> valid_version(version as int),
        bits matches Ok(word) ==> word == version_word(version as int),
        bits matches Err(error) ==> error == QrError::Version,
{
    if let Err(error) = check_version(version) {
        return Err(error);
    }
    let data: u32 = version as u32;
    let mut remainder: u32 = data;
    let mut step: usize = 0;
    while step < 12
        invariant
            step <= 12,
            data <= 40,
            remainder == version_register(data, step as nat),
        decreases 12 - step,
    {
        proof {
            lemma_version_register(data, step as nat);
            lemma_version_step(remainder);
        }
        remainder = (remainder << 1) ^ ((remainder >> 11) * 0x1f25);
        step += 1;
    }
    Ok(data << 12 | remainder)
}

} // verus!
