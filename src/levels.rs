//! Set-up of the hybrid RLE streams of a page: dictionary indices and
//! definition levels.
use vstd::prelude::*;
use vstd::arithmetic::power2::{pow2, lemma_pow2_unfold, lemma2_to64};
use vstd::slice::slice_subrange;

use crate::error::Error;
use crate::page::{split_buffer, split_spec, DataPage};

verus! {

/// A hybrid RLE / bit-packed stream ready to be decoded: `length` values of
/// `num_bits` bits each, encoded in `data`.
#[derive(Debug, Clone, Copy)]
pub struct HybridRleDecoder<'a> {
    pub data: &'a [u8],
    pub num_bits: u32,
    pub length: usize,
}

impl<'a> HybridRleDecoder<'a> {
    /// Returns the stream of `length` values of `num_bits` bits in `data`, or
    /// `Error::BitWidthTooLarge` where `num_bits` exceeds 32.
    pub fn new(data: &'a [u8], num_bits: u32, length: usize) -> (r: Result<Self, Error>)
        ensures
            num_bits <= 32 ==> r == Ok::<Self, Error>(HybridRleDecoder { data, num_bits, length }),
            num_bits > 32 ==> r == Err::<Self, Error>(Error::BitWidthTooLarge),
    {
        if num_bits > 32 {
            Err(Error::BitWidthTooLarge)
        } else {
            Ok(HybridRleDecoder { data, num_bits, length })
        }
    }
}

/// Number of bits needed to write `max_level` in binary.
pub open spec fn bit_width(max_level: nat) -> nat
    decreases max_level,
{
    if max_level == 0 {
        0
    } else {
        1 + bit_width(max_level / 2)
    }
}

/// Returns the number of bits needed to write `max_level` in binary.
pub fn get_bit_width(max_level: u16) -> (r: u32)
    ensures
        r == bit_width(max_level as nat),
        r <= 16,
{
    proof {
        lemma2_to64();
        lemma_bit_width_bound(max_level as nat, 16);
    }
    let mut width: u32 = 0;
    let mut rest: u16 = max_level;
    while rest > 0
        invariant
            width + bit_width(rest as nat) == bit_width(max_level as nat),
            bit_width(max_level as nat) <= 16,
        decreases rest,
    {
        rest = rest / 2;
        width = width + 1;
    }
    width
}

proof fn lemma_bit_width_bound(m: nat, k: nat)
    requires
        m < pow2(k),
    ensures
        bit_width(m) <= k,
    decreases m,
{
    if m > 0 {
        if k == 0 {
            assert(pow2(0) == 1) by {
                lemma2_to64();
            }
        } else {
            lemma_pow2_unfold(k);
            lemma_bit_width_bound(m / 2, (k - 1) as nat);
        }
    }
}

/// Decoder of definition levels, chosen once from the column's maximum
/// definition level.
#[derive(Debug)]
pub enum DefLevelsDecoder<'a> {
    /// Maximum definition level 1: each level is one validity bit.
    Bitmap(HybridRleDecoder<'a>),
    /// Maximum definition level other than 1: levels of as many bits as the
    /// maximum level needs, and that maximum.
    Levels(HybridRleDecoder<'a>, u32),
}

impl<'a> DefLevelsDecoder<'a> {
    /// Returns the decoder of the definition levels of `page`, or
    /// `Error::BufferTooShort` where the page's buffer cannot be split.
    pub fn new(page: &'a DataPage) -> (r: Result<Self, Error>)
        ensures
            match split_spec(page.buffer@, page.max_rep_level as nat, page.max_def_level as nat) {
                None => r == Err::<Self, Error>(Error::BufferTooShort),
                Some((_, def, _)) => match r {
                    Ok(DefLevelsDecoder::Bitmap(d)) => {
                        &&& page.max_def_level == 1
                        &&& d.data@ == def
                        &&& d.num_bits == 1
                        &&& d.length == page.num_values
                    },
                    Ok(DefLevelsDecoder::Levels(d, max)) => {
                        &&& page.max_def_level != 1
                        &&& d.data@ == def
                        &&& d.num_bits == bit_width(page.max_def_level as nat)
                        &&& d.length == page.num_values
                        &&& max == page.max_def_level
                    },
                    Err(_) => false,
                },
            },
    {
        let (_, def_levels, _) = split_buffer(page)?;
        let max_def_level = page.max_def_level;
        if max_def_level == 1 {
            Ok(
                DefLevelsDecoder::Bitmap(
                    HybridRleDecoder { data: def_levels, num_bits: 1, length: page.num_values },
                ),
            )
        } else {
            let num_bits = get_bit_width(max_def_level);
            Ok(
                DefLevelsDecoder::Levels(
                    HybridRleDecoder { data: def_levels, num_bits, length: page.num_values },
                    max_def_level as u32,
                ),
            )
        }
    }
}

/// Returns the stream of dictionary indices of `page`: its values start with
/// one byte that gives the bit width, and the stream of `num_values` indices
/// follows it.
pub fn dict_indices_decoder(page: &DataPage) -> (r: Result<HybridRleDecoder<'_>, Error>)
    ensures
        match split_spec(page.buffer@, page.max_rep_level as nat, page.max_def_level as nat) {
            None => r == Err::<HybridRleDecoder<'_>, Error>(Error::BufferTooShort),
            Some((_, _, values)) => {
                &&& values.len() == 0 ==> r == Err::<HybridRleDecoder<'_>, Error>(
                    Error::BufferTooShort,
                )
                &&& values.len() > 0 && values[0] > 32 ==> r == Err::<HybridRleDecoder<'_>, Error>(
                    Error::BitWidthTooLarge,
                )
                &&& values.len() > 0 && values[0] <= 32 ==> match r {
                    Ok(d) => {
                        &&& d.data@ == values.drop_first()
                        &&& d.num_bits == values[0]
                        &&& d.length == page.num_values
                    },
                    Err(_) => false,
                }
            },
        },
{
    let (_, _, indices_buffer) = split_buffer(page)?;
    if indices_buffer.len() == 0 {
        return Err(Error::BufferTooShort);
    }
    let bit_width = indices_buffer[0];
    let indices_buffer = slice_subrange(indices_buffer, 1, indices_buffer.len());
    HybridRleDecoder::new(indices_buffer, bit_width as u32, page.num_values)
}

} // verus!
