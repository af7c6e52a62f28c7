//! A data page and the split of its buffer into levels and values.
use vstd::prelude::*;
use vstd::slice::slice_subrange;

use crate::error::Error;

verus! {

/// A data page: its buffer holds the repetition levels, the definition levels
/// (each prefixed by its byte length, a 4-byte little-endian integer, where
/// the column has such levels) and the values.
pub struct DataPage {
    pub buffer: Vec<u8>,
    pub num_values: usize,
    pub max_rep_level: u16,
    pub max_def_level: u16,
}

/// The integer that four bytes encode, least significant byte first.
pub open spec fn le_u32(b: Seq<u8>) -> nat {
    b[0] as nat + 256 * (b[1] as nat) + 65536 * (b[2] as nat) + 16777216 * (b[3] as nat)
}

/// Where a section is `present`, the section that `buf` starts with and what
/// follows it; otherwise an empty section and `buf` whole. `None` where the
/// length prefix or the section runs past the end of `buf`.
pub open spec fn split_section(buf: Seq<u8>, present: bool) -> Option<(Seq<u8>, Seq<u8>)> {
    if !present {
        Some((Seq::empty(), buf))
    } else if buf.len() < 4 {
        None
    } else if 4 + le_u32(buf) > buf.len() {
        None
    } else {
        let end = 4 + le_u32(buf) as int;
        Some((buf.subrange(4, end), buf.subrange(end, buf.len() as int)))
    }
}

/// The repetition levels, definition levels and values of a page buffer.
pub open spec fn split_spec(buf: Seq<u8>, max_rep_level: nat, max_def_level: nat) -> Option<
    (Seq<u8>, Seq<u8>, Seq<u8>),
> {
    match split_section(buf, max_rep_level > 0) {
        None => None,
        Some((rep, rest)) => match split_section(rest, max_def_level > 0) {
            None => None,
            Some((def, values)) => Some((rep, def, values)),
        },
    }
}

/// Splits off the section that `buf` starts with, where it is `present`.
fn split_prefixed(buf: &[u8], present: bool) -> (r: Result<(&[u8], &[u8]), Error>)
    ensures
        match r {
            Ok((section, rest)) => split_section(buf@, present) == Some((section@, rest@)),
            Err(e) => e == Error::BufferTooShort && split_section(buf@, present).is_none(),
        },
{
    if !present {
        let empty = slice_subrange(buf, 0, 0);
        assert(empty@ =~= Seq::<u8>::empty());
        return Ok((empty, buf));
    }
    if buf.len() < 4 {
        return Err(Error::BufferTooShort);
    }
    let length: u32 = buf[0] as u32 + 256 * buf[1] as u32 + 65536 * buf[2] as u32 + 16777216
        * buf[3] as u32;
    if length as usize > buf.len() - 4 {
        return Err(Error::BufferTooShort);
    }
    let end = 4 + length as usize;
    let section = slice_subrange(buf, 4, end);
    let rest = slice_subrange(buf, end, buf.len());
    Ok((section, rest))
}

/// Returns the repetition levels, the definition levels and the values of
/// `page`; a column without repetition (definition) levels has none stored.
pub fn split_buffer(page: &DataPage) -> (r: Result<(&[u8], &[u8], &[u8]), Error>)
    ensures
        match r {
            Ok((rep, def, values)) => split_spec(
                page.buffer@,
                page.max_rep_level as nat,
                page.max_def_level as nat,
            ) == Some((rep@, def@, values@)),
            Err(e) => e == Error::BufferTooShort && split_spec(
                page.buffer@,
                page.max_rep_level as nat,
                page.max_def_level as nat,
            ).is_none(),
        },
{
    let buffer = page.buffer.as_slice();
    let (rep, rest) = split_prefixed(buffer, page.max_rep_level > 0)?;
    let (def, values) = split_prefixed(rest, page.max_def_level > 0)?;
    Ok((rep, def, values))
}

} // verus!
