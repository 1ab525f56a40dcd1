use vstd::prelude::*;
use vstd::slice::slice_subrange;

use crate::de::Deserializer;
use crate::error::Error;
use crate::grammar::{
    as_signed, spec_read_scalar, TAG_F32, TAG_F64, TAG_I16, TAG_I32, TAG_I64, TAG_I8, TAG_U16,
    TAG_U32, TAG_U64, TAG_U8,
};

verus! {

broadcast use vstd::seq::group_seq_axioms, vstd::slice::group_slice_axioms;

/// A tag-prefixed unsigned 8-bit integer; yields the rest of the input
/// and the value.
pub fn uint8_t<'a>(input: &'a [u8]) -> (r: Result<(&'a [u8], u8), Error>)
    ensures
        match r {
            Ok((rest, v)) => spec_read_scalar(input@, TAG_U8, 1) matches Ok(p) && p.0 == v as nat
                && rest@ == input@.skip(p.1),
            Err(e) => spec_read_scalar(input@, TAG_U8, 1) matches Err(e2) && e2 == e,
        },
{
    let mut de = Deserializer::from_bytes(input);
    let v = match de.read_scalar(TAG_U8, 1) {
        Ok(x) => x,
        Err(e) => {
            return Err(e);
        },
    };
    let rest = slice_subrange(input, de.pos, input.len());
    proof {
        assert(rest@ =~= input@.skip(de.pos as int));
    }
    Ok((rest, v as u8))
}

/// A tag-prefixed big-endian unsigned 16-bit integer.
pub fn uint16_t<'a>(input: &'a [u8]) -> (r: Result<(&'a [u8], u16), Error>)
    ensures
        match r {
            Ok((rest, v)) => spec_read_scalar(input@, TAG_U16, 2) matches Ok(p) && p.0 == v as nat
                && rest@ == input@.skip(p.1),
            Err(e) => spec_read_scalar(input@, TAG_U16, 2) matches Err(e2) && e2 == e,
        },
{
    let mut de = Deserializer::from_bytes(input);
    let v = match de.read_scalar(TAG_U16, 2) {
        Ok(x) => x,
        Err(e) => {
            return Err(e);
        },
    };
    let rest = slice_subrange(input, de.pos, input.len());
    proof {
        assert(rest@ =~= input@.skip(de.pos as int));
    }
    Ok((rest, v as u16))
}

/// A tag-prefixed big-endian unsigned 32-bit integer.
pub fn uint32_t<'a>(input: &'a [u8]) -> (r: Result<(&'a [u8], u32), Error>)
    ensures
        match r {
            Ok((rest, v)) => spec_read_scalar(input@, TAG_U32, 4) matches Ok(p) && p.0 == v as nat
                && rest@ == input@.skip(p.1),
            Err(e) => spec_read_scalar(input@, TAG_U32, 4) matches Err(e2) && e2 == e,
        },
{
    let mut de = Deserializer::from_bytes(input);
    let v = match de.read_scalar(TAG_U32, 4) {
        Ok(x) => x,
        Err(e) => {
            return Err(e);
        },
    };
    let rest = slice_subrange(input, de.pos, input.len());
    proof {
        assert(rest@ =~= input@.skip(de.pos as int));
    }
    Ok((rest, v as u32))
}

/// A tag-prefixed big-endian unsigned 64-bit integer.
pub fn uint64_t<'a>(input: &'a [u8]) -> (r: Result<(&'a [u8], u64), Error>)
    ensures
        match r {
            Ok((rest, v)) => spec_read_scalar(input@, TAG_U64, 8) matches Ok(p) && p.0 == v as nat
                && rest@ == input@.skip(p.1),
            Err(e) => spec_read_scalar(input@, TAG_U64, 8) matches Err(e2) && e2 == e,
        },
{
    let mut de = Deserializer::from_bytes(input);
    let v = match de.read_scalar(TAG_U64, 8) {
        Ok(x) => x,
        Err(e) => {
            return Err(e);
        },
    };
    let rest = slice_subrange(input, de.pos, input.len());
    proof {
        assert(rest@ =~= input@.skip(de.pos as int));
    }
    Ok((rest, v))
}

/// A tag-prefixed signed 8-bit integer, read as two's complement.
pub fn int8_t<'a>(input: &'a [u8]) -> (r: Result<(&'a [u8], i8), Error>)
    ensures
        match r {
            Ok((rest, v)) => spec_read_scalar(input@, TAG_I8, 1) matches Ok(p) && v as int
                == as_signed(p.0, 0x100) && rest@ == input@.skip(p.1),
            Err(e) => spec_read_scalar(input@, TAG_I8, 1) matches Err(e2) && e2 == e,
        },
{
    let mut de = Deserializer::from_bytes(input);
    let x = match de.read_scalar(TAG_I8, 1) {
        Ok(x) => x,
        Err(e) => {
            return Err(e);
        },
    };
    let v: i8 = if x < 0x80 {
        x as i8
    } else {
        (x as i16 - 0x100) as i8
    };
    let rest = slice_subrange(input, de.pos, input.len());
    proof {
        assert(rest@ =~= input@.skip(de.pos as int));
    }
    Ok((rest, v))
}

/// A tag-prefixed big-endian signed 16-bit integer.
pub fn int16_t<'a>(input: &'a [u8]) -> (r: Result<(&'a [u8], i16), Error>)
    ensures
        match r {
            Ok((rest, v)) => spec_read_scalar(input@, TAG_I16, 2) matches Ok(p) && v as int
                == as_signed(p.0, 0x10000) && rest@ == input@.skip(p.1),
            Err(e) => spec_read_scalar(input@, TAG_I16, 2) matches Err(e2) && e2 == e,
        },
{
    let mut de = Deserializer::from_bytes(input);
    let x = match de.read_scalar(TAG_I16, 2) {
        Ok(x) => x,
        Err(e) => {
            return Err(e);
        },
    };
    let v: i16 = if x < 0x8000 {
        x as i16
    } else {
        (x as i32 - 0x10000) as i16
    };
    let rest = slice_subrange(input, de.pos, input.len());
    proof {
        assert(rest@ =~= input@.skip(de.pos as int));
    }
    Ok((rest, v))
}

/// A tag-prefixed big-endian signed 32-bit integer.
pub fn int32_t<'a>(input: &'a [u8]) -> (r: Result<(&'a [u8], i32), Error>)
    ensures
        match r {
            Ok((rest, v)) => spec_read_scalar(input@, TAG_I32, 4) matches Ok(p) && v as int
                == as_signed(p.0, 0x1_0000_0000) && rest@ == input@.skip(p.1),
            Err(e) => spec_read_scalar(input@, TAG_I32, 4) matches Err(e2) && e2 == e,
        },
{
    let mut de = Deserializer::from_bytes(input);
    let x = match de.read_scalar(TAG_I32, 4) {
        Ok(x) => x,
        Err(e) => {
            return Err(e);
        },
    };
    let v: i32 = if x < 0x8000_0000 {
        x as i32
    } else {
        (x as i64 - 0x1_0000_0000) as i32
    };
    let rest = slice_subrange(input, de.pos, input.len());
    proof {
        assert(rest@ =~= input@.skip(de.pos as int));
    }
    Ok((rest, v))
}

/// A tag-prefixed big-endian signed 64-bit integer.
pub fn int64_t<'a>(input: &'a [u8]) -> (r: Result<(&'a [u8], i64), Error>)
    ensures
        match r {
            Ok((rest, v)) => spec_read_scalar(input@, TAG_I64, 8) matches Ok(p) && v as int
                == as_signed(p.0, 0x1_0000_0000_0000_0000) && rest@ == input@.skip(p.1),
            Err(e) => spec_read_scalar(input@, TAG_I64, 8) matches Err(e2) && e2 == e,
        },
{
    let mut de = Deserializer::from_bytes(input);
    let x = match de.read_scalar(TAG_I64, 8) {
        Ok(x) => x,
        Err(e) => {
            return Err(e);
        },
    };
    let v: i64 = if x < 0x8000_0000_0000_0000 {
        x as i64
    } else {
        ((x - 0x8000_0000_0000_0000) as i64) + i64::MIN
    };
    let rest = slice_subrange(input, de.pos, input.len());
    proof {
        assert(rest@ =~= input@.skip(de.pos as int));
    }
    Ok((rest, v))
}

/// A tag-prefixed big-endian 32-bit float, yielded as its IEEE-754 bit
/// pattern so that every NaN payload survives decoding unchanged.
pub fn float32<'a>(input: &'a [u8]) -> (r: Result<(&'a [u8], u32), Error>)
    ensures
        match r {
            Ok((rest, v)) => spec_read_scalar(input@, TAG_F32, 4) matches Ok(p) && p.0 == v as nat
                && rest@ == input@.skip(p.1),
            Err(e) => spec_read_scalar(input@, TAG_F32, 4) matches Err(e2) && e2 == e,
        },
{
    let mut de = Deserializer::from_bytes(input);
    let v = match de.read_scalar(TAG_F32, 4) {
        Ok(x) => x,
        Err(e) => {
            return Err(e);
        },
    };
    let rest = slice_subrange(input, de.pos, input.len());
    proof {
        assert(rest@ =~= input@.skip(de.pos as int));
    }
    Ok((rest, v as u32))
}

/// A tag-prefixed big-endian 64-bit float, yielded as its IEEE-754 bit
/// pattern so that every NaN payload survives decoding unchanged.
pub fn float64<'a>(input: &'a [u8]) -> (r: Result<(&'a [u8], u64), Error>)
    ensures
        match r {
            Ok((rest, v)) => spec_read_scalar(input@, TAG_F64, 8) matches Ok(p) && p.0 == v as nat
                && rest@ == input@.skip(p.1),
            Err(e) => spec_read_scalar(input@, TAG_F64, 8) matches Err(e2) && e2 == e,
        },
{
    let mut de = Deserializer::from_bytes(input);
    let v = match de.read_scalar(TAG_F64, 8) {
        Ok(x) => x,
        Err(e) => {
            return Err(e);
        },
    };
    let rest = slice_subrange(input, de.pos, input.len());
    proof {
        assert(rest@ =~= input@.skip(de.pos as int));
    }
    Ok((rest, v))
}

} // verus!
