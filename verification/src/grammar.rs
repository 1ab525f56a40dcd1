use vstd::prelude::*;
use vstd::utf8::{decode_utf8, valid_utf8};

use crate::error::Error;
use crate::value::{find_variant, Shape, ValueModel, VariantShape};

verus! {

broadcast use vstd::seq::group_seq_axioms, vstd::std_specs::vec::group_vec_axioms;

/// The absent-option / unit marker.
pub const TAG_UNIT: u8 = 0x00;

/// Tags of the fixed-width scalars, one per width and kind.
pub const TAG_U8: u8 = 0x04;

pub const TAG_U16: u8 = 0x05;

pub const TAG_U32: u8 = 0x06;

pub const TAG_U64: u8 = 0x07;

pub const TAG_I8: u8 = 0x08;

pub const TAG_I16: u8 = 0x09;

pub const TAG_I32: u8 = 0x0a;

pub const TAG_I64: u8 = 0x0b;

pub const TAG_F32: u8 = 0x0c;

pub const TAG_F64: u8 = 0x0d;

/// The two boolean tags.
pub const TAG_FALSE: u8 = 0x10;

pub const TAG_TRUE: u8 = 0x11;

/// Sequence open.
pub const TAG_SEQ_OPEN: u8 = 0x15;

/// Map / struct / enum-payload open.
pub const TAG_MAP_OPEN: u8 = 0x16;

/// Container close, shared by sequences and maps.
pub const TAG_CLOSE: u8 = 0x17;

/// Strings with an explicit 8/16/32/64-bit length field.
pub const TAG_STR8: u8 = 0xc4;

pub const TAG_STR16: u8 = 0xc5;

pub const TAG_STR32: u8 = 0xc6;

pub const TAG_STR64: u8 = 0xc7;

/// A byte whose top two bits are `10` opens an inline string whose length
/// sits in the low six bits of the tag itself.
pub open spec fn is_inline_string_tag(b: u8) -> bool {
    b & 0xc0 == 0x80
}

/// Does this leading byte select one of the five string length classes?
pub open spec fn is_string_tag(b: u8) -> bool {
    ||| is_inline_string_tag(b)
    ||| b == TAG_STR8
    ||| b == TAG_STR16
    ||| b == TAG_STR32
    ||| b == TAG_STR64
}

/// The big-endian unsigned value of a byte string.
pub open spec fn be_uint(bytes: Seq<u8>) -> nat
    decreases bytes.len(),
{
    if bytes.len() == 0 {
        0
    } else {
        be_uint(bytes.drop_last()) * 256 + bytes.last() as nat
    }
}

/// One unfolding step of [`be_uint`] on a prefix of `s`.
pub proof fn lemma_be_uint_take_succ(s: Seq<u8>, k: int)
    requires
        1 <= k <= s.len(),
    ensures
        be_uint(s.take(k)) == be_uint(s.take(k - 1)) * 256 + s[k - 1],
{
    assert(s.take(k).drop_last() =~= s.take(k - 1));
    assert(s.take(k).last() == s[k - 1]);
}

/// The signed reading of an unsigned big-endian value: two's complement
/// with modulus `m` (so 0x100 for 8 bits, 0x10000 for 16 bits, and so on).
pub open spec fn as_signed(v: nat, m: nat) -> int {
    if v < m / 2 {
        v as int
    } else {
        v as int - m
    }
}

/// A boolean at the head of the input: its value and the bytes it occupies.
pub open spec fn spec_parse_bool(input: Seq<u8>) -> Result<(bool, int), Error> {
    if input.len() == 0 {
        Err(Error::UnexpectedEnd)
    } else if input[0] == TAG_TRUE {
        Ok((true, 1))
    } else if input[0] == TAG_FALSE {
        Ok((false, 1))
    } else {
        Err(Error::ExpectedBoolean)
    }
}

/// A tagged fixed-width scalar at the head of the input: its big-endian
/// payload value and the bytes it occupies (one tag byte plus `width`
/// payload bytes).
pub open spec fn spec_read_scalar(input: Seq<u8>, tag: u8, width: int) -> Result<
    (nat, int),
    Error,
> {
    if input.len() == 0 {
        Err(Error::UnexpectedEnd)
    } else if input[0] != tag {
        Err(Error::Syntax)
    } else if input.len() < 1 + width {
        Err(Error::UnexpectedEnd)
    } else {
        Ok((be_uint(input.subrange(1, 1 + width)), 1 + width))
    }
}

/// The string length class at the head of the input: the declared content
/// length and the size of the header (tag plus length field).
pub open spec fn spec_string_header(input: Seq<u8>) -> Result<(nat, int), Error> {
    if input.len() == 0 {
        Err(Error::UnexpectedEnd)
    } else if is_inline_string_tag(input[0]) {
        Ok(((input[0] & 0x3f) as nat, 1))
    } else if input[0] == TAG_STR8 {
        if input.len() < 2 {
            Err(Error::UnexpectedEnd)
        } else {
            Ok((input[1] as nat, 2))
        }
    } else if input[0] == TAG_STR16 {
        if input.len() < 3 {
            Err(Error::UnexpectedEnd)
        } else {
            Ok((be_uint(input.subrange(1, 3)), 3))
        }
    } else if input[0] == TAG_STR32 {
        if input.len() < 5 {
            Err(Error::UnexpectedEnd)
        } else {
            Ok((be_uint(input.subrange(1, 5)), 5))
        }
    } else if input[0] == TAG_STR64 {
        if input.len() < 9 {
            Err(Error::UnexpectedEnd)
        } else if be_uint(input.subrange(1, 9)) > usize::MAX as nat {
            Err(Error::TooLarge)
        } else {
            Ok((be_uint(input.subrange(1, 9)), 9))
        }
    } else {
        Err(Error::ExpectedString)
    }
}

/// A string at the head of the input: its characters and the bytes it
/// occupies (header plus content). The content must be valid UTF-8.
pub open spec fn spec_parse_string(input: Seq<u8>) -> Result<(Seq<char>, int), Error> {
    match spec_string_header(input) {
        Err(e) => Err(e),
        Ok((len, hdr)) => {
            if input.len() < hdr + len {
                Err(Error::UnexpectedEnd)
            } else {
                let content = input.subrange(hdr, hdr + len as int);
                if valid_utf8(content) {
                    Ok((decode_utf8(content), hdr + len as int))
                } else {
                    Err(Error::Syntax)
                }
            }
        },
    }
}

/// The close-tag check that ends every container: the byte at offset `at`
/// must be the container-close tag; the value then occupies `at + 1` bytes.
pub open spec fn spec_close(input: Seq<u8>, at: int, v: ValueModel) -> Result<
    (ValueModel, int),
    Error,
> {
    if at >= input.len() {
        Err(Error::UnexpectedEnd)
    } else if input[at] == TAG_CLOSE {
        Ok((v, at + 1))
    } else {
        Err(Error::ExpectedSequenceEnd)
    }
}

/// What a decode of the given target shape yields on this input: the
/// decoded value's model and the number of bytes it occupies at the head
/// of the input, or the failure that aborts the decode.
///
/// This function is the byte grammar: one arm per value shape, each
/// consuming the tag it dispatched on, then its payload.
pub open spec fn spec_decode(input: Seq<u8>, shape: Shape) -> Result<(ValueModel, int), Error>
    decreases input.len(), shape, 0int,
{
    match shape {
        Shape::Bool => match spec_parse_bool(input) {
            Ok((b, n)) => Ok((ValueModel::Bool(b), n)),
            Err(e) => Err(e),
        },
        Shape::U8 => match spec_read_scalar(input, TAG_U8, 1) {
            Ok((v, n)) => Ok((ValueModel::U8(v as u8), n)),
            Err(e) => Err(e),
        },
        Shape::U16 => match spec_read_scalar(input, TAG_U16, 2) {
            Ok((v, n)) => Ok((ValueModel::U16(v as u16), n)),
            Err(e) => Err(e),
        },
        Shape::U32 => match spec_read_scalar(input, TAG_U32, 4) {
            Ok((v, n)) => Ok((ValueModel::U32(v as u32), n)),
            Err(e) => Err(e),
        },
        Shape::U64 => match spec_read_scalar(input, TAG_U64, 8) {
            Ok((v, n)) => Ok((ValueModel::U64(v as u64), n)),
            Err(e) => Err(e),
        },
        Shape::I8 => match spec_read_scalar(input, TAG_I8, 1) {
            Ok((v, n)) => Ok((ValueModel::I8(as_signed(v, 0x100) as i8), n)),
            Err(e) => Err(e),
        },
        Shape::I16 => match spec_read_scalar(input, TAG_I16, 2) {
            Ok((v, n)) => Ok((ValueModel::I16(as_signed(v, 0x10000) as i16), n)),
            Err(e) => Err(e),
        },
        Shape::I32 => match spec_read_scalar(input, TAG_I32, 4) {
            Ok((v, n)) => Ok((ValueModel::I32(as_signed(v, 0x1_0000_0000) as i32), n)),
            Err(e) => Err(e),
        },
        Shape::I64 => match spec_read_scalar(input, TAG_I64, 8) {
            Ok((v, n)) => Ok((ValueModel::I64(as_signed(v, 0x1_0000_0000_0000_0000) as i64), n)),
            Err(e) => Err(e),
        },
        Shape::F32 => match spec_read_scalar(input, TAG_F32, 4) {
            Ok((v, n)) => Ok((ValueModel::F32Bits(v as u32), n)),
            Err(e) => Err(e),
        },
        Shape::F64 => match spec_read_scalar(input, TAG_F64, 8) {
            Ok((v, n)) => Ok((ValueModel::F64Bits(v as u64), n)),
            Err(e) => Err(e),
        },
        Shape::Text => match spec_parse_string(input) {
            Ok((s, n)) => Ok((ValueModel::Text(s), n)),
            Err(e) => Err(e),
        },
        Shape::Unit => {
            if input.len() == 0 {
                Err(Error::UnexpectedEnd)
            } else if input[0] == TAG_UNIT {
                Ok((ValueModel::Unit, 1))
            } else {
                Err(Error::ExpectedNull)
            }
        },
        Shape::Optional(inner) => {
            if input.len() == 0 {
                Err(Error::UnexpectedEnd)
            } else if input[0] == TAG_UNIT {
                Ok((ValueModel::Null, 1))
            } else {
                spec_decode(input, *inner)
            }
        },
        Shape::Sequence(elem) => spec_decode_sequence(input, *elem),
        Shape::Tuple(shapes) => spec_decode_tuple(input, shapes@),
        Shape::Mapping(kshape, vshape) => spec_decode_mapping(input, *kshape, *vshape),
        Shape::Enum(variants) => spec_decode_enum(input, variants@),
    }
}

/// A sequence value: open tag, elements, close tag.
pub open spec fn spec_decode_sequence(input: Seq<u8>, elem: Shape) -> Result<
    (ValueModel, int),
    Error,
>
    decreases input.len(), elem, 2int,
{
    if input.len() == 0 {
        Err(Error::UnexpectedEnd)
    } else if input[0] != TAG_SEQ_OPEN {
        Err(Error::ExpectedArray)
    } else {
        match spec_decode_elems(input.skip(1), elem) {
            Err(e) => Err(e),
            Ok((vs, n)) => spec_close(input, 1 + n, ValueModel::Sequence(vs)),
        }
    }
}

/// A fixed-arity sequence value: open tag, one value per shape, close tag.
pub open spec fn spec_decode_tuple(input: Seq<u8>, shapes: Seq<Shape>) -> Result<
    (ValueModel, int),
    Error,
>
    decreases input.len(), shapes, 2int,
{
    if input.len() == 0 {
        Err(Error::UnexpectedEnd)
    } else if input[0] != TAG_SEQ_OPEN {
        Err(Error::ExpectedArray)
    } else {
        match spec_decode_fields(input.skip(1), shapes) {
            Err(e) => Err(e),
            Ok((vs, n)) => spec_close(input, 1 + n, ValueModel::Sequence(vs)),
        }
    }
}

/// A map value: open tag, key-value entries, close tag.
pub open spec fn spec_decode_mapping(input: Seq<u8>, kshape: Shape, vshape: Shape) -> Result<
    (ValueModel, int),
    Error,
>
    decreases input.len(), kshape, 2int,
{
    if input.len() == 0 {
        Err(Error::UnexpectedEnd)
    } else if input[0] != TAG_MAP_OPEN {
        Err(Error::ExpectedMap)
    } else {
        match spec_decode_entries(input.skip(1), kshape, vshape) {
            Err(e) => Err(e),
            Ok((es, n)) => spec_close(input, 1 + n, ValueModel::Mapping(es)),
        }
    }
}

/// The elements of a sequence, up to but not including the close tag that
/// must follow them. Yields their models and the bytes they occupy.
pub open spec fn spec_decode_elems(input: Seq<u8>, elem: Shape) -> Result<
    (Seq<ValueModel>, int),
    Error,
>
    decreases input.len(), elem, 1int,
{
    if input.len() == 0 {
        Err(Error::UnexpectedEnd)
    } else if input[0] == TAG_CLOSE {
        Ok((Seq::empty(), 0))
    } else {
        match spec_decode(input, elem) {
            Err(e) => Err(e),
            Ok((v, n)) => {
                if !(1 <= n <= input.len()) {
                    // Never taken: a decoded value occupies at least one byte
                    // and at most the whole input (lemma_spec_decode_consumed).
                    Err(Error::Syntax)
                } else {
                    match spec_decode_elems(input.skip(n), elem) {
                        Err(e) => Err(e),
                        Ok((vs, m)) => Ok((seq![v] + vs, n + m)),
                    }
                }
            },
        }
    }
}

/// The fields of a fixed-arity sequence, one shape per position, decoded
/// in order with no lookahead. Yields their models and the bytes they
/// occupy.
pub open spec fn spec_decode_fields(input: Seq<u8>, shapes: Seq<Shape>) -> Result<
    (Seq<ValueModel>, int),
    Error,
>
    decreases input.len(), shapes, 1int,
{
    if shapes.len() == 0 {
        Ok((Seq::empty(), 0))
    } else {
        match spec_decode(input, shapes[0]) {
            Err(e) => Err(e),
            Ok((v, n)) => {
                if !(1 <= n <= input.len()) {
                    // Never taken (lemma_spec_decode_consumed).
                    Err(Error::Syntax)
                } else {
                    match spec_decode_fields(input.skip(n), shapes.drop_first()) {
                        Err(e) => Err(e),
                        Ok((vs, m)) => Ok((seq![v] + vs, n + m)),
                    }
                }
            },
        }
    }
}

/// The entries of a map, alternating key and value reads with no separator
/// bytes, up to but not including the close tag. Yields their models and
/// the bytes they occupy.
pub open spec fn spec_decode_entries(input: Seq<u8>, kshape: Shape, vshape: Shape) -> Result<
    (Seq<(ValueModel, ValueModel)>, int),
    Error,
>
    decreases input.len(), kshape, 1int,
{
    if input.len() == 0 {
        Err(Error::UnexpectedEnd)
    } else if input[0] == TAG_CLOSE {
        Ok((Seq::empty(), 0))
    } else {
        match spec_decode(input, kshape) {
            Err(e) => Err(e),
            Ok((kv, nk)) => {
                if !(1 <= nk <= input.len()) {
                    // Never taken (lemma_spec_decode_consumed).
                    Err(Error::Syntax)
                } else {
                    match spec_decode(input.skip(nk), vshape) {
                        Err(e) => Err(e),
                        Ok((vv, nv)) => {
                            if !(1 <= nv <= input.len() - nk) {
                                // Never taken (lemma_spec_decode_consumed).
                                Err(Error::Syntax)
                            } else {
                                match spec_decode_entries(input.skip(nk + nv), kshape, vshape) {
                                    Err(e) => Err(e),
                                    Ok((es, m)) => Ok((seq![(kv, vv)] + es, nk + nv + m)),
                                }
                            }
                        },
                    }
                }
            },
        }
    }
}

/// An externally tagged enum value: either a bare string naming a unit
/// variant, or a one-entry map whose key names the variant and whose value
/// is the payload the variant's declared form demands.
pub open spec fn spec_decode_enum(input: Seq<u8>, variants: Seq<(String, VariantShape)>) -> Result<
    (ValueModel, int),
    Error,
>
    decreases input.len(), variants, 1int,
{
    if input.len() == 0 {
        Err(Error::UnexpectedEnd)
    } else if is_string_tag(input[0]) {
        match spec_parse_string(input) {
            Err(e) => Err(e),
            Ok((name, n)) => match find_variant(variants, name) {
                Some(VariantShape::Unit) => Ok(
                    (ValueModel::Variant(name, Box::new(ValueModel::Unit)), n),
                ),
                // A bare string can only satisfy a unit variant; a name that
                // is not a declared variant, or that demands a payload, is
                // not valid for this target.
                _ => Err(Error::Syntax),
            },
        }
    } else if input[0] != TAG_MAP_OPEN {
        Err(Error::ExpectedEnum)
    } else {
        spec_decode_enum_map(input, variants)
    }
}

/// The map form of an externally tagged enum: the open tag, the variant
/// name as a string key, the payload the variant's declared form demands,
/// and the close tag.
pub open spec fn spec_decode_enum_map(input: Seq<u8>, variants: Seq<(String, VariantShape)>) -> Result<
    (ValueModel, int),
    Error,
>
    decreases input.len(), variants, 0int,
{
    if input.len() == 0 {
        Err(Error::UnexpectedEnd)
    } else {
        let inner = input.skip(1);
        match spec_parse_string(inner) {
            Err(e) => Err(e),
            Ok((name, n)) => {
                if !(1 <= n <= inner.len()) {
                    // Never taken: a string occupies at least its tag byte.
                    Err(Error::Syntax)
                } else {
                    let rest = inner.skip(n);
                    match find_variant(variants, name) {
                        None => Err(Error::Syntax),
                        Some(kind) => match spec_decode_variant_payload(rest, kind) {
                            Err(e) => Err(e),
                            Ok((pv, np)) => spec_close(
                                input,
                                1 + n + np,
                                ValueModel::Variant(name, Box::new(pv)),
                            ),
                        },
                    }
                }
            },
        }
    }
}

/// The payload of one enum variant, per its declared form. The
/// payload-bearing map form cannot satisfy a unit variant.
pub open spec fn spec_decode_variant_payload(input: Seq<u8>, kind: VariantShape) -> Result<
    (ValueModel, int),
    Error,
>
    decreases input.len(), kind, 1int,
{
    match kind {
        VariantShape::Unit => Err(Error::ExpectedString),
        VariantShape::Newtype(s) => spec_decode(input, *s),
        VariantShape::Tuple(shapes) => {
            if input.len() == 0 {
                Err(Error::UnexpectedEnd)
            } else if input[0] != TAG_SEQ_OPEN {
                Err(Error::ExpectedArray)
            } else {
                match spec_decode_fields(input.skip(1), shapes@) {
                    Err(e) => Err(e),
                    Ok((vs, nf)) => spec_close(input, 1 + nf, ValueModel::Sequence(vs)),
                }
            }
        },
        VariantShape::Struct(ks, vs) => {
            if input.len() == 0 {
                Err(Error::UnexpectedEnd)
            } else if input[0] != TAG_MAP_OPEN {
                Err(Error::ExpectedMap)
            } else {
                match spec_decode_entries(input.skip(1), *ks, *vs) {
                    Err(e) => Err(e),
                    Ok((es, ne)) => spec_close(input, 1 + ne, ValueModel::Mapping(es)),
                }
            }
        },
    }
}

/// A successfully parsed string occupies at least its tag byte and at
/// most the whole input.
pub proof fn lemma_spec_parse_string_consumed(input: Seq<u8>)
    ensures
        spec_parse_string(input) matches Ok(p) ==> 1 <= p.1 <= input.len(),
{
}

/// A successfully decoded value occupies at least one byte and at most
/// the whole input.
pub proof fn lemma_spec_decode_consumed(input: Seq<u8>, shape: Shape)
    ensures
        spec_decode(input, shape) matches Ok(p) ==> 1 <= p.1 <= input.len(),
    decreases input.len(), shape, 0int,
{
    match shape {
        Shape::Text => lemma_spec_parse_string_consumed(input),
        Shape::Optional(inner) => {
            if input.len() > 0 && input[0] != TAG_UNIT {
                lemma_spec_decode_consumed(input, *inner);
            }
        },
        Shape::Sequence(elem) => lemma_spec_decode_sequence_consumed(input, *elem),
        Shape::Tuple(shapes) => lemma_spec_decode_tuple_consumed(input, shapes@),
        Shape::Mapping(ks, vs) => lemma_spec_decode_mapping_consumed(input, *ks, *vs),
        Shape::Enum(variants) => lemma_spec_decode_enum_consumed(input, variants@),
        _ => {},
    }
}

/// A successfully decoded sequence occupies at least one byte and at
/// most the whole input.
pub proof fn lemma_spec_decode_sequence_consumed(input: Seq<u8>, elem: Shape)
    ensures
        spec_decode_sequence(input, elem) matches Ok(p) ==> 1 <= p.1 <= input.len(),
    decreases input.len(), elem, 2int,
{
    if input.len() > 0 && input[0] == TAG_SEQ_OPEN {
        lemma_spec_decode_elems_consumed(input.skip(1), elem);
    }
}

/// A successfully decoded tuple occupies at least one byte and at most
/// the whole input.
pub proof fn lemma_spec_decode_tuple_consumed(input: Seq<u8>, shapes: Seq<Shape>)
    ensures
        spec_decode_tuple(input, shapes) matches Ok(p) ==> 1 <= p.1 <= input.len(),
    decreases input.len(), shapes, 2int,
{
    if input.len() > 0 && input[0] == TAG_SEQ_OPEN {
        lemma_spec_decode_fields_consumed(input.skip(1), shapes);
    }
}

/// A successfully decoded map occupies at least one byte and at most the
/// whole input.
pub proof fn lemma_spec_decode_mapping_consumed(input: Seq<u8>, kshape: Shape, vshape: Shape)
    ensures
        spec_decode_mapping(input, kshape, vshape) matches Ok(p) ==> 1 <= p.1 <= input.len(),
    decreases input.len(), kshape, 2int,
{
    if input.len() > 0 && input[0] == TAG_MAP_OPEN {
        lemma_spec_decode_entries_consumed(input.skip(1), kshape, vshape);
    }
}

/// Successfully decoded sequence elements occupy at most the whole input.
pub proof fn lemma_spec_decode_elems_consumed(input: Seq<u8>, elem: Shape)
    ensures
        spec_decode_elems(input, elem) matches Ok(p) ==> 0 <= p.1 <= input.len(),
    decreases input.len(), elem, 1int,
{
    if input.len() == 0 {
    } else if input[0] == TAG_CLOSE {
    } else {
        lemma_spec_decode_consumed(input, elem);
        match spec_decode(input, elem) {
            Ok((v, n)) => {
                if 1 <= n <= input.len() {
                    lemma_spec_decode_elems_consumed(input.skip(n), elem);
                }
            },
            Err(_) => {},
        }
    }
}

/// Successfully decoded tuple fields occupy at most the whole input.
pub proof fn lemma_spec_decode_fields_consumed(input: Seq<u8>, shapes: Seq<Shape>)
    ensures
        spec_decode_fields(input, shapes) matches Ok(p) ==> 0 <= p.1 <= input.len(),
    decreases input.len(), shapes, 1int,
{
    if shapes.len() == 0 {
    } else {
        lemma_spec_decode_consumed(input, shapes[0]);
        match spec_decode(input, shapes[0]) {
            Ok((v, n)) => {
                if 1 <= n <= input.len() {
                    lemma_spec_decode_fields_consumed(input.skip(n), shapes.drop_first());
                }
            },
            Err(_) => {},
        }
    }
}

/// Successfully decoded map entries occupy at most the whole input.
pub proof fn lemma_spec_decode_entries_consumed(input: Seq<u8>, kshape: Shape, vshape: Shape)
    ensures
        spec_decode_entries(input, kshape, vshape) matches Ok(p) ==> 0 <= p.1 <= input.len(),
    decreases input.len(), kshape, 1int,
{
    if input.len() == 0 {
    } else if input[0] == TAG_CLOSE {
    } else {
        lemma_spec_decode_consumed(input, kshape);
        match spec_decode(input, kshape) {
            Ok((kv, nk)) => {
                if 1 <= nk <= input.len() {
                    lemma_spec_decode_consumed(input.skip(nk), vshape);
                    match spec_decode(input.skip(nk), vshape) {
                        Ok((vv, nv)) => {
                            if 1 <= nv <= input.len() - nk {
                                lemma_spec_decode_entries_consumed(
                                    input.skip(nk + nv),
                                    kshape,
                                    vshape,
                                );
                            }
                        },
                        Err(_) => {},
                    }
                }
            },
            Err(_) => {},
        }
    }
}

/// A successfully decoded enum value occupies at least one byte and at
/// most the whole input.
pub proof fn lemma_spec_decode_enum_consumed(
    input: Seq<u8>,
    variants: Seq<(String, VariantShape)>,
)
    ensures
        spec_decode_enum(input, variants) matches Ok(p) ==> 1 <= p.1 <= input.len(),
    decreases input.len(), variants, 1int,
{
    if input.len() == 0 {
    } else if is_string_tag(input[0]) {
        lemma_spec_parse_string_consumed(input);
    } else if input[0] != TAG_MAP_OPEN {
    } else {
        lemma_spec_decode_enum_map_consumed(input, variants);
    }
}

/// The map form of a successfully decoded enum value occupies at least
/// one byte and at most the whole input.
pub proof fn lemma_spec_decode_enum_map_consumed(
    input: Seq<u8>,
    variants: Seq<(String, VariantShape)>,
)
    requires
        input.len() >= 1,
    ensures
        spec_decode_enum_map(input, variants) matches Ok(p) ==> 1 <= p.1 <= input.len(),
    decreases input.len(), variants, 0int,
{
    let inner = input.skip(1);
    lemma_spec_parse_string_consumed(inner);
    match spec_parse_string(inner) {
        Ok((name, n)) => {
            if 1 <= n <= inner.len() {
                let rest = inner.skip(n);
                match find_variant(variants, name) {
                    Some(kind) => {
                        lemma_spec_decode_variant_payload_consumed(rest, kind);
                    },
                    None => {},
                }
            }
        },
        Err(_) => {},
    }
}

/// A successfully decoded variant payload occupies at least one byte and
/// at most the whole input.
pub proof fn lemma_spec_decode_variant_payload_consumed(input: Seq<u8>, kind: VariantShape)
    ensures
        spec_decode_variant_payload(input, kind) matches Ok(p) ==> 1 <= p.1 <= input.len(),
    decreases input.len(), kind, 1int,
{
    match kind {
        VariantShape::Unit => {},
        VariantShape::Newtype(s) => {
            lemma_spec_decode_consumed(input, *s);
        },
        VariantShape::Tuple(shapes) => {
            if input.len() > 0 && input[0] == TAG_SEQ_OPEN {
                lemma_spec_decode_fields_consumed(input.skip(1), shapes@);
            }
        },
        VariantShape::Struct(ks, vs) => {
            if input.len() > 0 && input[0] == TAG_MAP_OPEN {
                lemma_spec_decode_entries_consumed(input.skip(1), *ks, *vs);
            }
        },
    }
}

/// A top-level decode: the value must occupy the entire input.
pub open spec fn spec_decode_complete(input: Seq<u8>, shape: Shape) -> Result<ValueModel, Error> {
    match spec_decode(input, shape) {
        Err(e) => Err(e),
        Ok((v, n)) => {
            if n == input.len() {
                Ok(v)
            } else {
                Err(Error::TrailingCharacters)
            }
        },
    }
}

} // verus!
