use vstd::prelude::*;
use vstd::utf8::{decode_utf8, valid_utf8};

use crate::error::Error;
use crate::grammar::{
    be_uint, is_string_tag, spec_close, spec_decode, spec_decode_elems, spec_decode_entries,
    spec_decode_enum, spec_decode_enum_map, spec_decode_fields, spec_decode_mapping,
    spec_decode_sequence, spec_decode_tuple, spec_decode_variant_payload, spec_parse_bool,
    spec_parse_string, spec_read_scalar, spec_string_header, TAG_CLOSE, TAG_MAP_OPEN, TAG_SEQ_OPEN,
    TAG_STR16, TAG_STR32, TAG_STR64, TAG_STR8, TAG_UNIT,
};
use crate::value::{find_variant, Shape, ValueModel, VariantShape};

verus! {

broadcast use vstd::seq::group_seq_axioms, vstd::std_specs::vec::group_vec_axioms;

/// Appending bytes does not change a successful boolean parse.
proof fn lemma_spec_parse_bool_extend(input: Seq<u8>, tail: Seq<u8>)
    ensures
        spec_parse_bool(input) matches Ok(p) ==> spec_parse_bool(input + tail) == Ok::<
            (bool, int),
            Error,
        >(p),
{
}

/// Appending bytes does not change a successful scalar parse.
proof fn lemma_spec_read_scalar_extend(input: Seq<u8>, tail: Seq<u8>, tag: u8, width: int)
    requires
        width >= 0,
    ensures
        spec_read_scalar(input, tag, width) matches Ok(p) ==> spec_read_scalar(
            input + tail,
            tag,
            width,
        ) == Ok::<(nat, int), Error>(p),
{
    if spec_read_scalar(input, tag, width) is Ok {
        assert((input + tail).subrange(1, 1 + width) =~= input.subrange(1, 1 + width));
    }
}

/// Appending bytes does not change a successful string header parse.
proof fn lemma_spec_string_header_extend(input: Seq<u8>, tail: Seq<u8>)
    ensures
        spec_string_header(input) matches Ok(p) ==> spec_string_header(input + tail) == Ok::<
            (nat, int),
            Error,
        >(p),
{
    if spec_string_header(input) is Ok {
        if input.len() >= 3 {
            assert((input + tail).subrange(1, 3) =~= input.subrange(1, 3));
        }
        if input.len() >= 5 {
            assert((input + tail).subrange(1, 5) =~= input.subrange(1, 5));
        }
        if input.len() >= 9 {
            assert((input + tail).subrange(1, 9) =~= input.subrange(1, 9));
        }
    }
}

/// Appending bytes does not change a successful string parse.
pub proof fn lemma_spec_parse_string_extend(input: Seq<u8>, tail: Seq<u8>)
    ensures
        spec_parse_string(input) matches Ok(p) ==> spec_parse_string(input + tail) == Ok::<
            (Seq<char>, int),
            Error,
        >(p),
{
    lemma_spec_string_header_extend(input, tail);
    match spec_string_header(input) {
        Ok((len, hdr)) => {
            if input.len() >= hdr + len {
                assert((input + tail).subrange(hdr, hdr + len as int) =~= input.subrange(
                    hdr,
                    hdr + len as int,
                ));
            }
        },
        Err(_) => {},
    }
}

/// Decoding reads only the bytes the value occupies: appending anything
/// to the input changes neither the decoded value nor the number of
/// bytes it occupies. With the decoder's contract this says that
/// decoding an encoding followed by a tail yields the same value as
/// decoding the encoding alone, and leaves the tail untouched.
pub proof fn lemma_spec_decode_extend(input: Seq<u8>, tail: Seq<u8>, shape: Shape)
    ensures
        spec_decode(input, shape) matches Ok(p) ==> spec_decode(input + tail, shape) == Ok::<
            (ValueModel, int),
            Error,
        >(p),
    decreases input.len(), shape, 0int,
{
    match shape {
        Shape::Bool => lemma_spec_parse_bool_extend(input, tail),
        Shape::U8 => lemma_spec_read_scalar_extend(input, tail, crate::grammar::TAG_U8, 1),
        Shape::U16 => lemma_spec_read_scalar_extend(input, tail, crate::grammar::TAG_U16, 2),
        Shape::U32 => lemma_spec_read_scalar_extend(input, tail, crate::grammar::TAG_U32, 4),
        Shape::U64 => lemma_spec_read_scalar_extend(input, tail, crate::grammar::TAG_U64, 8),
        Shape::I8 => lemma_spec_read_scalar_extend(input, tail, crate::grammar::TAG_I8, 1),
        Shape::I16 => lemma_spec_read_scalar_extend(input, tail, crate::grammar::TAG_I16, 2),
        Shape::I32 => lemma_spec_read_scalar_extend(input, tail, crate::grammar::TAG_I32, 4),
        Shape::I64 => lemma_spec_read_scalar_extend(input, tail, crate::grammar::TAG_I64, 8),
        Shape::F32 => lemma_spec_read_scalar_extend(input, tail, crate::grammar::TAG_F32, 4),
        Shape::F64 => lemma_spec_read_scalar_extend(input, tail, crate::grammar::TAG_F64, 8),
        Shape::Text => lemma_spec_parse_string_extend(input, tail),
        Shape::Unit => {},
        Shape::Optional(inner) => {
            if input.len() > 0 && input[0] != TAG_UNIT {
                lemma_spec_decode_extend(input, tail, *inner);
            }
        },
        Shape::Sequence(elem) => lemma_spec_decode_sequence_extend(input, tail, *elem),
        Shape::Tuple(shapes) => lemma_spec_decode_tuple_extend(input, tail, shapes@),
        Shape::Mapping(ks, vs) => lemma_spec_decode_mapping_extend(input, tail, *ks, *vs),
        Shape::Enum(variants) => lemma_spec_decode_enum_extend(input, tail, variants@),
    }
}

/// Appending bytes does not change a successfully decoded sequence.
proof fn lemma_spec_decode_sequence_extend(input: Seq<u8>, tail: Seq<u8>, elem: Shape)
    ensures
        spec_decode_sequence(input, elem) matches Ok(p) ==> spec_decode_sequence(
            input + tail,
            elem,
        ) == Ok::<(ValueModel, int), Error>(p),
    decreases input.len(), elem, 2int,
{
    if input.len() > 0 && input[0] == TAG_SEQ_OPEN {
        assert((input + tail)[0] == input[0]);
        assert((input + tail).skip(1) =~= input.skip(1) + tail);
        lemma_spec_decode_elems_extend(input.skip(1), tail, elem);
        crate::grammar::lemma_spec_decode_elems_consumed(input.skip(1), elem);
        match spec_decode_elems(input.skip(1), elem) {
            Ok((vs, n)) => {
                if 0 <= n && 1 + n < input.len() {
                    assert((input + tail)[1 + n] == input[1 + n]);
                }
            },
            Err(_) => {},
        }
    }
}

/// Appending bytes does not change a successfully decoded tuple.
proof fn lemma_spec_decode_tuple_extend(input: Seq<u8>, tail: Seq<u8>, shapes: Seq<Shape>)
    ensures
        spec_decode_tuple(input, shapes) matches Ok(p) ==> spec_decode_tuple(input + tail, shapes)
            == Ok::<(ValueModel, int), Error>(p),
    decreases input.len(), shapes, 2int,
{
    if input.len() > 0 && input[0] == TAG_SEQ_OPEN {
        assert((input + tail)[0] == input[0]);
        assert((input + tail).skip(1) =~= input.skip(1) + tail);
        lemma_spec_decode_fields_extend(input.skip(1), tail, shapes);
        crate::grammar::lemma_spec_decode_fields_consumed(input.skip(1), shapes);
        match spec_decode_fields(input.skip(1), shapes) {
            Ok((vs, n)) => {
                if 0 <= n && 1 + n < input.len() {
                    assert((input + tail)[1 + n] == input[1 + n]);
                }
            },
            Err(_) => {},
        }
    }
}

/// Appending bytes does not change a successfully decoded map.
proof fn lemma_spec_decode_mapping_extend(
    input: Seq<u8>,
    tail: Seq<u8>,
    kshape: Shape,
    vshape: Shape,
)
    ensures
        spec_decode_mapping(input, kshape, vshape) matches Ok(p) ==> spec_decode_mapping(
            input + tail,
            kshape,
            vshape,
        ) == Ok::<(ValueModel, int), Error>(p),
    decreases input.len(), kshape, 2int,
{
    if input.len() > 0 && input[0] == TAG_MAP_OPEN {
        assert((input + tail)[0] == input[0]);
        assert((input + tail).skip(1) =~= input.skip(1) + tail);
        lemma_spec_decode_entries_extend(input.skip(1), tail, kshape, vshape);
        crate::grammar::lemma_spec_decode_entries_consumed(input.skip(1), kshape, vshape);
        match spec_decode_entries(input.skip(1), kshape, vshape) {
            Ok((es, n)) => {
                if 0 <= n && 1 + n < input.len() {
                    assert((input + tail)[1 + n] == input[1 + n]);
                }
            },
            Err(_) => {},
        }
    }
}

/// Appending bytes does not change successfully decoded sequence
/// elements: the scan still stops at the same close tag.
proof fn lemma_spec_decode_elems_extend(input: Seq<u8>, tail: Seq<u8>, elem: Shape)
    ensures
        spec_decode_elems(input, elem) matches Ok(p) ==> spec_decode_elems(input + tail, elem)
            == Ok::<(Seq<ValueModel>, int), Error>(p),
    decreases input.len(), elem, 1int,
{
    if input.len() == 0 {
    } else if input[0] == TAG_CLOSE {
    } else {
        lemma_spec_decode_extend(input, tail, elem);
        match spec_decode(input, elem) {
            Ok((v, n)) => {
                if 1 <= n <= input.len() {
                    assert((input + tail).skip(n) =~= input.skip(n) + tail);
                    lemma_spec_decode_elems_extend(input.skip(n), tail, elem);
                }
            },
            Err(_) => {},
        }
    }
}

/// Appending bytes does not change successfully decoded tuple fields.
proof fn lemma_spec_decode_fields_extend(input: Seq<u8>, tail: Seq<u8>, shapes: Seq<Shape>)
    ensures
        spec_decode_fields(input, shapes) matches Ok(p) ==> spec_decode_fields(
            input + tail,
            shapes,
        ) == Ok::<(Seq<ValueModel>, int), Error>(p),
    decreases input.len(), shapes, 1int,
{
    if shapes.len() == 0 {
    } else {
        lemma_spec_decode_extend(input, tail, shapes[0]);
        match spec_decode(input, shapes[0]) {
            Ok((v, n)) => {
                if 1 <= n <= input.len() {
                    assert((input + tail).skip(n) =~= input.skip(n) + tail);
                    lemma_spec_decode_fields_extend(input.skip(n), tail, shapes.drop_first());
                }
            },
            Err(_) => {},
        }
    }
}

/// Appending bytes does not change successfully decoded map entries.
proof fn lemma_spec_decode_entries_extend(
    input: Seq<u8>,
    tail: Seq<u8>,
    kshape: Shape,
    vshape: Shape,
)
    ensures
        spec_decode_entries(input, kshape, vshape) matches Ok(p) ==> spec_decode_entries(
            input + tail,
            kshape,
            vshape,
        ) == Ok::<(Seq<(ValueModel, ValueModel)>, int), Error>(p),
    decreases input.len(), kshape, 1int,
{
    if input.len() == 0 {
    } else if input[0] == TAG_CLOSE {
    } else {
        lemma_spec_decode_extend(input, tail, kshape);
        match spec_decode(input, kshape) {
            Ok((kv, nk)) => {
                if 1 <= nk <= input.len() {
                    assert((input + tail).skip(nk) =~= input.skip(nk) + tail);
                    lemma_spec_decode_extend(input.skip(nk), tail, vshape);
                    match spec_decode(input.skip(nk), vshape) {
                        Ok((vv, nv)) => {
                            if 1 <= nv <= input.len() - nk {
                                assert((input + tail).skip(nk + nv) =~= input.skip(nk + nv)
                                    + tail);
                                lemma_spec_decode_entries_extend(
                                    input.skip(nk + nv),
                                    tail,
                                    kshape,
                                    vshape,
                                );
                            }
                        },
                        Err(_) => {},
                    }
                }
            },
            Err(_) => {},
        }
    }
}

/// Appending bytes does not change a successfully decoded enum value.
proof fn lemma_spec_decode_enum_extend(
    input: Seq<u8>,
    tail: Seq<u8>,
    variants: Seq<(String, VariantShape)>,
)
    ensures
        spec_decode_enum(input, variants) matches Ok(p) ==> spec_decode_enum(input + tail, variants)
            == Ok::<(ValueModel, int), Error>(p),
    decreases input.len(), variants, 3int,
{
    if input.len() == 0 {
    } else if is_string_tag(input[0]) {
        lemma_spec_parse_string_extend(input, tail);
    } else if input[0] != TAG_MAP_OPEN {
    } else {
        lemma_spec_decode_enum_map_extend(input, tail, variants);
    }
}

/// Appending bytes does not change a successfully decoded enum map form.
#[verifier::rlimit(50)]
proof fn lemma_spec_decode_enum_map_extend(
    input: Seq<u8>,
    tail: Seq<u8>,
    variants: Seq<(String, VariantShape)>,
)
    requires
        input.len() >= 1,
    ensures
        spec_decode_enum_map(input, variants) matches Ok(p) ==> spec_decode_enum_map(
            input + tail,
            variants,
        ) == Ok::<(ValueModel, int), Error>(p),
    decreases input.len(), variants, 2int,
{
    let inner = input.skip(1);
    assert((input + tail).skip(1) =~= inner + tail);
    lemma_spec_parse_string_extend(inner, tail);
    match spec_parse_string(inner) {
        Ok((name, n)) => {
            if 1 <= n <= inner.len() {
                let rest = inner.skip(n);
                assert((inner + tail).skip(n) =~= rest + tail);
                match find_variant(variants, name) {
                    Some(kind) => {
                        lemma_spec_decode_variant_payload_extend(rest, tail, kind);
                        crate::grammar::lemma_spec_decode_variant_payload_consumed(rest, kind);
                        match spec_decode_variant_payload(rest, kind) {
                            Ok((pv, np)) => {
                                if 0 <= np && 1 + n + np < input.len() {
                                    assert((input + tail)[1 + n + np] == input[1 + n + np]);
                                }
                            },
                            Err(_) => {},
                        }
                    },
                    None => {},
                }
            }
        },
        Err(_) => {},
    }
}

/// Appending bytes does not change a successfully decoded variant payload.
#[verifier::rlimit(50)]
proof fn lemma_spec_decode_variant_payload_extend(input: Seq<u8>, tail: Seq<u8>, kind: VariantShape)
    ensures
        spec_decode_variant_payload(input, kind) matches Ok(p) ==> spec_decode_variant_payload(
            input + tail,
            kind,
        ) == Ok::<(ValueModel, int), Error>(p),
    decreases input.len(), kind, 1int,
{
    match kind {
        VariantShape::Unit => {},
        VariantShape::Newtype(s) => {
            lemma_spec_decode_extend(input, tail, *s);
        },
        VariantShape::Tuple(shapes) => {
            if input.len() > 0 && input[0] == TAG_SEQ_OPEN {
                assert((input + tail)[0] == input[0]);
                assert((input + tail).skip(1) =~= input.skip(1) + tail);
                lemma_spec_decode_fields_extend(input.skip(1), tail, shapes@);
                crate::grammar::lemma_spec_decode_fields_consumed(input.skip(1), shapes@);
                match spec_decode_fields(input.skip(1), shapes@) {
                    Ok((vs, n)) => {
                        if 0 <= n && 1 + n < input.len() {
                            assert((input + tail)[1 + n] == input[1 + n]);
                        }
                    },
                    Err(_) => {},
                }
            }
        },
        VariantShape::Struct(ks, vs) => {
            if input.len() > 0 && input[0] == TAG_MAP_OPEN {
                assert((input + tail)[0] == input[0]);
                assert((input + tail).skip(1) =~= input.skip(1) + tail);
                lemma_spec_decode_entries_extend(input.skip(1), tail, *ks, *vs);
                crate::grammar::lemma_spec_decode_entries_consumed(input.skip(1), *ks, *vs);
                match spec_decode_entries(input.skip(1), *ks, *vs) {
                    Ok((es, n)) => {
                        if 0 <= n && 1 + n < input.len() {
                            assert((input + tail)[1 + n] == input[1 + n]);
                        }
                    },
                    Err(_) => {},
                }
            }
        },
    }
}

/// One string content decodes to the same characters through every
/// length class that can carry it: the inline tag and the four explicit
/// length fields are interchangeable.
pub proof fn lemma_string_length_classes(
    content: Seq<u8>,
    field2: Seq<u8>,
    field4: Seq<u8>,
    field8: Seq<u8>,
)
    requires
        valid_utf8(content),
        content.len() <= usize::MAX,
        field2.len() == 2,
        field4.len() == 4,
        field8.len() == 8,
        be_uint(field2) == content.len(),
        be_uint(field4) == content.len(),
        be_uint(field8) == content.len(),
    ensures
        content.len() <= 0x3f ==> spec_parse_string(
            seq![(0x80 + content.len()) as u8] + content,
        ) == Ok::<(Seq<char>, int), Error>((decode_utf8(content), 1 + content.len() as int)),
        content.len() <= 0xff ==> spec_parse_string(
            seq![TAG_STR8, content.len() as u8] + content,
        ) == Ok::<(Seq<char>, int), Error>((decode_utf8(content), 2 + content.len() as int)),
        spec_parse_string(seq![TAG_STR16] + field2 + content) == Ok::<(Seq<char>, int), Error>(
            (decode_utf8(content), 3 + content.len() as int),
        ),
        spec_parse_string(seq![TAG_STR32] + field4 + content) == Ok::<(Seq<char>, int), Error>(
            (decode_utf8(content), 5 + content.len() as int),
        ),
        spec_parse_string(seq![TAG_STR64] + field8 + content) == Ok::<(Seq<char>, int), Error>(
            (decode_utf8(content), 9 + content.len() as int),
        ),
{
    if content.len() <= 0x3f {
        let tag = (0x80 + content.len()) as u8;
        let l8 = content.len() as u8;
        let input = seq![tag] + content;
        assert(tag == 0x80 + l8);
        assert(tag & 0xc0 == 0x80 && tag & 0x3f == l8) by (bit_vector)
            requires
                tag == 0x80 + l8,
                l8 <= 0x3f,
        ;
        assert(input.subrange(1, 1 + content.len() as int) =~= content);
    }
    if content.len() <= 0xff {
        let input = seq![TAG_STR8, content.len() as u8] + content;
        assert(!(TAG_STR8 & 0xc0 == 0x80)) by (bit_vector);
        assert(input[1] == content.len() as u8);
        assert(input.subrange(2, 2 + content.len() as int) =~= content);
    }
    {
        let input = seq![TAG_STR16] + field2 + content;
        assert(!(TAG_STR16 & 0xc0 == 0x80)) by (bit_vector);
        assert(input.subrange(1, 3) =~= field2);
        assert(input.subrange(3, 3 + content.len() as int) =~= content);
    }
    {
        let input = seq![TAG_STR32] + field4 + content;
        assert(!(TAG_STR32 & 0xc0 == 0x80)) by (bit_vector);
        assert(input.subrange(1, 5) =~= field4);
        assert(input.subrange(5, 5 + content.len() as int) =~= content);
    }
    {
        let input = seq![TAG_STR64] + field8 + content;
        assert(!(TAG_STR64 & 0xc0 == 0x80)) by (bit_vector);
        assert(input.subrange(1, 9) =~= field8);
        assert(input.subrange(9, 9 + content.len() as int) =~= content);
    }
}


/// A decode on the empty input always reports the exhausted buffer.
proof fn lemma_spec_decode_empty(shape: Shape)
    ensures
        spec_decode(Seq::<u8>::empty(), shape) == Err::<(ValueModel, int), Error>(
            Error::UnexpectedEnd,
        ),
{
    let e = Seq::<u8>::empty();
    match shape {
        Shape::Text => {
            assert(spec_string_header(e) == Err::<(nat, int), Error>(Error::UnexpectedEnd));
        },
        Shape::Sequence(elem) => {
            assert(spec_decode_sequence(e, *elem) == Err::<(ValueModel, int), Error>(
                Error::UnexpectedEnd,
            ));
        },
        Shape::Tuple(shapes) => {
            assert(spec_decode_tuple(e, shapes@) == Err::<(ValueModel, int), Error>(
                Error::UnexpectedEnd,
            ));
        },
        Shape::Mapping(ks, vs) => {
            assert(spec_decode_mapping(e, *ks, *vs) == Err::<(ValueModel, int), Error>(
                Error::UnexpectedEnd,
            ));
        },
        Shape::Enum(variants) => {
            assert(spec_decode_enum(e, variants@) == Err::<(ValueModel, int), Error>(
                Error::UnexpectedEnd,
            ));
        },
        _ => {},
    }
}

/// Truncating the input behind a successful boolean parse keeps it intact.
proof fn lemma_spec_parse_bool_take(input: Seq<u8>, m: int)
    ensures
        spec_parse_bool(input) matches Ok(p) ==> p.1 <= m <= input.len() ==> spec_parse_bool(
            input.take(m),
        ) == Ok::<(bool, int), Error>(p),
{
}

/// Truncating the input behind a successful scalar parse keeps it intact.
proof fn lemma_spec_read_scalar_take(input: Seq<u8>, tag: u8, width: int, m: int)
    requires
        width >= 0,
    ensures
        spec_read_scalar(input, tag, width) matches Ok(p) ==> p.1 <= m <= input.len()
            ==> spec_read_scalar(input.take(m), tag, width) == Ok::<(nat, int), Error>(p),
{
    match spec_read_scalar(input, tag, width) {
        Ok((v, n)) => {
            if n <= m <= input.len() {
                assert(input.take(m).subrange(1, 1 + width) =~= input.subrange(1, 1 + width));
            }
        },
        Err(_) => {},
    }
}

/// Truncating the input behind a successful header parse keeps it intact.
proof fn lemma_spec_string_header_take(input: Seq<u8>, m: int)
    ensures
        spec_string_header(input) matches Ok(p) ==> p.1 <= m <= input.len() ==> spec_string_header(
            input.take(m),
        ) == Ok::<(nat, int), Error>(p),
{
    match spec_string_header(input) {
        Ok((len, hdr)) => {
            if hdr <= m <= input.len() {
                if m >= 3 && input[0] == TAG_STR16 {
                    assert(input.take(m).subrange(1, 3) =~= input.subrange(1, 3));
                }
                if m >= 5 && input[0] == TAG_STR32 {
                    assert(input.take(m).subrange(1, 5) =~= input.subrange(1, 5));
                }
                if m >= 9 && input[0] == TAG_STR64 {
                    assert(input.take(m).subrange(1, 9) =~= input.subrange(1, 9));
                }
            }
        },
        Err(_) => {},
    }
}

/// Truncating the input behind a successful string parse keeps it intact.
proof fn lemma_spec_parse_string_take(input: Seq<u8>, m: int)
    ensures
        spec_parse_string(input) matches Ok(p) ==> p.1 <= m <= input.len() ==> spec_parse_string(
            input.take(m),
        ) == Ok::<(Seq<char>, int), Error>(p),
{
    lemma_spec_string_header_take(input, m);
    match spec_string_header(input) {
        Ok((len, hdr)) => {
            if hdr + len <= m <= input.len() {
                assert(input.take(m).subrange(hdr, hdr + len as int) =~= input.subrange(
                    hdr,
                    hdr + len as int,
                ));
            }
        },
        Err(_) => {},
    }
}

/// Truncating the input behind a successfully decoded value keeps the
/// decode intact: the bytes past the value never mattered.
pub proof fn lemma_spec_decode_take(input: Seq<u8>, shape: Shape, m: int)
    ensures
        spec_decode(input, shape) matches Ok(p) ==> p.1 <= m <= input.len() ==> spec_decode(
            input.take(m),
            shape,
        ) == Ok::<(ValueModel, int), Error>(p),
    decreases input.len(), shape, 0int,
{
    crate::grammar::lemma_spec_decode_consumed(input, shape);
    match shape {
        Shape::Bool => lemma_spec_parse_bool_take(input, m),
        Shape::U8 => lemma_spec_read_scalar_take(input, crate::grammar::TAG_U8, 1, m),
        Shape::U16 => lemma_spec_read_scalar_take(input, crate::grammar::TAG_U16, 2, m),
        Shape::U32 => lemma_spec_read_scalar_take(input, crate::grammar::TAG_U32, 4, m),
        Shape::U64 => lemma_spec_read_scalar_take(input, crate::grammar::TAG_U64, 8, m),
        Shape::I8 => lemma_spec_read_scalar_take(input, crate::grammar::TAG_I8, 1, m),
        Shape::I16 => lemma_spec_read_scalar_take(input, crate::grammar::TAG_I16, 2, m),
        Shape::I32 => lemma_spec_read_scalar_take(input, crate::grammar::TAG_I32, 4, m),
        Shape::I64 => lemma_spec_read_scalar_take(input, crate::grammar::TAG_I64, 8, m),
        Shape::F32 => lemma_spec_read_scalar_take(input, crate::grammar::TAG_F32, 4, m),
        Shape::F64 => lemma_spec_read_scalar_take(input, crate::grammar::TAG_F64, 8, m),
        Shape::Text => lemma_spec_parse_string_take(input, m),
        Shape::Unit => {},
        Shape::Optional(inner) => {
            if input.len() > 0 && 1 <= m <= input.len() {
                assert(input.take(m)[0] == input[0]);
            }
            if input.len() > 0 && input[0] != TAG_UNIT {
                lemma_spec_decode_take(input, *inner, m);
            }
        },
        Shape::Sequence(elem) => lemma_spec_decode_sequence_take(input, *elem, m),
        Shape::Tuple(shapes) => lemma_spec_decode_tuple_take(input, shapes@, m),
        Shape::Mapping(ks, vs) => lemma_spec_decode_mapping_take(input, *ks, *vs, m),
        Shape::Enum(variants) => lemma_spec_decode_enum_take(input, variants@, m),
    }
}

/// Truncating behind a successfully decoded sequence keeps it intact.
proof fn lemma_spec_decode_sequence_take(input: Seq<u8>, elem: Shape, m: int)
    ensures
        spec_decode_sequence(input, elem) matches Ok(p) ==> p.1 <= m <= input.len()
            ==> spec_decode_sequence(input.take(m), elem) == Ok::<(ValueModel, int), Error>(p),
    decreases input.len(), elem, 2int,
{
    if input.len() > 0 && input[0] == TAG_SEQ_OPEN {
        crate::grammar::lemma_spec_decode_elems_consumed(input.skip(1), elem);
        match spec_decode_elems(input.skip(1), elem) {
            Ok((vs, n)) => {
                if 0 <= n && n + 2 <= m <= input.len() {
                    assert(input.take(m)[0] == input[0]);
                    assert(input.take(m).skip(1) =~= input.skip(1).take(m - 1));
                    lemma_spec_decode_elems_take(input.skip(1), elem, m - 1);
                    if 1 + n < input.len() {
                        assert(input.take(m)[1 + n] == input[1 + n]);
                    }
                }
            },
            Err(_) => {},
        }
    }
}

/// Truncating behind a successfully decoded tuple keeps it intact.
proof fn lemma_spec_decode_tuple_take(input: Seq<u8>, shapes: Seq<Shape>, m: int)
    ensures
        spec_decode_tuple(input, shapes) matches Ok(p) ==> p.1 <= m <= input.len()
            ==> spec_decode_tuple(input.take(m), shapes) == Ok::<(ValueModel, int), Error>(p),
    decreases input.len(), shapes, 2int,
{
    if input.len() > 0 && input[0] == TAG_SEQ_OPEN {
        crate::grammar::lemma_spec_decode_fields_consumed(input.skip(1), shapes);
        match spec_decode_fields(input.skip(1), shapes) {
            Ok((vs, n)) => {
                if 0 <= n && n + 2 <= m <= input.len() {
                    assert(input.take(m)[0] == input[0]);
                    assert(input.take(m).skip(1) =~= input.skip(1).take(m - 1));
                    lemma_spec_decode_fields_take(input.skip(1), shapes, m - 1);
                    if 1 + n < input.len() {
                        assert(input.take(m)[1 + n] == input[1 + n]);
                    }
                }
            },
            Err(_) => {},
        }
    }
}

/// Truncating behind a successfully decoded map keeps it intact.
proof fn lemma_spec_decode_mapping_take(input: Seq<u8>, kshape: Shape, vshape: Shape, m: int)
    ensures
        spec_decode_mapping(input, kshape, vshape) matches Ok(p) ==> p.1 <= m <= input.len()
            ==> spec_decode_mapping(input.take(m), kshape, vshape) == Ok::<
                (ValueModel, int),
                Error,
            >(p),
    decreases input.len(), kshape, 2int,
{
    if input.len() > 0 && input[0] == TAG_MAP_OPEN {
        crate::grammar::lemma_spec_decode_entries_consumed(input.skip(1), kshape, vshape);
        match spec_decode_entries(input.skip(1), kshape, vshape) {
            Ok((es, n)) => {
                if 0 <= n && n + 2 <= m <= input.len() {
                    assert(input.take(m)[0] == input[0]);
                    assert(input.take(m).skip(1) =~= input.skip(1).take(m - 1));
                    lemma_spec_decode_entries_take(input.skip(1), kshape, vshape, m - 1);
                    if 1 + n < input.len() {
                        assert(input.take(m)[1 + n] == input[1 + n]);
                    }
                }
            },
            Err(_) => {},
        }
    }
}

/// Truncating the input anywhere past the close tag that stopped the
/// element scan keeps the scan intact.
proof fn lemma_spec_decode_elems_take(input: Seq<u8>, elem: Shape, m: int)
    ensures
        spec_decode_elems(input, elem) matches Ok(p) ==> p.1 + 1 <= m <= input.len()
            ==> spec_decode_elems(input.take(m), elem) == Ok::<(Seq<ValueModel>, int), Error>(p),
    decreases input.len(), elem, 1int,
{
    if input.len() == 0 {
    } else if input[0] == TAG_CLOSE {
        if 1 <= m <= input.len() {
            assert(input.take(m)[0] == input[0]);
        }
    } else {
        crate::grammar::lemma_spec_decode_consumed(input, elem);
        match spec_decode(input, elem) {
            Ok((v, n)) => {
                if 1 <= n <= input.len() {
                    crate::grammar::lemma_spec_decode_elems_consumed(input.skip(n), elem);
                    match spec_decode_elems(input.skip(n), elem) {
                        Ok((vs, k)) => {
                            if 0 <= k && n + k + 1 <= m <= input.len() {
                                assert(input.take(m)[0] == input[0]);
                                lemma_spec_decode_take(input, elem, m);
                                assert(input.take(m).skip(n) =~= input.skip(n).take(m - n));
                                lemma_spec_decode_elems_take(input.skip(n), elem, m - n);
                            }
                        },
                        Err(_) => {},
                    }
                }
            },
            Err(_) => {},
        }
    }
}

/// Truncating the input anywhere past the decoded fields keeps them
/// intact.
proof fn lemma_spec_decode_fields_take(input: Seq<u8>, shapes: Seq<Shape>, m: int)
    ensures
        spec_decode_fields(input, shapes) matches Ok(p) ==> p.1 <= m <= input.len()
            ==> spec_decode_fields(input.take(m), shapes) == Ok::<
                (Seq<ValueModel>, int),
                Error,
            >(p),
    decreases input.len(), shapes, 1int,
{
    if shapes.len() == 0 {
    } else {
        crate::grammar::lemma_spec_decode_consumed(input, shapes[0]);
        match spec_decode(input, shapes[0]) {
            Ok((v, n)) => {
                if 1 <= n <= input.len() {
                    crate::grammar::lemma_spec_decode_fields_consumed(
                        input.skip(n),
                        shapes.drop_first(),
                    );
                    match spec_decode_fields(input.skip(n), shapes.drop_first()) {
                        Ok((vs, k)) => {
                            if 0 <= k && n + k <= m <= input.len() {
                                lemma_spec_decode_take(input, shapes[0], m);
                                assert(input.take(m).skip(n) =~= input.skip(n).take(m - n));
                                lemma_spec_decode_fields_take(
                                    input.skip(n),
                                    shapes.drop_first(),
                                    m - n,
                                );
                            }
                        },
                        Err(_) => {},
                    }
                }
            },
            Err(_) => {},
        }
    }
}

/// Truncating the input anywhere past the close tag that stopped the
/// entry scan keeps the scan intact.
proof fn lemma_spec_decode_entries_take(input: Seq<u8>, kshape: Shape, vshape: Shape, m: int)
    ensures
        spec_decode_entries(input, kshape, vshape) matches Ok(p) ==> p.1 + 1 <= m <= input.len()
            ==> spec_decode_entries(input.take(m), kshape, vshape) == Ok::<
                (Seq<(ValueModel, ValueModel)>, int),
                Error,
            >(p),
    decreases input.len(), kshape, 1int,
{
    if input.len() == 0 {
    } else if input[0] == TAG_CLOSE {
        if 1 <= m <= input.len() {
            assert(input.take(m)[0] == input[0]);
        }
    } else {
        crate::grammar::lemma_spec_decode_consumed(input, kshape);
        match spec_decode(input, kshape) {
            Ok((kv, nk)) => {
                if 1 <= nk <= input.len() {
                    crate::grammar::lemma_spec_decode_consumed(input.skip(nk), vshape);
                    match spec_decode(input.skip(nk), vshape) {
                        Ok((vv, nv)) => {
                            if 1 <= nv <= input.len() - nk {
                                crate::grammar::lemma_spec_decode_entries_consumed(
                                    input.skip(nk + nv),
                                    kshape,
                                    vshape,
                                );
                                match spec_decode_entries(input.skip(nk + nv), kshape, vshape) {
                                    Ok((es, k)) => {
                                        if 0 <= k && nk + nv + k + 1 <= m <= input.len() {
                                            assert(input.take(m)[0] == input[0]);
                                            lemma_spec_decode_take(input, kshape, m);
                                            assert(input.take(m).skip(nk) =~= input.skip(
                                                nk,
                                            ).take(m - nk));
                                            lemma_spec_decode_take(input.skip(nk), vshape, m - nk);
                                            assert(input.take(m).skip(nk + nv) =~= input.skip(
                                                nk + nv,
                                            ).take(m - nk - nv));
                                            lemma_spec_decode_entries_take(
                                                input.skip(nk + nv),
                                                kshape,
                                                vshape,
                                                m - nk - nv,
                                            );
                                        }
                                    },
                                    Err(_) => {},
                                }
                            }
                        },
                        Err(_) => {},
                    }
                }
            },
            Err(_) => {},
        }
    }
}

/// Truncating behind a successfully decoded enum value keeps it intact.
proof fn lemma_spec_decode_enum_take(
    input: Seq<u8>,
    variants: Seq<(String, VariantShape)>,
    m: int,
)
    ensures
        spec_decode_enum(input, variants) matches Ok(p) ==> p.1 <= m <= input.len()
            ==> spec_decode_enum(input.take(m), variants) == Ok::<(ValueModel, int), Error>(p),
    decreases input.len(), variants, 3int,
{
    if input.len() == 0 {
    } else if is_string_tag(input[0]) {
        crate::grammar::lemma_spec_parse_string_consumed(input);
        lemma_spec_parse_string_take(input, m);
        if 1 <= m <= input.len() {
            assert(input.take(m)[0] == input[0]);
        }
    } else if input[0] != TAG_MAP_OPEN {
    } else {
        crate::grammar::lemma_spec_decode_enum_map_consumed(input, variants);
        if 1 <= m <= input.len() {
            assert(input.take(m)[0] == input[0]);
        }
        lemma_spec_decode_enum_map_take(input, variants, m);
    }
}

/// Truncating behind a successfully decoded enum map form keeps it
/// intact.
#[verifier::rlimit(50)]
proof fn lemma_spec_decode_enum_map_take(
    input: Seq<u8>,
    variants: Seq<(String, VariantShape)>,
    m: int,
)
    requires
        input.len() >= 1,
    ensures
        spec_decode_enum_map(input, variants) matches Ok(p) ==> p.1 <= m <= input.len()
            ==> spec_decode_enum_map(input.take(m), variants) == Ok::<(ValueModel, int), Error>(
                p,
            ),
    decreases input.len(), variants, 2int,
{
    let inner = input.skip(1);
    crate::grammar::lemma_spec_parse_string_consumed(inner);
    match spec_parse_string(inner) {
        Ok((name, n)) => {
            if 1 <= n <= inner.len() {
                let rest = inner.skip(n);
                match find_variant(variants, name) {
                    Some(kind) => {
                        crate::grammar::lemma_spec_decode_variant_payload_consumed(rest, kind);
                        match spec_decode_variant_payload(rest, kind) {
                            Ok((pv, np)) => {
                                if 1 <= np && 2 + n + np <= m <= input.len() {
                                    assert(input.take(m).skip(1) =~= inner.take(m - 1));
                                    lemma_spec_parse_string_take(inner, m - 1);
                                    assert(inner.take(m - 1).skip(n) =~= rest.take(m - 1 - n));
                                    lemma_spec_decode_variant_payload_take(rest, kind, m - 1 - n);
                                    if 1 + n + np < input.len() {
                                        assert(input.take(m)[1 + n + np] == input[1 + n + np]);
                                    }
                                }
                            },
                            Err(_) => {},
                        }
                    },
                    None => {},
                }
            }
        },
        Err(_) => {},
    }
}

/// Truncating behind a successfully decoded variant payload keeps it
/// intact.
#[verifier::rlimit(50)]
proof fn lemma_spec_decode_variant_payload_take(input: Seq<u8>, kind: VariantShape, m: int)
    ensures
        spec_decode_variant_payload(input, kind) matches Ok(p) ==> p.1 <= m <= input.len()
            ==> spec_decode_variant_payload(input.take(m), kind) == Ok::<
                (ValueModel, int),
                Error,
            >(p),
    decreases input.len(), kind, 1int,
{
    match kind {
        VariantShape::Unit => {},
        VariantShape::Newtype(s) => {
            lemma_spec_decode_take(input, *s, m);
        },
        VariantShape::Tuple(shapes) => {
            if input.len() > 0 && input[0] == TAG_SEQ_OPEN {
                crate::grammar::lemma_spec_decode_fields_consumed(input.skip(1), shapes@);
                match spec_decode_fields(input.skip(1), shapes@) {
                    Ok((vs, n)) => {
                        if 0 <= n && n + 2 <= m <= input.len() {
                            assert(input.take(m)[0] == input[0]);
                            assert(input.take(m).skip(1) =~= input.skip(1).take(m - 1));
                            lemma_spec_decode_fields_take(input.skip(1), shapes@, m - 1);
                            if 1 + n < input.len() {
                                assert(input.take(m)[1 + n] == input[1 + n]);
                            }
                        }
                    },
                    Err(_) => {},
                }
            }
        },
        VariantShape::Struct(ks, vs) => {
            if input.len() > 0 && input[0] == TAG_MAP_OPEN {
                crate::grammar::lemma_spec_decode_entries_consumed(input.skip(1), *ks, *vs);
                match spec_decode_entries(input.skip(1), *ks, *vs) {
                    Ok((es, n)) => {
                        if 0 <= n && n + 2 <= m <= input.len() {
                            assert(input.take(m)[0] == input[0]);
                            assert(input.take(m).skip(1) =~= input.skip(1).take(m - 1));
                            lemma_spec_decode_entries_take(input.skip(1), *ks, *vs, m - 1);
                            if 1 + n < input.len() {
                                assert(input.take(m)[1 + n] == input[1 + n]);
                            }
                        }
                    },
                    Err(_) => {},
                }
            }
        },
    }
}


/// A strict prefix of a successful boolean parse reports the exhausted
/// buffer.
proof fn lemma_spec_parse_bool_prefix(input: Seq<u8>, m: int)
    ensures
        spec_parse_bool(input) matches Ok(p) ==> 0 <= m < p.1 ==> spec_parse_bool(input.take(m))
            == Err::<(bool, int), Error>(Error::UnexpectedEnd),
{
}

/// A strict prefix of a successful scalar parse reports the exhausted
/// buffer.
proof fn lemma_spec_read_scalar_prefix(input: Seq<u8>, tag: u8, width: int, m: int)
    requires
        width >= 0,
    ensures
        spec_read_scalar(input, tag, width) matches Ok(p) ==> 0 <= m < p.1 ==> spec_read_scalar(
            input.take(m),
            tag,
            width,
        ) == Err::<(nat, int), Error>(Error::UnexpectedEnd),
{
    match spec_read_scalar(input, tag, width) {
        Ok((v, n)) => {
            if 1 <= m < n {
                assert(input.take(m)[0] == input[0]);
            }
        },
        Err(_) => {},
    }
}

/// A strict prefix of a successful string parse reports the exhausted
/// buffer, whatever the length class.
pub proof fn lemma_spec_parse_string_prefix(input: Seq<u8>, m: int)
    ensures
        spec_parse_string(input) matches Ok(p) ==> 0 <= m < p.1 ==> spec_parse_string(
            input.take(m),
        ) == Err::<(Seq<char>, int), Error>(Error::UnexpectedEnd),
{
    match spec_parse_string(input) {
        Ok((chars, total)) => {
            if 0 <= m < total {
                if m >= 1 {
                    assert(input.take(m)[0] == input[0]);
                    if input[0] == TAG_STR8 && m >= 2 {
                        assert(input.take(m)[1] == input[1]);
                    }
                    if input[0] == TAG_STR16 && m >= 3 {
                        assert(input.take(m).subrange(1, 3) =~= input.subrange(1, 3));
                    }
                    if input[0] == TAG_STR32 && m >= 5 {
                        assert(input.take(m).subrange(1, 5) =~= input.subrange(1, 5));
                    }
                    if input[0] == TAG_STR64 && m >= 9 {
                        assert(input.take(m).subrange(1, 9) =~= input.subrange(1, 9));
                    }
                }
            }
        },
        Err(_) => {},
    }
}

/// Truncation safety: cutting a decodable value anywhere before its end
/// makes the decode report the exhausted buffer, never another error and
/// never a wrong value. Applied with a value that occupies the whole
/// buffer, this says that every strict prefix of a valid encoding
/// decodes to the end-of-input failure.
pub proof fn lemma_spec_decode_prefix(input: Seq<u8>, shape: Shape, m: int)
    ensures
        spec_decode(input, shape) matches Ok(p) ==> 0 <= m < p.1 ==> spec_decode(
            input.take(m),
            shape,
        ) == Err::<(ValueModel, int), Error>(Error::UnexpectedEnd),
    decreases input.len(), shape, 0int,
{
    crate::grammar::lemma_spec_decode_consumed(input, shape);
    if m == 0 {
        lemma_spec_decode_empty(shape);
        assert(input.take(0) =~= Seq::<u8>::empty());
    }
    match shape {
        Shape::Bool => lemma_spec_parse_bool_prefix(input, m),
        Shape::U8 => lemma_spec_read_scalar_prefix(input, crate::grammar::TAG_U8, 1, m),
        Shape::U16 => lemma_spec_read_scalar_prefix(input, crate::grammar::TAG_U16, 2, m),
        Shape::U32 => lemma_spec_read_scalar_prefix(input, crate::grammar::TAG_U32, 4, m),
        Shape::U64 => lemma_spec_read_scalar_prefix(input, crate::grammar::TAG_U64, 8, m),
        Shape::I8 => lemma_spec_read_scalar_prefix(input, crate::grammar::TAG_I8, 1, m),
        Shape::I16 => lemma_spec_read_scalar_prefix(input, crate::grammar::TAG_I16, 2, m),
        Shape::I32 => lemma_spec_read_scalar_prefix(input, crate::grammar::TAG_I32, 4, m),
        Shape::I64 => lemma_spec_read_scalar_prefix(input, crate::grammar::TAG_I64, 8, m),
        Shape::F32 => lemma_spec_read_scalar_prefix(input, crate::grammar::TAG_F32, 4, m),
        Shape::F64 => lemma_spec_read_scalar_prefix(input, crate::grammar::TAG_F64, 8, m),
        Shape::Text => lemma_spec_parse_string_prefix(input, m),
        Shape::Unit => {},
        Shape::Optional(inner) => {
            if input.len() > 0 && 1 <= m <= input.len() {
                assert(input.take(m)[0] == input[0]);
            }
            if input.len() > 0 && input[0] != TAG_UNIT {
                lemma_spec_decode_prefix(input, *inner, m);
            }
        },
        Shape::Sequence(elem) => lemma_spec_decode_sequence_prefix(input, *elem, m),
        Shape::Tuple(shapes) => lemma_spec_decode_tuple_prefix(input, shapes@, m),
        Shape::Mapping(ks, vs) => lemma_spec_decode_mapping_prefix(input, *ks, *vs, m),
        Shape::Enum(variants) => lemma_spec_decode_enum_prefix(input, variants@, m),
    }
}

/// A strict prefix of a decodable sequence reports the exhausted buffer.
proof fn lemma_spec_decode_sequence_prefix(input: Seq<u8>, elem: Shape, m: int)
    ensures
        spec_decode_sequence(input, elem) matches Ok(p) ==> 0 <= m < p.1 ==> spec_decode_sequence(
            input.take(m),
            elem,
        ) == Err::<(ValueModel, int), Error>(Error::UnexpectedEnd),
    decreases input.len(), elem, 2int,
{
    if input.len() > 0 && input[0] == TAG_SEQ_OPEN {
        crate::grammar::lemma_spec_decode_elems_consumed(input.skip(1), elem);
        match spec_decode_elems(input.skip(1), elem) {
            Ok((vs, n)) => {
                if 1 <= m < n + 2 {
                    assert(input.take(m)[0] == input[0]);
                    assert(input.take(m).skip(1) =~= input.skip(1).take(m - 1));
                    lemma_spec_decode_elems_prefix(input.skip(1), elem, m - 1);
                }
            },
            Err(_) => {},
        }
    }
}

/// A strict prefix of a decodable tuple reports the exhausted buffer.
#[verifier::rlimit(50)]
proof fn lemma_spec_decode_tuple_prefix(input: Seq<u8>, shapes: Seq<Shape>, m: int)
    ensures
        spec_decode_tuple(input, shapes) matches Ok(p) ==> 0 <= m < p.1 ==> spec_decode_tuple(
            input.take(m),
            shapes,
        ) == Err::<(ValueModel, int), Error>(Error::UnexpectedEnd),
    decreases input.len(), shapes, 2int,
{
    if input.len() > 0 && input[0] == TAG_SEQ_OPEN {
        crate::grammar::lemma_spec_decode_fields_consumed(input.skip(1), shapes);
        match spec_decode_fields(input.skip(1), shapes) {
            Ok((vs, n)) => {
                if 1 <= m < n + 2 {
                    assert(input.take(m)[0] == input[0]);
                    assert(input.take(m).skip(1) =~= input.skip(1).take(m - 1));
                    if m - 1 < n {
                        lemma_spec_decode_fields_prefix(input.skip(1), shapes, m - 1);
                    } else {
                        lemma_spec_decode_fields_take(input.skip(1), shapes, m - 1);
                    }
                }
            },
            Err(_) => {},
        }
    }
}

/// A strict prefix of a decodable map reports the exhausted buffer.
proof fn lemma_spec_decode_mapping_prefix(input: Seq<u8>, kshape: Shape, vshape: Shape, m: int)
    ensures
        spec_decode_mapping(input, kshape, vshape) matches Ok(p) ==> 0 <= m < p.1
            ==> spec_decode_mapping(input.take(m), kshape, vshape) == Err::<
                (ValueModel, int),
                Error,
            >(Error::UnexpectedEnd),
    decreases input.len(), kshape, 2int,
{
    if input.len() > 0 && input[0] == TAG_MAP_OPEN {
        crate::grammar::lemma_spec_decode_entries_consumed(input.skip(1), kshape, vshape);
        match spec_decode_entries(input.skip(1), kshape, vshape) {
            Ok((es, n)) => {
                if 1 <= m < n + 2 {
                    assert(input.take(m)[0] == input[0]);
                    assert(input.take(m).skip(1) =~= input.skip(1).take(m - 1));
                    lemma_spec_decode_entries_prefix(input.skip(1), kshape, vshape, m - 1);
                }
            },
            Err(_) => {},
        }
    }
}

/// Cutting the element region of a sequence anywhere up to and including
/// its close tag makes the scan report the exhausted buffer.
#[verifier::rlimit(50)]
proof fn lemma_spec_decode_elems_prefix(input: Seq<u8>, elem: Shape, m: int)
    ensures
        spec_decode_elems(input, elem) matches Ok(p) ==> 0 <= m <= p.1 ==> spec_decode_elems(
            input.take(m),
            elem,
        ) == Err::<(Seq<ValueModel>, int), Error>(Error::UnexpectedEnd),
    decreases input.len(), elem, 1int,
{
    if m == 0 {
        assert(input.take(0) =~= Seq::<u8>::empty());
    }
    if input.len() == 0 {
    } else if input[0] == TAG_CLOSE {
    } else {
        crate::grammar::lemma_spec_decode_consumed(input, elem);
        match spec_decode(input, elem) {
            Ok((v, n)) => {
                if 1 <= n <= input.len() {
                    crate::grammar::lemma_spec_decode_elems_consumed(input.skip(n), elem);
                    match spec_decode_elems(input.skip(n), elem) {
                        Ok((vs, k)) => {
                            if 1 <= m <= n + k {
                                assert(input.take(m)[0] == input[0]);
                                if m < n {
                                    lemma_spec_decode_prefix(input, elem, m);
                                } else {
                                    lemma_spec_decode_take(input, elem, m);
                                    assert(input.take(m).skip(n) =~= input.skip(n).take(m - n));
                                    lemma_spec_decode_elems_prefix(input.skip(n), elem, m - n);
                                }
                            }
                        },
                        Err(_) => {},
                    }
                }
            },
            Err(_) => {},
        }
    }
}

/// Cutting the field region of a tuple strictly before its end makes the
/// decode report the exhausted buffer.
#[verifier::rlimit(50)]
proof fn lemma_spec_decode_fields_prefix(input: Seq<u8>, shapes: Seq<Shape>, m: int)
    ensures
        spec_decode_fields(input, shapes) matches Ok(p) ==> 0 <= m < p.1 ==> spec_decode_fields(
            input.take(m),
            shapes,
        ) == Err::<(Seq<ValueModel>, int), Error>(Error::UnexpectedEnd),
    decreases input.len(), shapes, 1int,
{
    if shapes.len() == 0 {
    } else {
        crate::grammar::lemma_spec_decode_consumed(input, shapes[0]);
        match spec_decode(input, shapes[0]) {
            Ok((v, n)) => {
                if 1 <= n <= input.len() {
                    crate::grammar::lemma_spec_decode_fields_consumed(
                        input.skip(n),
                        shapes.drop_first(),
                    );
                    match spec_decode_fields(input.skip(n), shapes.drop_first()) {
                        Ok((vs, k)) => {
                            if 0 <= m < n + k {
                                if m == 0 {
                                    lemma_spec_decode_empty(shapes[0]);
                                    assert(input.take(0) =~= Seq::<u8>::empty());
                                } else if m < n {
                                    lemma_spec_decode_prefix(input, shapes[0], m);
                                } else {
                                    lemma_spec_decode_take(input, shapes[0], m);
                                    assert(input.take(m).skip(n) =~= input.skip(n).take(m - n));
                                    lemma_spec_decode_fields_prefix(
                                        input.skip(n),
                                        shapes.drop_first(),
                                        m - n,
                                    );
                                }
                            }
                        },
                        Err(_) => {},
                    }
                }
            },
            Err(_) => {},
        }
    }
}

/// Cutting the entry region of a map anywhere up to and including its
/// close tag makes the scan report the exhausted buffer.
#[verifier::rlimit(100)]
proof fn lemma_spec_decode_entries_prefix(input: Seq<u8>, kshape: Shape, vshape: Shape, m: int)
    ensures
        spec_decode_entries(input, kshape, vshape) matches Ok(p) ==> 0 <= m <= p.1
            ==> spec_decode_entries(input.take(m), kshape, vshape) == Err::<
                (Seq<(ValueModel, ValueModel)>, int),
                Error,
            >(Error::UnexpectedEnd),
    decreases input.len(), kshape, 1int,
{
    if m == 0 {
        assert(input.take(0) =~= Seq::<u8>::empty());
    }
    if input.len() == 0 {
    } else if input[0] == TAG_CLOSE {
    } else {
        crate::grammar::lemma_spec_decode_consumed(input, kshape);
        match spec_decode(input, kshape) {
            Ok((kv, nk)) => {
                if 1 <= nk <= input.len() {
                    crate::grammar::lemma_spec_decode_consumed(input.skip(nk), vshape);
                    match spec_decode(input.skip(nk), vshape) {
                        Ok((vv, nv)) => {
                            if 1 <= nv <= input.len() - nk {
                                crate::grammar::lemma_spec_decode_entries_consumed(
                                    input.skip(nk + nv),
                                    kshape,
                                    vshape,
                                );
                                match spec_decode_entries(input.skip(nk + nv), kshape, vshape) {
                                    Ok((es, k)) => {
                                        if 1 <= m <= nk + nv + k {
                                            assert(input.take(m)[0] == input[0]);
                                            if m < nk {
                                                lemma_spec_decode_prefix(input, kshape, m);
                                            } else {
                                                lemma_spec_decode_take(input, kshape, m);
                                                assert(input.take(m).skip(nk) =~= input.skip(
                                                    nk,
                                                ).take(m - nk));
                                                if m - nk < nv {
                                                    lemma_spec_decode_prefix(
                                                        input.skip(nk),
                                                        vshape,
                                                        m - nk,
                                                    );
                                                } else {
                                                    lemma_spec_decode_take(
                                                        input.skip(nk),
                                                        vshape,
                                                        m - nk,
                                                    );
                                                    assert(input.take(m).skip(nk + nv)
                                                        =~= input.skip(nk + nv).take(
                                                        m - nk - nv,
                                                    ));
                                                    lemma_spec_decode_entries_prefix(
                                                        input.skip(nk + nv),
                                                        kshape,
                                                        vshape,
                                                        m - nk - nv,
                                                    );
                                                }
                                            }
                                        }
                                    },
                                    Err(_) => {},
                                }
                            }
                        },
                        Err(_) => {},
                    }
                }
            },
            Err(_) => {},
        }
    }
}

/// A strict prefix of a decodable enum value reports the exhausted
/// buffer.
proof fn lemma_spec_decode_enum_prefix(
    input: Seq<u8>,
    variants: Seq<(String, VariantShape)>,
    m: int,
)
    ensures
        spec_decode_enum(input, variants) matches Ok(p) ==> 0 <= m < p.1 ==> spec_decode_enum(
            input.take(m),
            variants,
        ) == Err::<(ValueModel, int), Error>(Error::UnexpectedEnd),
    decreases input.len(), variants, 3int,
{
    if m == 0 {
        assert(input.take(0) =~= Seq::<u8>::empty());
    }
    if input.len() == 0 {
    } else if is_string_tag(input[0]) {
        lemma_spec_parse_string_prefix(input, m);
        if 1 <= m <= input.len() {
            assert(input.take(m)[0] == input[0]);
        }
    } else if input[0] != TAG_MAP_OPEN {
    } else {
        crate::grammar::lemma_spec_decode_enum_map_consumed(input, variants);
        if 1 <= m <= input.len() {
            assert(input.take(m)[0] == input[0]);
            lemma_spec_decode_enum_map_prefix(input, variants, m);
        }
    }
}

/// A strict prefix of a decodable enum map form reports the exhausted
/// buffer.
#[verifier::rlimit(100)]
proof fn lemma_spec_decode_enum_map_prefix(
    input: Seq<u8>,
    variants: Seq<(String, VariantShape)>,
    m: int,
)
    requires
        input.len() >= 1,
        1 <= m,
    ensures
        spec_decode_enum_map(input, variants) matches Ok(p) ==> m < p.1 ==> spec_decode_enum_map(
            input.take(m),
            variants,
        ) == Err::<(ValueModel, int), Error>(Error::UnexpectedEnd),
    decreases input.len(), variants, 2int,
{
    let inner = input.skip(1);
    crate::grammar::lemma_spec_parse_string_consumed(inner);
    match spec_parse_string(inner) {
        Ok((name, n)) => {
            if 1 <= n <= inner.len() {
                let rest = inner.skip(n);
                match find_variant(variants, name) {
                    Some(kind) => {
                        crate::grammar::lemma_spec_decode_variant_payload_consumed(rest, kind);
                        match spec_decode_variant_payload(rest, kind) {
                            Ok((pv, np)) => {
                                if 1 <= np && m < 2 + n + np {
                                    assert(input.take(m).skip(1) =~= inner.take(m - 1));
                                    if m - 1 < n {
                                        lemma_spec_parse_string_prefix(inner, m - 1);
                                    } else {
                                        lemma_spec_parse_string_take(inner, m - 1);
                                        assert(inner.take(m - 1).skip(n) =~= rest.take(
                                            m - 1 - n,
                                        ));
                                        if m - 1 - n < np {
                                            lemma_spec_decode_variant_payload_prefix(
                                                rest,
                                                kind,
                                                m - 1 - n,
                                            );
                                        } else {
                                            lemma_spec_decode_variant_payload_take(
                                                rest,
                                                kind,
                                                m - 1 - n,
                                            );
                                        }
                                    }
                                }
                            },
                            Err(_) => {},
                        }
                    },
                    None => {},
                }
            }
        },
        Err(_) => {},
    }
}

/// A strict prefix of a decodable variant payload reports the exhausted
/// buffer.
#[verifier::rlimit(100)]
proof fn lemma_spec_decode_variant_payload_prefix(input: Seq<u8>, kind: VariantShape, m: int)
    ensures
        spec_decode_variant_payload(input, kind) matches Ok(p) ==> 0 <= m < p.1
            ==> spec_decode_variant_payload(input.take(m), kind) == Err::<
                (ValueModel, int),
                Error,
            >(Error::UnexpectedEnd),
    decreases input.len(), kind, 1int,
{
    if m == 0 {
        assert(input.take(0) =~= Seq::<u8>::empty());
    }
    match kind {
        VariantShape::Unit => {},
        VariantShape::Newtype(s) => {
            if m == 0 {
                lemma_spec_decode_empty(*s);
            }
            lemma_spec_decode_prefix(input, *s, m);
        },
        VariantShape::Tuple(shapes) => {
            if input.len() > 0 && input[0] == TAG_SEQ_OPEN {
                crate::grammar::lemma_spec_decode_fields_consumed(input.skip(1), shapes@);
                match spec_decode_fields(input.skip(1), shapes@) {
                    Ok((vs, n)) => {
                        if 1 <= m < n + 2 {
                            assert(input.take(m)[0] == input[0]);
                            assert(input.take(m).skip(1) =~= input.skip(1).take(m - 1));
                            if m - 1 < n {
                                lemma_spec_decode_fields_prefix(input.skip(1), shapes@, m - 1);
                            } else {
                                lemma_spec_decode_fields_take(input.skip(1), shapes@, m - 1);
                            }
                        }
                    },
                    Err(_) => {},
                }
            }
        },
        VariantShape::Struct(ks, vs) => {
            if input.len() > 0 && input[0] == TAG_MAP_OPEN {
                crate::grammar::lemma_spec_decode_entries_consumed(input.skip(1), *ks, *vs);
                match spec_decode_entries(input.skip(1), *ks, *vs) {
                    Ok((es, n)) => {
                        if 1 <= m < n + 2 {
                            assert(input.take(m)[0] == input[0]);
                            assert(input.take(m).skip(1) =~= input.skip(1).take(m - 1));
                            lemma_spec_decode_entries_prefix(input.skip(1), *ks, *vs, m - 1);
                        }
                    },
                    Err(_) => {},
                }
            }
        },
    }
}


/// Truncation safety at the top-level entry: when a buffer holds exactly
/// one encoded value, every strict prefix of it decodes to the
/// end-of-input failure - never a panic, never another error, never a
/// wrong value.
pub proof fn lemma_truncation_safety(input: Seq<u8>, shape: Shape, m: int)
    requires
        crate::grammar::spec_decode_complete(input, shape) is Ok,
        0 <= m < input.len(),
    ensures
        crate::grammar::spec_decode_complete(input.take(m), shape) == Err::<ValueModel, Error>(
            Error::UnexpectedEnd,
        ),
{
    lemma_spec_decode_prefix(input, shape, m);
}

} // verus!
