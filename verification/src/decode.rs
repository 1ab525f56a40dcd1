use vstd::prelude::*;

use crate::de::Deserializer;
use crate::error::Error;
use crate::grammar::{
    lemma_spec_decode_consumed, lemma_spec_parse_string_consumed, spec_decode,
    spec_decode_complete, spec_decode_elems, spec_decode_entries, spec_decode_fields, TAG_F32,
    TAG_F64, TAG_I16, TAG_I32, TAG_I64, TAG_I8, TAG_MAP_OPEN, TAG_U16, TAG_U32, TAG_U64, TAG_U8,
    TAG_UNIT,
};
use crate::value::{entries_model, find_variant, seq_model, value_model, Shape, Value, ValueModel, VariantShape};

verus! {

broadcast use vstd::seq::group_seq_axioms, vstd::std_specs::vec::group_vec_axioms;

/// The index of the given variant name among the declared variants, if the
/// name is declared.
fn find_variant_index(variants: &Vec<(String, VariantShape)>, name: &String) -> (r: Option<usize>)
    ensures
        match r {
            Some(i) => i < variants@.len() && find_variant(variants@, name@) == Some(
                variants@[i as int].1,
            ),
            None => find_variant(variants@, name@) is None,
        },
{
    let mut i: usize = 0;
    proof {
        assert(variants@.skip(0) =~= variants@);
    }
    while i < variants.len()
        invariant
            0 <= i <= variants@.len(),
            find_variant(variants@, name@) == find_variant(variants@.skip(i as int), name@),
        decreases variants@.len() - i,
    {
        proof {
            assert(variants@.skip(i as int)[0] == variants@[i as int]);
            assert(variants@.skip(i as int).drop_first() =~= variants@.skip(i as int + 1));
        }
        if variants[i].0 == *name {
            return Some(i);
        }
        i = i + 1;
    }
    None
}

/// Decode one value of the given target shape at the cursor.
///
/// On success the cursor has advanced over exactly the bytes the value
/// occupies; what follows them is untouched. On failure the cursor stands
/// wherever the failing read left it; the buffer itself is never changed.
/// Recursion depth is bounded by the nesting depth of the target shape,
/// not by the input.
pub fn decode<'de>(de: &mut Deserializer<'de>, shape: &Shape) -> (r: Result<Value, Error>)
    requires
        old(de).wf(),
    ensures
        final(de).wf(),
        final(de).input == old(de).input,
        old(de).pos <= final(de).pos,
        match r {
            Ok(v) => spec_decode(old(de).remaining(), *shape) matches Ok(p) && p.0 == value_model(
                v,
            ) && final(de).pos == old(de).pos + p.1,
            Err(e) => spec_decode(old(de).remaining(), *shape) matches Err(e2) && e2 == e,
        },
    decreases de.remaining().len(), *shape, 0int,
{
    match shape {
        Shape::Bool => match de.parse_bool() {
            Ok(b) => Ok(Value::Bool(b)),
            Err(e) => Err(e),
        },
        Shape::U8 | Shape::U16 | Shape::U32 | Shape::U64 | Shape::I8 | Shape::I16 | Shape::I32
        | Shape::I64 | Shape::F32 | Shape::F64 => decode_scalar(de, shape),
        Shape::Text => match de.parse_string() {
            Ok(s) => Ok(Value::Text(s.to_owned())),
            Err(e) => Err(e),
        },
        Shape::Unit => {
            let ch = match de.peek() {
                Ok(c) => c,
                Err(e) => {
                    return Err(e);
                },
            };
            if ch == TAG_UNIT {
                de.advance();
                Ok(Value::Unit)
            } else {
                Err(Error::ExpectedNull)
            }
        },
        Shape::Optional(inner) => {
            let ch = match de.peek() {
                Ok(c) => c,
                Err(e) => {
                    return Err(e);
                },
            };
            if ch == TAG_UNIT {
                de.advance();
                Ok(Value::Null)
            } else {
                decode(de, &**inner)
            }
        },
        Shape::Sequence(elem) => decode_sequence(de, &**elem),
        Shape::Tuple(shapes) => decode_tuple(de, shapes),
        Shape::Mapping(kshape, vshape) => decode_mapping(de, &**kshape, &**vshape),
        Shape::Enum(variants) => decode_enum_variant(de, variants),
    }
}

/// Decode a sequence value: open tag, elements, close tag.
fn decode_sequence<'de>(de: &mut Deserializer<'de>, elem: &Shape) -> (r: Result<Value, Error>)
    requires
        old(de).wf(),
    ensures
        final(de).wf(),
        final(de).input == old(de).input,
        old(de).pos <= final(de).pos,
        match r {
            Ok(v) => crate::grammar::spec_decode_sequence(old(de).remaining(), *elem) matches Ok(p)
                && p.0 == value_model(v) && final(de).pos == old(de).pos + p.1,
            Err(e) => crate::grammar::spec_decode_sequence(old(de).remaining(), *elem) matches Err(
                e2,
            ) && e2 == e,
        },
    decreases de.remaining().len(), *elem, 2int,
{
    let ghost rem0 = old(de).remaining();
    if let Err(e) = de.read_seq_open() {
        return Err(e);
    }
    proof {
        assert(de.remaining() =~= rem0.skip(1));
    }
    let els = match decode_elems(de, elem) {
        Ok(v) => v,
        Err(e) => {
            return Err(e);
        },
    };
    proof {
        assert(de.remaining() =~= rem0.skip(de.pos - old(de).pos));
    }
    match de.read_close() {
        Ok(()) => Ok(Value::Sequence(els)),
        Err(e) => Err(e),
    }
}

/// Decode a fixed-arity sequence value: open tag, one value per shape,
/// close tag.
fn decode_tuple<'de>(de: &mut Deserializer<'de>, shapes: &Vec<Shape>) -> (r: Result<Value, Error>)
    requires
        old(de).wf(),
    ensures
        final(de).wf(),
        final(de).input == old(de).input,
        old(de).pos <= final(de).pos,
        match r {
            Ok(v) => crate::grammar::spec_decode_tuple(old(de).remaining(), shapes@) matches Ok(p)
                && p.0 == value_model(v) && final(de).pos == old(de).pos + p.1,
            Err(e) => crate::grammar::spec_decode_tuple(old(de).remaining(), shapes@) matches Err(
                e2,
            ) && e2 == e,
        },
    decreases de.remaining().len(), shapes@, 2int,
{
    let ghost rem0 = old(de).remaining();
    if let Err(e) = de.read_seq_open() {
        return Err(e);
    }
    proof {
        assert(de.remaining() =~= rem0.skip(1));
    }
    let els = match decode_fields(de, shapes) {
        Ok(v) => v,
        Err(e) => {
            return Err(e);
        },
    };
    proof {
        assert(de.remaining() =~= rem0.skip(de.pos - old(de).pos));
    }
    match de.read_close() {
        Ok(()) => Ok(Value::Sequence(els)),
        Err(e) => Err(e),
    }
}

/// Decode a map value: open tag, key-value entries, close tag.
fn decode_mapping<'de>(de: &mut Deserializer<'de>, kshape: &Shape, vshape: &Shape) -> (r: Result<
    Value,
    Error,
>)
    requires
        old(de).wf(),
    ensures
        final(de).wf(),
        final(de).input == old(de).input,
        old(de).pos <= final(de).pos,
        match r {
            Ok(v) => crate::grammar::spec_decode_mapping(old(de).remaining(), *kshape, *vshape)
                matches Ok(p) && p.0 == value_model(v) && final(de).pos == old(de).pos + p.1,
            Err(e) => crate::grammar::spec_decode_mapping(old(de).remaining(), *kshape, *vshape)
                matches Err(e2) && e2 == e,
        },
    decreases de.remaining().len(), *kshape, 2int,
{
    let ghost rem0 = old(de).remaining();
    if let Err(e) = de.read_map_open() {
        return Err(e);
    }
    proof {
        assert(de.remaining() =~= rem0.skip(1));
    }
    let entries = match decode_entries(de, kshape, vshape) {
        Ok(v) => v,
        Err(e) => {
            return Err(e);
        },
    };
    proof {
        assert(de.remaining() =~= rem0.skip(de.pos - old(de).pos));
    }
    match de.read_close() {
        Ok(()) => Ok(Value::Mapping(entries)),
        Err(e) => Err(e),
    }
}

/// Decode sequence elements at the cursor until the close tag appears,
/// leaving the close tag unconsumed.
fn decode_elems<'de>(de: &mut Deserializer<'de>, elem: &Shape) -> (r: Result<Vec<Value>, Error>)
    requires
        old(de).wf(),
    ensures
        final(de).wf(),
        final(de).input == old(de).input,
        old(de).pos <= final(de).pos,
        match r {
            Ok(vs) => spec_decode_elems(old(de).remaining(), *elem) matches Ok(p) && p.0
                == seq_model(vs@) && final(de).pos == old(de).pos + p.1,
            Err(e) => spec_decode_elems(old(de).remaining(), *elem) matches Err(e2) && e2 == e,
        },
    decreases de.remaining().len(), *elem, 1int,
{
    let ghost rem0 = old(de).remaining();
    let mut els: Vec<Value> = Vec::new();
    proof {
        match spec_decode_elems(rem0, *elem) {
            Ok(p) => {
                assert(seq_model(els@) + p.0 =~= p.0);
            },
            Err(_) => {},
        }
    }
    loop
        invariant
            de.wf(),
            de.input == old(de).input,
            old(de).pos <= de.pos,
            rem0 == old(de).remaining(),
            de.remaining() == rem0.skip(de.pos - old(de).pos),
            (match spec_decode_elems(de.remaining(), *elem) {
                Ok(p) => spec_decode_elems(rem0, *elem) matches Ok(q) && q.0 == seq_model(els@)
                    + p.0 && q.1 == (de.pos - old(de).pos) + p.1,
                Err(e) => spec_decode_elems(rem0, *elem) matches Err(e2) && e2 == e,
            }),
        ensures
            de.remaining().len() > 0,
            de.remaining()[0] == crate::grammar::TAG_CLOSE,
        decreases de.remaining().len(),
    {
        let close = match de.peek_is_close() {
            Ok(b) => b,
            Err(e) => {
                return Err(e);
            },
        };
        if close {
            break ;
        }
        let ghost rem_it = de.remaining();
        let v = match decode(de, elem) {
            Ok(v) => v,
            Err(e) => {
                return Err(e);
            },
        };
        proof {
            lemma_spec_decode_consumed(rem_it, *elem);
        }
        let ghost old_els = els@;
        els.push(v);
        proof {
            assert(els@.drop_last() =~= old_els);
            assert(de.remaining() =~= rem0.skip(de.pos - old(de).pos));
            let n = rem_it.len() - de.remaining().len();
            assert(rem_it.skip(n) =~= de.remaining());
            match spec_decode_elems(de.remaining(), *elem) {
                Ok(p) => {
                    assert(seq_model(old_els) + (seq![value_model(v)] + p.0) =~= seq_model(els@)
                        + p.0);
                },
                Err(_) => {},
            }
        }
    }
    proof {
        match spec_decode_elems(rem0, *elem) {
            Ok(q) => {
                assert(seq_model(els@) + Seq::<crate::value::ValueModel>::empty() =~= seq_model(
                    els@,
                ));
            },
            Err(_) => {},
        }
    }
    Ok(els)
}

/// Decode one value per given shape, in order, with no lookahead.
fn decode_fields<'de>(de: &mut Deserializer<'de>, shapes: &Vec<Shape>) -> (r: Result<
    Vec<Value>,
    Error,
>)
    requires
        old(de).wf(),
    ensures
        final(de).wf(),
        final(de).input == old(de).input,
        old(de).pos <= final(de).pos,
        match r {
            Ok(vs) => spec_decode_fields(old(de).remaining(), shapes@) matches Ok(p) && p.0
                == seq_model(vs@) && final(de).pos == old(de).pos + p.1,
            Err(e) => spec_decode_fields(old(de).remaining(), shapes@) matches Err(e2) && e2 == e,
        },
    decreases de.remaining().len(), shapes@, 1int,
{
    let ghost rem0 = old(de).remaining();
    let mut els: Vec<Value> = Vec::new();
    let mut i: usize = 0;
    proof {
        match spec_decode_fields(rem0, shapes@) {
            Ok(p) => {
                assert(seq_model(els@) + p.0 =~= p.0);
            },
            Err(_) => {},
        }
        assert(shapes@.skip(0) =~= shapes@);
    }
    while i < shapes.len()
        invariant
            de.wf(),
            de.input == old(de).input,
            old(de).pos <= de.pos,
            0 <= i <= shapes@.len(),
            rem0 == old(de).remaining(),
            de.remaining() == rem0.skip(de.pos - old(de).pos),
            (match spec_decode_fields(de.remaining(), shapes@.skip(i as int)) {
                Ok(p) => spec_decode_fields(rem0, shapes@) matches Ok(q) && q.0 == seq_model(els@)
                    + p.0 && q.1 == (de.pos - old(de).pos) + p.1,
                Err(e) => spec_decode_fields(rem0, shapes@) matches Err(e2) && e2 == e,
            }),
        decreases shapes@.len() - i,
    {
        let ghost rem_it = de.remaining();
        proof {
            assert(shapes@.skip(i as int)[0] == shapes@[i as int]);
        }
        let v = match decode(de, &shapes[i]) {
            Ok(v) => v,
            Err(e) => {
                return Err(e);
            },
        };
        proof {
            lemma_spec_decode_consumed(rem_it, shapes@[i as int]);
        }
        let ghost old_els = els@;
        els.push(v);
        i = i + 1;
        proof {
            assert(els@.drop_last() =~= old_els);
            assert(de.remaining() =~= rem0.skip(de.pos - old(de).pos));
            let n = rem_it.len() - de.remaining().len();
            assert(rem_it.skip(n) =~= de.remaining());
            assert(shapes@.skip(i - 1).drop_first() =~= shapes@.skip(i as int));
            match spec_decode_fields(de.remaining(), shapes@.skip(i as int)) {
                Ok(p) => {
                    assert(seq_model(old_els) + (seq![value_model(v)] + p.0) =~= seq_model(els@)
                        + p.0);
                },
                Err(_) => {},
            }
        }
    }
    proof {
        assert(shapes@.skip(i as int).len() == 0);
        match spec_decode_fields(rem0, shapes@) {
            Ok(q) => {
                assert(seq_model(els@) + Seq::<crate::value::ValueModel>::empty() =~= seq_model(
                    els@,
                ));
            },
            Err(_) => {},
        }
    }
    Ok(els)
}

/// Decode map entries, alternating key and value, until the close tag
/// appears, leaving the close tag unconsumed.
fn decode_entries<'de>(de: &mut Deserializer<'de>, kshape: &Shape, vshape: &Shape) -> (r: Result<
    Vec<(Value, Value)>,
    Error,
>)
    requires
        old(de).wf(),
    ensures
        final(de).wf(),
        final(de).input == old(de).input,
        old(de).pos <= final(de).pos,
        match r {
            Ok(es) => spec_decode_entries(old(de).remaining(), *kshape, *vshape) matches Ok(p)
                && p.0 == entries_model(es@) && final(de).pos == old(de).pos + p.1,
            Err(e) => spec_decode_entries(old(de).remaining(), *kshape, *vshape) matches Err(e2)
                && e2 == e,
        },
    decreases de.remaining().len(), *kshape, 1int,
{
    let ghost rem0 = old(de).remaining();
    let mut entries: Vec<(Value, Value)> = Vec::new();
    proof {
        match spec_decode_entries(rem0, *kshape, *vshape) {
            Ok(p) => {
                assert(entries_model(entries@) + p.0 =~= p.0);
            },
            Err(_) => {},
        }
    }
    loop
        invariant
            de.wf(),
            de.input == old(de).input,
            old(de).pos <= de.pos,
            rem0 == old(de).remaining(),
            de.remaining() == rem0.skip(de.pos - old(de).pos),
            (match spec_decode_entries(de.remaining(), *kshape, *vshape) {
                Ok(p) => spec_decode_entries(rem0, *kshape, *vshape) matches Ok(q) && q.0
                    == entries_model(entries@) + p.0 && q.1 == (de.pos - old(de).pos) + p.1,
                Err(e) => spec_decode_entries(rem0, *kshape, *vshape) matches Err(e2) && e2 == e,
            }),
        ensures
            de.remaining().len() > 0,
            de.remaining()[0] == crate::grammar::TAG_CLOSE,
        decreases de.remaining().len(),
    {
        let close = match de.peek_is_close() {
            Ok(b) => b,
            Err(e) => {
                return Err(e);
            },
        };
        if close {
            break ;
        }
        let ghost rem_it = de.remaining();
        let k = match decode(de, kshape) {
            Ok(v) => v,
            Err(e) => {
                return Err(e);
            },
        };
        proof {
            lemma_spec_decode_consumed(rem_it, *kshape);
            assert(de.remaining() =~= rem_it.skip(rem_it.len() - de.remaining().len()));
        }
        let ghost rem_v = de.remaining();
        let v = match decode(de, vshape) {
            Ok(v) => v,
            Err(e) => {
                return Err(e);
            },
        };
        proof {
            lemma_spec_decode_consumed(rem_v, *vshape);
        }
        let ghost old_entries = entries@;
        entries.push((k, v));
        proof {
            assert(entries@.drop_last() =~= old_entries);
            assert(de.remaining() =~= rem0.skip(de.pos - old(de).pos));
            let n = rem_it.len() - de.remaining().len();
            assert(rem_it.skip(n) =~= de.remaining());
            match spec_decode_entries(de.remaining(), *kshape, *vshape) {
                Ok(p) => {
                    assert(entries_model(old_entries) + (seq![(value_model(k), value_model(v))]
                        + p.0) =~= entries_model(entries@) + p.0);
                },
                Err(_) => {},
            }
        }
    }
    proof {
        match spec_decode_entries(rem0, *kshape, *vshape) {
            Ok(q) => {
                assert(entries_model(entries@) + Seq::<
                    (crate::value::ValueModel, crate::value::ValueModel),
                >::empty() =~= entries_model(entries@));
            },
            Err(_) => {},
        }
    }
    Ok(entries)
}

/// Decode one value of the given target shape from the whole buffer; the
/// value must occupy every byte of it.
pub fn decode_from_bytes(input: &[u8], shape: &Shape) -> (r: Result<Value, Error>)
    ensures
        match r {
            Ok(v) => spec_decode_complete(input@, *shape) == Ok::<
                crate::value::ValueModel,
                Error,
            >(value_model(v)),
            Err(e) => spec_decode_complete(input@, *shape) matches Err(e2) && e2 == e,
        },
{
    let mut de = Deserializer::from_bytes(input);
    let v = match decode(&mut de, shape) {
        Ok(v) => v,
        Err(e) => {
            return Err(e);
        },
    };
    if de.pos == de.input.len() {
        Ok(v)
    } else {
        Err(Error::TrailingCharacters)
    }
}


/// The shapes whose encoding is one tag byte and a fixed-width big-endian
/// payload.
pub open spec fn is_scalar_shape(s: Shape) -> bool {
    ||| s is U8
    ||| s is U16
    ||| s is U32
    ||| s is U64
    ||| s is I8
    ||| s is I16
    ||| s is I32
    ||| s is I64
    ||| s is F32
    ||| s is F64
}

/// Decode one tagged fixed-width scalar value at the cursor.
fn decode_scalar<'de>(de: &mut Deserializer<'de>, shape: &Shape) -> (r: Result<Value, Error>)
    requires
        old(de).wf(),
        is_scalar_shape(*shape),
    ensures
        final(de).wf(),
        final(de).input == old(de).input,
        old(de).pos <= final(de).pos,
        match r {
            Ok(v) => spec_decode(old(de).remaining(), *shape) matches Ok(p) && p.0 == value_model(
                v,
            ) && final(de).pos == old(de).pos + p.1,
            Err(e) => spec_decode(old(de).remaining(), *shape) matches Err(e2) && e2 == e,
        },
{
    match shape {
        Shape::U8 => match de.read_scalar(TAG_U8, 1) {
            Ok(x) => Ok(Value::U8(x as u8)),
            Err(e) => Err(e),
        },
        Shape::U16 => match de.read_scalar(TAG_U16, 2) {
            Ok(x) => Ok(Value::U16(x as u16)),
            Err(e) => Err(e),
        },
        Shape::U32 => match de.read_scalar(TAG_U32, 4) {
            Ok(x) => Ok(Value::U32(x as u32)),
            Err(e) => Err(e),
        },
        Shape::U64 => match de.read_scalar(TAG_U64, 8) {
            Ok(x) => Ok(Value::U64(x)),
            Err(e) => Err(e),
        },
        Shape::I8 => match de.read_scalar(TAG_I8, 1) {
            Ok(x) => {
                let v: i8 = if x < 0x80 {
                    x as i8
                } else {
                    (x as i16 - 0x100) as i8
                };
                Ok(Value::I8(v))
            },
            Err(e) => Err(e),
        },
        Shape::I16 => match de.read_scalar(TAG_I16, 2) {
            Ok(x) => {
                let v: i16 = if x < 0x8000 {
                    x as i16
                } else {
                    (x as i32 - 0x10000) as i16
                };
                Ok(Value::I16(v))
            },
            Err(e) => Err(e),
        },
        Shape::I32 => match de.read_scalar(TAG_I32, 4) {
            Ok(x) => {
                let v: i32 = if x < 0x8000_0000 {
                    x as i32
                } else {
                    (x as i64 - 0x1_0000_0000) as i32
                };
                Ok(Value::I32(v))
            },
            Err(e) => Err(e),
        },
        Shape::I64 => match de.read_scalar(TAG_I64, 8) {
            Ok(x) => {
                let v: i64 = if x < 0x8000_0000_0000_0000 {
                    x as i64
                } else {
                    ((x - 0x8000_0000_0000_0000) as i64) + i64::MIN
                };
                Ok(Value::I64(v))
            },
            Err(e) => Err(e),
        },
        Shape::F32 => match de.read_scalar(TAG_F32, 4) {
            Ok(x) => Ok(Value::F32Bits(x as u32)),
            Err(e) => Err(e),
        },
        Shape::F64 => match de.read_scalar(TAG_F64, 8) {
            Ok(x) => Ok(Value::F64Bits(x)),
            Err(e) => Err(e),
        },
        _ => {
            proof {
                assert(false);
            }
            Err(Error::Syntax)
        },
    }
}

/// Decode one externally tagged enum value at the cursor: a bare string
/// for a unit variant, or a one-entry map from variant name to payload.
#[verifier::rlimit(100)]
#[verifier::spinoff_prover]
fn decode_enum_variant<'de>(
    de: &mut Deserializer<'de>,
    variants: &Vec<(String, VariantShape)>,
) -> (r: Result<Value, Error>)
    requires
        old(de).wf(),
    ensures
        final(de).wf(),
        final(de).input == old(de).input,
        old(de).pos <= final(de).pos,
        match r {
            Ok(v) => crate::grammar::spec_decode_enum(old(de).remaining(), variants@) matches Ok(p)
                && p.0 == value_model(v) && final(de).pos == old(de).pos + p.1,
            Err(e) => crate::grammar::spec_decode_enum(old(de).remaining(), variants@) matches Err(
                e2,
            ) && e2 == e,
        },
    decreases de.remaining().len(), variants@, 3int,
{
    let ghost rem0 = old(de).remaining();
    let is_str = match de.peek_is_string() {
        Ok(b) => b,
        Err(e) => {
            return Err(e);
        },
    };
    if is_str {
        let name = match de.parse_string() {
            Ok(s) => s,
            Err(e) => {
                return Err(e);
            },
        };
        let name_owned = name.to_owned();
        proof {
            assert(value_model(Value::Unit) == ValueModel::Unit);
        }
        match find_variant_index(variants, &name_owned) {
            Some(i) => match &variants[i].1 {
                VariantShape::Unit => Ok(Value::Variant(name_owned, Box::new(Value::Unit))),
                _ => Err(Error::Syntax),
            },
            None => Err(Error::Syntax),
        }
    } else {
        let b = match de.peek() {
            Ok(b) => b,
            Err(e) => {
                return Err(e);
            },
        };
        if b != TAG_MAP_OPEN {
            de.advance();
            return Err(Error::ExpectedEnum);
        }
        decode_enum_map(de, variants)
    }
}

/// Decode the map form of an externally tagged enum value, starting at
/// its open tag.
#[verifier::rlimit(100)]
#[verifier::spinoff_prover]
fn decode_enum_map<'de>(
    de: &mut Deserializer<'de>,
    variants: &Vec<(String, VariantShape)>,
) -> (r: Result<Value, Error>)
    requires
        old(de).wf(),
        old(de).remaining().len() >= 1,
        old(de).remaining()[0] == crate::grammar::TAG_MAP_OPEN,
    ensures
        final(de).wf(),
        final(de).input == old(de).input,
        old(de).pos <= final(de).pos,
        match r {
            Ok(v) => crate::grammar::spec_decode_enum_map(old(de).remaining(), variants@)
                matches Ok(p) && p.0 == value_model(v) && final(de).pos == old(de).pos + p.1,
            Err(e) => crate::grammar::spec_decode_enum_map(old(de).remaining(), variants@)
                matches Err(e2) && e2 == e,
        },
    decreases de.remaining().len(), variants@, 2int,
{
    let ghost rem0 = old(de).remaining();
    de.advance();
    let ghost inner = de.remaining();
    proof {
        assert(inner =~= rem0.skip(1));
    }
    let name = match de.parse_string() {
        Ok(s) => s,
        Err(e) => {
            return Err(e);
        },
    };
    proof {
        lemma_spec_parse_string_consumed(inner);
        assert(de.remaining() =~= inner.skip(de.pos - (old(de).pos + 1)));
    }
    let name_owned = name.to_owned();
    match find_variant_index(variants, &name_owned) {
        None => Err(Error::Syntax),
        Some(i) => {
            let pv = match decode_variant_payload(de, &variants[i].1) {
                Ok(v) => v,
                Err(e) => {
                    return Err(e);
                },
            };
            proof {
                assert(de.remaining() =~= rem0.skip(de.pos - old(de).pos));
            }
            match de.read_close() {
                Ok(()) => Ok(Value::Variant(name_owned, Box::new(pv))),
                Err(e) => Err(e),
            }
        },
    }
}

/// Decode the payload of one enum variant, per its declared form.
#[verifier::rlimit(50)]
fn decode_variant_payload<'de>(de: &mut Deserializer<'de>, kind: &VariantShape) -> (r: Result<
    Value,
    Error,
>)
    requires
        old(de).wf(),
    ensures
        final(de).wf(),
        final(de).input == old(de).input,
        old(de).pos <= final(de).pos,
        match r {
            Ok(v) => crate::grammar::spec_decode_variant_payload(old(de).remaining(), *kind)
                matches Ok(p) && p.0 == value_model(v) && final(de).pos == old(de).pos + p.1,
            Err(e) => crate::grammar::spec_decode_variant_payload(old(de).remaining(), *kind)
                matches Err(e2) && e2 == e,
        },
    decreases de.remaining().len(), *kind, 1int,
{
    let ghost rem0 = old(de).remaining();
    match kind {
        VariantShape::Unit => Err(Error::ExpectedString),
        VariantShape::Newtype(s) => decode(de, &**s),
        VariantShape::Tuple(shapes) => {
            if let Err(e) = de.read_seq_open() {
                return Err(e);
            }
            proof {
                assert(de.remaining() =~= rem0.skip(1));
            }
            let els = match decode_fields(de, shapes) {
                Ok(v) => v,
                Err(e) => {
                    return Err(e);
                },
            };
            proof {
                assert(de.remaining() =~= rem0.skip(de.pos - old(de).pos));
            }
            match de.read_close() {
                Ok(()) => Ok(Value::Sequence(els)),
                Err(e) => Err(e),
            }
        },
        VariantShape::Struct(ks, vs) => {
            if let Err(e) = de.read_map_open() {
                return Err(e);
            }
            proof {
                assert(de.remaining() =~= rem0.skip(1));
            }
            let entries = match decode_entries(de, &**ks, &**vs) {
                Ok(v) => v,
                Err(e) => {
                    return Err(e);
                },
            };
            proof {
                assert(de.remaining() =~= rem0.skip(de.pos - old(de).pos));
            }
            match de.read_close() {
                Ok(()) => Ok(Value::Mapping(entries)),
                Err(e) => Err(e),
            }
        },
    }
}

} // verus!
