//! A self-describing binary object format and its streaming decoder.
//!
//! Values are encoded as a leading tag byte (occasionally two, for string
//! length classes) followed by the value's payload bytes. The decoder walks
//! a borrowed byte buffer with a monotonically advancing cursor and
//! materializes booleans, fixed-width big-endian integers, float bit
//! patterns, length-prefixed UTF-8 strings, sequences, maps and externally
//! tagged enum variants.

mod de;
mod decode;
mod error;
mod grammar;
mod parser;
mod props;
mod value;

pub use de::Deserializer;
pub use decode::{decode, decode_from_bytes};
pub use error::Error;
pub use grammar::{
    be_uint, is_string_tag, spec_decode, spec_decode_complete, spec_decode_elems,
    spec_decode_entries, spec_decode_fields, spec_decode_enum, spec_parse_bool, spec_parse_string,
    spec_read_scalar, spec_string_header,
};
pub use grammar::{
    TAG_CLOSE, TAG_F32, TAG_F64, TAG_FALSE, TAG_I16, TAG_I32, TAG_I64, TAG_I8, TAG_MAP_OPEN,
    TAG_SEQ_OPEN, TAG_STR16, TAG_STR32, TAG_STR64, TAG_STR8, TAG_TRUE, TAG_U16, TAG_U32, TAG_U64,
    TAG_U8, TAG_UNIT,
};
pub use parser::{
    float32, float64, int16_t, int32_t, int64_t, int8_t, uint16_t, uint32_t, uint64_t, uint8_t,
};
pub use props::{
    lemma_spec_decode_extend, lemma_spec_decode_prefix, lemma_spec_decode_take,
    lemma_spec_parse_string_extend, lemma_spec_parse_string_prefix, lemma_string_length_classes,
    lemma_truncation_safety,
};
pub use value::{
    entries_model, find_variant, seq_model, value_model, Shape, Value, ValueModel, VariantShape,
};
