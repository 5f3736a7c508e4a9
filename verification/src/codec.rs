use vstd::prelude::*;
use vstd::bytes::{
    spec_u16_from_le_bytes, spec_u32_from_le_bytes, spec_u64_from_le_bytes, u16_from_le_bytes,
    u32_from_le_bytes, u64_from_le_bytes,
};
use vstd::bytes::{
    spec_u16_to_le_bytes, spec_u32_to_le_bytes, spec_u64_to_le_bytes, u16_to_le_bytes,
    u32_to_le_bytes, u64_to_le_bytes,
};
use vstd::slice::{slice_index_get, slice_subrange, slice_to_vec};
use vstd::utf8::{decode_utf8, encode_utf8, encode_utf8_decode_utf8, valid_utf8};
use crate::convert::{to_i16, to_i32, to_i64, to_i8};
use crate::convert::{u16_of_int, u32_of_int, u64_of_int, u8_of_int};
use crate::convert::{read_i16, read_i32, read_i64};
use crate::convert::{write_u16, write_u32, write_u64_signed, write_u8};
use crate::value::{lookup, obj_get};
use crate::errors::CodecError;
use crate::layout::{Layout, LayoutKind};
use crate::value::{models_of, pairs_of, Value, ValueModel};

verus! {

/// How many leading bytes of `b` one encoded value of layout `l` occupies,
/// when `b` holds that many: fixed widths for the primitive kinds, an 8-byte
/// length prefix plus payload for strings, an 8-byte count prefix plus the
/// elements for arrays, and the sum of the fields for structs. `None` when
/// the buffer is too short to contain one full value, or when an `Array` or
/// `Struct` layout is missing its children.
pub open spec fn spec_size(l: Layout, b: Seq<u8>) -> Option<nat>
    decreases l, 0nat,
{
    match l.kind {
        LayoutKind::Bool | LayoutKind::U8 | LayoutKind::I8 => if b.len() >= 1 {
            Some(1nat)
        } else {
            None
        },
        LayoutKind::U16 | LayoutKind::I16 => if b.len() >= 2 {
            Some(2nat)
        } else {
            None
        },
        LayoutKind::U32 | LayoutKind::I32 | LayoutKind::F32 => if b.len() >= 4 {
            Some(4nat)
        } else {
            None
        },
        LayoutKind::U64 | LayoutKind::I64 | LayoutKind::F64 => if b.len() >= 8 {
            Some(8nat)
        } else {
            None
        },
        LayoutKind::String => if b.len() >= 8 {
            let n = spec_u64_from_le_bytes(b.subrange(0, 8)) as nat;
            if 8 + n <= b.len() {
                Some((8 + n) as nat)
            } else {
                None
            }
        } else {
            None
        },
        LayoutKind::Array => match l.fields {
            Some(fs) => if fs@.len() == 1 && b.len() >= 8 {
                let count = spec_u64_from_le_bytes(b.subrange(0, 8)) as nat;
                match spec_size_elems(fs@[0], b.skip(8), count) {
                    Some(m) => Some((8 + m) as nat),
                    None => None,
                }
            } else {
                None
            },
            None => None,
        },
        LayoutKind::Struct => match l.fields {
            Some(fs) => spec_size_fields(fs@, b, 0),
            None => None,
        },
    }
}

/// The total size of `count` consecutive values of layout `child` at the
/// front of `b`, each starting where the one before it ended.
pub open spec fn spec_size_elems(child: Layout, b: Seq<u8>, count: nat) -> Option<nat>
    decreases child, count,
{
    if count == 0 {
        Some(0nat)
    } else {
        match spec_size(child, b) {
            Some(n) => match spec_size_elems(child, b.skip(n as int), (count - 1) as nat) {
                Some(m) => Some((n + m) as nat),
                None => None,
            },
            None => None,
        }
    }
}

/// The total size of the values of layouts `fields[i..]` at the front of
/// `b`, each starting where the one before it ended.
pub open spec fn spec_size_fields(fields: Seq<Layout>, b: Seq<u8>, i: int) -> Option<nat>
    decreases fields, fields.len() - i,
{
    if i < 0 || i >= fields.len() {
        Some(0nat)
    } else {
        match spec_size(fields[i], b) {
            Some(n) => match spec_size_fields(fields, b.skip(n as int), i + 1) {
                Some(m) => Some((n + m) as nat),
                None => None,
            },
            None => None,
        }
    }
}

/// A size that [`spec_size`] reports never exceeds the buffer.
pub proof fn lemma_size_within(l: Layout, b: Seq<u8>)
    ensures
        spec_size(l, b) is Some ==> spec_size(l, b)->Some_0 <= b.len(),
    decreases l, 0nat,
{
    match l.kind {
        LayoutKind::Array => match l.fields {
            Some(fs) => if fs@.len() == 1 && b.len() >= 8 {
                let count = spec_u64_from_le_bytes(b.subrange(0, 8)) as nat;
                lemma_size_elems_within(fs@[0], b.skip(8), count);
            },
            None => {},
        },
        LayoutKind::Struct => match l.fields {
            Some(fs) => lemma_size_fields_within(fs@, b, 0),
            None => {},
        },
        _ => {},
    }
}

/// A size that [`spec_size_elems`] reports never exceeds the buffer.
pub proof fn lemma_size_elems_within(child: Layout, b: Seq<u8>, count: nat)
    ensures
        spec_size_elems(child, b, count) is Some ==> spec_size_elems(child, b, count)->Some_0
            <= b.len(),
    decreases child, count,
{
    if count > 0 {
        lemma_size_within(child, b);
        match spec_size(child, b) {
            Some(n) => {
                lemma_size_elems_within(child, b.skip(n as int), (count - 1) as nat);
            },
            None => {},
        }
    }
}

/// A size that [`spec_size_fields`] reports never exceeds the buffer.
pub proof fn lemma_size_fields_within(fields: Seq<Layout>, b: Seq<u8>, i: int)
    ensures
        spec_size_fields(fields, b, i) is Some ==> spec_size_fields(fields, b, i)->Some_0
            <= b.len(),
    decreases fields, fields.len() - i,
{
    if 0 <= i < fields.len() {
        lemma_size_within(fields[i], b);
        match spec_size(fields[i], b) {
            Some(n) => {
                lemma_size_fields_within(fields, b.skip(n as int), i + 1);
            },
            None => {},
        }
    }
}

/// Computes [`spec_size`] for the buffer suffix starting at `offset`, or
/// reports that the suffix cannot hold one full value.
#[verifier::loop_isolation(false)]
fn size_at(l: &Layout, bytes: &[u8], offset: usize) -> (r: Result<usize, CodecError>)
    requires
        offset <= bytes@.len(),
    ensures
        match r {
            Ok(n) => spec_size(*l, bytes@.skip(offset as int)) == Some(n as nat) && offset + n
                <= bytes@.len(),
            Err(e) => spec_size(*l, bytes@.skip(offset as int)) is None && e
                == CodecError::TruncatedInput,
        },
    decreases *l,
{
    let ghost b = bytes@.skip(offset as int);
    let remaining = bytes.len() - offset;
    match l.kind {
        LayoutKind::Bool | LayoutKind::U8 | LayoutKind::I8 => if remaining >= 1 {
            Ok(1)
        } else {
            Err(CodecError::TruncatedInput)
        },
        LayoutKind::U16 | LayoutKind::I16 => if remaining >= 2 {
            Ok(2)
        } else {
            Err(CodecError::TruncatedInput)
        },
        LayoutKind::U32 | LayoutKind::I32 | LayoutKind::F32 => if remaining >= 4 {
            Ok(4)
        } else {
            Err(CodecError::TruncatedInput)
        },
        LayoutKind::U64 | LayoutKind::I64 | LayoutKind::F64 => if remaining >= 8 {
            Ok(8)
        } else {
            Err(CodecError::TruncatedInput)
        },
        LayoutKind::String => {
            if remaining < 8 {
                return Err(CodecError::TruncatedInput);
            }
            let n64 = read_prefix(bytes, offset);
            if n64 > (remaining - 8) as u64 {
                return Err(CodecError::TruncatedInput);
            }
            Ok(8 + (n64 as usize))
        },
        LayoutKind::Array => match &l.fields {
            Option::Some(fs) => {
                if fs.len() != 1 {
                    return Err(CodecError::TruncatedInput);
                }
                if remaining < 8 {
                    return Err(CodecError::TruncatedInput);
                }
                let count = read_prefix(bytes, offset);
                proof {
                    assert(b.subrange(0, 8) =~= bytes@.skip(offset as int).subrange(0, 8));
                    assert(b.skip(8) =~= bytes@.skip(offset + 8));
                }
                let mut off: usize = offset + 8;
                let mut i: u64 = 0;
                while i < count
                    invariant
                        offset + 8 <= off <= bytes@.len(),
                        i <= count,
                        l.fields == Option::Some(*fs),
                        fs@.len() == 1,
                        b == bytes@.skip(offset as int),
                        count == spec_u64_from_le_bytes(b.subrange(0, 8)),
                        match spec_size_elems(
                            fs@[0],
                            bytes@.skip(off as int),
                            (count - i) as nat,
                        ) {
                            Some(m) => spec_size_elems(
                                fs@[0],
                                bytes@.skip(offset + 8),
                                count as nat,
                            ) == Some((off - offset - 8 + m) as nat),
                            None => spec_size_elems(
                                fs@[0],
                                bytes@.skip(offset + 8),
                                count as nat,
                            ) is None,
                        },
                    decreases count - i,
                {
                    proof {
                        assert(decreases_to!(*l => l.fields));
                        assert(decreases_to!(l.fields => l.fields->Some_0));
                        assert(decreases_to!(l.fields->Some_0 => l.fields->Some_0@));
                        assert(decreases_to!(l.fields->Some_0@ => l.fields->Some_0@[0]));
                        assert(l.fields->Some_0@[0] == fs@[0]);
                    }
                    match size_at(&fs[0], bytes, off) {
                        Ok(n) => {
                            proof {
                                assert(bytes@.skip(off as int).skip(n as int) =~= bytes@.skip(
                                    off + n,
                                ));
                            }
                            off = off + n;
                            i = i + 1;
                        },
                        Err(e) => {
                            return Err(e);
                        },
                    }
                }
                Ok(off - offset)
            },
            Option::None => Err(CodecError::TruncatedInput),
        },
        LayoutKind::Struct => match &l.fields {
            Option::Some(fs) => {
                let mut off: usize = offset;
                let mut i: usize = 0;
                while i < fs.len()
                    invariant
                        offset <= off <= bytes@.len(),
                        i <= fs@.len(),
                        l.fields == Option::Some(*fs),
                        match spec_size_fields(fs@, bytes@.skip(off as int), i as int) {
                            Some(m) => spec_size_fields(fs@, bytes@.skip(offset as int), 0)
                                == Some((off - offset + m) as nat),
                            None => spec_size_fields(
                                fs@,
                                bytes@.skip(offset as int),
                                0,
                            ) is None,
                        },
                    decreases fs@.len() - i,
                {
                    proof {
                        assert(decreases_to!(*l => l.fields));
                        assert(decreases_to!(l.fields => l.fields->Some_0));
                        assert(decreases_to!(l.fields->Some_0 => l.fields->Some_0@));
                        assert(decreases_to!(l.fields->Some_0@ => l.fields->Some_0@[i as int]));
                        assert(l.fields->Some_0@[i as int] == fs@[i as int]);
                    }
                    match size_at(&fs[i], bytes, off) {
                        Ok(n) => {
                            proof {
                                assert(bytes@.skip(off as int).skip(n as int) =~= bytes@.skip(
                                    off + n,
                                ));
                            }
                            off = off + n;
                            i = i + 1;
                        },
                        Err(e) => {
                            return Err(e);
                        },
                    }
                }
                Ok(off - offset)
            },
            Option::None => Err(CodecError::TruncatedInput),
        },
    }
}

/// Reads the 8-byte little-endian prefix at `offset`.
fn read_prefix(bytes: &[u8], offset: usize) -> (r: u64)
    requires
        offset + 8 <= bytes@.len(),
    ensures
        r == spec_u64_from_le_bytes(bytes@.skip(offset as int).subrange(0, 8)),
{
    proof {
        // A slice's length fits in usize, so `offset + 8` cannot overflow.
        assert(vstd::slice::spec_slice_len(bytes) == bytes@.len());
    }
    let pre = slice_subrange(bytes, offset, offset + 8);
    let r = u64_from_le_bytes(pre);
    proof {
        assert(pre@ =~= bytes@.skip(offset as int).subrange(0, 8));
    }
    r
}

/// What decoding one value of layout `l` from the front of `b` yields: the
/// value's model and the number of bytes it occupied, or the error that
/// stops the walk. Truncation is reported before any payload is inspected;
/// a string payload that is not valid UTF-8, or a boolean byte other than 0
/// or 1, is `InvalidEncoding`.
pub open spec fn spec_decode(l: Layout, b: Seq<u8>) -> Result<(ValueModel, nat), CodecError>
    decreases l, 0nat,
{
    match l.kind {
        LayoutKind::Bool => if b.len() < 1 {
            Err(CodecError::TruncatedInput)
        } else if b[0] == 0 {
            Ok((ValueModel::Bool(false), 1nat))
        } else if b[0] == 1 {
            Ok((ValueModel::Bool(true), 1nat))
        } else {
            Err(CodecError::InvalidEncoding)
        },
        LayoutKind::U8 => if b.len() < 1 {
            Err(CodecError::TruncatedInput)
        } else {
            Ok((ValueModel::UInt(b[0] as u64), 1nat))
        },
        LayoutKind::U16 => if b.len() < 2 {
            Err(CodecError::TruncatedInput)
        } else {
            Ok((ValueModel::UInt(spec_u16_from_le_bytes(b.subrange(0, 2)) as u64), 2nat))
        },
        LayoutKind::U32 => if b.len() < 4 {
            Err(CodecError::TruncatedInput)
        } else {
            Ok((ValueModel::UInt(spec_u32_from_le_bytes(b.subrange(0, 4)) as u64), 4nat))
        },
        LayoutKind::U64 => if b.len() < 8 {
            Err(CodecError::TruncatedInput)
        } else {
            Ok((ValueModel::UInt(spec_u64_from_le_bytes(b.subrange(0, 8))), 8nat))
        },
        LayoutKind::I8 => if b.len() < 1 {
            Err(CodecError::TruncatedInput)
        } else {
            Ok((ValueModel::Int(to_i8(b[0]) as i64), 1nat))
        },
        LayoutKind::I16 => if b.len() < 2 {
            Err(CodecError::TruncatedInput)
        } else {
            Ok((ValueModel::Int(to_i16(spec_u16_from_le_bytes(b.subrange(0, 2))) as i64), 2nat))
        },
        LayoutKind::I32 => if b.len() < 4 {
            Err(CodecError::TruncatedInput)
        } else {
            Ok((ValueModel::Int(to_i32(spec_u32_from_le_bytes(b.subrange(0, 4))) as i64), 4nat))
        },
        LayoutKind::I64 => if b.len() < 8 {
            Err(CodecError::TruncatedInput)
        } else {
            Ok((ValueModel::Int(to_i64(spec_u64_from_le_bytes(b.subrange(0, 8)))), 8nat))
        },
        LayoutKind::F32 => if b.len() < 4 {
            Err(CodecError::TruncatedInput)
        } else {
            Ok((ValueModel::F32Bits(spec_u32_from_le_bytes(b.subrange(0, 4))), 4nat))
        },
        LayoutKind::F64 => if b.len() < 8 {
            Err(CodecError::TruncatedInput)
        } else {
            Ok((ValueModel::F64Bits(spec_u64_from_le_bytes(b.subrange(0, 8))), 8nat))
        },
        LayoutKind::String => if b.len() < 8 {
            Err(CodecError::TruncatedInput)
        } else {
            let n = spec_u64_from_le_bytes(b.subrange(0, 8)) as nat;
            if 8 + n > b.len() {
                Err(CodecError::TruncatedInput)
            } else {
                let payload = b.subrange(8, 8 + n as int);
                if valid_utf8(payload) {
                    Ok((ValueModel::Str(decode_utf8(payload)), (8 + n) as nat))
                } else {
                    Err(CodecError::InvalidEncoding)
                }
            }
        },
        LayoutKind::Array => match l.fields {
            Some(fs) => if fs@.len() == 1 {
                if b.len() < 8 {
                    Err(CodecError::TruncatedInput)
                } else {
                    let count = spec_u64_from_le_bytes(b.subrange(0, 8)) as nat;
                    match spec_decode_elems(fs@[0], b.skip(8), count) {
                        Ok((items, m)) => Ok((ValueModel::Arr(items), (8 + m) as nat)),
                        Err(e) => Err(e),
                    }
                }
            } else {
                Err(CodecError::TruncatedInput)
            },
            None => Err(CodecError::TruncatedInput),
        },
        LayoutKind::Struct => match l.fields {
            Some(fs) => match spec_decode_fields(fs@, b, 0) {
                Ok((pairs, m)) => Ok((ValueModel::Obj(pairs), m)),
                Err(e) => Err(e),
            },
            None => Err(CodecError::TruncatedInput),
        },
    }
}

/// What decoding `count` consecutive values of layout `child` from the
/// front of `b` yields: their models in order and the total bytes consumed.
pub open spec fn spec_decode_elems(child: Layout, b: Seq<u8>, count: nat) -> Result<
    (Seq<ValueModel>, nat),
    CodecError,
>
    decreases child, count,
{
    if count == 0 {
        Ok((Seq::empty(), 0nat))
    } else {
        match spec_decode(child, b) {
            Ok((v, n)) => match spec_decode_elems(child, b.skip(n as int), (count - 1) as nat) {
                Ok((rest, m)) => Ok((seq![v] + rest, (n + m) as nat)),
                Err(e) => Err(e),
            },
            Err(e) => Err(e),
        }
    }
}

/// What decoding the fields `fields[i..]` from the front of `b` yields:
/// the name/value pairs in field order and the total bytes consumed.
pub open spec fn spec_decode_fields(fields: Seq<Layout>, b: Seq<u8>, i: int) -> Result<
    (Seq<(Seq<char>, ValueModel)>, nat),
    CodecError,
>
    decreases fields, fields.len() - i,
{
    if i < 0 || i >= fields.len() {
        Ok((Seq::empty(), 0nat))
    } else {
        match spec_decode(fields[i], b) {
            Ok((v, n)) => match spec_decode_fields(fields, b.skip(n as int), i + 1) {
                Ok((rest, m)) => Ok((seq![(fields[i].name@, v)] + rest, (n + m) as nat)),
                Err(e) => Err(e),
            },
            Err(e) => Err(e),
        }
    }
}

/// Relies on std's `String::from_utf8`: it returns `Ok` exactly when the
/// given bytes are valid UTF-8, and the returned string then wraps those
/// very bytes.
#[verifier::external_body]
fn string_from_utf8(bytes: Vec<u8>) -> (r: Option<String>)
    ensures
        r is Some <==> valid_utf8(bytes@),
        r is Some ==> encode_utf8(r->Some_0@) == bytes@,
{
    String::from_utf8(bytes).ok()
}

/// Decodes one value of layout `l` from the buffer suffix starting at
/// `offset`, returning the value and the offset just past it.
#[verifier::loop_isolation(false)]
#[verifier::rlimit(50)]
fn decode_at(l: &Layout, bytes: &[u8], offset: usize) -> (r: Result<(Value, usize), CodecError>)
    requires
        l.well_formed(),
        offset <= bytes@.len(),
    ensures
        match r {
            Ok(p) => {
                &&& offset <= p.1 <= bytes@.len()
                &&& spec_decode(*l, bytes@.skip(offset as int)) == Ok::<
                    (ValueModel, nat),
                    CodecError,
                >((p.0.model(), (p.1 - offset) as nat))
            },
            Err(e) => spec_decode(*l, bytes@.skip(offset as int)) == Err::<
                (ValueModel, nat),
                CodecError,
            >(e),
        },
    decreases *l,
{
    let ghost b = bytes@.skip(offset as int);
    let remaining = bytes.len() - offset;
    match l.kind {
        LayoutKind::Bool => {
            if remaining < 1 {
                return Err(CodecError::TruncatedInput);
            }
            let byte = *slice_index_get(bytes, offset);
            if byte == 0 {
                Ok((Value::Bool(false), offset + 1))
            } else if byte == 1 {
                Ok((Value::Bool(true), offset + 1))
            } else {
                Err(CodecError::InvalidEncoding)
            }
        },
        LayoutKind::U8 => {
            if remaining < 1 {
                return Err(CodecError::TruncatedInput);
            }
            let byte = *slice_index_get(bytes, offset);
            Ok((Value::UInt(byte as u64), offset + 1))
        },
        LayoutKind::I8 => {
            if remaining < 1 {
                return Err(CodecError::TruncatedInput);
            }
            let byte = *slice_index_get(bytes, offset);
            let signed: i8 = if byte < 0x80 {
                byte as i8
            } else {
                ((byte as i16) - 0x100) as i8
            };
            Ok((Value::Int(signed as i64), offset + 1))
        },
        LayoutKind::U16 => {
            if remaining < 2 {
                return Err(CodecError::TruncatedInput);
            }
            let pre = slice_subrange(bytes, offset, offset + 2);
            let x = u16_from_le_bytes(pre);
            proof {
                assert(pre@ =~= b.subrange(0, 2));
            }
            Ok((Value::UInt(x as u64), offset + 2))
        },
        LayoutKind::I16 => {
            if remaining < 2 {
                return Err(CodecError::TruncatedInput);
            }
            let pre = slice_subrange(bytes, offset, offset + 2);
            let x = u16_from_le_bytes(pre);
            proof {
                assert(pre@ =~= b.subrange(0, 2));
            }
            Ok((Value::Int(read_i16(x) as i64), offset + 2))
        },
        LayoutKind::U32 => {
            if remaining < 4 {
                return Err(CodecError::TruncatedInput);
            }
            let pre = slice_subrange(bytes, offset, offset + 4);
            let x = u32_from_le_bytes(pre);
            proof {
                assert(pre@ =~= b.subrange(0, 4));
            }
            Ok((Value::UInt(x as u64), offset + 4))
        },
        LayoutKind::I32 => {
            if remaining < 4 {
                return Err(CodecError::TruncatedInput);
            }
            let pre = slice_subrange(bytes, offset, offset + 4);
            let x = u32_from_le_bytes(pre);
            proof {
                assert(pre@ =~= b.subrange(0, 4));
            }
            Ok((Value::Int(read_i32(x) as i64), offset + 4))
        },
        LayoutKind::U64 => {
            if remaining < 8 {
                return Err(CodecError::TruncatedInput);
            }
            let x = read_prefix(bytes, offset);
            Ok((Value::UInt(x), offset + 8))
        },
        LayoutKind::I64 => {
            if remaining < 8 {
                return Err(CodecError::TruncatedInput);
            }
            let x = read_prefix(bytes, offset);
            Ok((Value::Int(read_i64(x)), offset + 8))
        },
        LayoutKind::F32 => {
            if remaining < 4 {
                return Err(CodecError::TruncatedInput);
            }
            let pre = slice_subrange(bytes, offset, offset + 4);
            let x = u32_from_le_bytes(pre);
            proof {
                assert(pre@ =~= b.subrange(0, 4));
            }
            Ok((Value::F32Bits(x), offset + 4))
        },
        LayoutKind::F64 => {
            if remaining < 8 {
                return Err(CodecError::TruncatedInput);
            }
            let x = read_prefix(bytes, offset);
            Ok((Value::F64Bits(x), offset + 8))
        },
        LayoutKind::String => {
            if remaining < 8 {
                return Err(CodecError::TruncatedInput);
            }
            let n64 = read_prefix(bytes, offset);
            if n64 > (remaining - 8) as u64 {
                return Err(CodecError::TruncatedInput);
            }
            let n = n64 as usize;
            let payload = slice_to_vec(slice_subrange(bytes, offset + 8, offset + 8 + n));
            proof {
                assert(payload@ =~= b.subrange(8, 8 + n as int));
            }
            match string_from_utf8(payload) {
                Option::Some(s) => {
                    proof {
                        encode_utf8_decode_utf8(s@);
                    }
                    Ok((Value::Str(s), offset + 8 + n))
                },
                Option::None => Err(CodecError::InvalidEncoding),
            }
        },
        LayoutKind::Array => match &l.fields {
            Option::Some(fs) => {
                if remaining < 8 {
                    return Err(CodecError::TruncatedInput);
                }
                let count = read_prefix(bytes, offset);
                proof {
                    assert(b.subrange(0, 8) =~= bytes@.skip(offset as int).subrange(0, 8));
                    assert(b.skip(8) =~= bytes@.skip(offset + 8));
                }
                let mut items: Vec<Value> = Vec::new();
                let mut off: usize = offset + 8;
                let mut i: u64 = 0;
                while i < count
                    invariant
                        offset + 8 <= off <= bytes@.len(),
                        i <= count,
                        match spec_decode_elems(
                            fs@[0],
                            bytes@.skip(off as int),
                            (count - i) as nat,
                        ) {
                            Ok(rest) => spec_decode_elems(
                                fs@[0],
                                bytes@.skip(offset + 8),
                                count as nat,
                            ) == Ok::<(Seq<ValueModel>, nat), CodecError>(
                                (
                                    models_of(items@) + rest.0,
                                    (off - offset - 8 + rest.1) as nat,
                                ),
                            ),
                            Err(e) => spec_decode_elems(
                                fs@[0],
                                bytes@.skip(offset + 8),
                                count as nat,
                            ) == Err::<(Seq<ValueModel>, nat), CodecError>(e),
                        },
                    decreases count - i,
                {
                    proof {
                        assert(decreases_to!(*l => l.fields));
                        assert(decreases_to!(l.fields => l.fields->Some_0));
                        assert(decreases_to!(l.fields->Some_0 => l.fields->Some_0@));
                        assert(decreases_to!(l.fields->Some_0@ => l.fields->Some_0@[0]));
                        assert(l.fields->Some_0@[0] == fs@[0]);
                    }
                    match decode_at(&fs[0], bytes, off) {
                        Ok(p) => {
                            let ghost before = items@;
                            let (v, end) = p;
                            proof {
                                assert(bytes@.skip(off as int).skip((end - off) as int)
                                    =~= bytes@.skip(end as int));
                            }
                            items.push(v);
                            proof {
                                assert(models_of(items@) =~= models_of(before).push(v.model()));
                                assert(models_of(before).push(v.model()) + spec_rest_elems(
                                    fs@[0],
                                    bytes@.skip(end as int),
                                    (count - i - 1) as nat,
                                ) =~= models_of(before) + (seq![v.model()] + spec_rest_elems(
                                    fs@[0],
                                    bytes@.skip(end as int),
                                    (count - i - 1) as nat,
                                )));
                            }
                            off = end;
                            i = i + 1;
                        },
                        Err(e) => {
                            return Err(e);
                        },
                    }
                }
                Ok((Value::Arr(items), off))
            },
            Option::None => vstd::pervasive::unreached(),
        },
        LayoutKind::Struct => match &l.fields {
            Option::Some(fs) => {
                let mut pairs: Vec<(String, Value)> = Vec::new();
                let mut off: usize = offset;
                let mut i: usize = 0;
                while i < fs.len()
                    invariant
                        offset <= off <= bytes@.len(),
                        i <= fs@.len(),
                        match spec_decode_fields(fs@, bytes@.skip(off as int), i as int) {
                            Ok(rest) => spec_decode_fields(fs@, bytes@.skip(offset as int), 0)
                                == Ok::<(Seq<(Seq<char>, ValueModel)>, nat), CodecError>(
                                (pairs_of(pairs@) + rest.0, (off - offset + rest.1) as nat),
                            ),
                            Err(e) => spec_decode_fields(fs@, bytes@.skip(offset as int), 0)
                                == Err::<(Seq<(Seq<char>, ValueModel)>, nat), CodecError>(e),
                        },
                    decreases fs@.len() - i,
                {
                    proof {
                        assert(decreases_to!(*l => l.fields));
                        assert(decreases_to!(l.fields => l.fields->Some_0));
                        assert(decreases_to!(l.fields->Some_0 => l.fields->Some_0@));
                        assert(decreases_to!(l.fields->Some_0@ => l.fields->Some_0@[i as int]));
                        assert(l.fields->Some_0@[i as int] == fs@[i as int]);
                    }
                    match decode_at(&fs[i], bytes, off) {
                        Ok(p) => {
                            let ghost before = pairs@;
                            let (v, end) = p;
                            let name = fs[i].name.clone();
                            proof {
                                assert(bytes@.skip(off as int).skip((end - off) as int)
                                    =~= bytes@.skip(end as int));
                            }
                            pairs.push((name, v));
                            proof {
                                assert(pairs_of(pairs@) =~= pairs_of(before).push(
                                    (fs@[i as int].name@, v.model()),
                                ));
                                assert(pairs_of(before).push((fs@[i as int].name@, v.model()))
                                    + spec_rest_fields(fs@, bytes@.skip(end as int), i + 1)
                                    =~= pairs_of(before) + (seq![(fs@[i as int].name@, v.model())]
                                    + spec_rest_fields(fs@, bytes@.skip(end as int), i + 1)));
                            }
                            off = end;
                            i = i + 1;
                        },
                        Err(e) => {
                            return Err(e);
                        },
                    }
                }
                Ok((Value::Obj(pairs), off))
            },
            Option::None => vstd::pervasive::unreached(),
        },
    }
}

/// The pair list that [`spec_decode_fields`] reports on success; arbitrary
/// on failure.
pub open spec fn spec_rest_fields(fields: Seq<Layout>, b: Seq<u8>, i: int) -> Seq<
    (Seq<char>, ValueModel),
> {
    spec_decode_fields(fields, b, i)->Ok_0.0
}

/// The element list that [`spec_decode_elems`] reports on success;
/// arbitrary on failure.
pub open spec fn spec_rest_elems(child: Layout, b: Seq<u8>, count: nat) -> Seq<ValueModel> {
    spec_decode_elems(child, b, count)->Ok_0.0
}

/// Decodes one value of `layout` from the front of `bytes`: the inverse
/// recursive walk of [`encode`]. Bytes past the one decoded value are
/// ignored; [`spec_decode`] says exactly what is returned, and with which
/// error the walk stops.
pub fn decode(layout: &Layout, bytes: &[u8]) -> (r: Result<Value, CodecError>)
    requires
        layout.well_formed(),
    ensures
        match r {
            Ok(v) => spec_decode(*layout, bytes@) matches Ok(p) && p.0 == v.model(),
            Err(e) => spec_decode(*layout, bytes@) == Err::<(ValueModel, nat), CodecError>(e),
        },
{
    proof {
        assert(bytes@.skip(0) =~= bytes@);
    }
    match decode_at(layout, bytes, 0) {
        Ok(p) => Ok(p.0),
        Err(e) => Err(e),
    }
}

/// The integer a value carries, if it carries one: `UInt` and `Int` values
/// are both acceptable wherever an integer layout kind expects one, as long
/// as the integer fits the declared width.
pub open spec fn int_of(v: ValueModel) -> Option<int> {
    match v {
        ValueModel::UInt(n) => Some(n as int),
        ValueModel::Int(i) => Some(i as int),
        _ => None,
    }
}

/// The bytes that encoding value `v` against layout `l` produces, or the
/// error that stops the walk: `TypeMismatch` when the value's shape or range
/// disagrees with the layout kind, `MissingField` when a struct field's name
/// is not among the value's keys.
pub open spec fn spec_encode(l: Layout, v: ValueModel) -> Result<Seq<u8>, CodecError>
    decreases l, 0nat,
{
    match l.kind {
        LayoutKind::Bool => match v {
            ValueModel::Bool(x) => Ok(seq![if x { 1u8 } else { 0u8 }]),
            _ => Err(CodecError::TypeMismatch),
        },
        LayoutKind::U8 => match int_of(v) {
            Some(x) => if 0 <= x <= 0xff {
                Ok(seq![x as u8])
            } else {
                Err(CodecError::TypeMismatch)
            },
            None => Err(CodecError::TypeMismatch),
        },
        LayoutKind::U16 => match int_of(v) {
            Some(x) => if 0 <= x <= 0xffff {
                Ok(spec_u16_to_le_bytes(x as u16))
            } else {
                Err(CodecError::TypeMismatch)
            },
            None => Err(CodecError::TypeMismatch),
        },
        LayoutKind::U32 => match int_of(v) {
            Some(x) => if 0 <= x <= 0xffff_ffff {
                Ok(spec_u32_to_le_bytes(x as u32))
            } else {
                Err(CodecError::TypeMismatch)
            },
            None => Err(CodecError::TypeMismatch),
        },
        LayoutKind::U64 => match int_of(v) {
            Some(x) => if 0 <= x <= 0xffff_ffff_ffff_ffff {
                Ok(spec_u64_to_le_bytes(x as u64))
            } else {
                Err(CodecError::TypeMismatch)
            },
            None => Err(CodecError::TypeMismatch),
        },
        LayoutKind::I8 => match int_of(v) {
            Some(x) => if -0x80 <= x <= 0x7f {
                Ok(seq![u8_of_int(x)])
            } else {
                Err(CodecError::TypeMismatch)
            },
            None => Err(CodecError::TypeMismatch),
        },
        LayoutKind::I16 => match int_of(v) {
            Some(x) => if -0x8000 <= x <= 0x7fff {
                Ok(spec_u16_to_le_bytes(u16_of_int(x)))
            } else {
                Err(CodecError::TypeMismatch)
            },
            None => Err(CodecError::TypeMismatch),
        },
        LayoutKind::I32 => match int_of(v) {
            Some(x) => if -0x8000_0000 <= x <= 0x7fff_ffff {
                Ok(spec_u32_to_le_bytes(u32_of_int(x)))
            } else {
                Err(CodecError::TypeMismatch)
            },
            None => Err(CodecError::TypeMismatch),
        },
        LayoutKind::I64 => match int_of(v) {
            Some(x) => if -0x8000_0000_0000_0000 <= x <= 0x7fff_ffff_ffff_ffff {
                Ok(spec_u64_to_le_bytes(u64_of_int(x)))
            } else {
                Err(CodecError::TypeMismatch)
            },
            None => Err(CodecError::TypeMismatch),
        },
        LayoutKind::F32 => match v {
            ValueModel::F32Bits(bits) => Ok(spec_u32_to_le_bytes(bits)),
            _ => Err(CodecError::TypeMismatch),
        },
        LayoutKind::F64 => match v {
            ValueModel::F64Bits(bits) => Ok(spec_u64_to_le_bytes(bits)),
            _ => Err(CodecError::TypeMismatch),
        },
        LayoutKind::String => match v {
            ValueModel::Str(s) => {
                let payload = encode_utf8(s);
                if payload.len() < 0x1_0000_0000_0000_0000 {
                    Ok(spec_u64_to_le_bytes(payload.len() as u64) + payload)
                } else {
                    Err(CodecError::TypeMismatch)
                }
            },
            _ => Err(CodecError::TypeMismatch),
        },
        LayoutKind::Array => match l.fields {
            Some(fs) => if fs@.len() == 1 {
                match v {
                    ValueModel::Arr(items) => if items.len() < 0x1_0000_0000_0000_0000 {
                        match spec_encode_elems(fs@[0], items, 0) {
                            Ok(payload) => Ok(
                                spec_u64_to_le_bytes(items.len() as u64) + payload,
                            ),
                            Err(e) => Err(e),
                        }
                    } else {
                        Err(CodecError::TypeMismatch)
                    },
                    _ => Err(CodecError::TypeMismatch),
                }
            } else {
                Err(CodecError::TypeMismatch)
            },
            None => Err(CodecError::TypeMismatch),
        },
        LayoutKind::Struct => match l.fields {
            Some(fs) => match v {
                ValueModel::Obj(pairs) => spec_encode_fields(fs@, pairs, 0),
                _ => Err(CodecError::TypeMismatch),
            },
            None => Err(CodecError::TypeMismatch),
        },
    }
}

/// The concatenation of the encodings of `items[i..]` against layout
/// `child`, or the first error.
pub open spec fn spec_encode_elems(child: Layout, items: Seq<ValueModel>, i: int) -> Result<
    Seq<u8>,
    CodecError,
>
    decreases child, items.len() - i,
{
    if i < 0 || i >= items.len() {
        Ok(Seq::empty())
    } else {
        match spec_encode(child, items[i]) {
            Ok(bs) => match spec_encode_elems(child, items, i + 1) {
                Ok(rest) => Ok(bs + rest),
                Err(e) => Err(e),
            },
            Err(e) => Err(e),
        }
    }
}

/// The concatenation of the encodings of the values looked up under
/// `fields[i..]`'s names, in field order, or the first error. A name absent
/// from `pairs` is `MissingField`.
pub open spec fn spec_encode_fields(
    fields: Seq<Layout>,
    pairs: Seq<(Seq<char>, ValueModel)>,
    i: int,
) -> Result<Seq<u8>, CodecError>
    decreases fields, fields.len() - i,
{
    if i < 0 || i >= fields.len() {
        Ok(Seq::empty())
    } else {
        match lookup(pairs, fields[i].name@) {
            None => Err(CodecError::MissingField),
            Some(v) => match spec_encode(fields[i], v) {
                Ok(bs) => match spec_encode_fields(fields, pairs, i + 1) {
                    Ok(rest) => Ok(bs + rest),
                    Err(e) => Err(e),
                },
                Err(e) => Err(e),
            },
        }
    }
}

/// The canonical shape of a value of layout `l`: exactly the shapes the
/// decoder produces. Unsigned kinds carry `UInt` in range, signed kinds
/// carry `Int` in range, structs carry one pair per field, named in field
/// order. Encoding accepts slightly more (an in-range `Int` where `UInt` is
/// canonical and the other way around); decoding never produces those.
pub open spec fn shape_matches(l: Layout, v: ValueModel) -> bool
    decreases l, 0nat,
{
    match l.kind {
        LayoutKind::Bool => v is Bool,
        LayoutKind::U8 => v matches ValueModel::UInt(n) && n <= 0xff,
        LayoutKind::U16 => v matches ValueModel::UInt(n) && n <= 0xffff,
        LayoutKind::U32 => v matches ValueModel::UInt(n) && n <= 0xffff_ffff,
        LayoutKind::U64 => v is UInt,
        LayoutKind::I8 => v matches ValueModel::Int(x) && -0x80 <= x <= 0x7f,
        LayoutKind::I16 => v matches ValueModel::Int(x) && -0x8000 <= x <= 0x7fff,
        LayoutKind::I32 => v matches ValueModel::Int(x) && -0x8000_0000 <= x <= 0x7fff_ffff,
        LayoutKind::I64 => v is Int,
        LayoutKind::F32 => v is F32Bits,
        LayoutKind::F64 => v is F64Bits,
        LayoutKind::String => v matches ValueModel::Str(s) && encode_utf8(s).len()
            < 0x1_0000_0000_0000_0000,
        LayoutKind::Array => match l.fields {
            Some(fs) => fs@.len() == 1 && (v matches ValueModel::Arr(items) && items.len()
                < 0x1_0000_0000_0000_0000 && (forall|j: int|
                0 <= j < items.len() ==> shape_matches(fs@[0], #[trigger] items[j]))),
            None => false,
        },
        LayoutKind::Struct => match l.fields {
            Some(fs) => v matches ValueModel::Obj(pairs) && pairs.len() == fs@.len() && (
            forall|j: int|
                0 <= j < pairs.len() ==> (#[trigger] pairs[j]).0 == fs@[j].name@
                    && shape_matches(fs@[j], pairs[j].1)),
            None => false,
        },
    }
}

/// The integer a value carries, widened so that one type can hold both
/// unsigned and signed readings.
fn int_value(v: &Value) -> (r: Option<i128>)
    ensures
        match r {
            Some(x) => int_of(v.model()) == Some(x as int),
            None => int_of(v.model()) is None,
        },
{
    match v {
        Value::UInt(n) => Some(*n as i128),
        Value::Int(i) => Some(*i as i128),
        _ => None,
    }
}

/// Encodes value `v` against layout `l`, appending the bytes to `out`. On
/// failure, what was already in `out` is still a prefix of it; the caller
/// discards the buffer.
#[verifier::loop_isolation(false)]
fn encode_into(l: &Layout, v: &Value, out: &mut Vec<u8>) -> (r: Result<(), CodecError>)
    requires
        l.well_formed(),
    ensures
        match r {
            Ok(_) => spec_encode(*l, v.model()) matches Ok(bs) && final(out)@ == old(out)@ + bs,
            Err(e) => spec_encode(*l, v.model()) == Err::<Seq<u8>, CodecError>(e) && old(
                out,
            )@.is_prefix_of(final(out)@),
        },
    decreases *l,
{
    match l.kind {
        LayoutKind::Bool => match v {
            Value::Bool(x) => {
                let byte: u8 = if *x {
                    1
                } else {
                    0
                };
                out.push(byte);
                proof {
                    assert(out@ =~= old(out)@ + seq![byte]);
                }
                Ok(())
            },
            _ => Err(CodecError::TypeMismatch),
        },
        LayoutKind::U8 => match int_value(v) {
            Option::Some(x) => if 0 <= x && x <= 0xff {
                out.push(x as u8);
                proof {
                    assert(out@ =~= old(out)@ + seq![(x as int) as u8]);
                }
                Ok(())
            } else {
                Err(CodecError::TypeMismatch)
            },
            Option::None => Err(CodecError::TypeMismatch),
        },
        LayoutKind::U16 => match int_value(v) {
            Option::Some(x) => if 0 <= x && x <= 0xffff {
                let mut bs = u16_to_le_bytes(x as u16);
                out.append(&mut bs);
                Ok(())
            } else {
                Err(CodecError::TypeMismatch)
            },
            Option::None => Err(CodecError::TypeMismatch),
        },
        LayoutKind::U32 => match int_value(v) {
            Option::Some(x) => if 0 <= x && x <= 0xffff_ffff {
                let mut bs = u32_to_le_bytes(x as u32);
                out.append(&mut bs);
                Ok(())
            } else {
                Err(CodecError::TypeMismatch)
            },
            Option::None => Err(CodecError::TypeMismatch),
        },
        LayoutKind::U64 => match int_value(v) {
            Option::Some(x) => if 0 <= x && x <= 0xffff_ffff_ffff_ffff {
                let mut bs = u64_to_le_bytes(x as u64);
                out.append(&mut bs);
                Ok(())
            } else {
                Err(CodecError::TypeMismatch)
            },
            Option::None => Err(CodecError::TypeMismatch),
        },
        LayoutKind::I8 => match int_value(v) {
            Option::Some(x) => if -0x80 <= x && x <= 0x7f {
                let byte = write_u8(x as i64);
                out.push(byte);
                proof {
                    assert(out@ =~= old(out)@ + seq![u8_of_int(x as int)]);
                }
                Ok(())
            } else {
                Err(CodecError::TypeMismatch)
            },
            Option::None => Err(CodecError::TypeMismatch),
        },
        LayoutKind::I16 => match int_value(v) {
            Option::Some(x) => if -0x8000 <= x && x <= 0x7fff {
                let mut bs = u16_to_le_bytes(write_u16(x as i64));
                out.append(&mut bs);
                Ok(())
            } else {
                Err(CodecError::TypeMismatch)
            },
            Option::None => Err(CodecError::TypeMismatch),
        },
        LayoutKind::I32 => match int_value(v) {
            Option::Some(x) => if -0x8000_0000 <= x && x <= 0x7fff_ffff {
                let mut bs = u32_to_le_bytes(write_u32(x as i64));
                out.append(&mut bs);
                Ok(())
            } else {
                Err(CodecError::TypeMismatch)
            },
            Option::None => Err(CodecError::TypeMismatch),
        },
        LayoutKind::I64 => match int_value(v) {
            Option::Some(x) => if -0x8000_0000_0000_0000 <= x && x <= 0x7fff_ffff_ffff_ffff {
                let mut bs = u64_to_le_bytes(write_u64_signed(x as i64));
                out.append(&mut bs);
                Ok(())
            } else {
                Err(CodecError::TypeMismatch)
            },
            Option::None => Err(CodecError::TypeMismatch),
        },
        LayoutKind::F32 => match v {
            Value::F32Bits(bits) => {
                let mut bs = u32_to_le_bytes(*bits);
                out.append(&mut bs);
                Ok(())
            },
            _ => Err(CodecError::TypeMismatch),
        },
        LayoutKind::F64 => match v {
            Value::F64Bits(bits) => {
                let mut bs = u64_to_le_bytes(*bits);
                out.append(&mut bs);
                Ok(())
            },
            _ => Err(CodecError::TypeMismatch),
        },
        LayoutKind::String => match v {
            Value::Str(s) => {
                let mut bv = s.as_str().as_bytes_vec();
                let mut pre = u64_to_le_bytes(bv.len() as u64);
                let ghost payload = bv@;
                proof {
                    assert(spec_u64_to_le_bytes(payload.len() as u64).len() == 8);
                }
                out.append(&mut pre);
                out.append(&mut bv);
                proof {
                    assert(out@ =~= old(out)@ + (spec_u64_to_le_bytes(payload.len() as u64)
                        + payload));
                }
                Ok(())
            },
            _ => Err(CodecError::TypeMismatch),
        },
        LayoutKind::Array => match (&l.fields, v) {
            (Option::Some(fs), Value::Arr(items)) => {
                let count = items.len() as u64;
                let ghost ms = models_of(items@);
                let mut pre = u64_to_le_bytes(count);
                out.append(&mut pre);
                let ghost mut built: Seq<u8> = Seq::empty();
                proof {
                    assert(out@ =~= old(out)@ + spec_u64_to_le_bytes(count) + built);
                    assert(built + spec_encode_elems(fs@[0], ms, 0)->Ok_0 =~= spec_encode_elems(
                        fs@[0],
                        ms,
                        0,
                    )->Ok_0);
                }
                let mut i: usize = 0;
                while i < items.len()
                    invariant
                        i <= items@.len(),
                        ms == models_of(items@),
                        out@ == old(out)@ + spec_u64_to_le_bytes(count) + built,
                        match spec_encode_elems(fs@[0], ms, i as int) {
                            Ok(rest) => spec_encode_elems(fs@[0], ms, 0) == Ok::<
                                Seq<u8>,
                                CodecError,
                            >(built + rest),
                            Err(e) => spec_encode_elems(fs@[0], ms, 0) == Err::<
                                Seq<u8>,
                                CodecError,
                            >(e),
                        },
                    decreases items@.len() - i,
                {
                    proof {
                        assert(decreases_to!(*l => l.fields));
                        assert(decreases_to!(l.fields => l.fields->Some_0));
                        assert(decreases_to!(l.fields->Some_0 => l.fields->Some_0@));
                        assert(decreases_to!(l.fields->Some_0@ => l.fields->Some_0@[0]));
                        assert(l.fields->Some_0@[0] == fs@[0]);
                        assert(ms[i as int] == items@[i as int].model());
                    }
                    match encode_into(&fs[0], &items[i], out) {
                        Ok(_) => {
                            proof {
                                let bs = spec_encode(fs@[0], ms[i as int])->Ok_0;
                                assert(out@ =~= old(out)@ + spec_u64_to_le_bytes(count) + (built
                                    + bs));
                                assert((built + bs) + spec_encode_elems(fs@[0], ms, i + 1)->Ok_0
                                    =~= built + (bs + spec_encode_elems(fs@[0], ms, i + 1)->Ok_0));
                                built = built + bs;
                            }
                            i = i + 1;
                        },
                        Err(e) => {
                            proof {
                                assert(old(out)@.is_prefix_of(out@));
                            }
                            return Err(e);
                        },
                    }
                }
                proof {
                    assert(built + Seq::<u8>::empty() =~= built);
                    assert(out@ =~= old(out)@ + (spec_u64_to_le_bytes(count) + built));
                }
                Ok(())
            },
            (Option::Some(_), _) => Err(CodecError::TypeMismatch),
            (Option::None, _) => vstd::pervasive::unreached(),
        },
        LayoutKind::Struct => match (&l.fields, v) {
            (Option::Some(fs), Value::Obj(pairs)) => {
                let ghost pm = pairs_of(pairs@);
                let ghost mut built: Seq<u8> = Seq::empty();
                proof {
                    assert(out@ =~= old(out)@ + built);
                    assert(built + spec_encode_fields(fs@, pm, 0)->Ok_0 =~= spec_encode_fields(
                        fs@,
                        pm,
                        0,
                    )->Ok_0);
                }
                let mut i: usize = 0;
                while i < fs.len()
                    invariant
                        i <= fs@.len(),
                        pm == pairs_of(pairs@),
                        out@ == old(out)@ + built,
                        match spec_encode_fields(fs@, pm, i as int) {
                            Ok(rest) => spec_encode_fields(fs@, pm, 0) == Ok::<
                                Seq<u8>,
                                CodecError,
                            >(built + rest),
                            Err(e) => spec_encode_fields(fs@, pm, 0) == Err::<
                                Seq<u8>,
                                CodecError,
                            >(e),
                        },
                    decreases fs@.len() - i,
                {
                    proof {
                        assert(decreases_to!(*l => l.fields));
                        assert(decreases_to!(l.fields => l.fields->Some_0));
                        assert(decreases_to!(l.fields->Some_0 => l.fields->Some_0@));
                        assert(decreases_to!(l.fields->Some_0@ => l.fields->Some_0@[i as int]));
                        assert(l.fields->Some_0@[i as int] == fs@[i as int]);
                    }
                    match obj_get(pairs, &fs[i].name) {
                        Option::None => {
                            proof {
                                assert(old(out)@.is_prefix_of(out@));
                            }
                            return Err(CodecError::MissingField);
                        },
                        Option::Some(fv) => {
                            let ghost fvm = fv.model();
                            match encode_into(&fs[i], fv, out) {
                                Ok(_) => {
                                    proof {
                                        let bs = spec_encode(fs@[i as int], fvm)->Ok_0;
                                        assert(out@ =~= old(out)@ + (built + bs));
                                        assert((built + bs) + spec_encode_fields(
                                            fs@,
                                            pm,
                                            i + 1,
                                        )->Ok_0 =~= built + (bs + spec_encode_fields(
                                            fs@,
                                            pm,
                                            i + 1,
                                        )->Ok_0));
                                        built = built + bs;
                                    }
                                    i = i + 1;
                                },
                                Err(e) => {
                                    proof {
                                        assert(old(out)@.is_prefix_of(out@));
                                    }
                                    return Err(e);
                                },
                            }
                        },
                    }
                }
                proof {
                    assert(built + Seq::<u8>::empty() =~= built);
                }
                Ok(())
            },
            (Option::Some(_), _) => Err(CodecError::TypeMismatch),
            (Option::None, _) => vstd::pervasive::unreached(),
        },
    }
}

/// Encodes `value` against `layout` into a fresh byte buffer: the inverse
/// recursive walk of [`decode`]. Struct fields are emitted in the layout's
/// declared order, whatever the order of the value's pairs;
/// [`spec_encode`] says exactly which bytes are produced, and with which
/// error the walk stops.
pub fn encode(layout: &Layout, value: &Value) -> (r: Result<Vec<u8>, CodecError>)
    requires
        layout.well_formed(),
    ensures
        match r {
            Ok(bs) => spec_encode(*layout, value.model()) == Ok::<Seq<u8>, CodecError>(bs@),
            Err(e) => spec_encode(*layout, value.model()) == Err::<Seq<u8>, CodecError>(e),
        },
{
    let mut out: Vec<u8> = Vec::new();
    match encode_into(layout, value, &mut out) {
        Ok(_) => {
            proof {
                assert(Seq::<u8>::empty() + spec_encode(*layout, value.model())->Ok_0
                    =~= spec_encode(*layout, value.model())->Ok_0);
            }
            Ok(out)
        },
        Err(e) => Err(e),
    }
}

impl Layout {
    /// The number of leading bytes of `bytes` that one encoded value of this
    /// layout occupies. The buffer must be known to contain at least one
    /// full value of the layout; [`spec_size`] says exactly when it does.
    pub fn size_in_bytes(&self, bytes: &[u8]) -> (r: usize)
        requires
            spec_size(*self, bytes@) is Some,
        ensures
            Some(r as nat) == spec_size(*self, bytes@),
    {
        proof {
            assert(bytes@.skip(0) =~= bytes@);
        }
        match size_at(self, bytes, 0) {
            Ok(n) => n,
            Err(_) => vstd::pervasive::unreached(),
        }
    }
}

} // verus!
