use vstd::prelude::*;
use vstd::bytes::{
    lemma_auto_spec_u16_to_from_le_bytes, lemma_auto_spec_u32_to_from_le_bytes,
    lemma_auto_spec_u64_to_from_le_bytes,
};
use vstd::utf8::{
    decode_utf8_encode_utf8, encode_utf8, encode_utf8_decode_utf8, encode_utf8_valid_utf8,
};
use crate::codec::{
    shape_matches, spec_decode, spec_decode_elems, spec_decode_fields, spec_encode,
    spec_encode_elems, spec_encode_fields,
};
use crate::convert::lemma_signed_round_trip;
use crate::errors::CodecError;
use crate::layout::{Layout, LayoutKind};
use crate::value::{lemma_lookup_from, lookup, ValueModel};

verus! {

broadcast use vstd::seq::group_seq_axioms;

/// A successful decode never consumes more bytes than the buffer holds.
pub proof fn lemma_decode_within(l: Layout, b: Seq<u8>)
    ensures
        spec_decode(l, b) matches Ok(p) ==> p.1 <= b.len(),
    decreases l, 0nat,
{
    match l.kind {
        LayoutKind::Array => match l.fields {
            Some(fs) => if fs@.len() == 1 && b.len() >= 8 {
                let count = vstd::bytes::spec_u64_from_le_bytes(b.subrange(0, 8)) as nat;
                lemma_decode_elems_within(fs@[0], b.skip(8), count);
            },
            None => {},
        },
        LayoutKind::Struct => match l.fields {
            Some(fs) => lemma_decode_fields_within(fs@, b, 0),
            None => {},
        },
        _ => {},
    }
}

/// A successful element walk never consumes more bytes than the buffer
/// holds.
pub proof fn lemma_decode_elems_within(child: Layout, b: Seq<u8>, count: nat)
    ensures
        spec_decode_elems(child, b, count) matches Ok(p) ==> p.1 <= b.len(),
    decreases child, count,
{
    if count > 0 {
        lemma_decode_within(child, b);
        match spec_decode(child, b) {
            Ok(p) => {
                lemma_decode_elems_within(child, b.skip(p.1 as int), (count - 1) as nat);
            },
            Err(_) => {},
        }
    }
}

/// A successful field walk never consumes more bytes than the buffer holds.
pub proof fn lemma_decode_fields_within(fields: Seq<Layout>, b: Seq<u8>, i: int)
    ensures
        spec_decode_fields(fields, b, i) matches Ok(p) ==> p.1 <= b.len(),
    decreases fields, fields.len() - i,
{
    if 0 <= i < fields.len() {
        lemma_decode_within(fields[i], b);
        match spec_decode(fields[i], b) {
            Ok(p) => {
                lemma_decode_fields_within(fields, b.skip(p.1 as int), i + 1);
            },
            Err(_) => {},
        }
    }
}

/// A decoded element walk yields exactly `count` values.
pub proof fn lemma_decode_elems_shape(child: Layout, b: Seq<u8>, count: nat)
    ensures
        spec_decode_elems(child, b, count) matches Ok(p) ==> p.0.len() == count,
    decreases child, count,
{
    if count > 0 {
        match spec_decode(child, b) {
            Ok(p) => {
                lemma_decode_elems_shape(child, b.skip(p.1 as int), (count - 1) as nat);
            },
            Err(_) => {},
        }
    }
}

/// A decoded field walk yields one pair per remaining field, named in field
/// order.
pub proof fn lemma_decode_fields_shape(fields: Seq<Layout>, b: Seq<u8>, i: int)
    requires
        0 <= i <= fields.len(),
    ensures
        spec_decode_fields(fields, b, i) matches Ok(p) ==> {
            &&& p.0.len() == fields.len() - i
            &&& forall|j: int| 0 <= j < p.0.len() ==> (#[trigger] p.0[j]).0 == fields[i + j].name@
        },
    decreases fields.len() - i,
{
    if i < fields.len() {
        match spec_decode(fields[i], b) {
            Ok(p) => {
                lemma_decode_fields_shape(fields, b.skip(p.1 as int), i + 1);
            },
            Err(_) => {},
        }
    }
}

/// Shifting one value onto the front of an element list shifts the encoding
/// walk by one index and changes nothing else.
proof fn lemma_encode_elems_shift(child: Layout, v: ValueModel, rest: Seq<ValueModel>, i: int)
    requires
        0 <= i <= rest.len(),
    ensures
        spec_encode_elems(child, seq![v] + rest, i + 1) == spec_encode_elems(child, rest, i),
    decreases rest.len() - i,
{
    assert((seq![v] + rest).len() == 1 + rest.len());
    if i < rest.len() {
        assert((seq![v] + rest)[i + 1] == rest[i]);
        lemma_encode_elems_shift(child, v, rest, i + 1);
    }
}

/// Round trip on bytes: re-encoding a decoded value yields exactly the bytes
/// the decoder consumed. In particular, when the buffer is exactly one
/// encoded value, `encode(l, decode(l, b)) == b`.
pub proof fn lemma_round_trip_bytes(l: Layout, b: Seq<u8>)
    requires
        l.well_formed(),
        spec_decode(l, b) matches Ok(p),
    ensures
        spec_encode(l, spec_decode(l, b)->Ok_0.0) == Ok::<Seq<u8>, CodecError>(
            b.take(spec_decode(l, b)->Ok_0.1 as int),
        ),
    decreases l, 0nat,
{
    lemma_auto_spec_u16_to_from_le_bytes();
    lemma_auto_spec_u32_to_from_le_bytes();
    lemma_auto_spec_u64_to_from_le_bytes();
    lemma_signed_round_trip();
    let n = spec_decode(l, b)->Ok_0.1 as int;
    match l.kind {
        LayoutKind::Bool => {
            assert(b.take(1) =~= seq![b[0]]);
        },
        LayoutKind::U8 | LayoutKind::I8 => {
            assert(b.take(1) =~= seq![b[0]]);
        },
        LayoutKind::U16 | LayoutKind::I16 => {
            assert(b.take(2) =~= b.subrange(0, 2));
        },
        LayoutKind::U32 | LayoutKind::I32 | LayoutKind::F32 => {
            assert(b.take(4) =~= b.subrange(0, 4));
        },
        LayoutKind::U64 | LayoutKind::I64 | LayoutKind::F64 => {
            assert(b.take(8) =~= b.subrange(0, 8));
        },
        LayoutKind::String => {
            let len = vstd::bytes::spec_u64_from_le_bytes(b.subrange(0, 8)) as nat;
            let payload = b.subrange(8, 8 + len as int);
            decode_utf8_encode_utf8(payload);
            assert(payload.len() == len);
            assert(b.take(n) =~= b.subrange(0, 8) + payload);
        },
        LayoutKind::Array => {
            let fs = l.fields->Some_0;
            let count = vstd::bytes::spec_u64_from_le_bytes(b.subrange(0, 8)) as nat;
            let tail = b.skip(8);
            lemma_rt_elems(fs@[0], tail, count);
            lemma_decode_elems_shape(fs@[0], tail, count);
            lemma_decode_elems_within(fs@[0], tail, count);
            let p = spec_decode_elems(fs@[0], tail, count)->Ok_0;
            assert(p.0.len() as u64 == count);
            assert(b.take(n) =~= b.subrange(0, 8) + tail.take(p.1 as int));
        },
        LayoutKind::Struct => {
            let fs = l.fields->Some_0;
            let p = spec_decode_fields(fs@, b, 0)->Ok_0;
            lemma_decode_fields_shape(fs@, b, 0);
            assert forall|k: int| 0 <= k < fs@.len() implies lookup(p.0, fs@[k].name@) == Some(
                p.0[k].1,
            ) by {
                assert forall|j: int| 0 <= j < k implies (#[trigger] p.0[j]).0 != fs@[k].name@ by {
                    assert(p.0[j].0 == fs@[j].name@);
                }
                lemma_lookup_from(p.0, fs@[k].name@, k);
            }
            lemma_rt_fields(fs@, p.0, b, 0);
        },
    }
}

/// Round trip on bytes, stated for a buffer that is exactly one encoded
/// value: when decoding consumes the whole buffer, re-encoding the decoded
/// value reproduces the buffer bit for bit.
pub proof fn lemma_round_trip_bytes_exact(l: Layout, b: Seq<u8>)
    requires
        l.well_formed(),
        spec_decode(l, b) matches Ok(p),
        spec_decode(l, b)->Ok_0.1 == b.len(),
    ensures
        spec_encode(l, spec_decode(l, b)->Ok_0.0) == Ok::<Seq<u8>, CodecError>(b),
{
    lemma_round_trip_bytes(l, b);
    assert(b.take(b.len() as int) =~= b);
}

/// Round trip on bytes for a run of array elements.
proof fn lemma_rt_elems(child: Layout, b: Seq<u8>, count: nat)
    requires
        child.well_formed(),
        spec_decode_elems(child, b, count) matches Ok(p),
    ensures
        spec_encode_elems(child, spec_decode_elems(child, b, count)->Ok_0.0, 0) == Ok::<
            Seq<u8>,
            CodecError,
        >(b.take(spec_decode_elems(child, b, count)->Ok_0.1 as int)),
    decreases child, count,
{
    let whole = spec_decode_elems(child, b, count)->Ok_0;
    if count == 0 {
        assert(b.take(0) =~= Seq::<u8>::empty());
        assert(whole.0.len() == 0);
        assert(whole.0 =~= Seq::<ValueModel>::empty());
    } else {
        let first = spec_decode(child, b)->Ok_0;
        let v = first.0;
        let n = first.1;
        let rest = spec_decode_elems(child, b.skip(n as int), (count - 1) as nat)->Ok_0;
        lemma_round_trip_bytes(child, b);
        lemma_rt_elems(child, b.skip(n as int), (count - 1) as nat);
        lemma_encode_elems_shift(child, v, rest.0, 0);
        lemma_decode_within(child, b);
        lemma_decode_elems_within(child, b.skip(n as int), (count - 1) as nat);
        assert((seq![v] + rest.0)[0] == v);
        assert(b.take(n as int) + b.skip(n as int).take(rest.1 as int) =~= b.take(
            n + rest.1 as int,
        ));
    }
}

/// Round trip on bytes for a run of struct fields: when every remaining
/// field's name looks up to the value the decoder produced for it,
/// re-encoding emits exactly the consumed bytes.
proof fn lemma_rt_fields(
    fields: Seq<Layout>,
    pairs: Seq<(Seq<char>, ValueModel)>,
    b: Seq<u8>,
    i: int,
)
    requires
        0 <= i <= fields.len(),
        forall|k: int| 0 <= k < fields.len() ==> (#[trigger] fields[k]).well_formed(),
        spec_decode_fields(fields, b, i) matches Ok(p),
        forall|k: int|
            i <= k < fields.len() ==> lookup(pairs, (#[trigger] fields[k]).name@) == Some(
                spec_decode_fields(fields, b, i)->Ok_0.0[k - i].1,
            ),
    ensures
        spec_encode_fields(fields, pairs, i) == Ok::<Seq<u8>, CodecError>(
            b.take(spec_decode_fields(fields, b, i)->Ok_0.1 as int),
        ),
    decreases fields, fields.len() - i,
{
    let whole = spec_decode_fields(fields, b, i)->Ok_0;
    if i >= fields.len() {
        assert(b.take(0) =~= Seq::<u8>::empty());
    } else {
        let first = spec_decode(fields[i], b)->Ok_0;
        let v = first.0;
        let n = first.1;
        let rest = spec_decode_fields(fields, b.skip(n as int), i + 1)->Ok_0;
        lemma_decode_fields_shape(fields, b, i);
        lemma_decode_fields_shape(fields, b.skip(n as int), i + 1);
        assert(whole.0 == seq![(fields[i].name@, v)] + rest.0);
        assert(whole.0[0] == (fields[i].name@, v));
        assert(lookup(pairs, fields[i].name@) == Some(v));
        lemma_round_trip_bytes(fields[i], b);
        assert forall|k: int|
            i + 1 <= k < fields.len() implies lookup(pairs, (#[trigger] fields[k]).name@) == Some(
            spec_decode_fields(fields, b.skip(n as int), i + 1)->Ok_0.0[k - (i + 1)].1,
        ) by {
            assert(whole.0[k - i] == (seq![(fields[i].name@, v)] + rest.0)[k - i]);
            assert(whole.0[k - i] == rest.0[k - i - 1]);
        }
        lemma_rt_fields(fields, pairs, b.skip(n as int), i + 1);
        lemma_decode_within(fields[i], b);
        lemma_decode_fields_within(fields, b.skip(n as int), i + 1);
        assert(b.take(n as int) + b.skip(n as int).take(rest.1 as int) =~= b.take(
            n + rest.1 as int,
        ));
    }
}

/// Two buffers that agree on their first `n` bytes agree at every index
/// below `n`.
proof fn lemma_take_agree(a: Seq<u8>, a2: Seq<u8>, n: int)
    requires
        0 <= n <= a.len(),
        n <= a2.len(),
        a2.take(n) == a.take(n),
    ensures
        forall|j: int| 0 <= j < n ==> a2[j] == a[j],
{
    assert forall|j: int| 0 <= j < n implies a2[j] == a[j] by {
        assert(a2.take(n)[j] == a.take(n)[j]);
        assert(a2.subrange(0, n)[j] == a2[j]);
        assert(a.subrange(0, n)[j] == a[j]);
    }
}

/// Decoding is local: it reads only the bytes it consumes, so any buffer
/// that starts with the same consumed bytes decodes to the same result.
pub proof fn lemma_decode_prefix(l: Layout, b: Seq<u8>, b2: Seq<u8>)
    requires
        spec_decode(l, b) matches Ok(p),
        spec_decode(l, b)->Ok_0.1 <= b2.len(),
        b2.take(spec_decode(l, b)->Ok_0.1 as int) == b.take(spec_decode(l, b)->Ok_0.1 as int),
    ensures
        spec_decode(l, b2) == spec_decode(l, b),
    decreases l, 0nat,
{
    let n = spec_decode(l, b)->Ok_0.1 as int;
    lemma_decode_within(l, b);
    lemma_take_agree(b, b2, n);
    match l.kind {
        LayoutKind::Bool | LayoutKind::U8 | LayoutKind::I8 => {},
        LayoutKind::U16 | LayoutKind::I16 => {
            assert(b2.subrange(0, 2) =~= b.subrange(0, 2));
        },
        LayoutKind::U32 | LayoutKind::I32 | LayoutKind::F32 => {
            assert(b2.subrange(0, 4) =~= b.subrange(0, 4));
        },
        LayoutKind::U64 | LayoutKind::I64 | LayoutKind::F64 => {
            assert(b2.subrange(0, 8) =~= b.subrange(0, 8));
        },
        LayoutKind::String => {
            assert(b2.subrange(0, 8) =~= b.subrange(0, 8));
            let len = vstd::bytes::spec_u64_from_le_bytes(b.subrange(0, 8)) as nat;
            assert(b2.subrange(8, 8 + len as int) =~= b.subrange(8, 8 + len as int));
        },
        LayoutKind::Array => {
            assert(b2.subrange(0, 8) =~= b.subrange(0, 8));
            match l.fields {
                Some(fs) => if fs@.len() == 1 {
                    let count = vstd::bytes::spec_u64_from_le_bytes(b.subrange(0, 8)) as nat;
                    let tail = b.skip(8);
                    let tail2 = b2.skip(8);
                    let m = spec_decode_elems(fs@[0], tail, count)->Ok_0.1 as int;
                    lemma_decode_elems_within(fs@[0], tail, count);
                    assert(tail2.take(m) =~= tail.take(m)) by {
                        assert forall|j: int| 0 <= j < m implies tail2[j] == tail[j] by {
                            assert(b2[8 + j] == b[8 + j]);
                        }
                    }
                    lemma_decode_elems_prefix(fs@[0], tail, tail2, count);
                },
                None => {},
            }
        },
        LayoutKind::Struct => {
            match l.fields {
                Some(fs) => {
                    let m = spec_decode_fields(fs@, b, 0)->Ok_0.1 as int;
                    lemma_decode_fields_within(fs@, b, 0);
                    lemma_decode_fields_prefix(fs@, b, b2, 0);
                },
                None => {},
            }
        },
    }
}

/// Locality of the element walk.
proof fn lemma_decode_elems_prefix(child: Layout, b: Seq<u8>, b2: Seq<u8>, count: nat)
    requires
        spec_decode_elems(child, b, count) matches Ok(p),
        spec_decode_elems(child, b, count)->Ok_0.1 <= b2.len(),
        b2.take(spec_decode_elems(child, b, count)->Ok_0.1 as int) == b.take(
            spec_decode_elems(child, b, count)->Ok_0.1 as int,
        ),
    ensures
        spec_decode_elems(child, b2, count) == spec_decode_elems(child, b, count),
    decreases child, count,
{
    if count > 0 {
        let m = spec_decode_elems(child, b, count)->Ok_0.1 as int;
        let n = spec_decode(child, b)->Ok_0.1 as int;
        lemma_decode_within(child, b);
        lemma_decode_elems_within(child, b.skip(n), (count - 1) as nat);
        lemma_take_agree(b, b2, m);
        assert(b2.take(n) =~= b.take(n));
        lemma_decode_prefix(child, b, b2);
        let rest = m - n;
        assert(b2.skip(n).take(rest) =~= b.skip(n).take(rest)) by {
            assert forall|j: int| 0 <= j < rest implies b2.skip(n)[j] == b.skip(n)[j] by {
                assert(b2[n + j] == b[n + j]);
            }
        }
        lemma_decode_elems_prefix(child, b.skip(n), b2.skip(n), (count - 1) as nat);
    }
}

/// Locality of the field walk.
proof fn lemma_decode_fields_prefix(fields: Seq<Layout>, b: Seq<u8>, b2: Seq<u8>, i: int)
    requires
        spec_decode_fields(fields, b, i) matches Ok(p),
        spec_decode_fields(fields, b, i)->Ok_0.1 <= b2.len(),
        b2.take(spec_decode_fields(fields, b, i)->Ok_0.1 as int) == b.take(
            spec_decode_fields(fields, b, i)->Ok_0.1 as int,
        ),
    ensures
        spec_decode_fields(fields, b2, i) == spec_decode_fields(fields, b, i),
    decreases fields, fields.len() - i,
{
    if 0 <= i < fields.len() {
        let m = spec_decode_fields(fields, b, i)->Ok_0.1 as int;
        let n = spec_decode(fields[i], b)->Ok_0.1 as int;
        lemma_decode_within(fields[i], b);
        lemma_decode_fields_within(fields, b.skip(n), i + 1);
        lemma_take_agree(b, b2, m);
        assert(b2.take(n) =~= b.take(n));
        lemma_decode_prefix(fields[i], b, b2);
        let rest = m - n;
        assert(b2.skip(n).take(rest) =~= b.skip(n).take(rest)) by {
            assert forall|j: int| 0 <= j < rest implies b2.skip(n)[j] == b.skip(n)[j] by {
                assert(b2[n + j] == b[n + j]);
            }
        }
        lemma_decode_fields_prefix(fields, b.skip(n), b2.skip(n), i + 1);
    }
}

/// Round trip on values: a value of the canonical shape for a layout
/// encodes successfully, and decoding the produced bytes yields the value
/// back, structurally equal, consuming the whole buffer.
pub proof fn lemma_round_trip_value(l: Layout, v: ValueModel)
    requires
        l.well_formed(),
        shape_matches(l, v),
    ensures
        spec_encode(l, v) matches Ok(bs),
        spec_decode(l, spec_encode(l, v)->Ok_0) == Ok::<(ValueModel, nat), CodecError>(
            (v, spec_encode(l, v)->Ok_0.len()),
        ),
    decreases l, 0nat,
{
    lemma_auto_spec_u16_to_from_le_bytes();
    lemma_auto_spec_u32_to_from_le_bytes();
    lemma_auto_spec_u64_to_from_le_bytes();
    lemma_signed_round_trip();
    match l.kind {
        LayoutKind::Bool | LayoutKind::U8 | LayoutKind::I8 => {
            let bs = spec_encode(l, v)->Ok_0;
            assert(bs.len() == 1);
            assert(bs.subrange(0, 1) =~= bs);
        },
        LayoutKind::U16 | LayoutKind::I16 => {
            let bs = spec_encode(l, v)->Ok_0;
            assert(bs.subrange(0, 2) =~= bs);
        },
        LayoutKind::U32 | LayoutKind::I32 | LayoutKind::F32 => {
            let bs = spec_encode(l, v)->Ok_0;
            assert(bs.subrange(0, 4) =~= bs);
        },
        LayoutKind::U64 | LayoutKind::I64 | LayoutKind::F64 => {
            let bs = spec_encode(l, v)->Ok_0;
            assert(bs.subrange(0, 8) =~= bs);
        },
        LayoutKind::String => {
            let s = v->Str_0;
            let payload = encode_utf8(s);
            encode_utf8_valid_utf8(s);
            encode_utf8_decode_utf8(s);
            let pre = vstd::bytes::spec_u64_to_le_bytes(payload.len() as u64);
            let bs = spec_encode(l, v)->Ok_0;
            assert(bs =~= pre + payload);
            assert(bs.subrange(0, 8) =~= pre);
            assert(bs.subrange(8, 8 + payload.len() as int) =~= payload);
        },
        LayoutKind::Array => {
            let fs = l.fields->Some_0;
            let items = v->Arr_0;
            lemma_rtv_elems(fs@[0], items, 0);
            assert(items.skip(0) =~= items);
            let payload = spec_encode_elems(fs@[0], items, 0)->Ok_0;
            let pre = vstd::bytes::spec_u64_to_le_bytes(items.len() as u64);
            let bs = spec_encode(l, v)->Ok_0;
            assert(bs =~= pre + payload);
            assert(bs.subrange(0, 8) =~= pre);
            assert(bs.skip(8) =~= payload);
        },
        LayoutKind::Struct => {
            let fs = l.fields->Some_0;
            let pairs = v->Obj_0;
            lemma_rtv_fields(fs@, pairs, 0);
            assert(pairs.skip(0) =~= pairs);
        },
    }
}

/// Round trip on values for a run of array elements.
proof fn lemma_rtv_elems(child: Layout, items: Seq<ValueModel>, i: int)
    requires
        child.well_formed(),
        0 <= i <= items.len(),
        forall|j: int| i <= j < items.len() ==> shape_matches(child, #[trigger] items[j]),
    ensures
        spec_encode_elems(child, items, i) matches Ok(bs),
        spec_decode_elems(child, spec_encode_elems(child, items, i)->Ok_0, (items.len() - i) as nat)
            == Ok::<(Seq<ValueModel>, nat), CodecError>(
            (items.skip(i), spec_encode_elems(child, items, i)->Ok_0.len()),
        ),
    decreases child, items.len() - i,
{
    if i >= items.len() {
        assert(items.skip(i) =~= Seq::<ValueModel>::empty());
    } else {
        lemma_round_trip_value(child, items[i]);
        lemma_rtv_elems(child, items, i + 1);
        let first = spec_encode(child, items[i])->Ok_0;
        let rest = spec_encode_elems(child, items, i + 1)->Ok_0;
        let bs = first + rest;
        assert(bs.take(first.len() as int) =~= first);
        assert(first.take(first.len() as int) =~= first);
        lemma_decode_prefix(child, first, bs);
        assert(bs.skip(first.len() as int) =~= rest);
        assert(seq![items[i]] + items.skip(i + 1) =~= items.skip(i));
    }
}

/// Round trip on values for a run of struct fields with pairwise-distinct
/// names: encoding a canonical pair list and decoding the bytes back yields
/// the same pairs.
proof fn lemma_rtv_fields(fields: Seq<Layout>, pairs: Seq<(Seq<char>, ValueModel)>, i: int)
    requires
        0 <= i <= fields.len(),
        pairs.len() == fields.len(),
        forall|k: int| 0 <= k < fields.len() ==> (#[trigger] fields[k]).well_formed(),
        forall|k: int, j: int|
            0 <= k < j < fields.len() ==> (#[trigger] fields[k]).name@ != (
            #[trigger] fields[j]).name@,
        forall|j: int|
            0 <= j < pairs.len() ==> (#[trigger] pairs[j]).0 == fields[j].name@ && shape_matches(
                fields[j],
                pairs[j].1,
            ),
    ensures
        spec_encode_fields(fields, pairs, i) matches Ok(bs),
        spec_decode_fields(fields, spec_encode_fields(fields, pairs, i)->Ok_0, i) == Ok::<
            (Seq<(Seq<char>, ValueModel)>, nat),
            CodecError,
        >((pairs.skip(i), spec_encode_fields(fields, pairs, i)->Ok_0.len())),
    decreases fields, fields.len() - i,
{
    if i >= fields.len() {
        assert(pairs.skip(i) =~= Seq::<(Seq<char>, ValueModel)>::empty());
    } else {
        assert forall|j: int| 0 <= j < i implies (#[trigger] pairs[j]).0 != fields[i].name@ by {
            assert(pairs[j].0 == fields[j].name@);
        }
        lemma_lookup_from(pairs, fields[i].name@, i);
        assert(lookup(pairs, fields[i].name@) == Some(pairs[i].1));
        lemma_round_trip_value(fields[i], pairs[i].1);
        lemma_rtv_fields(fields, pairs, i + 1);
        let first = spec_encode(fields[i], pairs[i].1)->Ok_0;
        let rest = spec_encode_fields(fields, pairs, i + 1)->Ok_0;
        let bs = first + rest;
        assert(bs.take(first.len() as int) =~= first);
        assert(first.take(first.len() as int) =~= first);
        lemma_decode_prefix(fields[i], first, bs);
        assert(bs.skip(first.len() as int) =~= rest);
        assert((fields[i].name@, pairs[i].1) == pairs[i]);
        assert(seq![pairs[i]] + pairs.skip(i + 1) =~= pairs.skip(i));
    }
}

/// The bytes a successful decode consumes are exactly what
/// [`crate::codec::spec_size`] reports for the same buffer.
pub proof fn lemma_decode_size(l: Layout, b: Seq<u8>)
    ensures
        spec_decode(l, b) matches Ok(p) ==> crate::codec::spec_size(l, b) == Some(p.1),
    decreases l, 0nat,
{
    match l.kind {
        LayoutKind::Array => match l.fields {
            Some(fs) => if fs@.len() == 1 && b.len() >= 8 {
                let count = vstd::bytes::spec_u64_from_le_bytes(b.subrange(0, 8)) as nat;
                lemma_decode_size_elems(fs@[0], b.skip(8), count);
            },
            None => {},
        },
        LayoutKind::Struct => match l.fields {
            Some(fs) => lemma_decode_size_fields(fs@, b, 0),
            None => {},
        },
        _ => {},
    }
}

/// Size/decode agreement for a run of array elements.
proof fn lemma_decode_size_elems(child: Layout, b: Seq<u8>, count: nat)
    ensures
        spec_decode_elems(child, b, count) matches Ok(p) ==> crate::codec::spec_size_elems(
            child,
            b,
            count,
        ) == Some(p.1),
    decreases child, count,
{
    if count > 0 {
        lemma_decode_size(child, b);
        match spec_decode(child, b) {
            Ok(p) => {
                lemma_decode_size_elems(child, b.skip(p.1 as int), (count - 1) as nat);
            },
            Err(_) => {},
        }
    }
}

/// Size/decode agreement for a run of struct fields.
proof fn lemma_decode_size_fields(fields: Seq<Layout>, b: Seq<u8>, i: int)
    ensures
        spec_decode_fields(fields, b, i) matches Ok(p) ==> crate::codec::spec_size_fields(
            fields,
            b,
            i,
        ) == Some(p.1),
    decreases fields, fields.len() - i,
{
    if 0 <= i < fields.len() {
        lemma_decode_size(fields[i], b);
        match spec_decode(fields[i], b) {
            Ok(p) => {
                lemma_decode_size_fields(fields, b.skip(p.1 as int), i + 1);
            },
            Err(_) => {},
        }
    }
}

/// Pairwise-distinct names in a pair list.
pub open spec fn distinct_keys(pairs: Seq<(Seq<char>, ValueModel)>) -> bool {
    forall|i: int, j: int|
        0 <= i < j < pairs.len() ==> (#[trigger] pairs[i]).0 != (#[trigger] pairs[j]).0
}

/// Two value trees that differ at most in the order of their mappings'
/// pairs: arrays match pointwise, and mappings with unambiguous keys bind
/// the same keys to equivalent values.
pub open spec fn values_equiv(a: ValueModel, b: ValueModel) -> bool
    decreases a,
{
    match (a, b) {
        (ValueModel::Arr(x), ValueModel::Arr(y)) => {
            &&& x.len() == y.len()
            &&& forall|i: int| 0 <= i < x.len() ==> values_equiv(#[trigger] x[i], y[i])
        },
        (ValueModel::Obj(p), ValueModel::Obj(q)) => {
            &&& distinct_keys(p)
            &&& distinct_keys(q)
            &&& forall|i: int|
                0 <= i < p.len() ==> exists|j: int|
                    0 <= j < q.len() && (#[trigger] p[i]).0 == q[j].0 && values_equiv(
                        p[i].1,
                        #[trigger] q[j].1,
                    )
            &&& forall|j: int|
                0 <= j < q.len() ==> exists|i: int|
                    0 <= i < p.len() && (#[trigger] q[j]).0 == (#[trigger] p[i]).0
        },
        _ => a == b,
    }
}

/// In a pair list with distinct keys, looking a pair's own key up finds that
/// pair.
proof fn lemma_lookup_index(pairs: Seq<(Seq<char>, ValueModel)>, i: int)
    requires
        distinct_keys(pairs),
        0 <= i < pairs.len(),
    ensures
        lookup(pairs, pairs[i].0) == Some(pairs[i].1),
{
    lemma_lookup_from(pairs, pairs[i].0, i);
}

/// A key no pair carries looks up to nothing.
proof fn lemma_lookup_absent(pairs: Seq<(Seq<char>, ValueModel)>, key: Seq<char>)
    requires
        forall|i: int| 0 <= i < pairs.len() ==> (#[trigger] pairs[i]).0 != key,
    ensures
        lookup(pairs, key) is None,
{
    lemma_lookup_from(pairs, key, pairs.len() as int);
}

/// Equivalent mappings look every key up to equivalent results.
proof fn lemma_equiv_lookup(
    p: Seq<(Seq<char>, ValueModel)>,
    q: Seq<(Seq<char>, ValueModel)>,
    key: Seq<char>,
)
    requires
        values_equiv(ValueModel::Obj(p), ValueModel::Obj(q)),
    ensures
        match (lookup(p, key), lookup(q, key)) {
            (Some(a), Some(b)) => values_equiv(a, b),
            (None, None) => true,
            _ => false,
        },
{
    if exists|i: int| 0 <= i < p.len() && (#[trigger] p[i]).0 == key {
        let i = choose|i: int| 0 <= i < p.len() && (#[trigger] p[i]).0 == key;
        lemma_lookup_index(p, i);
        let j = choose|j: int|
            0 <= j < q.len() && (#[trigger] p[i]).0 == q[j].0 && values_equiv(
                p[i].1,
                #[trigger] q[j].1,
            );
        lemma_lookup_index(q, j);
    } else {
        lemma_lookup_absent(p, key);
        if exists|j: int| 0 <= j < q.len() && (#[trigger] q[j]).0 == key {
            let j = choose|j: int| 0 <= j < q.len() && (#[trigger] q[j]).0 == key;
            assert(exists|i: int| 0 <= i < p.len() && (#[trigger] q[j]).0 == (#[trigger] p[i]).0);
        }
        lemma_lookup_absent(q, key);
    }
}

/// Field order is layout-driven: two values that differ at most in the
/// order of their mappings' pairs encode to exactly the same bytes, or fail
/// with exactly the same error.
pub proof fn lemma_encode_key_order(l: Layout, v1: ValueModel, v2: ValueModel)
    requires
        l.well_formed(),
        values_equiv(v1, v2),
    ensures
        spec_encode(l, v1) == spec_encode(l, v2),
    decreases l, 0nat,
{
    match l.kind {
        LayoutKind::Array => {
            match (v1, v2) {
                (ValueModel::Arr(x), ValueModel::Arr(y)) => {
                    lemma_equiv_elems(l.fields->Some_0@[0], x, y, 0);
                },
                _ => {},
            }
        },
        LayoutKind::Struct => {
            match (v1, v2) {
                (ValueModel::Obj(p), ValueModel::Obj(q)) => {
                    lemma_equiv_fields(l.fields->Some_0@, p, q, 0);
                },
                _ => {},
            }
        },
        _ => {},
    }
}

/// Pointwise-equivalent element lists encode identically.
proof fn lemma_equiv_elems(child: Layout, x: Seq<ValueModel>, y: Seq<ValueModel>, i: int)
    requires
        child.well_formed(),
        x.len() == y.len(),
        0 <= i <= x.len(),
        forall|j: int| 0 <= j < x.len() ==> values_equiv(#[trigger] x[j], y[j]),
    ensures
        spec_encode_elems(child, x, i) == spec_encode_elems(child, y, i),
    decreases child, x.len() - i,
{
    if i < x.len() {
        lemma_encode_key_order(child, x[i], y[i]);
        lemma_equiv_elems(child, x, y, i + 1);
    }
}

/// Equivalent mappings encode identically against a run of struct fields:
/// every field's name looks up to equivalent values on both sides.
proof fn lemma_equiv_fields(
    fields: Seq<Layout>,
    p: Seq<(Seq<char>, ValueModel)>,
    q: Seq<(Seq<char>, ValueModel)>,
    i: int,
)
    requires
        0 <= i <= fields.len(),
        forall|k: int| 0 <= k < fields.len() ==> (#[trigger] fields[k]).well_formed(),
        values_equiv(ValueModel::Obj(p), ValueModel::Obj(q)),
    ensures
        spec_encode_fields(fields, p, i) == spec_encode_fields(fields, q, i),
    decreases fields, fields.len() - i,
{
    if i < fields.len() {
        lemma_equiv_lookup(p, q, fields[i].name@);
        match (lookup(p, fields[i].name@), lookup(q, fields[i].name@)) {
            (Some(a), Some(b)) => {
                lemma_encode_key_order(fields[i], a, b);
                lemma_equiv_fields(fields, p, q, i + 1);
            },
            _ => {},
        }
    }
}

/// Truncation fails loudly: cutting any number of bytes off the back of a
/// buffer that decodes successfully makes decoding fail with
/// `TruncatedInput`. In particular a buffer one byte short of any required
/// length does.
pub proof fn lemma_truncated(l: Layout, b: Seq<u8>, j: int)
    requires
        l.well_formed(),
        spec_decode(l, b) matches Ok(p),
        0 <= j < spec_decode(l, b)->Ok_0.1,
    ensures
        spec_decode(l, b.take(j)) == Err::<(ValueModel, nat), CodecError>(
            CodecError::TruncatedInput,
        ),
    decreases l, 0nat,
{
    let n = spec_decode(l, b)->Ok_0.1 as int;
    lemma_decode_within(l, b);
    let t = b.take(j);
    assert(t.len() == j);
    match l.kind {
        LayoutKind::Bool | LayoutKind::U8 | LayoutKind::I8 => {},
        LayoutKind::U16 | LayoutKind::I16 => {},
        LayoutKind::U32 | LayoutKind::I32 | LayoutKind::F32 => {},
        LayoutKind::U64 | LayoutKind::I64 | LayoutKind::F64 => {},
        LayoutKind::String => {
            if j >= 8 {
                assert(t.subrange(0, 8) =~= b.subrange(0, 8));
            }
        },
        LayoutKind::Array => {
            if j >= 8 {
                assert(t.subrange(0, 8) =~= b.subrange(0, 8));
                let fs = l.fields->Some_0;
                let count = vstd::bytes::spec_u64_from_le_bytes(b.subrange(0, 8)) as nat;
                let tail = b.skip(8);
                assert(t.skip(8) =~= tail.take(j - 8));
                lemma_truncated_elems(fs@[0], tail, count, j - 8);
            }
        },
        LayoutKind::Struct => {
            let fs = l.fields->Some_0;
            lemma_truncated_fields(fs@, b, 0, j);
        },
    }
}

/// Truncation fails loudly for a run of array elements.
proof fn lemma_truncated_elems(child: Layout, b: Seq<u8>, count: nat, j: int)
    requires
        child.well_formed(),
        spec_decode_elems(child, b, count) matches Ok(p),
        0 <= j < spec_decode_elems(child, b, count)->Ok_0.1,
    ensures
        spec_decode_elems(child, b.take(j), count) == Err::<(Seq<ValueModel>, nat), CodecError>(
            CodecError::TruncatedInput,
        ),
    decreases child, count,
{
    let n = spec_decode(child, b)->Ok_0.1 as int;
    let m = spec_decode_elems(child, b, count)->Ok_0.1 as int;
    lemma_decode_within(child, b);
    lemma_decode_elems_within(child, b.skip(n), (count - 1) as nat);
    let t = b.take(j);
    if j < n {
        lemma_truncated(child, b, j);
    } else {
        assert(t.take(n) =~= b.take(n));
        assert(b.take(n).take(n) =~= b.take(n));
        lemma_decode_prefix(child, b, t);
        assert(t.skip(n) =~= b.skip(n).take(j - n));
        lemma_truncated_elems(child, b.skip(n), (count - 1) as nat, j - n);
    }
}

/// Truncation fails loudly for a run of struct fields.
proof fn lemma_truncated_fields(fields: Seq<Layout>, b: Seq<u8>, i: int, j: int)
    requires
        0 <= i <= fields.len(),
        forall|k: int| 0 <= k < fields.len() ==> (#[trigger] fields[k]).well_formed(),
        spec_decode_fields(fields, b, i) matches Ok(p),
        0 <= j < spec_decode_fields(fields, b, i)->Ok_0.1,
    ensures
        spec_decode_fields(fields, b.take(j), i) == Err::<
            (Seq<(Seq<char>, ValueModel)>, nat),
            CodecError,
        >(CodecError::TruncatedInput),
    decreases fields, fields.len() - i,
{
    let n = spec_decode(fields[i], b)->Ok_0.1 as int;
    lemma_decode_within(fields[i], b);
    lemma_decode_fields_within(fields, b.skip(n), i + 1);
    let t = b.take(j);
    if j < n {
        lemma_truncated(fields[i], b, j);
    } else {
        assert(t.take(n) =~= b.take(n));
        assert(b.take(n).take(n) =~= b.take(n));
        lemma_decode_prefix(fields[i], b, t);
        assert(t.skip(n) =~= b.skip(n).take(j - n));
        lemma_truncated_fields(fields, b.skip(n), i + 1, j - n);
    }
}

/// A struct value that lacks one required key fails to encode with
/// `MissingField`, as long as the fields that are present encode cleanly.
pub proof fn lemma_missing_field(l: Layout, v: ValueModel)
    requires
        l.well_formed(),
        l.kind == LayoutKind::Struct,
        v matches ValueModel::Obj(pairs),
        exists|k: int|
            0 <= k < l.fields->Some_0@.len() && lookup(
                v->Obj_0,
                (#[trigger] l.fields->Some_0@[k]).name@,
            ) is None,
        forall|k: int|
            0 <= k < l.fields->Some_0@.len() ==> match lookup(
                v->Obj_0,
                (#[trigger] l.fields->Some_0@[k]).name@,
            ) {
                Some(fv) => spec_encode(l.fields->Some_0@[k], fv) is Ok,
                None => true,
            },
    ensures
        spec_encode(l, v) == Err::<Seq<u8>, CodecError>(CodecError::MissingField),
{
    lemma_missing_field_walk(l.fields->Some_0@, v->Obj_0, 0);
}

/// The field walk hits the first absent name and stops with
/// `MissingField`.
proof fn lemma_missing_field_walk(
    fields: Seq<Layout>,
    pairs: Seq<(Seq<char>, ValueModel)>,
    i: int,
)
    requires
        0 <= i <= fields.len(),
        exists|k: int|
            i <= k < fields.len() && lookup(pairs, (#[trigger] fields[k]).name@) is None,
        forall|k: int|
            i <= k < fields.len() ==> match lookup(pairs, (#[trigger] fields[k]).name@) {
                Some(fv) => spec_encode(fields[k], fv) is Ok,
                None => true,
            },
    ensures
        spec_encode_fields(fields, pairs, i) == Err::<Seq<u8>, CodecError>(
            CodecError::MissingField,
        ),
    decreases fields.len() - i,
{
    match lookup(pairs, fields[i].name@) {
        None => {},
        Some(fv) => {
            let k = choose|k: int|
                i <= k < fields.len() && lookup(pairs, (#[trigger] fields[k]).name@) is None;
            assert(k != i);
            lemma_missing_field_walk(fields, pairs, i + 1);
        },
    }
}

} // verus!
