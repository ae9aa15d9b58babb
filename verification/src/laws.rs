//! What holds of the wire format as a whole. Reading gives back what was
//! written, whatever follows it. A value that is cut off is reported as cut
//! off. Nothing is read but what was written. And a value that went into a
//! tensor comes out of it again.

use vstd::prelude::*;
use vstd::utf8::{
    decode_utf8_encode_utf8, encode_utf8, encode_utf8_decode_utf8, encode_utf8_valid_utf8,
};
use crate::codec::{
    lemma_wire_all_push, parse, parse_blob, parse_fields, parse_repeat, parse_uint, wire,
    wire_all, DecodeError,
};
use crate::endian::{
    be_bytes, be_value, lemma_be_bytes_len, lemma_be_bytes_of_value, lemma_be_value_bound,
    lemma_be_value_of_bytes, lemma_pow256_values, pow256, zeros,
};
use crate::tensor::{capacity, lemma_capacity_by_rank, resolved, stored, Dimension};
use crate::value::{
    all_conform, all_representable, fields_conform, SpecSchema, SpecValue, Value, MAX_LEN,
};

verus! {

/// A number that fits in `width` bytes is read back from its digits, whatever follows them.
proof fn lemma_uint_round_trip(n: nat, width: nat, tail: Seq<u8>)
    requires
        n < pow256(width),
    ensures
        be_bytes(n, width).len() == width,
        parse_uint(width, be_bytes(n, width) + tail) == Ok::<nat, DecodeError>(n),
{
    lemma_be_bytes_len(n, width);
    lemma_be_value_of_bytes(n, width);
    assert((be_bytes(n, width) + tail).take(width as int) =~= be_bytes(n, width));
}

/// A length-prefixed run of bytes is read back, whatever follows it.
proof fn lemma_blob_round_trip(body: Seq<u8>, tail: Seq<u8>)
    requires
        body.len() <= MAX_LEN,
    ensures
        (be_bytes(body.len(), 4) + body).len() == 4 + body.len(),
        parse_blob(be_bytes(body.len(), 4) + body + tail) == Ok::<(Seq<u8>, nat), DecodeError>(
            (body, 4 + body.len()),
        ),
{
    lemma_pow256_values();
    let all = be_bytes(body.len(), 4) + body + tail;
    lemma_uint_round_trip(body.len(), 4, body + tail);
    assert(all =~= be_bytes(body.len(), 4) + (body + tail));
    assert(all.subrange(4, 4 + body.len() as int) =~= body);
}

/// A length-prefixed run of bytes that is cut short is reported as cut short.
proof fn lemma_blob_truncated(body: Seq<u8>, cut: int)
    requires
        body.len() <= MAX_LEN,
        0 <= cut < 4 + body.len(),
    ensures
        parse_blob((be_bytes(body.len(), 4) + body).take(cut)) == Err::<
            (Seq<u8>, nat),
            DecodeError,
        >(DecodeError::Truncated),
{
    lemma_pow256_values();
    lemma_be_bytes_len(body.len(), 4);
    let all = be_bytes(body.len(), 4) + body;
    if cut >= 4 {
        lemma_uint_round_trip(body.len(), 4, body.take(cut - 4));
        assert(all.take(cut) =~= be_bytes(body.len(), 4) + body.take(cut - 4));
    }
}

/// A prefix of conforming values conforms.
proof fn lemma_init_conforms(items: Seq<SpecValue>, elem: SpecSchema)
    requires
        items.len() > 0,
        all_conform(items, elem),
    ensures
        all_conform(items.drop_last(), elem),
        items.last().conforms(elem),
{
    let init = items.drop_last();
    assert(items[items.len() - 1].conforms(elem));
    assert forall|i: int| 0 <= i < init.len() implies (#[trigger] init[i]).conforms(elem) by {
        assert(items[i].conforms(elem));
    }
}

/// A prefix of representable values is representable.
proof fn lemma_init_representable(items: Seq<SpecValue>)
    requires
        items.len() > 0,
        all_representable(items),
    ensures
        all_representable(items.drop_last()),
        items.last().representable(),
{
    let init = items.drop_last();
    assert(items[items.len() - 1].representable());
    assert forall|i: int| 0 <= i < init.len() implies (#[trigger] init[i]).representable() by {
        assert(items[i].representable());
    }
}

/// Reading gives back what was written: the bytes of a representable value,
/// with anything at all after them, parse under the value's schema to that
/// value, and the parse takes exactly the value's bytes.
pub proof fn lemma_round_trip(v: SpecValue, schema: SpecSchema, tail: Seq<u8>)
    requires
        v.conforms(schema),
        v.representable(),
    ensures
        parse(schema, wire(v) + tail) == Ok::<(SpecValue, nat), DecodeError>((v, wire(v).len())),
    decreases v, 0nat,
{
    lemma_pow256_values();
    let all = wire(v) + tail;
    match (v, schema) {
        (SpecValue::U8(x), SpecSchema::U8) => {
            lemma_uint_round_trip(x as nat, 1, tail);
        },
        (SpecValue::U16(x), SpecSchema::U16) => {
            lemma_uint_round_trip(x as nat, 2, tail);
        },
        (SpecValue::U32(x), SpecSchema::U32) => {
            lemma_uint_round_trip(x as nat, 4, tail);
        },
        (SpecValue::U64(x), SpecSchema::U64) => {
            lemma_uint_round_trip(x as nat, 8, tail);
        },
        (SpecValue::I8(x), SpecSchema::I8) => {
            lemma_uint_round_trip((x as u8) as nat, 1, tail);
            assert((x as u8) as i8 == x) by (bit_vector);
        },
        (SpecValue::I16(x), SpecSchema::I16) => {
            lemma_uint_round_trip((x as u16) as nat, 2, tail);
            assert((x as u16) as i16 == x) by (bit_vector);
        },
        (SpecValue::I32(x), SpecSchema::I32) => {
            lemma_uint_round_trip((x as u32) as nat, 4, tail);
            assert((x as u32) as i32 == x) by (bit_vector);
        },
        (SpecValue::I64(x), SpecSchema::I64) => {
            lemma_uint_round_trip((x as u64) as nat, 8, tail);
            assert((x as u64) as i64 == x) by (bit_vector);
        },
        (SpecValue::Bool(b), SpecSchema::Bool) => {
            lemma_uint_round_trip(if b { 1nat } else { 0nat }, 1, tail);
        },
        (SpecValue::Text(s), SpecSchema::Text) => {
            encode_utf8_valid_utf8(s);
            encode_utf8_decode_utf8(s);
            lemma_blob_round_trip(encode_utf8(s), tail);
        },
        (SpecValue::Bytes(b), SpecSchema::Bytes) => {
            lemma_blob_round_trip(b, tail);
        },
        (SpecValue::List(items), SpecSchema::List(elem)) => {
            lemma_uint_round_trip(items.len(), 4, wire_all(items) + tail);
            lemma_round_trip_repeat(items, *elem, tail);
            assert(all =~= be_bytes(items.len(), 4) + (wire_all(items) + tail));
            assert(all.skip(4) =~= wire_all(items) + tail);
        },
        (SpecValue::Record(fields), SpecSchema::Record(types)) => {
            lemma_round_trip_fields(fields, types, tail);
        },
        _ => {},
    }
}

/// `lemma_round_trip` for the items of a list.
proof fn lemma_round_trip_repeat(items: Seq<SpecValue>, elem: SpecSchema, tail: Seq<u8>)
    requires
        all_conform(items, elem),
        all_representable(items),
    ensures
        parse_repeat(elem, items.len(), wire_all(items) + tail) == Ok::<
            (Seq<SpecValue>, nat),
            DecodeError,
        >((items, wire_all(items).len())),
    decreases items, 0nat,
{
    let all = wire_all(items) + tail;
    if items.len() == 0 {
        assert(items =~= Seq::<SpecValue>::empty());
        assert(wire_all(items) =~= Seq::<u8>::empty());
        assert(parse_repeat(elem, 0, all) == Ok::<(Seq<SpecValue>, nat), DecodeError>(
            (Seq::empty(), 0),
        ));
    } else {
        let init = items.drop_last();
        let last = items.last();
        let rest = wire(last) + tail;
        let k = wire_all(init).len();
        lemma_init_conforms(items, elem);
        lemma_init_representable(items);
        assert(wire_all(items) == wire_all(init) + wire(last));
        assert(all =~= wire_all(init) + rest);
        lemma_round_trip_repeat(init, elem, rest);
        lemma_round_trip(last, elem, tail);
        assert(all.skip(k as int) =~= rest);
        assert(init.push(last) =~= items);
        assert(parse_repeat(elem, items.len(), all) == Ok::<(Seq<SpecValue>, nat), DecodeError>(
            (init.push(last), k + wire(last).len()),
        ));
    }
}

/// `lemma_round_trip` for the leading fields of a record.
proof fn lemma_round_trip_fields(fields: Seq<SpecValue>, types: Seq<SpecSchema>, tail: Seq<u8>)
    requires
        fields.len() <= types.len(),
        forall|i: int| 0 <= i < fields.len() ==> (#[trigger] fields[i]).conforms(types[i]),
        all_representable(fields),
    ensures
        parse_fields(types, fields.len(), wire_all(fields) + tail) == Ok::<
            (Seq<SpecValue>, nat),
            DecodeError,
        >((fields, wire_all(fields).len())),
    decreases fields, 0nat,
{
    let all = wire_all(fields) + tail;
    if fields.len() == 0 {
        assert(fields =~= Seq::<SpecValue>::empty());
        assert(wire_all(fields) =~= Seq::<u8>::empty());
        assert(parse_fields(types, 0, all) == Ok::<(Seq<SpecValue>, nat), DecodeError>(
            (Seq::empty(), 0),
        ));
    } else {
        let init = fields.drop_last();
        let last = fields.last();
        let rest = wire(last) + tail;
        let k = wire_all(init).len();
        lemma_init_representable(fields);
        assert(fields[fields.len() - 1].conforms(types[fields.len() - 1]));
        assert forall|i: int| 0 <= i < init.len() implies (#[trigger] init[i]).conforms(
            types[i],
        ) by {
            assert(fields[i].conforms(types[i]));
        }
        assert(wire_all(fields) == wire_all(init) + wire(last));
        assert(all =~= wire_all(init) + rest);
        lemma_round_trip_fields(init, types, rest);
        lemma_round_trip(last, types[fields.len() - 1], tail);
        assert(all.skip(k as int) =~= rest);
        assert(init.push(last) =~= fields);
        assert(parse_fields(types, fields.len(), all) == Ok::<(Seq<SpecValue>, nat), DecodeError>(
            (init.push(last), k + wire(last).len()),
        ));
    }
}

/// Every strict prefix of the bytes of a representable value fails to parse
/// under the value's schema, and the failure is `Truncated`, never `Malformed`.
pub proof fn lemma_strict_prefix_truncated(v: SpecValue, schema: SpecSchema, cut: int)
    requires
        v.conforms(schema),
        v.representable(),
        0 <= cut < wire(v).len(),
    ensures
        parse(schema, wire(v).take(cut)) == Err::<(SpecValue, nat), DecodeError>(
            DecodeError::Truncated,
        ),
    decreases v, 0nat,
{
    lemma_pow256_values();
    let part = wire(v).take(cut);
    match (v, schema) {
        (SpecValue::U8(x), SpecSchema::U8) => {
            lemma_be_bytes_len(x as nat, 1);
        },
        (SpecValue::U16(x), SpecSchema::U16) => {
            lemma_be_bytes_len(x as nat, 2);
        },
        (SpecValue::U32(x), SpecSchema::U32) => {
            lemma_be_bytes_len(x as nat, 4);
        },
        (SpecValue::U64(x), SpecSchema::U64) => {
            lemma_be_bytes_len(x as nat, 8);
        },
        (SpecValue::I8(x), SpecSchema::I8) => {
            lemma_be_bytes_len((x as u8) as nat, 1);
        },
        (SpecValue::I16(x), SpecSchema::I16) => {
            lemma_be_bytes_len((x as u16) as nat, 2);
        },
        (SpecValue::I32(x), SpecSchema::I32) => {
            lemma_be_bytes_len((x as u32) as nat, 4);
        },
        (SpecValue::I64(x), SpecSchema::I64) => {
            lemma_be_bytes_len((x as u64) as nat, 8);
        },
        (SpecValue::Bool(b), SpecSchema::Bool) => {
            lemma_be_bytes_len(if b { 1nat } else { 0nat }, 1);
        },
        (SpecValue::Text(s), SpecSchema::Text) => {
            lemma_be_bytes_len(encode_utf8(s).len(), 4);
            lemma_blob_truncated(encode_utf8(s), cut);
        },
        (SpecValue::Bytes(b), SpecSchema::Bytes) => {
            lemma_be_bytes_len(b.len(), 4);
            lemma_blob_truncated(b, cut);
        },
        (SpecValue::List(items), SpecSchema::List(elem)) => {
            lemma_be_bytes_len(items.len(), 4);
            if cut >= 4 {
                let frag = wire_all(items).take(cut - 4);
                lemma_uint_round_trip(items.len(), 4, frag);
                assert(part =~= be_bytes(items.len(), 4) + frag);
                assert(part.skip(4) =~= frag);
                lemma_truncated_repeat(items, *elem, cut - 4);
            }
        },
        (SpecValue::Record(fields), SpecSchema::Record(types)) => {
            lemma_truncated_fields(fields, types, cut);
        },
        _ => {},
    }
}

/// `lemma_strict_prefix_truncated` for the items of a list.
proof fn lemma_truncated_repeat(items: Seq<SpecValue>, elem: SpecSchema, cut: int)
    requires
        all_conform(items, elem),
        all_representable(items),
        0 <= cut < wire_all(items).len(),
    ensures
        parse_repeat(elem, items.len(), wire_all(items).take(cut)) == Err::<
            (Seq<SpecValue>, nat),
            DecodeError,
        >(DecodeError::Truncated),
    decreases items, 0nat,
{
    let part = wire_all(items).take(cut);
    if items.len() == 0 {
        assert(wire_all(items) =~= Seq::<u8>::empty());
    } else {
        let init = items.drop_last();
        let last = items.last();
        let k = wire_all(init).len();
        lemma_init_conforms(items, elem);
        lemma_init_representable(items);
        assert(wire_all(items) == wire_all(init) + wire(last));
        if cut < k {
            lemma_truncated_repeat(init, elem, cut);
            assert(part =~= wire_all(init).take(cut));
        } else {
            let frag = wire(last).take(cut - k);
            assert(part =~= wire_all(init) + frag);
            lemma_round_trip_repeat(init, elem, frag);
            lemma_strict_prefix_truncated(last, elem, cut - k);
            assert(part.skip(k as int) =~= frag);
        }
        assert(parse_repeat(elem, items.len(), part) == Err::<(Seq<SpecValue>, nat), DecodeError>(
            DecodeError::Truncated,
        ));
    }
}

/// `lemma_strict_prefix_truncated` for the leading fields of a record.
proof fn lemma_truncated_fields(fields: Seq<SpecValue>, types: Seq<SpecSchema>, cut: int)
    requires
        fields.len() <= types.len(),
        forall|i: int| 0 <= i < fields.len() ==> (#[trigger] fields[i]).conforms(types[i]),
        all_representable(fields),
        0 <= cut < wire_all(fields).len(),
    ensures
        parse_fields(types, fields.len(), wire_all(fields).take(cut)) == Err::<
            (Seq<SpecValue>, nat),
            DecodeError,
        >(DecodeError::Truncated),
    decreases fields, 0nat,
{
    let part = wire_all(fields).take(cut);
    if fields.len() == 0 {
        assert(wire_all(fields) =~= Seq::<u8>::empty());
    } else {
        let init = fields.drop_last();
        let last = fields.last();
        let k = wire_all(init).len();
        lemma_init_representable(fields);
        assert(fields[fields.len() - 1].conforms(types[fields.len() - 1]));
        assert forall|i: int| 0 <= i < init.len() implies (#[trigger] init[i]).conforms(
            types[i],
        ) by {
            assert(fields[i].conforms(types[i]));
        }
        assert(wire_all(fields) == wire_all(init) + wire(last));
        if cut < k {
            lemma_truncated_fields(init, types, cut);
            assert(part =~= wire_all(init).take(cut));
        } else {
            let frag = wire(last).take(cut - k);
            assert(part =~= wire_all(init) + frag);
            lemma_round_trip_fields(init, types, frag);
            lemma_strict_prefix_truncated(last, types[fields.len() - 1], cut - k);
            assert(part.skip(k as int) =~= frag);
        }
        assert(parse_fields(types, fields.len(), part) == Err::<(Seq<SpecValue>, nat), DecodeError>(
            DecodeError::Truncated,
        ));
    }
}

/// What `parse_uint` accepts is the digits of the number it gives.
proof fn lemma_uint_was_written(width: nat, bytes: Seq<u8>)
    ensures
        parse_uint(width, bytes) matches Ok(n) ==> {
            &&& width <= bytes.len()
            &&& n < pow256(width)
            &&& be_bytes(n, width) == bytes.take(width as int)
        },
{
    if bytes.len() >= width {
        lemma_be_value_bound(bytes.take(width as int));
        lemma_be_bytes_of_value(bytes.take(width as int));
    }
}

/// What `parse_blob` accepts is a length prefix and the run that it announces.
proof fn lemma_blob_was_written(bytes: Seq<u8>)
    ensures
        parse_blob(bytes) matches Ok((body, k)) ==> {
            &&& k <= bytes.len()
            &&& body.len() <= MAX_LEN
            &&& be_bytes(body.len(), 4) + body == bytes.take(k as int)
        },
{
    lemma_pow256_values();
    lemma_uint_was_written(4, bytes);
    if let Ok((body, k)) = parse_blob(bytes) {
        assert(bytes.take(4) + body =~= bytes.take(k as int));
    }
}

/// Only what was written is read: where a byte string parses under a schema,
/// the value it gives has the schema's layout and is representable, and the
/// bytes that the parse took are exactly the bytes of that value. So nothing
/// is accepted but what encoding a value of that layout produces.
pub proof fn lemma_parsed_was_written(schema: SpecSchema, bytes: Seq<u8>)
    ensures
        parse(schema, bytes) matches Ok((v, k)) ==> {
            &&& k <= bytes.len()
            &&& v.conforms(schema)
            &&& v.representable()
            &&& wire(v) == bytes.take(k as int)
        },
    decreases schema, 0nat,
{
    lemma_pow256_values();
    match schema {
        SpecSchema::U8 => {
            lemma_uint_was_written(1, bytes);
        },
        SpecSchema::U16 => {
            lemma_uint_was_written(2, bytes);
        },
        SpecSchema::U32 => {
            lemma_uint_was_written(4, bytes);
        },
        SpecSchema::U64 => {
            lemma_uint_was_written(8, bytes);
        },
        SpecSchema::I8 => {
            lemma_uint_was_written(1, bytes);
            if let Ok(n) = parse_uint(1, bytes) {
                let bits = n as u8;
                assert(((bits as i8) as u8) == bits) by (bit_vector);
            }
        },
        SpecSchema::I16 => {
            lemma_uint_was_written(2, bytes);
            if let Ok(n) = parse_uint(2, bytes) {
                let bits = n as u16;
                assert(((bits as i16) as u16) == bits) by (bit_vector);
            }
        },
        SpecSchema::I32 => {
            lemma_uint_was_written(4, bytes);
            if let Ok(n) = parse_uint(4, bytes) {
                let bits = n as u32;
                assert(((bits as i32) as u32) == bits) by (bit_vector);
            }
        },
        SpecSchema::I64 => {
            lemma_uint_was_written(8, bytes);
            if let Ok(n) = parse_uint(8, bytes) {
                let bits = n as u64;
                assert(((bits as i64) as u64) == bits) by (bit_vector);
            }
        },
        SpecSchema::Bool => {
            lemma_uint_was_written(1, bytes);
        },
        SpecSchema::Text => {
            lemma_blob_was_written(bytes);
            if let Ok((body, k)) = parse_blob(bytes) {
                if vstd::utf8::valid_utf8(body) {
                    decode_utf8_encode_utf8(body);
                }
            }
        },
        SpecSchema::Bytes => {
            lemma_blob_was_written(bytes);
        },
        SpecSchema::List(elem) => {
            lemma_uint_was_written(4, bytes);
            if let Ok(n) = parse_uint(4, bytes) {
                lemma_repeat_was_written(*elem, n, bytes.skip(4));
                if let Ok((items, k)) = parse_repeat(*elem, n, bytes.skip(4)) {
                    assert(bytes.take(4) + bytes.skip(4).take(k as int) =~= bytes.take(4 + k as int));
                }
            }
        },
        SpecSchema::Record(types) => {
            lemma_fields_were_written(types, types.len(), bytes);
        },
    }
}

/// `lemma_parsed_was_written` for the items of a list.
proof fn lemma_repeat_was_written(elem: SpecSchema, count: nat, bytes: Seq<u8>)
    ensures
        parse_repeat(elem, count, bytes) matches Ok((items, k)) ==> {
            &&& k <= bytes.len()
            &&& items.len() == count
            &&& all_conform(items, elem)
            &&& all_representable(items)
            &&& wire_all(items) == bytes.take(k as int)
        },
    decreases elem, 1 + count,
{
    if count == 0 {
        assert(wire_all(Seq::<SpecValue>::empty()) =~= bytes.take(0));
    } else {
        lemma_repeat_was_written(elem, (count - 1) as nat, bytes);
        if let Ok((items, k)) = parse_repeat(elem, (count - 1) as nat, bytes) {
            lemma_parsed_was_written(elem, bytes.skip(k as int));
            if let Ok((v, j)) = parse(elem, bytes.skip(k as int)) {
                lemma_wire_all_push(items, v);
                assert(bytes.take(k as int) + bytes.skip(k as int).take(j as int) =~= bytes.take(
                    k + j as int,
                ));
                assert(parse_repeat(elem, count, bytes) == Ok::<
                    (Seq<SpecValue>, nat),
                    DecodeError,
                >((items.push(v), k + j)));
            }
        }
    }
}

/// `lemma_parsed_was_written` for the leading fields of a record.
proof fn lemma_fields_were_written(types: Seq<SpecSchema>, count: nat, bytes: Seq<u8>)
    requires
        count <= types.len(),
    ensures
        parse_fields(types, count, bytes) matches Ok((fields, k)) ==> {
            &&& k <= bytes.len()
            &&& fields.len() == count
            &&& forall|i: int| 0 <= i < count ==> (#[trigger] fields[i]).conforms(types[i])
            &&& all_representable(fields)
            &&& wire_all(fields) == bytes.take(k as int)
        },
    decreases types, count,
{
    if count == 0 {
        assert(wire_all(Seq::<SpecValue>::empty()) =~= bytes.take(0));
    } else {
        lemma_fields_were_written(types, (count - 1) as nat, bytes);
        if let Ok((fields, k)) = parse_fields(types, (count - 1) as nat, bytes) {
            lemma_parsed_was_written(types[count - 1], bytes.skip(k as int));
            if let Ok((v, j)) = parse(types[count - 1], bytes.skip(k as int)) {
                lemma_wire_all_push(fields, v);
                assert(bytes.take(k as int) + bytes.skip(k as int).take(j as int) =~= bytes.take(
                    k + j as int,
                ));
                assert(parse_fields(types, count, bytes) == Ok::<
                    (Seq<SpecValue>, nat),
                    DecodeError,
                >((fields.push(v), k + j)));
            }
        }
    }
}

/// Decoding inverts encoding: parsing the bytes of a representable value
/// under its schema gives the value.
pub proof fn lemma_decode_inverts_encode(v: SpecValue, schema: SpecSchema)
    requires
        v.conforms(schema),
        v.representable(),
    ensures
        parse(schema, wire(v)) == Ok::<(SpecValue, nat), DecodeError>((v, wire(v).len())),
{
    lemma_round_trip(v, schema, Seq::empty());
    assert(wire(v) + Seq::<u8>::empty() =~= wire(v));
}

/// The write path and then the read path: once the bytes of a representable
/// value are bound to a tensor that is no scalar and has room for them,
/// parsing the tensor's storage under the value's schema gives the value; the
/// zeros after the bytes are ignored.
pub proof fn lemma_bound_value_reads_back(v: SpecValue, schema: SpecSchema, dim: Dimension, cap: nat)
    requires
        v.conforms(schema),
        v.representable(),
        !(dim is Scalar),
        wire(v).len() <= cap,
    ensures
        parse(schema, stored(dim, wire(v), cap)) == Ok::<(SpecValue, nat), DecodeError>(
            (v, wire(v).len()),
        ),
{
    lemma_round_trip(v, schema, zeros((cap - wire(v).len()) as nat));
}

/// A one-dimensional tensor whose extent is left to be inferred has exactly
/// as many elements as there are bytes, so binding to it succeeds and its
/// storage is the bytes and nothing else.
pub proof fn lemma_inferred_extent_holds_the_bytes(bytes: Seq<u8>)
    requires
        bytes.len() <= usize::MAX,
    ensures
        resolved(Dimension::D1, seq![None], bytes.len() as usize) == Some(
            seq![bytes.len() as usize],
        ),
        resolved(Dimension::D1, Seq::empty(), bytes.len() as usize) == Some(
            seq![bytes.len() as usize],
        ),
        capacity(seq![bytes.len() as usize]) == bytes.len(),
        stored(Dimension::D1, bytes, bytes.len()) == bytes,
{
    lemma_capacity_by_rank(bytes.len() as usize, 0, 0);
    assert(stored(Dimension::D1, bytes, bytes.len()) =~= bytes);
}

/// The bytes of a value depend on nothing but what the value holds: two
/// values with the same model have the same bytes.
pub proof fn lemma_encode_deterministic(a: Value, b: Value)
    requires
        a@ == b@,
    ensures
        wire(a@) == wire(b@),
{
}

} // verus!
