//! The wire format: what a value looks like as bytes, what a byte string
//! means under a schema, and the functions that write and read it.
//!
//! Integers are fixed-width and big-endian, signed ones in two's complement.
//! A boolean is one byte, 0 or 1. A text (as UTF-8), a byte string and a list
//! each start with a 4-byte length: the number of bytes of the first two, the
//! number of items of a list. A record is its fields laid end to end. Nothing
//! marks the kind of a field or the end of a record, so a reader needs the
//! schema, and bytes after the value are left alone.

use vstd::prelude::*;
use vstd::slice::{slice_subrange, slice_to_vec};
use vstd::utf8::{decode_utf8, encode_utf8, valid_utf8};
use crate::endian::{append, be_bytes, be_value, lemma_pow256_values, put_uint, take_uint};
use crate::value::{
    all_representable, lemma_schema_views, lemma_views, schema_views, views, Schema, SpecSchema,
    SpecValue, Value,
};

verus! {

/// Why a byte string could not be read.
#[derive(Clone, Copy, Debug, PartialEq, Eq)]
pub enum DecodeError {
    /// The bytes end before a field does.
    Truncated,
    /// The bytes of a field are all there but do not form a value of its kind.
    Malformed,
}

/// The bytes of a value.
pub open spec fn wire(v: SpecValue) -> Seq<u8>
    decreases v,
{
    match v {
        SpecValue::U8(x) => be_bytes(x as nat, 1),
        SpecValue::U16(x) => be_bytes(x as nat, 2),
        SpecValue::U32(x) => be_bytes(x as nat, 4),
        SpecValue::U64(x) => be_bytes(x as nat, 8),
        SpecValue::I8(x) => be_bytes((x as u8) as nat, 1),
        SpecValue::I16(x) => be_bytes((x as u16) as nat, 2),
        SpecValue::I32(x) => be_bytes((x as u32) as nat, 4),
        SpecValue::I64(x) => be_bytes((x as u64) as nat, 8),
        SpecValue::Bool(b) => be_bytes(if b { 1nat } else { 0nat }, 1),
        SpecValue::Text(s) => be_bytes(encode_utf8(s).len(), 4) + encode_utf8(s),
        SpecValue::Bytes(b) => be_bytes(b.len(), 4) + b,
        SpecValue::List(items) => be_bytes(items.len(), 4) + wire_all(items),
        SpecValue::Record(fields) => wire_all(fields),
    }
}

/// The bytes of several values, laid end to end.
pub open spec fn wire_all(items: Seq<SpecValue>) -> Seq<u8>
    decreases items,
{
    if items.len() == 0 {
        Seq::empty()
    } else {
        wire_all(items.drop_last()) + wire(items.last())
    }
}

/// A big-endian integer of `width` bytes at the start of `bytes`.
pub open spec fn parse_uint(width: nat, bytes: Seq<u8>) -> Result<nat, DecodeError> {
    if bytes.len() < width {
        Err(DecodeError::Truncated)
    } else {
        Ok(be_value(bytes.take(width as int)))
    }
}

/// A length-prefixed run of bytes at the start of `bytes`: the run, and how
/// many bytes it takes with its prefix.
pub open spec fn parse_blob(bytes: Seq<u8>) -> Result<(Seq<u8>, nat), DecodeError> {
    match parse_uint(4, bytes) {
        Err(e) => Err(e),
        Ok(n) => if bytes.len() - 4 < n {
            Err(DecodeError::Truncated)
        } else {
            Ok((bytes.subrange(4, 4 + n as int), 4 + n))
        },
    }
}

/// The value of layout `schema` at the start of `bytes`, and how many bytes
/// it takes. What follows the value is not looked at.
pub open spec fn parse(schema: SpecSchema, bytes: Seq<u8>) -> Result<(SpecValue, nat), DecodeError>
    decreases schema, 0nat,
{
    match schema {
        SpecSchema::U8 => match parse_uint(1, bytes) {
            Err(e) => Err(e),
            Ok(n) => Ok((SpecValue::U8(n as u8), 1)),
        },
        SpecSchema::U16 => match parse_uint(2, bytes) {
            Err(e) => Err(e),
            Ok(n) => Ok((SpecValue::U16(n as u16), 2)),
        },
        SpecSchema::U32 => match parse_uint(4, bytes) {
            Err(e) => Err(e),
            Ok(n) => Ok((SpecValue::U32(n as u32), 4)),
        },
        SpecSchema::U64 => match parse_uint(8, bytes) {
            Err(e) => Err(e),
            Ok(n) => Ok((SpecValue::U64(n as u64), 8)),
        },
        SpecSchema::I8 => match parse_uint(1, bytes) {
            Err(e) => Err(e),
            Ok(n) => Ok((SpecValue::I8((n as u8) as i8), 1)),
        },
        SpecSchema::I16 => match parse_uint(2, bytes) {
            Err(e) => Err(e),
            Ok(n) => Ok((SpecValue::I16((n as u16) as i16), 2)),
        },
        SpecSchema::I32 => match parse_uint(4, bytes) {
            Err(e) => Err(e),
            Ok(n) => Ok((SpecValue::I32((n as u32) as i32), 4)),
        },
        SpecSchema::I64 => match parse_uint(8, bytes) {
            Err(e) => Err(e),
            Ok(n) => Ok((SpecValue::I64((n as u64) as i64), 8)),
        },
        SpecSchema::Bool => match parse_uint(1, bytes) {
            Err(e) => Err(e),
            Ok(n) => if n <= 1 {
                Ok((SpecValue::Bool(n == 1), 1))
            } else {
                Err(DecodeError::Malformed)
            },
        },
        SpecSchema::Text => match parse_blob(bytes) {
            Err(e) => Err(e),
            Ok((body, k)) => if valid_utf8(body) {
                Ok((SpecValue::Text(decode_utf8(body)), k))
            } else {
                Err(DecodeError::Malformed)
            },
        },
        SpecSchema::Bytes => match parse_blob(bytes) {
            Err(e) => Err(e),
            Ok((body, k)) => Ok((SpecValue::Bytes(body), k)),
        },
        SpecSchema::List(elem) => match parse_uint(4, bytes) {
            Err(e) => Err(e),
            Ok(n) => match parse_repeat(*elem, n, bytes.skip(4)) {
                Err(e) => Err(e),
                Ok((items, k)) => Ok((SpecValue::List(items), 4 + k)),
            },
        },
        SpecSchema::Record(types) => match parse_fields(types, types.len(), bytes) {
            Err(e) => Err(e),
            Ok((fields, k)) => Ok((SpecValue::Record(fields), k)),
        },
    }
}

/// `count` values of layout `elem`, one after the other from the start of `bytes`.
pub open spec fn parse_repeat(elem: SpecSchema, count: nat, bytes: Seq<u8>) -> Result<
    (Seq<SpecValue>, nat),
    DecodeError,
>
    decreases elem, 1 + count,
{
    if count == 0 {
        Ok((Seq::empty(), 0))
    } else {
        match parse_repeat(elem, (count - 1) as nat, bytes) {
            Err(e) => Err(e),
            Ok((items, k)) => match parse(elem, bytes.skip(k as int)) {
                Err(e) => Err(e),
                Ok((v, j)) => Ok((items.push(v), k + j)),
            },
        }
    }
}

/// The first `count` fields of a record whose field layouts are `types`, one
/// after the other from the start of `bytes`.
pub open spec fn parse_fields(types: Seq<SpecSchema>, count: nat, bytes: Seq<u8>) -> Result<
    (Seq<SpecValue>, nat),
    DecodeError,
>
    decreases types, count,
{
    if count == 0 || count > types.len() {
        Ok((Seq::empty(), 0))
    } else {
        match parse_fields(types, (count - 1) as nat, bytes) {
            Err(e) => Err(e),
            Ok((fields, k)) => match parse(types[count - 1], bytes.skip(k as int)) {
                Err(e) => Err(e),
                Ok((v, j)) => Ok((fields.push(v), k + j)),
            },
        }
    }
}

/// One more value at the end adds its bytes at the end.
pub proof fn lemma_wire_all_push(items: Seq<SpecValue>, v: SpecValue)
    ensures
        wire_all(items.push(v)) == wire_all(items) + wire(v),
{
    let longer = items.push(v);
    assert(longer.drop_last() =~= items);
    assert(wire_all(longer) == wire_all(longer.drop_last()) + wire(longer.last()));
}

/// Once a field fails to parse, asking for more values fails the same way.
proof fn lemma_parse_repeat_stuck(elem: SpecSchema, done: nat, count: nat, bytes: Seq<u8>)
    requires
        done <= count,
        parse_repeat(elem, done, bytes) is Err,
    ensures
        parse_repeat(elem, count, bytes) == parse_repeat(elem, done, bytes),
    decreases count,
{
    if done < count {
        lemma_parse_repeat_stuck(elem, done, (count - 1) as nat, bytes);
        assert(parse_repeat(elem, count, bytes) == parse_repeat(elem, (count - 1) as nat, bytes));
    }
}

/// Once a field fails to parse, asking for more fields fails the same way.
proof fn lemma_parse_fields_stuck(types: Seq<SpecSchema>, done: nat, count: nat, bytes: Seq<u8>)
    requires
        done <= count <= types.len(),
        parse_fields(types, done, bytes) is Err,
    ensures
        parse_fields(types, count, bytes) == parse_fields(types, done, bytes),
    decreases count,
{
    if done < count {
        lemma_parse_fields_stuck(types, done, (count - 1) as nat, bytes);
        assert(parse_fields(types, count, bytes) == parse_fields(types, (count - 1) as nat, bytes));
    }
}

/// Writes the bytes of `value` at the end of `out`.
pub fn encode_into(value: &Value, out: &mut Vec<u8>)
    requires
        value@.representable(),
    ensures
        final(out)@ == old(out)@ + wire(value@),
    decreases value,
{
    match value {
        Value::U8(x) => append(out, put_uint(*x as u64, 1).as_slice()),
        Value::U16(x) => append(out, put_uint(*x as u64, 2).as_slice()),
        Value::U32(x) => append(out, put_uint(*x as u64, 4).as_slice()),
        Value::U64(x) => append(out, put_uint(*x, 8).as_slice()),
        Value::I8(x) => {
            let bits = #[verifier::truncate] (*x as u8);
            append(out, put_uint(bits as u64, 1).as_slice());
        },
        Value::I16(x) => {
            let bits = #[verifier::truncate] (*x as u16);
            append(out, put_uint(bits as u64, 2).as_slice());
        },
        Value::I32(x) => {
            let bits = #[verifier::truncate] (*x as u32);
            append(out, put_uint(bits as u64, 4).as_slice());
        },
        Value::I64(x) => {
            let bits = #[verifier::truncate] (*x as u64);
            append(out, put_uint(bits, 8).as_slice());
        },
        Value::Bool(b) => append(out, put_uint(if *b { 1 } else { 0 }, 1).as_slice()),
        Value::Text(s) => {
            let raw = s.as_str().as_bytes();
            append(out, put_uint(raw.len() as u64, 4).as_slice());
            append(out, raw);
            assert(out@ =~= old(out)@ + wire(value@));
        },
        Value::Bytes(b) => {
            append(out, put_uint(b.len() as u64, 4).as_slice());
            append(out, b.as_slice());
            assert(out@ =~= old(out)@ + wire(value@));
        },
        Value::List(items) => {
            proof {
                lemma_views(items@);
            }
            append(out, put_uint(items.len() as u64, 4).as_slice());
            encode_all(items, out);
            assert(out@ =~= old(out)@ + wire(value@));
        },
        Value::Record(fields) => encode_all(fields, out),
    }
}

/// Writes the bytes of each value of `items`, in order, at the end of `out`.
fn encode_all(items: &Vec<Value>, out: &mut Vec<u8>)
    requires
        all_representable(views(items@)),
    ensures
        final(out)@ == old(out)@ + wire_all(views(items@)),
    decreases items,
{
    let ghost models = views(items@);
    proof {
        lemma_views(items@);
        assert(models.take(0) =~= Seq::<SpecValue>::empty());
        assert(wire_all(models.take(0)) == Seq::<u8>::empty());
        assert(out@ =~= old(out)@ + Seq::<u8>::empty());
    }
    let mut i: usize = 0;
    while i < items.len()
        invariant
            i <= items.len(),
            models == views(items@),
            models.len() == items@.len(),
            forall|j: int| 0 <= j < items@.len() ==> (#[trigger] models[j]) == items@[j]@,
            forall|j: int| 0 <= j < models.len() ==> (#[trigger] models[j]).representable(),
            out@ == old(out)@ + wire_all(models.take(i as int)),
        decreases items.len() - i,
    {
        assert(models[i as int].representable());
        encode_into(&items[i], out);
        proof {
            lemma_wire_all_push(models.take(i as int), models[i as int]);
            assert(models.take(i + 1) =~= models.take(i as int).push(models[i as int]));
            assert(out@ =~= old(out)@ + wire_all(models.take(i + 1)));
        }
        i += 1;
    }
    assert(models.take(items@.len() as int) =~= models);
}

/// The bytes of `value`.
pub fn encode(value: &Value) -> (out: Vec<u8>)
    requires
        value@.representable(),
    ensures
        out@ == wire(value@),
{
    let mut out: Vec<u8> = Vec::new();
    encode_into(value, &mut out);
    assert(out@ =~= wire(value@));
    out
}

/// `String::from_utf8`: it succeeds exactly on well-formed UTF-8, and the
/// text it then returns is the one those bytes encode.
#[verifier::external_body]
fn text_from_utf8(raw: Vec<u8>) -> (out: Option<String>)
    ensures
        out is Some <==> valid_utf8(raw@),
        out matches Some(s) ==> s@ == decode_utf8(raw@),
{
    match String::from_utf8(raw) {
        Ok(s) => Some(s),
        Err(_) => None,
    }
}

/// `got` is what `expected` says of the bytes from `pos` on: the same value
/// and the position just after it, or the same error.
pub open spec fn agrees(
    got: Result<(Value, usize), DecodeError>,
    pos: usize,
    expected: Result<(SpecValue, nat), DecodeError>,
) -> bool {
    match expected {
        Ok((m, k)) => got matches Ok((v, next)) && v@ == m && next == pos + k,
        Err(e) => got matches Err(g) && g == e,
    }
}

/// As `agrees`, for a run of values.
pub open spec fn agrees_all(
    got: Result<(Vec<Value>, usize), DecodeError>,
    pos: usize,
    expected: Result<(Seq<SpecValue>, nat), DecodeError>,
) -> bool {
    match expected {
        Ok((ms, k)) => got matches Ok((vs, next)) && views(vs@) == ms && next == pos + k,
        Err(e) => got matches Err(g) && g == e,
    }
}

/// Reads a length-prefixed run of bytes that starts at `pos`.
fn decode_blob(bytes: &[u8], pos: usize) -> (got: Result<(Vec<u8>, usize), DecodeError>)
    requires
        pos <= bytes@.len(),
    ensures
        match parse_blob(bytes@.skip(pos as int)) {
            Ok((body, k)) => got matches Ok((v, next)) && v@ == body && next == pos + k,
            Err(e) => got matches Err(g) && g == e,
        },
        got matches Ok((_, next)) ==> pos <= next <= bytes@.len(),
{
    let rest = slice_subrange(bytes, pos, bytes.len());
    proof {
        lemma_pow256_values();
    }
    match take_uint(rest, 4) {
        None => Err(DecodeError::Truncated),
        Some(n) => {
            let n = n as usize;
            if bytes.len() - pos - 4 < n {
                Err(DecodeError::Truncated)
            } else {
                let body = slice_to_vec(slice_subrange(bytes, pos + 4, pos + 4 + n));
                assert(body@ =~= bytes@.skip(pos as int).subrange(4, 4 + n as int));
                Ok((body, pos + 4 + n))
            }
        },
    }
}

/// Reads the value of layout `schema` that starts at `pos`, and says where it ends.
fn decode_from(schema: &Schema, bytes: &[u8], pos: usize) -> (got: Result<
    (Value, usize),
    DecodeError,
>)
    requires
        pos <= bytes@.len(),
    ensures
        agrees(got, pos, parse(schema@, bytes@.skip(pos as int))),
        got matches Ok((_, next)) ==> pos <= next <= bytes@.len(),
    decreases schema, 0nat,
{
    let rest = slice_subrange(bytes, pos, bytes.len());
    proof {
        lemma_pow256_values();
    }
    match schema {
        Schema::U8 => match take_uint(rest, 1) {
            None => Err(DecodeError::Truncated),
            Some(n) => Ok((Value::U8(n as u8), pos + 1)),
        },
        Schema::U16 => match take_uint(rest, 2) {
            None => Err(DecodeError::Truncated),
            Some(n) => Ok((Value::U16(n as u16), pos + 2)),
        },
        Schema::U32 => match take_uint(rest, 4) {
            None => Err(DecodeError::Truncated),
            Some(n) => Ok((Value::U32(n as u32), pos + 4)),
        },
        Schema::U64 => match take_uint(rest, 8) {
            None => Err(DecodeError::Truncated),
            Some(n) => Ok((Value::U64(n), pos + 8)),
        },
        Schema::I8 => match take_uint(rest, 1) {
            None => Err(DecodeError::Truncated),
            Some(n) => {
                let bits = n as u8;
                Ok((Value::I8(#[verifier::truncate] (bits as i8)), pos + 1))
            },
        },
        Schema::I16 => match take_uint(rest, 2) {
            None => Err(DecodeError::Truncated),
            Some(n) => {
                let bits = n as u16;
                Ok((Value::I16(#[verifier::truncate] (bits as i16)), pos + 2))
            },
        },
        Schema::I32 => match take_uint(rest, 4) {
            None => Err(DecodeError::Truncated),
            Some(n) => {
                let bits = n as u32;
                Ok((Value::I32(#[verifier::truncate] (bits as i32)), pos + 4))
            },
        },
        Schema::I64 => match take_uint(rest, 8) {
            None => Err(DecodeError::Truncated),
            Some(n) => {
                let bits = n;
                Ok((Value::I64(#[verifier::truncate] (bits as i64)), pos + 8))
            },
        },
        Schema::Bool => match take_uint(rest, 1) {
            None => Err(DecodeError::Truncated),
            Some(n) => if n <= 1 {
                Ok((Value::Bool(n == 1), pos + 1))
            } else {
                Err(DecodeError::Malformed)
            },
        },
        Schema::Text => match decode_blob(bytes, pos) {
            Err(e) => Err(e),
            Ok((body, next)) => match text_from_utf8(body) {
                None => Err(DecodeError::Malformed),
                Some(s) => Ok((Value::Text(s), next)),
            },
        },
        Schema::Bytes => match decode_blob(bytes, pos) {
            Err(e) => Err(e),
            Ok((body, next)) => Ok((Value::Bytes(body), next)),
        },
        Schema::List(elem) => match take_uint(rest, 4) {
            None => Err(DecodeError::Truncated),
            Some(n) => {
                assert(bytes@.skip(pos + 4) =~= rest@.skip(4));
                match decode_repeat(&**elem, n as u32, bytes, pos + 4) {
                    Err(e) => Err(e),
                    Ok((items, next)) => Ok((Value::List(items), next)),
                }
            },
        },
        Schema::Record(types) => {
            proof {
                lemma_schema_views(types@);
            }
            match decode_fields(types, bytes, pos) {
                Err(e) => Err(e),
                Ok((fields, next)) => Ok((Value::Record(fields), next)),
            }
        },
    }
}

/// Reads `count` values of layout `elem`, one after the other from `pos`.
fn decode_repeat(elem: &Schema, count: u32, bytes: &[u8], pos: usize) -> (got: Result<
    (Vec<Value>, usize),
    DecodeError,
>)
    requires
        pos <= bytes@.len(),
    ensures
        agrees_all(got, pos, parse_repeat(elem@, count as nat, bytes@.skip(pos as int))),
        got matches Ok((_, next)) ==> pos <= next <= bytes@.len(),
    decreases elem, 1nat,
{
    let ghost tail = bytes@.skip(pos as int);
    let mut items: Vec<Value> = Vec::new();
    let mut cur: usize = pos;
    let mut i: u32 = 0;
    assert(views(items@) == Seq::<SpecValue>::empty());
    while i < count
        invariant
            i <= count,
            pos <= cur <= bytes@.len(),
            tail == bytes@.skip(pos as int),
            parse_repeat(elem@, i as nat, tail) == Ok::<(Seq<SpecValue>, nat), DecodeError>(
                (views(items@), (cur - pos) as nat),
            ),
        decreases count - i,
    {
        assert(tail.skip(cur - pos) =~= bytes@.skip(cur as int));
        match decode_from(elem, bytes, cur) {
            Err(e) => {
                proof {
                    assert(parse_repeat(elem@, (i + 1) as nat, tail) == Err::<
                        (Seq<SpecValue>, nat),
                        DecodeError,
                    >(e));
                    lemma_parse_repeat_stuck(elem@, (i + 1) as nat, count as nat, tail);
                }
                return Err(e);
            },
            Ok((v, next)) => {
                proof {
                    assert(items@.push(v).drop_last() =~= items@);
                    assert(views(items@.push(v)) == views(items@).push(v@));
                    assert(parse_repeat(elem@, (i + 1) as nat, tail) == Ok::<
                        (Seq<SpecValue>, nat),
                        DecodeError,
                    >((views(items@).push(v@), (next - pos) as nat)));
                }
                items.push(v);
                cur = next;
                i += 1;
            },
        }
    }
    Ok((items, cur))
}

/// Reads the fields of a record whose field layouts are `types`, one after
/// the other from `pos`.
fn decode_fields(types: &Vec<Schema>, bytes: &[u8], pos: usize) -> (got: Result<
    (Vec<Value>, usize),
    DecodeError,
>)
    requires
        pos <= bytes@.len(),
    ensures
        agrees_all(
            got,
            pos,
            parse_fields(schema_views(types@), types@.len(), bytes@.skip(pos as int)),
        ),
        got matches Ok((_, next)) ==> pos <= next <= bytes@.len(),
    decreases types, 0nat,
{
    let ghost tail = bytes@.skip(pos as int);
    let ghost layouts = schema_views(types@);
    proof {
        lemma_schema_views(types@);
    }
    let mut fields: Vec<Value> = Vec::new();
    let mut cur: usize = pos;
    let mut i: usize = 0;
    assert(views(fields@) == Seq::<SpecValue>::empty());
    while i < types.len()
        invariant
            i <= types.len(),
            pos <= cur <= bytes@.len(),
            tail == bytes@.skip(pos as int),
            layouts == schema_views(types@),
            layouts.len() == types@.len(),
            forall|j: int| 0 <= j < types@.len() ==> (#[trigger] layouts[j]) == types@[j]@,
            parse_fields(layouts, i as nat, tail) == Ok::<(Seq<SpecValue>, nat), DecodeError>(
                (views(fields@), (cur - pos) as nat),
            ),
        decreases types.len() - i,
    {
        assert(tail.skip(cur - pos) =~= bytes@.skip(cur as int));
        assert(layouts[i as int] == types@[i as int]@);
        match decode_from(&types[i], bytes, cur) {
            Err(e) => {
                proof {
                    assert(parse_fields(layouts, (i + 1) as nat, tail) == Err::<
                        (Seq<SpecValue>, nat),
                        DecodeError,
                    >(e));
                    lemma_parse_fields_stuck(layouts, (i + 1) as nat, types@.len(), tail);
                }
                return Err(e);
            },
            Ok((v, next)) => {
                proof {
                    assert(fields@.push(v).drop_last() =~= fields@);
                    assert(views(fields@.push(v)) == views(fields@).push(v@));
                    assert(parse_fields(layouts, (i + 1) as nat, tail) == Ok::<
                        (Seq<SpecValue>, nat),
                        DecodeError,
                    >((views(fields@).push(v@), (next - pos) as nat)));
                }
                fields.push(v);
                cur = next;
                i += 1;
            },
        }
    }
    Ok((fields, cur))
}

/// Reads the value of layout `schema` that starts at `pos`, and says where
/// it ends. A position past the end of `bytes` is reported as `Truncated`.
pub fn decode_at(schema: &Schema, bytes: &[u8], pos: usize) -> (got: Result<
    (Value, usize),
    DecodeError,
>)
    ensures
        pos <= bytes@.len() ==> agrees(got, pos, parse(schema@, bytes@.skip(pos as int))),
        pos > bytes@.len() ==> got == Err::<(Value, usize), DecodeError>(DecodeError::Truncated),
        got matches Ok((_, next)) ==> pos <= next <= bytes@.len(),
{
    if pos > bytes.len() {
        Err(DecodeError::Truncated)
    } else {
        decode_from(schema, bytes, pos)
    }
}

/// Reads the value of layout `schema` at the start of `bytes`. Bytes after
/// the value are ignored.
pub fn decode(schema: &Schema, bytes: &[u8]) -> (got: Result<Value, DecodeError>)
    ensures
        match parse(schema@, bytes@) {
            Ok((m, _)) => got matches Ok(v) && v@ == m,
            Err(e) => got matches Err(g) && g == e,
        },
{
    assert(bytes@.skip(0) =~= bytes@);
    match decode_from(schema, bytes, 0) {
        Ok((v, _)) => Ok(v),
        Err(e) => Err(e),
    }
}

} // verus!
