//! Structured values, their mathematical model, and the schemas that describe
//! how a value is laid out on the wire.

use vstd::prelude::*;
use vstd::slice::slice_to_vec;
use vstd::utf8::encode_utf8;

verus! {

/// The largest length that a length prefix can carry.
pub const MAX_LEN: usize = 0xffff_ffff;

/// The mathematical model of a structured value.
pub enum SpecValue {
    U8(u8),
    U16(u16),
    U32(u32),
    U64(u64),
    I8(i8),
    I16(i16),
    I32(i32),
    I64(i64),
    Bool(bool),
    Text(Seq<char>),
    Bytes(Seq<u8>),
    List(Seq<SpecValue>),
    Record(Seq<SpecValue>),
}

/// A structured value: a primitive, a text, a byte string, a homogeneous
/// list, or a record whose fields are listed in their declared order.
#[derive(Debug, PartialEq, Eq)]
pub enum Value {
    U8(u8),
    U16(u16),
    U32(u32),
    U64(u64),
    I8(i8),
    I16(i16),
    I32(i32),
    I64(i64),
    Bool(bool),
    Text(String),
    Bytes(Vec<u8>),
    List(Vec<Value>),
    Record(Vec<Value>),
}

/// The layout of a value: which kind of field stands where.
#[derive(Debug, PartialEq, Eq)]
pub enum Schema {
    U8,
    U16,
    U32,
    U64,
    I8,
    I16,
    I32,
    I64,
    Bool,
    Text,
    Bytes,
    List(Box<Schema>),
    Record(Vec<Schema>),
}

/// The mathematical model of a schema.
pub enum SpecSchema {
    U8,
    U16,
    U32,
    U64,
    I8,
    I16,
    I32,
    I64,
    Bool,
    Text,
    Bytes,
    List(Box<SpecSchema>),
    Record(Seq<SpecSchema>),
}

impl View for Schema {
    type V = SpecSchema;

    open spec fn view(&self) -> SpecSchema
        decreases self,
    {
        match self {
            Schema::U8 => SpecSchema::U8,
            Schema::U16 => SpecSchema::U16,
            Schema::U32 => SpecSchema::U32,
            Schema::U64 => SpecSchema::U64,
            Schema::I8 => SpecSchema::I8,
            Schema::I16 => SpecSchema::I16,
            Schema::I32 => SpecSchema::I32,
            Schema::I64 => SpecSchema::I64,
            Schema::Bool => SpecSchema::Bool,
            Schema::Text => SpecSchema::Text,
            Schema::Bytes => SpecSchema::Bytes,
            Schema::List(elem) => SpecSchema::List(Box::new((**elem).view())),
            Schema::Record(types) => SpecSchema::Record(schema_views(types@)),
        }
    }
}

/// The models of a sequence of schemas, in order.
pub open spec fn schema_views(types: Seq<Schema>) -> Seq<SpecSchema>
    decreases types,
{
    if types.len() == 0 {
        Seq::empty()
    } else {
        schema_views(types.drop_last()).push(types.last().view())
    }
}

/// `schema_views` keeps the length and models each schema in place.
pub proof fn lemma_schema_views(types: Seq<Schema>)
    ensures
        schema_views(types).len() == types.len(),
        forall|i: int| 0 <= i < types.len() ==> (#[trigger] schema_views(types)[i]) == types[i]@,
    decreases types.len(),
{
    if types.len() > 0 {
        lemma_schema_views(types.drop_last());
        assert(schema_views(types) == schema_views(types.drop_last()).push(types.last().view()));
    } else {
        assert(schema_views(types) == Seq::<SpecSchema>::empty());
    }
}

impl View for Value {
    type V = SpecValue;

    open spec fn view(&self) -> SpecValue
        decreases self,
    {
        match self {
            Value::U8(x) => SpecValue::U8(*x),
            Value::U16(x) => SpecValue::U16(*x),
            Value::U32(x) => SpecValue::U32(*x),
            Value::U64(x) => SpecValue::U64(*x),
            Value::I8(x) => SpecValue::I8(*x),
            Value::I16(x) => SpecValue::I16(*x),
            Value::I32(x) => SpecValue::I32(*x),
            Value::I64(x) => SpecValue::I64(*x),
            Value::Bool(b) => SpecValue::Bool(*b),
            Value::Text(s) => SpecValue::Text(s@),
            Value::Bytes(b) => SpecValue::Bytes(b@),
            Value::List(items) => SpecValue::List(views(items@)),
            Value::Record(fields) => SpecValue::Record(views(fields@)),
        }
    }
}

/// The models of a sequence of values, in order.
pub open spec fn views(items: Seq<Value>) -> Seq<SpecValue>
    decreases items,
{
    if items.len() == 0 {
        Seq::empty()
    } else {
        views(items.drop_last()).push(items.last().view())
    }
}

/// `views` keeps the length and models each value in place.
pub proof fn lemma_views(items: Seq<Value>)
    ensures
        views(items).len() == items.len(),
        forall|i: int| 0 <= i < items.len() ==> (#[trigger] views(items)[i]) == items[i]@,
    decreases items.len(),
{
    if items.len() > 0 {
        lemma_views(items.drop_last());
        assert(views(items) == views(items.drop_last()).push(items.last().view()));
    } else {
        assert(views(items) == Seq::<SpecValue>::empty());
    }
}

impl SpecValue {
    /// Every length in the value fits in a length prefix.
    pub open spec fn representable(self) -> bool
        decreases self,
    {
        match self {
            SpecValue::Text(s) => encode_utf8(s).len() <= MAX_LEN,
            SpecValue::Bytes(b) => b.len() <= MAX_LEN,
            SpecValue::List(items) => items.len() <= MAX_LEN && all_representable(items),
            SpecValue::Record(fields) => all_representable(fields),
            _ => true,
        }
    }

    /// The value has the layout that `schema` describes.
    pub open spec fn conforms(self, schema: SpecSchema) -> bool
        decreases self,
    {
        match (self, schema) {
            (SpecValue::U8(_), SpecSchema::U8) => true,
            (SpecValue::U16(_), SpecSchema::U16) => true,
            (SpecValue::U32(_), SpecSchema::U32) => true,
            (SpecValue::U64(_), SpecSchema::U64) => true,
            (SpecValue::I8(_), SpecSchema::I8) => true,
            (SpecValue::I16(_), SpecSchema::I16) => true,
            (SpecValue::I32(_), SpecSchema::I32) => true,
            (SpecValue::I64(_), SpecSchema::I64) => true,
            (SpecValue::Bool(_), SpecSchema::Bool) => true,
            (SpecValue::Text(_), SpecSchema::Text) => true,
            (SpecValue::Bytes(_), SpecSchema::Bytes) => true,
            (SpecValue::List(items), SpecSchema::List(elem)) => all_conform(items, *elem),
            (SpecValue::Record(fields), SpecSchema::Record(types)) => fields_conform(fields, types),
            _ => false,
        }
    }
}

/// Every value of `items` is representable.
pub open spec fn all_representable(items: Seq<SpecValue>) -> bool
    decreases items,
{
    forall|i: int| 0 <= i < items.len() ==> (#[trigger] items[i]).representable()
}

/// Every value of `items` has the layout `elem`.
pub open spec fn all_conform(items: Seq<SpecValue>, elem: SpecSchema) -> bool
    decreases items,
{
    forall|i: int| 0 <= i < items.len() ==> (#[trigger] items[i]).conforms(elem)
}

/// There are as many fields as layouts, and each field has the layout at its place.
pub open spec fn fields_conform(fields: Seq<SpecValue>, types: Seq<SpecSchema>) -> bool
    decreases fields,
{
    fields.len() == types.len() && forall|i: int|
        0 <= i < fields.len() ==> (#[trigger] fields[i]).conforms(types[i])
}

impl Clone for Schema {
    /// A schema with the same layout.
    fn clone(&self) -> (out: Schema)
        ensures
            out@ == self@,
        decreases self,
    {
        match self {
            Schema::U8 => Schema::U8,
            Schema::U16 => Schema::U16,
            Schema::U32 => Schema::U32,
            Schema::U64 => Schema::U64,
            Schema::I8 => Schema::I8,
            Schema::I16 => Schema::I16,
            Schema::I32 => Schema::I32,
            Schema::I64 => Schema::I64,
            Schema::Bool => Schema::Bool,
            Schema::Text => Schema::Text,
            Schema::Bytes => Schema::Bytes,
            Schema::List(elem) => Schema::List(Box::new((**elem).clone())),
            Schema::Record(types) => Schema::Record(clone_schemas(types)),
        }
    }
}

/// Schemas with the same layouts, in the same order.
fn clone_schemas(types: &Vec<Schema>) -> (out: Vec<Schema>)
    ensures
        schema_views(out@) == schema_views(types@),
    decreases types,
{
    let mut out: Vec<Schema> = Vec::new();
    let mut i: usize = 0;
    assert(types@.take(0) =~= out@);
    while i < types.len()
        invariant
            i <= types.len(),
            schema_views(out@) == schema_views(types@.take(i as int)),
        decreases types.len() - i,
    {
        let copy = types[i].clone();
        proof {
            assert(out@.push(copy).drop_last() =~= out@);
            assert(types@.take(i + 1).drop_last() =~= types@.take(i as int));
            assert(schema_views(out@.push(copy)) == schema_views(out@).push(copy@));
            assert(schema_views(types@.take(i + 1)) == schema_views(types@.take(i as int)).push(
                types@[i as int]@,
            ));
        }
        out.push(copy);
        i += 1;
    }
    assert(types@.take(types@.len() as int) =~= types@);
    out
}

impl Clone for Value {
    /// A value that holds the same.
    fn clone(&self) -> (out: Value)
        ensures
            out@ == self@,
        decreases self,
    {
        match self {
            Value::U8(x) => Value::U8(*x),
            Value::U16(x) => Value::U16(*x),
            Value::U32(x) => Value::U32(*x),
            Value::U64(x) => Value::U64(*x),
            Value::I8(x) => Value::I8(*x),
            Value::I16(x) => Value::I16(*x),
            Value::I32(x) => Value::I32(*x),
            Value::I64(x) => Value::I64(*x),
            Value::Bool(x) => Value::Bool(*x),
            Value::Text(s) => Value::Text(s.clone()),
            Value::Bytes(b) => Value::Bytes(slice_to_vec(b.as_slice())),
            Value::List(items) => Value::List(clone_values(items)),
            Value::Record(fields) => Value::Record(clone_values(fields)),
        }
    }
}

/// Values that hold the same, in the same order.
fn clone_values(items: &Vec<Value>) -> (out: Vec<Value>)
    ensures
        views(out@) == views(items@),
    decreases items,
{
    let mut out: Vec<Value> = Vec::new();
    let mut i: usize = 0;
    assert(items@.take(0) =~= out@);
    while i < items.len()
        invariant
            i <= items.len(),
            views(out@) == views(items@.take(i as int)),
        decreases items.len() - i,
    {
        let copy = items[i].clone();
        proof {
            assert(out@.push(copy).drop_last() =~= out@);
            assert(items@.take(i + 1).drop_last() =~= items@.take(i as int));
            assert(views(out@.push(copy)) == views(out@).push(copy@));
            assert(views(items@.take(i + 1)) == views(items@.take(i as int)).push(
                items@[i as int]@,
            ));
        }
        out.push(copy);
        i += 1;
    }
    assert(items@.take(items@.len() as int) =~= items@);
    out
}

impl Value {
    /// Whether every length in the value fits in a length prefix.
    pub fn is_representable(&self) -> (ok: bool)
        ensures
            ok == self@.representable(),
        decreases self,
    {
        match self {
            Value::Text(s) => s.as_str().as_bytes().len() <= MAX_LEN,
            Value::Bytes(b) => b.len() <= MAX_LEN,
            Value::List(items) => {
                proof {
                    lemma_views(items@);
                }
                items.len() <= MAX_LEN && each_representable(items)
            },
            Value::Record(fields) => each_representable(fields),
            _ => true,
        }
    }

    /// Whether the value has the layout that `schema` describes.
    pub fn conforms_to(&self, schema: &Schema) -> (ok: bool)
        ensures
            ok == self@.conforms(schema@),
        decreases self,
    {
        match (self, schema) {
            (Value::U8(_), Schema::U8) => true,
            (Value::U16(_), Schema::U16) => true,
            (Value::U32(_), Schema::U32) => true,
            (Value::U64(_), Schema::U64) => true,
            (Value::I8(_), Schema::I8) => true,
            (Value::I16(_), Schema::I16) => true,
            (Value::I32(_), Schema::I32) => true,
            (Value::I64(_), Schema::I64) => true,
            (Value::Bool(_), Schema::Bool) => true,
            (Value::Text(_), Schema::Text) => true,
            (Value::Bytes(_), Schema::Bytes) => true,
            (Value::List(items), Schema::List(elem)) => each_conforms(items, &**elem),
            (Value::Record(fields), Schema::Record(types)) => each_conforms_in_turn(fields, types),
            _ => false,
        }
    }
}

/// Whether every value of `items` has the layout `elem`.
fn each_conforms(items: &Vec<Value>, elem: &Schema) -> (ok: bool)
    ensures
        ok == all_conform(views(items@), elem@),
    decreases items,
{
    proof {
        lemma_views(items@);
    }
    let mut i: usize = 0;
    while i < items.len()
        invariant
            i <= items.len(),
            views(items@).len() == items@.len(),
            forall|j: int| 0 <= j < items@.len() ==> (#[trigger] views(items@)[j]) == items@[j]@,
            forall|j: int| 0 <= j < i ==> (#[trigger] views(items@)[j]).conforms(elem@),
        decreases items.len() - i,
    {
        if !items[i].conforms_to(elem) {
            assert(!views(items@)[i as int].conforms(elem@));
            return false;
        }
        i += 1;
    }
    true
}

/// Whether there are as many fields as layouts and each field has the layout
/// at its place.
fn each_conforms_in_turn(fields: &Vec<Value>, types: &Vec<Schema>) -> (ok: bool)
    ensures
        ok == fields_conform(views(fields@), schema_views(types@)),
    decreases fields,
{
    proof {
        lemma_views(fields@);
        lemma_schema_views(types@);
    }
    if fields.len() != types.len() {
        return false;
    }
    let ghost models = schema_views(types@);
    let mut i: usize = 0;
    while i < fields.len()
        invariant
            i <= fields.len(),
            fields@.len() == types@.len(),
            models == schema_views(types@),
            models.len() == types@.len(),
            forall|j: int| 0 <= j < types@.len() ==> (#[trigger] models[j]) == types@[j]@,
            views(fields@).len() == fields@.len(),
            forall|j: int| 0 <= j < fields@.len() ==> (#[trigger] views(fields@)[j]) == fields@[j]@,
            forall|j: int| 0 <= j < i ==> (#[trigger] views(fields@)[j]).conforms(models[j]),
        decreases fields.len() - i,
    {
        if !fields[i].conforms_to(&types[i]) {
            assert(!views(fields@)[i as int].conforms(models[i as int]));
            return false;
        }
        i += 1;
    }
    true
}

/// Whether every value of `items` is representable.
fn each_representable(items: &Vec<Value>) -> (ok: bool)
    ensures
        ok == all_representable(views(items@)),
    decreases items,
{
    proof {
        lemma_views(items@);
    }
    let mut i: usize = 0;
    while i < items.len()
        invariant
            i <= items.len(),
            views(items@).len() == items@.len(),
            forall|j: int| 0 <= j < items@.len() ==> (#[trigger] views(items@)[j]) == items@[j]@,
            forall|j: int| 0 <= j < i ==> (#[trigger] views(items@)[j]).representable(),
        decreases items.len() - i,
    {
        if !items[i].is_representable() {
            assert(!views(items@)[i as int].representable());
            return false;
        }
        i += 1;
    }
    true
}

} // verus!
