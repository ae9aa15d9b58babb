//! Binding encoded bytes to a tensor buffer: resolving the requested shape,
//! sizing the buffer, laying the bytes out in it, and reading them back.

use vstd::prelude::*;
use vstd::slice::slice_to_vec;
use crate::codec::{decode, parse, DecodeError};
use crate::endian::{append, zeros};
use crate::value::{Schema, Value};

verus! {

/// How many extents a tensor has.
#[derive(Clone, Copy, Debug, PartialEq, Eq)]
pub enum Dimension {
    Scalar,
    D1,
    D2,
    D3,
}

/// Why bytes could not be bound to a tensor.
#[derive(Clone, Copy, Debug, PartialEq, Eq)]
pub enum BindError {
    /// The shape does not give the extents that the dimension asks for.
    MissingExtent,
    /// The bytes are longer than the tensor.
    CapacityExceeded,
}

impl Dimension {
    /// The number of extents of a tensor of this dimension.
    pub open spec fn rank(self) -> nat {
        match self {
            Dimension::Scalar => 0,
            Dimension::D1 => 1,
            Dimension::D2 => 2,
            Dimension::D3 => 3,
        }
    }

    /// The number of extents of a tensor of this dimension.
    pub fn extent_count(&self) -> (n: usize)
        ensures
            n == self.rank(),
    {
        match self {
            Dimension::Scalar => 0,
            Dimension::D1 => 1,
            Dimension::D2 => 2,
            Dimension::D3 => 3,
        }
    }

    /// The dimension of a tensor with `n` extents, where there is one.
    pub fn with_extents(n: usize) -> (dim: Option<Dimension>)
        ensures
            dim is Some <==> n <= 3,
            dim matches Some(d) ==> d.rank() == n,
    {
        if n == 0 {
            Some(Dimension::Scalar)
        } else if n == 1 {
            Some(Dimension::D1)
        } else if n == 2 {
            Some(Dimension::D2)
        } else if n == 3 {
            Some(Dimension::D3)
        } else {
            None
        }
    }
}

/// The number of elements of a tensor with the given extents: their product.
pub open spec fn capacity(extents: Seq<usize>) -> nat
    decreases extents.len(),
{
    if extents.len() == 0 {
        1
    } else {
        capacity(extents.drop_last()) * (extents.last() as nat)
    }
}

/// The extents that a shape request asks for when `len` bytes are to be
/// stored, or `None` where the request does not fit the dimension. A scalar
/// has no extents, whatever the request holds. One dimension takes at most
/// one entry, and an absent one stands for `len`. Two and three dimensions
/// take exactly that many entries, all present.
pub open spec fn resolved(dim: Dimension, shape: Seq<Option<usize>>, len: usize) -> Option<
    Seq<usize>,
> {
    match dim {
        Dimension::Scalar => Some(Seq::empty()),
        Dimension::D1 => if shape.len() == 0 {
            Some(seq![len])
        } else if shape.len() == 1 {
            Some(
                seq![match shape[0] {
                    Some(n) => n,
                    None => len,
                }],
            )
        } else {
            None
        },
        Dimension::D2 => if shape.len() == 2 && shape[0] is Some && shape[1] is Some {
            Some(seq![shape[0]->0, shape[1]->0])
        } else {
            None
        },
        Dimension::D3 => if shape.len() == 3 && shape[0] is Some && shape[1] is Some
            && shape[2] is Some {
            Some(seq![shape[0]->0, shape[1]->0, shape[2]->0])
        } else {
            None
        },
    }
}

/// What a tensor of `cap` elements holds once `bytes` are bound to it: the
/// bytes from the first element on and zeros after them. A scalar keeps none
/// of the bytes and stays zero.
pub open spec fn stored(dim: Dimension, bytes: Seq<u8>, cap: nat) -> Seq<u8> {
    let kept = if dim is Scalar {
        Seq::empty()
    } else {
        bytes
    };
    kept + zeros((cap - kept.len()) as nat)
}

/// The mathematical model of a tensor of bytes.
pub struct TensorView {
    pub dim: Dimension,
    pub extents: Seq<usize>,
    pub data: Seq<u8>,
}

impl TensorView {
    /// There is one extent per dimension and one stored byte per element.
    pub open spec fn wf(self) -> bool {
        self.extents.len() == self.dim.rank() && self.data.len() == capacity(self.extents)
    }
}

/// A tensor of bytes: fixed extents, and a buffer with one byte per element.
#[derive(Debug, PartialEq, Eq)]
pub struct Tensor {
    dim: Dimension,
    extents: Vec<usize>,
    data: Vec<u8>,
}

impl View for Tensor {
    type V = TensorView;

    closed spec fn view(&self) -> TensorView {
        TensorView { dim: self.dim, extents: self.extents@, data: self.data@ }
    }
}

/// An extent of zero makes the capacity zero.
proof fn lemma_capacity_zero(extents: Seq<usize>, at: int)
    requires
        0 <= at < extents.len(),
        extents[at] == 0,
    ensures
        capacity(extents) == 0,
    decreases extents.len(),
{
    let init = extents.drop_last();
    if at < extents.len() - 1 {
        lemma_capacity_zero(init, at);
    }
    assert(capacity(extents) == capacity(init) * (extents.last() as nat));
    assert(capacity(init) == 0 || extents.last() == 0);
    assert(capacity(init) * (extents.last() as nat) == 0) by (nonlinear_arith)
        requires
            capacity(init) == 0 || extents.last() as nat == 0,
    ;
}

/// One more extent multiplies the capacity by it.
proof fn lemma_capacity_step(extents: Seq<usize>, n: int)
    requires
        0 <= n < extents.len(),
    ensures
        capacity(extents.take(n + 1)) == capacity(extents.take(n)) * (extents[n] as nat),
{
    let longer = extents.take(n + 1);
    assert(longer.drop_last() =~= extents.take(n));
    assert(capacity(longer) == capacity(longer.drop_last()) * (longer.last() as nat));
}

/// Without a zero extent, the capacity of the leading extents is at most the
/// capacity of all of them.
proof fn lemma_capacity_grows(extents: Seq<usize>, n: int)
    requires
        0 <= n <= extents.len(),
        forall|j: int| 0 <= j < extents.len() ==> extents[j] >= 1,
    ensures
        capacity(extents.take(n)) <= capacity(extents),
    decreases extents.len(),
{
    if n == extents.len() {
        assert(extents.take(n) =~= extents);
    } else {
        let init = extents.drop_last();
        assert(init.take(n) =~= extents.take(n));
        lemma_capacity_grows(init, n);
        assert(capacity(extents) == capacity(init) * (extents.last() as nat));
        assert(capacity(init) <= capacity(init) * (extents.last() as nat)) by (nonlinear_arith)
            requires
                extents.last() as nat >= 1,
        ;
    }
}

/// The capacity of a tensor of each rank in use: one for a scalar, else the
/// product of the extents.
pub proof fn lemma_capacity_by_rank(a: usize, b: usize, c: usize)
    ensures
        capacity(Seq::empty()) == 1,
        capacity(seq![a]) == a,
        capacity(seq![a, b]) == a * b,
        capacity(seq![a, b, c]) == a * b * c,
{
    assert(capacity(Seq::<usize>::empty()) == 1);
    assert(seq![a].drop_last() =~= Seq::<usize>::empty());
    assert(seq![a, b].drop_last() =~= seq![a]);
    assert(seq![a, b, c].drop_last() =~= seq![a, b]);
    assert(capacity(seq![a]) == capacity(seq![a].drop_last()) * (a as nat));
    assert(capacity(seq![a, b]) == capacity(seq![a]) * (b as nat));
    assert(capacity(seq![a, b, c]) == capacity(seq![a, b]) * (c as nat));
}

/// The capacity of a tensor with the given extents, where it fits the machine.
pub fn checked_capacity(extents: &[usize]) -> (cap: Option<usize>)
    ensures
        cap matches Some(c) ==> c as nat == capacity(extents@),
        cap is None ==> capacity(extents@) > usize::MAX,
{
    let mut i: usize = 0;
    while i < extents.len()
        invariant
            i <= extents.len(),
            forall|j: int| 0 <= j < i ==> extents@[j] >= 1,
        decreases extents.len() - i,
    {
        if extents[i] == 0 {
            proof {
                lemma_capacity_zero(extents@, i as int);
            }
            return Some(0);
        }
        i += 1;
    }
    let mut acc: usize = 1;
    let mut n: usize = 0;
    assert(extents@.take(0) =~= Seq::<usize>::empty());
    while n < extents.len()
        invariant
            n <= extents.len(),
            forall|j: int| 0 <= j < extents@.len() ==> extents@[j] >= 1,
            acc as nat == capacity(extents@.take(n as int)),
        decreases extents.len() - n,
    {
        proof {
            lemma_capacity_step(extents@, n as int);
            lemma_capacity_grows(extents@, n + 1);
        }
        match acc.checked_mul(extents[n]) {
            None => {
                return None;
            },
            Some(next) => {
                acc = next;
            },
        }
        n += 1;
    }
    assert(extents@.take(extents@.len() as int) =~= extents@);
    Some(acc)
}

/// Resolves a shape request for `len` bytes into extents, or reports that an
/// extent is missing. Nothing is allocated.
pub fn resolve_extents(dim: Dimension, shape: &[Option<usize>], len: usize) -> (got: Result<
    Vec<usize>,
    BindError,
>)
    ensures
        match resolved(dim, shape@, len) {
            Some(e) => got matches Ok(v) && v@ == e,
            None => got == Err::<Vec<usize>, BindError>(BindError::MissingExtent),
        },
{
    let mut extents: Vec<usize> = Vec::new();
    match dim {
        Dimension::Scalar => {},
        Dimension::D1 => {
            if shape.len() == 0 {
                extents.push(len);
            } else if shape.len() == 1 {
                match shape[0] {
                    Some(n) => extents.push(n),
                    None => extents.push(len),
                }
            } else {
                return Err(BindError::MissingExtent);
            }
        },
        Dimension::D2 => {
            if shape.len() != 2 {
                return Err(BindError::MissingExtent);
            }
            match (shape[0], shape[1]) {
                (Some(a), Some(b)) => {
                    extents.push(a);
                    extents.push(b);
                },
                _ => {
                    return Err(BindError::MissingExtent);
                },
            }
        },
        Dimension::D3 => {
            if shape.len() != 3 {
                return Err(BindError::MissingExtent);
            }
            match (shape[0], shape[1], shape[2]) {
                (Some(a), Some(b), Some(c)) => {
                    extents.push(a);
                    extents.push(b);
                    extents.push(c);
                },
                _ => {
                    return Err(BindError::MissingExtent);
                },
            }
        },
    }
    assert(resolved(dim, shape@, len) matches Some(e) && e =~= extents@);
    Ok(extents)
}

impl Clone for Tensor {
    /// A tensor of the same shape that holds the same bytes.
    fn clone(&self) -> (out: Tensor)
        ensures
            out@ == self@,
    {
        proof {
            use_type_invariant(self);
        }
        Tensor {
            dim: self.dim,
            extents: slice_to_vec(self.extents.as_slice()),
            data: slice_to_vec(self.data.as_slice()),
        }
    }
}

impl Tensor {
    #[verifier::type_invariant]
    spec fn inv(&self) -> bool {
        self@.wf()
    }

    /// The tensor with the given dimension, extents and storage, where these
    /// fit together: one extent per dimension, one byte per element.
    pub fn from_storage(dim: Dimension, extents: Vec<usize>, data: Vec<u8>) -> (got: Option<
        Tensor,
    >)
        ensures
            got is Some <==> (TensorView { dim, extents: extents@, data: data@ }).wf(),
            got matches Some(t) ==> t@ == (TensorView { dim, extents: extents@, data: data@ }),
    {
        if extents.len() != dim.extent_count() {
            return None;
        }
        let stored = data.len();
        match checked_capacity(extents.as_slice()) {
            Some(cap) => if cap == stored {
                Some(Tensor { dim, extents, data })
            } else {
                None
            },
            None => None,
        }
    }

    /// The tensor's dimension.
    pub fn dim(&self) -> (d: Dimension)
        ensures
            d == self@.dim,
    {
        self.dim
    }

    /// The tensor's extents.
    pub fn extents(&self) -> (e: &Vec<usize>)
        ensures
            e@ == self@.extents,
            self@.wf(),
    {
        proof {
            use_type_invariant(self);
        }
        &self.extents
    }

    /// The number of elements of the tensor.
    pub fn capacity(&self) -> (c: usize)
        ensures
            c as nat == capacity(self@.extents),
            self@.wf(),
    {
        proof {
            use_type_invariant(self);
        }
        self.data.len()
    }
}

/// Makes a tensor of the requested shape and binds `bytes` to it.
///
/// The shape is resolved first, and a request that does not fit the dimension
/// is refused before anything is allocated. The tensor is then allocated
/// zeroed, and the bytes are laid out from its first element on; bytes that
/// are longer than the tensor are refused. A scalar tensor has one element
/// and stays zero.
pub fn allocate_and_fill(dim: Dimension, shape: &[Option<usize>], bytes: &[u8]) -> (got: Result<
    Tensor,
    BindError,
>)
    requires
        resolved(dim, shape@, bytes.len()) matches Some(e) ==> capacity(e) <= usize::MAX,
    ensures
        resolved(dim, shape@, bytes.len()) is None <==> got == Err::<Tensor, BindError>(
            BindError::MissingExtent,
        ),
        resolved(dim, shape@, bytes.len()) matches Some(e) ==> {
            &&& capacity(e) < bytes@.len() <==> got == Err::<Tensor, BindError>(
                BindError::CapacityExceeded,
            )
            &&& capacity(e) >= bytes@.len() <==> got is Ok
        },
        got matches Ok(t) ==> {
            &&& t@.wf()
            &&& t@.dim == dim
            &&& Some(t@.extents) == resolved(dim, shape@, bytes.len())
            &&& t@.data == stored(dim, bytes@, capacity(t@.extents))
        },
{
    match resolve_extents(dim, shape, bytes.len()) {
        Err(e) => Err(e),
        Ok(extents) => match checked_capacity(extents.as_slice()) {
            None => unreached(),
            Some(cap) => fill(dim, extents, cap, bytes),
        },
    }
}

/// Allocates a zeroed tensor of `cap` elements with the given extents and
/// lays `bytes` out in it.
fn fill(dim: Dimension, extents: Vec<usize>, cap: usize, bytes: &[u8]) -> (got: Result<
    Tensor,
    BindError,
>)
    requires
        extents@.len() == dim.rank(),
        cap as nat == capacity(extents@),
    ensures
        cap < bytes@.len() <==> got == Err::<Tensor, BindError>(BindError::CapacityExceeded),
        cap >= bytes@.len() <==> got is Ok,
        got matches Ok(t) ==> {
            &&& t@.wf()
            &&& t@.dim == dim
            &&& t@.extents == extents@
            &&& t@.data == stored(dim, bytes@, cap as nat)
        },
{
    if bytes.len() > cap {
        return Err(BindError::CapacityExceeded);
    }
    let mut data: Vec<u8> = Vec::new();
    match dim {
        Dimension::Scalar => {},
        _ => {
            append(&mut data, bytes);
        },
    }
    let ghost kept = data@;
    assert(data@ =~= kept + zeros(0));
    while data.len() < cap
        invariant
            kept.len() <= data@.len() <= cap,
            data@ == kept + zeros((data@.len() - kept.len()) as nat),
        decreases cap - data.len(),
    {
        data.push(0);
        assert(data@ =~= kept + zeros((data@.len() - kept.len()) as nat));
    }
    Ok(Tensor { dim, extents, data })
}

/// As `allocate_and_fill`, for any request: `None` where the requested
/// tensor would have more elements than the machine can count.
pub fn try_allocate_and_fill(dim: Dimension, shape: &[Option<usize>], bytes: &[u8]) -> (got:
    Option<Result<Tensor, BindError>>)
    ensures
        got is None <==> (resolved(dim, shape@, bytes.len()) matches Some(e) && capacity(e)
            > usize::MAX),
        got matches Some(r) ==> {
            &&& resolved(dim, shape@, bytes.len()) is None <==> r == Err::<Tensor, BindError>(
                BindError::MissingExtent,
            )
            &&& resolved(dim, shape@, bytes.len()) matches Some(e) ==> {
                &&& capacity(e) < bytes@.len() <==> r == Err::<Tensor, BindError>(
                    BindError::CapacityExceeded,
                )
                &&& capacity(e) >= bytes@.len() <==> r is Ok
            }
            &&& r matches Ok(t) ==> {
                &&& t@.wf()
                &&& t@.dim == dim
                &&& Some(t@.extents) == resolved(dim, shape@, bytes.len())
                &&& t@.data == stored(dim, bytes@, capacity(t@.extents))
            }
        },
{
    match resolve_extents(dim, shape, bytes.len()) {
        Err(e) => Some(Err(e)),
        Ok(extents) => match checked_capacity(extents.as_slice()) {
            None => None,
            Some(cap) => Some(fill(dim, extents, cap, bytes)),
        },
    }
}

/// The whole of the tensor's storage, one byte per element.
pub fn read_bytes(tensor: &Tensor) -> (bytes: Vec<u8>)
    ensures
        bytes@ == tensor@.data,
        bytes@.len() == capacity(tensor@.extents),
{
    proof {
        use_type_invariant(tensor);
    }
    slice_to_vec(tensor.data.as_slice())
}

/// Reads the tensor's storage and decodes the value of layout `schema` at
/// its start; what the value does not take is padding and is ignored.
pub fn round_trip_read(tensor: &Tensor, schema: &Schema) -> (got: Result<Value, DecodeError>)
    ensures
        match parse(schema@, tensor@.data) {
            Ok((m, _)) => got matches Ok(v) && v@ == m,
            Err(e) => got matches Err(g) && g == e,
        },
{
    let bytes = read_bytes(tensor);
    decode(schema, bytes.as_slice())
}

} // verus!
