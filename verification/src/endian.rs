//! Fixed-width big-endian integers: the mathematical layout, the facts the
//! codec needs about it, and the functions that write and read it.
//!
//! The eight-byte form is produced and read by `bincode`; the narrower forms
//! are cut from it and padded to it here.

use vstd::prelude::*;
use vstd::slice::{slice_subrange, slice_to_vec};

verus! {

/// 256 to the power `width`.
pub open spec fn pow256(width: nat) -> nat
    decreases width,
{
    if width == 0 {
        1
    } else {
        256 * pow256((width - 1) as nat)
    }
}

/// The `width` low-order base-256 digits of `v`, most significant first.
pub open spec fn be_bytes(v: nat, width: nat) -> Seq<u8>
    decreases width,
{
    if width == 0 {
        Seq::empty()
    } else {
        be_bytes(v / 256, (width - 1) as nat).push((v % 256) as u8)
    }
}

/// The number whose base-256 digits, most significant first, are `s`.
pub open spec fn be_value(s: Seq<u8>) -> nat
    decreases s.len(),
{
    if s.len() == 0 {
        0
    } else {
        be_value(s.drop_last()) * 256 + s.last() as nat
    }
}

/// `n` zero bytes.
pub open spec fn zeros(n: nat) -> Seq<u8> {
    Seq::new(n, |i: int| 0u8)
}

/// `be_bytes` always yields exactly `width` digits.
pub proof fn lemma_be_bytes_len(v: nat, width: nat)
    ensures
        be_bytes(v, width).len() == width,
    decreases width,
{
    if width > 0 {
        lemma_be_bytes_len(v / 256, (width - 1) as nat);
    }
}

/// A digit string of length `n` denotes a number below `256^n`.
pub proof fn lemma_be_value_bound(s: Seq<u8>)
    ensures
        be_value(s) < pow256(s.len()),
    decreases s.len(),
{
    if s.len() > 0 {
        lemma_be_value_bound(s.drop_last());
    }
}

/// Reading back the digits of a number that fits in `width` digits gives the number.
pub proof fn lemma_be_value_of_bytes(v: nat, width: nat)
    requires
        v < pow256(width),
    ensures
        be_value(be_bytes(v, width)) == v,
    decreases width,
{
    if width > 0 {
        let rest = be_bytes(v / 256, (width - 1) as nat);
        lemma_be_value_of_bytes(v / 256, (width - 1) as nat);
        assert(be_bytes(v, width).drop_last() =~= rest);
    }
}

/// Writing the number that a digit string denotes gives the digit string back.
pub proof fn lemma_be_bytes_of_value(s: Seq<u8>)
    ensures
        be_bytes(be_value(s), s.len()) == s,
    decreases s.len(),
{
    if s.len() > 0 {
        let head = s.drop_last();
        lemma_be_bytes_of_value(head);
        assert(be_value(s) / 256 == be_value(head));
        assert(be_value(s) % 256 == s.last() as nat);
        assert(be_bytes(be_value(s), s.len()) =~= s);
    }
}

/// The narrow form of a number is the end of its wide form.
pub proof fn lemma_be_bytes_tail(v: nat, width: nat, full: nat)
    requires
        width <= full,
    ensures
        be_bytes(v, full).skip(full - width) == be_bytes(v, width),
    decreases width,
{
    lemma_be_bytes_len(v, full);
    if width == 0 {
        assert(be_bytes(v, full).skip(full as int) =~= be_bytes(v, 0));
    } else {
        let wide = be_bytes(v / 256, (full - 1) as nat);
        lemma_be_bytes_len(v / 256, (full - 1) as nat);
        lemma_be_bytes_tail(v / 256, (width - 1) as nat, (full - 1) as nat);
        assert(be_bytes(v, full) == wide.push((v % 256) as u8));
        assert(be_bytes(v, full).skip(full - width) =~= wide.skip(full - width).push(
            (v % 256) as u8,
        ));
    }
}

/// Zeros in front of a digit string do not change the number it denotes.
pub proof fn lemma_be_value_padded(pad: nat, s: Seq<u8>)
    ensures
        be_value(zeros(pad) + s) == be_value(s),
    decreases s.len(), pad,
{
    let all = zeros(pad) + s;
    if s.len() > 0 {
        lemma_be_value_padded(pad, s.drop_last());
        assert(all.drop_last() =~= zeros(pad) + s.drop_last());
        assert(all.last() == s.last());
    } else if pad > 0 {
        lemma_be_value_padded((pad - 1) as nat, s);
        assert(all.drop_last() =~= zeros((pad - 1) as nat) + s);
        assert(all.last() == 0u8);
    } else {
        assert(all =~= s);
    }
}

/// The first few powers of 256, as numbers.
pub proof fn lemma_pow256_values()
    ensures
        pow256(1) == 0x100,
        pow256(2) == 0x1_0000,
        pow256(4) == 0x1_0000_0000,
        pow256(8) == 0x1_0000_0000_0000_0000,
{
    reveal_with_fuel(pow256, 9);
}

/// `bincode::encode_to_vec` on a `u64`, configured big-endian with fixed-width
/// integers: the result is the eight bytes of `v`, most significant first, and
/// the call cannot fail because it writes into a growable vector.
#[verifier::external_body]
fn put_u64(v: u64) -> (out: Vec<u8>)
    ensures
        out@ == be_bytes(v as nat, 8),
{
    bincode::encode_to_vec(
        v,
        bincode::config::standard().with_big_endian().with_fixed_int_encoding(),
    ).unwrap()
}

/// `bincode::decode_from_slice` for a `u64`, configured big-endian with
/// fixed-width integers and no size limit: it reads the first eight bytes of
/// `src` as a big-endian number, and fails only when `src` is shorter than that.
#[verifier::external_body]
fn take_u64(src: &[u8]) -> (out: Option<u64>)
    ensures
        out is Some <==> src@.len() >= 8,
        out matches Some(v) ==> v as nat == be_value(src@.take(8)),
{
    match bincode::decode_from_slice::<u64, _>(
        src,
        bincode::config::standard().with_big_endian().with_fixed_int_encoding(),
    ) {
        Ok((v, _)) => Some(v),
        Err(_) => None,
    }
}

/// Appends `src` to `out`.
pub(crate) fn append(out: &mut Vec<u8>, src: &[u8])
    ensures
        final(out)@ == old(out)@ + src@,
{
    let mut i: usize = 0;
    while i < src.len()
        invariant
            i <= src.len(),
            out@ == old(out)@ + src@.take(i as int),
        decreases src.len() - i,
    {
        out.push(src[i]);
        assert(src@.take(i + 1) =~= src@.take(i as int).push(src@[i as int]));
        i += 1;
    }
    assert(src@.take(src@.len() as int) =~= src@);
}

/// The `width` low-order bytes of `v`, most significant first.
pub(crate) fn put_uint(v: u64, width: usize) -> (out: Vec<u8>)
    requires
        width <= 8,
    ensures
        out@ == be_bytes(v as nat, width as nat),
{
    let wide = put_u64(v);
    proof {
        lemma_be_bytes_len(v as nat, 8);
        lemma_be_bytes_tail(v as nat, width as nat, 8);
    }
    slice_to_vec(slice_subrange(wide.as_slice(), 8 - width, 8))
}

/// The number that the first `width` bytes of `src` denote, most significant
/// first, or `None` where `src` has fewer bytes than that.
pub(crate) fn take_uint(src: &[u8], width: usize) -> (out: Option<u64>)
    requires
        width <= 8,
    ensures
        out is Some <==> src@.len() >= width,
        out matches Some(v) ==> v as nat == be_value(src@.take(width as int)),
        out matches Some(v) ==> (v as nat) < pow256(width as nat),
{
    if src.len() < width {
        return None;
    }
    let mut wide: Vec<u8> = Vec::new();
    while wide.len() < 8 - width
        invariant
            width <= 8,
            wide@.len() <= 8 - width,
            wide@ == zeros(wide@.len()),
        decreases 8 - width - wide.len(),
    {
        wide.push(0);
        assert(wide@ =~= zeros(wide@.len()));
    }
    append(&mut wide, slice_subrange(src, 0, width));
    proof {
        let digits = src@.take(width as int);
        assert(wide@ =~= zeros((8 - width) as nat) + digits);
        assert(wide@.take(8) =~= wide@);
        lemma_be_value_padded((8 - width) as nat, digits);
        lemma_be_value_bound(digits);
    }
    take_u64(wide.as_slice())
}

} // verus!
