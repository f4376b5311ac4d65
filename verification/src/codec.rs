//! Big-endian integers in byte buffers, written and read with the `bytes` crate.

use bytes::{Buf, BufMut, Bytes};
use vstd::prelude::*;

verus! {

/// The `width` low-order bytes of `value`, most significant byte first.
pub open spec fn be_bytes(value: nat, width: nat) -> Seq<u8>
    decreases width,
{
    if width == 0 {
        Seq::empty()
    } else {
        be_bytes(value / 256, (width - 1) as nat).push((value % 256) as u8)
    }
}

/// The number whose big-endian notation is `bytes`.
pub open spec fn be_value(bytes: Seq<u8>) -> nat
    decreases bytes.len(),
{
    if bytes.len() == 0 {
        0
    } else {
        be_value(bytes.drop_last()) * 256 + bytes.last() as nat
    }
}

/// `256` to the power of `width`.
pub open spec fn pow256(width: nat) -> nat
    decreases width,
{
    if width == 0 {
        1
    } else {
        256 * pow256((width - 1) as nat)
    }
}

/// Reading back what was written gives the number again, provided it fits in `width` bytes.
pub proof fn lemma_be_value_of_be_bytes(value: nat, width: nat)
    requires
        value < pow256(width),
    ensures
        be_bytes(value, width).len() == width,
        be_value(be_bytes(value, width)) == value,
    decreases width,
{
    if width > 0 {
        let rest = (width - 1) as nat;
        assert(value / 256 < pow256(rest)) by (nonlinear_arith)
            requires
                value < 256 * pow256(rest),
        ;
        lemma_be_value_of_be_bytes(value / 256, rest);
        let bytes = be_bytes(value, width);
        assert(bytes.drop_last() =~= be_bytes(value / 256, rest));
        assert(bytes.last() == (value % 256) as u8);
    }
}

/// Writing back what was read gives the bytes again.
pub proof fn lemma_be_bytes_of_be_value(bytes: Seq<u8>)
    ensures
        be_value(bytes) < pow256(bytes.len()),
        be_bytes(be_value(bytes), bytes.len()) == bytes,
    decreases bytes.len(),
{
    if bytes.len() > 0 {
        let front = bytes.drop_last();
        lemma_be_bytes_of_be_value(front);
        let value = be_value(bytes);
        assert(value / 256 == be_value(front));
        assert(value % 256 == bytes.last());
        assert(be_bytes(value, bytes.len()) =~= be_bytes(be_value(front), front.len()).push(
            bytes.last(),
        ));
        assert(front.push(bytes.last()) =~= bytes);
    }
}

/// Each byte of a big-endian notation is a digit to base 256, the most significant one first.
pub proof fn lemma_be_bytes_are_digits(value: nat, width: nat, i: int)
    requires
        0 <= i < width,
    ensures
        be_bytes(value, width).len() == width,
        be_bytes(value, width)[i] == value / pow256((width - 1 - i) as nat) % 256,
    decreases width,
{
    lemma_be_bytes_len(value, width);
    let rest = (width - 1) as nat;
    if i < rest {
        lemma_be_bytes_are_digits(value / 256, rest, i);
        let p = pow256((rest - 1 - i) as nat);
        lemma_pow256_pos((rest - 1 - i) as nat);
        vstd::arithmetic::div_mod::lemma_div_denominator(value as int, 256, p as int);
        assert(be_bytes(value, width)[i] == be_bytes(value / 256, rest)[i]);
        assert(pow256((width - 1 - i) as nat) == 256 * p);
        assert(value / (256 * p) == value / 256 / p);
    } else {
        lemma_be_bytes_len(value / 256, rest);
        assert(pow256(0) == 1);
        assert(value / 1 == value);
    }
}

proof fn lemma_pow256_pos(width: nat)
    ensures
        pow256(width) > 0,
    decreases width,
{
    if width > 0 {
        lemma_pow256_pos((width - 1) as nat);
    }
}

/// The length of a big-endian notation is its width, whatever the number.
pub proof fn lemma_be_bytes_len(value: nat, width: nat)
    ensures
        be_bytes(value, width).len() == width,
    decreases width,
{
    if width > 0 {
        lemma_be_bytes_len(value / 256, (width - 1) as nat);
    }
}

/// A number below the power of 256 for its width is read back as it was written, for the widths in
/// use.
pub(crate) proof fn lemma_be_round_trip(value: nat, width: nat)
    requires
        width == 2 && value < 0x1_0000 || width == 4 && value < 0x1_0000_0000 || width == 8
            && value < 0x1_0000_0000_0000_0000,
    ensures
        be_bytes(value, width).len() == width,
        be_value(be_bytes(value, width)) == value,
{
    reveal_with_fuel(pow256, 9);
    lemma_be_value_of_be_bytes(value, width);
}

/// `bytes::BufMut::put_u16` on a vector appends the two bytes of `n`, most significant first.
/// A vector holds at most `isize::MAX` bytes.
#[verifier::external_body]
pub(crate) fn put_u16(buf: &mut Vec<u8>, n: u16)
    requires
        old(buf)@.len() + 2 <= isize::MAX,
    ensures
        final(buf)@ == old(buf)@ + be_bytes(n as nat, 2),
{
    buf.put_u16(n);
}

/// `bytes::BufMut::put_u32` on a vector appends the four bytes of `n`, most significant first.
/// A vector holds at most `isize::MAX` bytes.
#[verifier::external_body]
pub(crate) fn put_u32(buf: &mut Vec<u8>, n: u32)
    requires
        old(buf)@.len() + 4 <= isize::MAX,
    ensures
        final(buf)@ == old(buf)@ + be_bytes(n as nat, 4),
{
    buf.put_u32(n);
}

/// `bytes::BufMut::put_u64` on a vector appends the eight bytes of `n`, most significant first.
/// A vector holds at most `isize::MAX` bytes.
#[verifier::external_body]
pub(crate) fn put_u64(buf: &mut Vec<u8>, n: u64)
    requires
        old(buf)@.len() + 8 <= isize::MAX,
    ensures
        final(buf)@ == old(buf)@ + be_bytes(n as nat, 8),
{
    buf.put_u64(n);
}

/// `bytes::BufMut::put_slice` on a vector appends the bytes of `src`. A vector holds at most
/// `isize::MAX` bytes.
#[verifier::external_body]
pub(crate) fn put_slice(buf: &mut Vec<u8>, src: &[u8])
    requires
        old(buf)@.len() + src@.len() <= isize::MAX,
    ensures
        final(buf)@ == old(buf)@ + src@,
{
    buf.put_slice(src);
}

/// `bytes::Buf::get_u16` on a slice reads its first two bytes, most significant first. It
/// panics on a shorter slice.
#[verifier::external_body]
pub(crate) fn get_u16(src: &[u8]) -> (n: u16)
    requires
        src@.len() >= 2,
    ensures
        n == be_value(src@.take(2)),
{
    let mut buf = src;
    buf.get_u16()
}

/// `bytes::Buf::get_u32` on a slice reads its first four bytes, most significant first. It
/// panics on a shorter slice.
#[verifier::external_body]
pub(crate) fn get_u32(src: &[u8]) -> (n: u32)
    requires
        src@.len() >= 4,
    ensures
        n == be_value(src@.take(4)),
{
    let mut buf = src;
    buf.get_u32()
}

/// `bytes::Buf::get_u64` on a slice reads its first eight bytes, most significant first. It
/// panics on a shorter slice.
#[verifier::external_body]
pub(crate) fn get_u64(src: &[u8]) -> (n: u64)
    requires
        src@.len() >= 8,
    ensures
        n == be_value(src@.take(8)),
{
    let mut buf = src;
    buf.get_u64()
}

/// `bytes::Bytes`, a shared immutable run of bytes.
#[verifier::external_type_specification]
#[verifier::external_body]
pub struct ExBytes(Bytes);

/// The bytes that a `Bytes` holds.
pub uninterp spec fn bytes_view(b: Bytes) -> Seq<u8>;

/// `Bytes::from` on a vector takes the vector's bytes over as they are.
#[verifier::external_body]
pub(crate) fn bytes_from_vec(v: Vec<u8>) -> (b: Bytes)
    ensures
        bytes_view(b) == v@,
{
    Bytes::from(v)
}

/// `Bytes::copy_from_slice` holds a copy of the slice.
#[verifier::external_body]
pub(crate) fn bytes_copy_from_slice(src: &[u8]) -> (b: Bytes)
    ensures
        bytes_view(b) == src@,
{
    Bytes::copy_from_slice(src)
}

/// `Bytes::clone` shares the bytes held.
#[verifier::external_body]
pub(crate) fn bytes_clone(b: &Bytes) -> (copy: Bytes)
    ensures
        bytes_view(copy) == bytes_view(*b),
{
    b.clone()
}

/// `Bytes::as_ref` gives the bytes held.
#[verifier::external_body]
pub(crate) fn bytes_as_slice(b: &Bytes) -> (slice: &[u8])
    ensures
        slice@ == bytes_view(*b),
{
    b.as_ref()
}

} // verus!
