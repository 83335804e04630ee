//! The byte buffers of the `bytes` crate, with the contents they hold.
//!
//! [`Bytes`] and [`BytesMut`] are opaque to the verifier; the functions here
//! state what each operation does to the bytes a buffer holds. As for `Vec`,
//! running out of memory is not part of the model.

use bytes::{Buf, BufMut, Bytes, BytesMut};
use vstd::prelude::*;

verus! {

#[verifier::external_type_specification]
#[verifier::external_body]
pub struct ExBytes(Bytes);

#[verifier::external_type_specification]
#[verifier::external_body]
pub struct ExBytesMut(BytesMut);

/// The bytes that a [`Bytes`] handle gives access to.
pub uninterp spec fn bytes_seq(b: Bytes) -> Seq<u8>;

/// The bytes written to a [`BytesMut`] so far.
pub uninterp spec fn bytes_mut_seq(b: BytesMut) -> Seq<u8>;

/// A signed 32-bit value as an unsigned one, in two's complement.
pub open spec fn unsigned(v: i32) -> int {
    if v < 0 {
        v + 0x1_0000_0000
    } else {
        v as int
    }
}

/// The four bytes of `v`, most significant first.
#[verifier::opaque]
pub open spec fn be_bytes(v: i32) -> Seq<u8> {
    let u = unsigned(v);
    seq![
        (u / 0x100_0000) as u8,
        (u / 0x1_0000 % 0x100) as u8,
        (u / 0x100 % 0x100) as u8,
        (u % 0x100) as u8,
    ]
}

/// The signed value of the first four bytes of `s`, most significant first.
#[verifier::opaque]
pub open spec fn be_value(s: Seq<u8>) -> i32 {
    let u = s[0] * 0x100_0000 + s[1] * 0x1_0000 + s[2] * 0x100 + s[3];
    if u < 0x8000_0000 {
        u as i32
    } else {
        (u - 0x1_0000_0000) as i32
    }
}

/// Reading the four bytes of a value gives the value back.
pub proof fn law_be_value_of_be_bytes(v: i32, rest: Seq<u8>)
    ensures
        be_bytes(v).len() == 4,
        be_value(be_bytes(v) + rest) == v,
{
    reveal(be_bytes);
    reveal(be_value);
    let u = unsigned(v);
    let s = be_bytes(v) + rest;
    assert(s[0] == u / 0x100_0000);
    assert(s[1] == u / 0x1_0000 % 0x100);
    assert(s[2] == u / 0x100 % 0x100);
    assert(s[3] == u % 0x100);
}

/// Four bytes are the bytes of the value that they are read as.
pub proof fn law_be_bytes_of_be_value(s: Seq<u8>)
    requires
        s.len() >= 4,
    ensures
        be_bytes(be_value(s)) == s.take(4),
{
    reveal(be_bytes);
    reveal(be_value);
    let u = s[0] * 0x100_0000 + s[1] * 0x1_0000 + s[2] * 0x100 + s[3];
    let v = be_value(s);
    assert(unsigned(v) == u);
    assert(be_bytes(v) =~= s.take(4));
}

/// The bytes of a value are its digits to the base 256, the most significant
/// first, a negative value in two's complement.
pub proof fn law_be_bytes_are_digits(v: i32)
    ensures
        be_bytes(v).len() == 4,
        be_bytes(v)[0] * 0x100_0000 + be_bytes(v)[1] * 0x1_0000 + be_bytes(v)[2] * 0x100
            + be_bytes(v)[3] == if v < 0 {
            v + 0x1_0000_0000
        } else {
            v as int
        },
{
    reveal(be_bytes);
    let u = unsigned(v);
    let s = be_bytes(v);
    assert(s[0] == u / 0x100_0000);
    assert(s[1] == u / 0x1_0000 % 0x100);
    assert(s[2] == u / 0x100 % 0x100);
    assert(s[3] == u % 0x100);
}

/// A value is read as the number that has its four bytes for digits, less 2^32
/// where the top bit is set; what follows them has no part in it.
pub proof fn law_be_value_is_the_number(a: u8, b: u8, c: u8, d: u8, rest: Seq<u8>)
    ensures
        be_value(seq![a, b, c, d] + rest) == a * 0x100_0000 + b * 0x1_0000 + c * 0x100 + d - if a
            >= 0x80 {
            0x1_0000_0000int
        } else {
            0
        },
{
    reveal(be_value);
    let s = seq![a, b, c, d] + rest;
    assert(s[0] == a && s[1] == b && s[2] == c && s[3] == d);
}

/// `Bytes::new`: an empty buffer.
pub assume_specification[ Bytes::new ]() -> (r: Bytes)
    ensures
        bytes_seq(r) == Seq::<u8>::empty(),
;

/// `Bytes::len`: how many bytes the handle holds.
pub assume_specification[ Bytes::len ](b: &Bytes) -> (n: usize)
    ensures
        n == bytes_seq(*b).len(),
;

/// `Bytes::is_empty`: whether the handle holds no byte.
pub assume_specification[ Bytes::is_empty ](b: &Bytes) -> (r: bool)
    ensures
        r == (bytes_seq(*b).len() == 0),
;

/// `Bytes::split_to`: hands out the first `at` bytes and keeps the others; it
/// panics when fewer are held.
pub assume_specification[ Bytes::split_to ](b: &mut Bytes, at: usize) -> (r: Bytes)
    requires
        at <= bytes_seq(*old(b)).len(),
    ensures
        bytes_seq(r) == bytes_seq(*old(b)).take(at as int),
        bytes_seq(*final(b)) == bytes_seq(*old(b)).skip(at as int),
;

/// `<Bytes as From<Vec<u8>>>::from`: the buffer holds the bytes of the vector.
#[verifier::external_body]
pub(crate) fn from_vec(v: Vec<u8>) -> (r: Bytes)
    ensures
        bytes_seq(r) == v@,
{
    Bytes::from(v)
}

/// `<Bytes as AsRef<[u8]>>::as_ref`: the held bytes as a slice.
#[verifier::external_body]
pub(crate) fn as_slice(b: &Bytes) -> (r: &[u8])
    ensures
        r@ == bytes_seq(*b),
{
    b.as_ref()
}

/// `<Bytes as Buf>::remaining`: how many bytes are left to read.
#[verifier::external_body]
pub(crate) fn remaining(b: &Bytes) -> (n: usize)
    ensures
        n == bytes_seq(*b).len(),
{
    b.remaining()
}

/// `<Bytes as Buf>::get_u8`: reads one byte and moves past it; it panics when
/// none is left.
#[verifier::external_body]
pub(crate) fn get_u8(b: &mut Bytes) -> (v: u8)
    requires
        bytes_seq(*old(b)).len() >= 1,
    ensures
        v == bytes_seq(*old(b))[0],
        bytes_seq(*final(b)) == bytes_seq(*old(b)).skip(1),
{
    b.get_u8()
}

/// `<Bytes as Buf>::get_i32`: reads a big-endian signed 32-bit integer and moves
/// past it; it panics when fewer than four bytes are left.
#[verifier::external_body]
pub(crate) fn get_i32(b: &mut Bytes) -> (v: i32)
    requires
        bytes_seq(*old(b)).len() >= 4,
    ensures
        v == be_value(bytes_seq(*old(b))),
        bytes_seq(*final(b)) == bytes_seq(*old(b)).skip(4),
{
    b.get_i32()
}

/// `BytesMut::new`: an empty buffer to write to.
pub assume_specification[ BytesMut::new ]() -> (r: BytesMut)
    ensures
        bytes_mut_seq(r) == Seq::<u8>::empty(),
;

/// `<BytesMut as BufMut>::put_u8`: appends one byte.
#[verifier::external_body]
pub(crate) fn put_u8(b: &mut BytesMut, v: u8)
    ensures
        bytes_mut_seq(*final(b)) == bytes_mut_seq(*old(b)).push(v),
{
    b.put_u8(v)
}

/// `<BytesMut as BufMut>::put_i32`: appends the four bytes of a value, most
/// significant first.
#[verifier::external_body]
pub(crate) fn put_i32(b: &mut BytesMut, v: i32)
    ensures
        bytes_mut_seq(*final(b)) == bytes_mut_seq(*old(b)) + be_bytes(v),
{
    b.put_i32(v)
}

/// `<BytesMut as BufMut>::put_slice`: appends the bytes of a slice.
#[verifier::external_body]
pub(crate) fn put_slice(b: &mut BytesMut, src: &[u8])
    ensures
        bytes_mut_seq(*final(b)) == bytes_mut_seq(*old(b)) + src@,
{
    b.put_slice(src)
}

/// `<BytesMut as AsRef<[u8]>>::as_ref`: the written bytes as a slice.
#[verifier::external_body]
pub(crate) fn written(b: &BytesMut) -> (r: &[u8])
    ensures
        r@ == bytes_mut_seq(*b),
{
    b.as_ref()
}

} // verus!
