//! Byte arrays of a length that a type stands for.
//!
//! A header is read by cutting blocks of a known length out of a buffer.
//! The types `T2` to `T16` stand for the lengths 2 to 16, so that the length
//! of a block is part of the type of what is cut out.

use vstd::prelude::*;
use vstd::slice::slice_subrange;

verus! {

/// A length, and the arrays of that many bytes.
pub trait GenericArrayLen {
    /// The array type of this length.
    type TArray;

    /// The length.
    spec fn spec_size() -> nat;

    /// The bytes of an array.
    spec fn bytes(array: Self::TArray) -> Seq<u8>;

    /// The length.
    fn size() -> (n: usize)
        ensures
            n == Self::spec_size(),
    ;

    /// The array that holds the bytes of a slice of this length.
    fn from_array(buf: &[u8]) -> (array: Self::TArray)
        requires
            buf@.len() == Self::spec_size(),
        ensures
            Self::bytes(array) == buf@,
    ;
}

/// The length 2.
pub struct T2 {}

impl GenericArrayLen for T2 {
    type TArray = [u8; 2];

    open spec fn spec_size() -> nat {
        2
    }

    open spec fn bytes(array: [u8; 2]) -> Seq<u8> {
        array@
    }

    fn size() -> (n: usize) {
        2
    }

    fn from_array(buf: &[u8]) -> (array: [u8; 2]) {
        let array: [u8; 2] = [buf[0], buf[1]];
        assert(array@ =~= buf@);
        array
    }
}

/// The length 3.
pub struct T3 {}

impl GenericArrayLen for T3 {
    type TArray = [u8; 3];

    open spec fn spec_size() -> nat {
        3
    }

    open spec fn bytes(array: [u8; 3]) -> Seq<u8> {
        array@
    }

    fn size() -> (n: usize) {
        3
    }

    fn from_array(buf: &[u8]) -> (array: [u8; 3]) {
        let array: [u8; 3] = [buf[0], buf[1], buf[2]];
        assert(array@ =~= buf@);
        array
    }
}

/// The length 4.
pub struct T4 {}

impl GenericArrayLen for T4 {
    type TArray = [u8; 4];

    open spec fn spec_size() -> nat {
        4
    }

    open spec fn bytes(array: [u8; 4]) -> Seq<u8> {
        array@
    }

    fn size() -> (n: usize) {
        4
    }

    fn from_array(buf: &[u8]) -> (array: [u8; 4]) {
        let array: [u8; 4] = [buf[0], buf[1], buf[2], buf[3]];
        assert(array@ =~= buf@);
        array
    }
}

/// The length 5.
pub struct T5 {}

impl GenericArrayLen for T5 {
    type TArray = [u8; 5];

    open spec fn spec_size() -> nat {
        5
    }

    open spec fn bytes(array: [u8; 5]) -> Seq<u8> {
        array@
    }

    fn size() -> (n: usize) {
        5
    }

    fn from_array(buf: &[u8]) -> (array: [u8; 5]) {
        let array: [u8; 5] = [buf[0], buf[1], buf[2], buf[3], buf[4]];
        assert(array@ =~= buf@);
        array
    }
}

/// The length 6.
pub struct T6 {}

impl GenericArrayLen for T6 {
    type TArray = [u8; 6];

    open spec fn spec_size() -> nat {
        6
    }

    open spec fn bytes(array: [u8; 6]) -> Seq<u8> {
        array@
    }

    fn size() -> (n: usize) {
        6
    }

    fn from_array(buf: &[u8]) -> (array: [u8; 6]) {
        let array: [u8; 6] = [buf[0], buf[1], buf[2], buf[3], buf[4], buf[5]];
        assert(array@ =~= buf@);
        array
    }
}

/// The length 7.
pub struct T7 {}

impl GenericArrayLen for T7 {
    type TArray = [u8; 7];

    open spec fn spec_size() -> nat {
        7
    }

    open spec fn bytes(array: [u8; 7]) -> Seq<u8> {
        array@
    }

    fn size() -> (n: usize) {
        7
    }

    fn from_array(buf: &[u8]) -> (array: [u8; 7]) {
        let array: [u8; 7] = [buf[0], buf[1], buf[2], buf[3], buf[4], buf[5], buf[6]];
        assert(array@ =~= buf@);
        array
    }
}

/// The length 8.
pub struct T8 {}

impl GenericArrayLen for T8 {
    type TArray = [u8; 8];

    open spec fn spec_size() -> nat {
        8
    }

    open spec fn bytes(array: [u8; 8]) -> Seq<u8> {
        array@
    }

    fn size() -> (n: usize) {
        8
    }

    fn from_array(buf: &[u8]) -> (array: [u8; 8]) {
        let array: [u8; 8] = [buf[0], buf[1], buf[2], buf[3], buf[4], buf[5], buf[6], buf[7]];
        assert(array@ =~= buf@);
        array
    }
}

/// The length 9.
pub struct T9 {}

impl GenericArrayLen for T9 {
    type TArray = [u8; 9];

    open spec fn spec_size() -> nat {
        9
    }

    open spec fn bytes(array: [u8; 9]) -> Seq<u8> {
        array@
    }

    fn size() -> (n: usize) {
        9
    }

    fn from_array(buf: &[u8]) -> (array: [u8; 9]) {
        let array: [u8; 9] = [buf[0], buf[1], buf[2], buf[3], buf[4], buf[5], buf[6], buf[7], buf[8]];
        assert(array@ =~= buf@);
        array
    }
}

/// The length 10.
pub struct T10 {}

impl GenericArrayLen for T10 {
    type TArray = [u8; 10];

    open spec fn spec_size() -> nat {
        10
    }

    open spec fn bytes(array: [u8; 10]) -> Seq<u8> {
        array@
    }

    fn size() -> (n: usize) {
        10
    }

    fn from_array(buf: &[u8]) -> (array: [u8; 10]) {
        let array: [u8; 10] = [buf[0], buf[1], buf[2], buf[3], buf[4], buf[5], buf[6], buf[7], buf[8], buf[9]];
        assert(array@ =~= buf@);
        array
    }
}

/// The length 11.
pub struct T11 {}

impl GenericArrayLen for T11 {
    type TArray = [u8; 11];

    open spec fn spec_size() -> nat {
        11
    }

    open spec fn bytes(array: [u8; 11]) -> Seq<u8> {
        array@
    }

    fn size() -> (n: usize) {
        11
    }

    fn from_array(buf: &[u8]) -> (array: [u8; 11]) {
        let array: [u8; 11] = [buf[0], buf[1], buf[2], buf[3], buf[4], buf[5], buf[6], buf[7], buf[8], buf[9], buf[10]];
        assert(array@ =~= buf@);
        array
    }
}

/// The length 12.
pub struct T12 {}

impl GenericArrayLen for T12 {
    type TArray = [u8; 12];

    open spec fn spec_size() -> nat {
        12
    }

    open spec fn bytes(array: [u8; 12]) -> Seq<u8> {
        array@
    }

    fn size() -> (n: usize) {
        12
    }

    fn from_array(buf: &[u8]) -> (array: [u8; 12]) {
        let array: [u8; 12] = [buf[0], buf[1], buf[2], buf[3], buf[4], buf[5], buf[6], buf[7], buf[8], buf[9], buf[10], buf[11]];
        assert(array@ =~= buf@);
        array
    }
}

/// The length 13.
pub struct T13 {}

impl GenericArrayLen for T13 {
    type TArray = [u8; 13];

    open spec fn spec_size() -> nat {
        13
    }

    open spec fn bytes(array: [u8; 13]) -> Seq<u8> {
        array@
    }

    fn size() -> (n: usize) {
        13
    }

    fn from_array(buf: &[u8]) -> (array: [u8; 13]) {
        let array: [u8; 13] = [buf[0], buf[1], buf[2], buf[3], buf[4], buf[5], buf[6], buf[7], buf[8], buf[9], buf[10], buf[11], buf[12]];
        assert(array@ =~= buf@);
        array
    }
}

/// The length 14.
pub struct T14 {}

impl GenericArrayLen for T14 {
    type TArray = [u8; 14];

    open spec fn spec_size() -> nat {
        14
    }

    open spec fn bytes(array: [u8; 14]) -> Seq<u8> {
        array@
    }

    fn size() -> (n: usize) {
        14
    }

    fn from_array(buf: &[u8]) -> (array: [u8; 14]) {
        let array: [u8; 14] = [buf[0], buf[1], buf[2], buf[3], buf[4], buf[5], buf[6], buf[7], buf[8], buf[9], buf[10], buf[11], buf[12], buf[13]];
        assert(array@ =~= buf@);
        array
    }
}

/// The length 15.
pub struct T15 {}

impl GenericArrayLen for T15 {
    type TArray = [u8; 15];

    open spec fn spec_size() -> nat {
        15
    }

    open spec fn bytes(array: [u8; 15]) -> Seq<u8> {
        array@
    }

    fn size() -> (n: usize) {
        15
    }

    fn from_array(buf: &[u8]) -> (array: [u8; 15]) {
        let array: [u8; 15] = [buf[0], buf[1], buf[2], buf[3], buf[4], buf[5], buf[6], buf[7], buf[8], buf[9], buf[10], buf[11], buf[12], buf[13], buf[14]];
        assert(array@ =~= buf@);
        array
    }
}

/// The length 16.
pub struct T16 {}

impl GenericArrayLen for T16 {
    type TArray = [u8; 16];

    open spec fn spec_size() -> nat {
        16
    }

    open spec fn bytes(array: [u8; 16]) -> Seq<u8> {
        array@
    }

    fn size() -> (n: usize) {
        16
    }

    fn from_array(buf: &[u8]) -> (array: [u8; 16]) {
        let array: [u8; 16] = [buf[0], buf[1], buf[2], buf[3], buf[4], buf[5], buf[6], buf[7], buf[8], buf[9], buf[10], buf[11], buf[12], buf[13], buf[14], buf[15]];
        assert(array@ =~= buf@);
        array
    }
}

/// Cuts the block of the length that `TArray` stands for out of a buffer, at
/// the given offset.
pub fn extract_slice<TArray: GenericArrayLen>(large_buf: &[u8], offset: usize) -> (array:
    TArray::TArray)
    requires
        offset + TArray::spec_size() <= large_buf@.len(),
    ensures
        TArray::bytes(array) == large_buf@.subrange(
            offset as int,
            offset + TArray::spec_size(),
        ),
{
    let n = TArray::size();
    assert(offset + n <= large_buf@.len() <= usize::MAX) by {
        vstd::slice::axiom_spec_len(large_buf);
    }
    let buf = slice_subrange(large_buf, offset, offset + n);
    TArray::from_array(buf)
}

} // verus!
