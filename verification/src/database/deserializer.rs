//! Reading the columns of a row back from the bytes of a page.

use vstd::prelude::*;
use vstd::utf8::{decode_utf8, valid_utf8};

verus! {

/// The number that four bytes spell, the first byte counting most.
pub open spec fn be_u32(b: Seq<u8>) -> int {
    b[0] * 0x100_0000 + b[1] * 0x1_0000 + b[2] * 0x100 + b[3]
}

/// The four bytes that spell a number, the first byte counting most.
pub open spec fn be_bytes(x: u32) -> Seq<u8> {
    seq![
        (x / 0x100_0000) as u8,
        ((x / 0x1_0000) % 0x100) as u8,
        ((x / 0x100) % 0x100) as u8,
        (x % 0x100) as u8,
    ]
}

/// The bytes of a number spell that number.
pub proof fn lemma_be_round_trip(x: u32)
    ensures
        be_bytes(x).len() == 4,
        be_u32(be_bytes(x)) == x,
{
}

/// The four bytes that spell `x`, the first byte counting most.
pub fn u32_to_be_bytes(x: u32) -> (bytes: Vec<u8>)
    ensures
        bytes@ == be_bytes(x),
{
    let mut bytes: Vec<u8> = Vec::new();
    bytes.push((x / 0x100_0000) as u8);
    bytes.push(((x / 0x1_0000) % 0x100) as u8);
    bytes.push(((x / 0x100) % 0x100) as u8);
    bytes.push((x % 0x100) as u8);
    proof {
        assert(bytes@ =~= be_bytes(x));
    }
    bytes
}

/// A way to read a value of type `T` from `length` bytes at `offset`.
pub trait Deserializer<T> {
    /// The bytes can be read as a `T`.
    spec fn readable(data: Seq<u8>, offset: int, length: int) -> bool;

    /// The bytes spell `value`.
    spec fn spells(data: Seq<u8>, offset: int, length: int, value: T) -> bool;

    fn deserialize(data: &Vec<u8>, offset: usize, length: usize) -> (value: T)
        requires
            Self::readable(data@, offset as int, length as int),
        ensures
            Self::spells(data@, offset as int, length as int, value),
    ;
}

/// Reads a number from four bytes, the first byte counting most.
pub struct U32Deserializer;

impl Deserializer<u32> for U32Deserializer {
    open spec fn readable(data: Seq<u8>, offset: int, length: int) -> bool {
        0 <= offset && length == 4 && offset + length <= data.len()
    }

    open spec fn spells(data: Seq<u8>, offset: int, length: int, value: u32) -> bool {
        value == be_u32(data.subrange(offset, offset + length))
    }

    fn deserialize(data: &Vec<u8>, offset: usize, length: usize) -> (value: u32) {
        assert(data@.len() == data.len());
        let b0: u32 = data[offset] as u32;
        let b1: u32 = data[offset + 1] as u32;
        let b2: u32 = data[offset + 2] as u32;
        let b3: u32 = data[offset + 3] as u32;
        b0 * 0x100_0000 + b1 * 0x1_0000 + b2 * 0x100 + b3
    }
}

/// `String::from_utf8` of std: the string that the bytes encode, or
/// nothing where the bytes are not UTF-8. Validity and decoding are those
/// of `vstd::utf8`.
#[verifier::external_body]
fn string_from_utf8(bytes: Vec<u8>) -> (r: Option<String>)
    ensures
        match r {
            Some(s) => valid_utf8(bytes@) && s@ == decode_utf8(bytes@),
            None => !valid_utf8(bytes@),
        },
{
    String::from_utf8(bytes).ok()
}

/// The string that the bytes from `offset` on, `length` of them, encode
/// in UTF-8, padding included; nothing where they are not UTF-8.
pub fn read_utf8(data: &Vec<u8>, offset: usize, length: usize) -> (r: Option<String>)
    requires
        offset + length <= data.len(),
    ensures
        match r {
            Some(s) => valid_utf8(data@.subrange(offset as int, offset + length)) && s@
                == decode_utf8(data@.subrange(offset as int, offset + length)),
            None => !valid_utf8(data@.subrange(offset as int, offset + length)),
        },
{
    let mut bytes: Vec<u8> = Vec::new();
    let mut i: usize = 0;
    while i < length
        invariant
            i <= length,
            offset + length <= data.len(),
            bytes@ == data@.subrange(offset as int, offset + i),
        decreases length - i,
    {
        bytes.push(data[offset + i]);
        i += 1;
        proof {
            assert(bytes@ =~= data@.subrange(offset as int, offset + i));
        }
    }
    string_from_utf8(bytes)
}

/// Reads a string from bytes that encode one in UTF-8.
pub struct UTF8Deserializer;

impl Deserializer<String> for UTF8Deserializer {
    open spec fn readable(data: Seq<u8>, offset: int, length: int) -> bool {
        0 <= offset && 0 <= length && offset + length <= data.len() && valid_utf8(
            data.subrange(offset, offset + length),
        )
    }

    open spec fn spells(data: Seq<u8>, offset: int, length: int, value: String) -> bool {
        value@ == decode_utf8(data.subrange(offset, offset + length))
    }

    fn deserialize(data: &Vec<u8>, offset: usize, length: usize) -> (value: String) {
        match read_utf8(data, offset, length) {
            Some(s) => s,
            None => vstd::pervasive::unreached(),
        }
    }
}

} // verus!
