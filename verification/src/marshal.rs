//! Reading validated text out of a guest's linear memory.

use vstd::prelude::*;
use vstd::slice::*;
use vstd::utf8::*;
use crate::error::LinkError;

verus! {

/// Largest number of bytes a guest may hand over as one name. The same
/// ceiling holds for module names and for symbol names.
pub const MAX_NAME_LEN: usize = 4096;

/// The bytes `offset .. offset + length` of `memory`.
pub open spec fn guest_range(memory: Seq<u8>, offset: int, length: int) -> Seq<u8> {
    memory.subrange(offset, offset + length)
}

/// What reading `length` bytes at `offset` yields: the decoded text, or the
/// first of the three failures that applies.
pub open spec fn spec_read_text(memory: Seq<u8>, offset: nat, length: nat) -> Result<
    Seq<char>,
    LinkError,
> {
    if length > MAX_NAME_LEN {
        Err(LinkError::BufferTooLarge)
    } else if offset + length > memory.len() {
        Err(LinkError::MemoryReadFault)
    } else if !valid_utf8(guest_range(memory, offset as int, length as int)) {
        Err(LinkError::InvalidEncoding)
    } else {
        Ok(decode_utf8(guest_range(memory, offset as int, length as int)))
    }
}

/// Whether an executable result is the one the model gives.
pub open spec fn text_result_matches(
    got: Result<String, LinkError>,
    want: Result<Seq<char>, LinkError>,
) -> bool {
    match want {
        Ok(text) => got matches Ok(s) && s@ == text,
        Err(e) => got matches Err(g) && g == e,
    }
}

/// `String::from_utf8` of std: succeeds exactly on well-formed UTF-8, and the
/// string it returns then has the given bytes as its encoding.
#[verifier::external_body]
fn string_from_utf8(bytes: Vec<u8>) -> (decoded: Option<String>)
    ensures
        decoded is Some <==> valid_utf8(bytes@),
        decoded is Some ==> encode_utf8(decoded->0@) == bytes@,
{
    match String::from_utf8(bytes) {
        Ok(text) => Some(text),
        Err(_) => None,
    }
}

/// Copies `length` bytes at `offset` out of guest memory and decodes them.
///
/// The call is all or nothing: a length over [`MAX_NAME_LEN`], a range that
/// leaves the memory, or bytes that are not UTF-8 each give their error, and
/// no part of a text is returned.
pub fn read_text(memory: &[u8], offset: usize, length: usize) -> (r: Result<String, LinkError>)
    ensures
        text_result_matches(r, spec_read_text(memory@, offset as nat, length as nat)),
{
    if length > MAX_NAME_LEN {
        return Err(LinkError::BufferTooLarge);
    }
    if offset > memory.len() || length > memory.len() - offset {
        return Err(LinkError::MemoryReadFault);
    }
    let buffer = slice_to_vec(slice_subrange(memory, offset, offset + length));
    match string_from_utf8(buffer) {
        Some(text) => {
            proof {
                encode_utf8_decode_utf8(text@);
            }
            Ok(text)
        },
        None => Err(LinkError::InvalidEncoding),
    }
}

/// The bytes of a guest's memory, where it exports one.
pub open spec fn memory_bytes(memory: Option<&[u8]>) -> Option<Seq<u8>> {
    match memory {
        Some(bytes) => Some(bytes@),
        None => None,
    }
}

/// What reading a name yields when the guest gives its address and length
/// as the signed 32-bit integers of its ABI. The length is held against the
/// ceiling first; after that a guest without memory, a negative address and
/// a negative length all count as a range outside the memory.
pub open spec fn spec_read_name(memory: Option<Seq<u8>>, ptr: int, len: int) -> Result<
    Seq<char>,
    LinkError,
> {
    if len > MAX_NAME_LEN {
        Err(LinkError::BufferTooLarge)
    } else if memory is None || ptr < 0 || len < 0 {
        Err(LinkError::MemoryReadFault)
    } else {
        spec_read_text(memory->0, ptr as nat, len as nat)
    }
}

/// Reads the name that a guest passed as address and length.
pub fn read_name(memory: Option<&[u8]>, ptr: i32, len: i32) -> (r: Result<String, LinkError>)
    ensures
        text_result_matches(r, spec_read_name(memory_bytes(memory), ptr as int, len as int)),
{
    if len > MAX_NAME_LEN as i32 {
        return Err(LinkError::BufferTooLarge);
    }
    match memory {
        Some(bytes) => {
            if ptr < 0 || len < 0 {
                Err(LinkError::MemoryReadFault)
            } else {
                read_text(bytes, ptr as usize, len as usize)
            }
        },
        None => Err(LinkError::MemoryReadFault),
    }
}

/// A text that lies in guest memory in its UTF-8 encoding is read back
/// unchanged, wherever it lies, as long as it is no longer than
/// [`MAX_NAME_LEN`] bytes.
pub proof fn lemma_read_text_round_trip(memory: Seq<u8>, offset: nat, text: Seq<char>)
    requires
        encode_utf8(text).len() <= MAX_NAME_LEN,
        offset + encode_utf8(text).len() <= memory.len(),
        guest_range(memory, offset as int, encode_utf8(text).len() as int) == encode_utf8(text),
    ensures
        spec_read_text(memory, offset, encode_utf8(text).len()) == Ok::<Seq<char>, LinkError>(text),
{
    encode_utf8_valid_utf8(text);
    encode_utf8_decode_utf8(text);
}

/// Bytes that are valid UTF-8, no more than [`MAX_NAME_LEN`] of them and
/// inside the memory, are always read, and the text read has exactly those
/// bytes as its encoding.
pub proof fn lemma_read_text_keeps_bytes(memory: Seq<u8>, offset: nat, length: nat)
    requires
        length <= MAX_NAME_LEN,
        offset + length <= memory.len(),
        valid_utf8(guest_range(memory, offset as int, length as int)),
    ensures
        spec_read_text(memory, offset, length) matches Ok(text) && encode_utf8(text)
            == guest_range(memory, offset as int, length as int),
{
    decode_utf8_encode_utf8(guest_range(memory, offset as int, length as int));
}

/// A range that leaves the memory is refused as a whole, whatever the bytes
/// in it, unless its length alone is already over the ceiling.
pub proof fn lemma_read_text_out_of_bounds(memory: Seq<u8>, offset: nat, length: nat)
    requires
        length <= MAX_NAME_LEN,
        offset + length > memory.len(),
    ensures
        spec_read_text(memory, offset, length) == Err::<Seq<char>, LinkError>(
            LinkError::MemoryReadFault,
        ),
{
}

} // verus!
