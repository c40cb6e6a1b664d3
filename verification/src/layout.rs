//! The binary layout of an archive: a preamble of four 32-bit numbers, the
//! JSON header padded to a multiple of four bytes, and the file data.

use vstd::prelude::*;
use crate::error::Error;
use crate::error::Failure;
use crate::error::short_read;

verus! {

/// The length of the preamble in bytes.
pub const PREAMBLE_LEN: usize = 16;

/// The four bytes of a 32-bit number, lowest first.
pub open spec fn le32(x: nat) -> Seq<u8> {
    seq![
        (x % 256) as u8,
        (x / 256 % 256) as u8,
        (x / 65536 % 256) as u8,
        (x / 16777216 % 256) as u8,
    ]
}

/// The number that four bytes, lowest first, stand for.
pub open spec fn le32_value(bytes: Seq<u8>) -> nat {
    (bytes[0] as nat) + (bytes[1] as nat) * 256 + (bytes[2] as nat) * 65536 + (bytes[3] as nat)
        * 16777216
}

/// The length of the header region for a JSON text of `json_size` bytes:
/// `json_size` rounded up to the next multiple of 4.
pub open spec fn padded(json_size: nat) -> nat {
    json_size + ((4 - json_size % 4) % 4) as nat
}

/// Whether the sizes of a header of `json_size` bytes fit the 32-bit fields of
/// the preamble.
pub open spec fn fits(json_size: nat) -> bool {
    padded(json_size) + 8 <= u32::MAX
}

/// The preamble for a JSON text of `json_size` bytes.
pub open spec fn preamble(json_size: nat) -> Seq<u8> {
    le32(4) + le32(padded(json_size) + 8) + le32(padded(json_size) + 4) + le32(json_size)
}

/// `n` zero bytes.
pub open spec fn zeros(n: nat) -> Seq<u8> {
    Seq::new(n, |i: int| 0u8)
}

/// The bytes of an archive: preamble, JSON text, padding, file data.
pub open spec fn image(text: Seq<u8>, data: Seq<u8>) -> Seq<u8> {
    preamble(text.len()) + text + zeros((padded(text.len()) - text.len()) as nat) + data
}

/// The number of JSON bytes that the preamble of `source` announces.
pub open spec fn json_size_of(source: Seq<u8>) -> nat {
    le32_value(source.subrange(12, 16))
}

/// Where the preamble of `source` says that the file data begins.
pub open spec fn data_start_of(source: Seq<u8>) -> nat {
    le32_value(source.subrange(4, 8)) + 8
}

/// The header region is a multiple of four bytes long and holds the JSON
/// text, with fewer than four bytes to spare.
pub proof fn lemma_padded(json_size: nat)
    ensures
        padded(json_size) % 4 == 0,
        json_size <= padded(json_size) < json_size + 4,
{
}

/// Four bytes written for a 32-bit number read back as the number.
pub proof fn lemma_le32_round_trip(x: nat)
    requires
        x <= u32::MAX,
    ensures
        le32(x).len() == 4,
        le32_value(le32(x)) == x,
{
}

/// What the parts of an archive's bytes are: where each field of the preamble,
/// the JSON text and the file data stand.
pub proof fn lemma_image_parts(text: Seq<u8>, data: Seq<u8>)
    requires
        fits(text.len()),
    ensures
        image(text, data).len() == 16 + padded(text.len()) + data.len(),
        json_size_of(image(text, data)) == text.len(),
        data_start_of(image(text, data)) == 16 + padded(text.len()),
        image(text, data).subrange(16, 16 + text.len() as int) == text,
        image(text, data).subrange(
            16 + padded(text.len()) as int,
            image(text, data).len() as int,
        ) == data,
{
    let n = text.len();
    let whole = image(text, data);
    lemma_padded(n);
    lemma_le32_round_trip(n);
    lemma_le32_round_trip(padded(n) + 8);
    assert(whole.subrange(12, 16) =~= le32(n));
    assert(whole.subrange(4, 8) =~= le32(padded(n) + 8));
    assert(whole.subrange(16, 16 + n as int) =~= text);
    assert(whole.subrange(16 + padded(n) as int, whole.len() as int) =~= data);
}

/// Appends the four bytes of `x`, lowest first.
fn push_le32(out: &mut Vec<u8>, x: u32)
    ensures
        final(out)@ == old(out)@ + le32(x as nat),
{
    let ghost before = out@;
    out.push((x % 256) as u8);
    out.push((x / 256 % 256) as u8);
    out.push((x / 65536 % 256) as u8);
    out.push((x / 16777216 % 256) as u8);
    assert(out@ =~= before + le32(x as nat));
}

/// Reads the 32-bit number whose four bytes stand at `at`, lowest first.
fn read_le32(source: &[u8], at: usize) -> (x: u32)
    requires
        at + 4 <= source@.len(),
    ensures
        x == le32_value(source@.subrange(at as int, at + 4)),
{
    let b0 = source[at] as u32;
    let b1 = source[at + 1] as u32;
    let b2 = source[at + 2] as u32;
    let b3 = source[at + 3] as u32;
    b0 + b1 * 256 + b2 * 65536 + b3 * 16777216
}

/// The length of the header region for a JSON text of `json_size` bytes.
pub fn header_size(json_size: usize) -> (r: usize)
    requires
        json_size + 3 <= usize::MAX,
    ensures
        r == padded(json_size as nat),
        r % 4 == 0,
        json_size <= r < json_size + 4,
{
    json_size + (4 - (json_size % 4)) % 4
}

/// Reads the preamble: the length of the JSON text, and the place where the
/// file data begins.
pub fn read_sizes(source: &[u8]) -> (r: Result<(u32, u64), Error>)
    ensures
        match r {
            Ok((json_size, data_start)) => {
                &&& source@.len() >= 16
                &&& json_size == json_size_of(source@)
                &&& data_start == data_start_of(source@)
            },
            Err(e) => source@.len() < 16 && e@ == Failure::IOErr,
        },
{
    if source.len() < PREAMBLE_LEN {
        return Err(short_read());
    }
    let field = read_le32(source, 4);
    let json_size = read_le32(source, 12);
    Ok((json_size, field as u64 + 8))
}

/// Puts an archive together from the JSON text of its header and its file data.
pub fn assemble(text: &[u8], data: &[u8]) -> (r: Vec<u8>)
    requires
        fits(text@.len()),
    ensures
        r@ == image(text@, data@),
{
    let json_size = text.len();
    let header_size = header_size(json_size);
    let mut out: Vec<u8> = Vec::new();
    push_le32(&mut out, 4);
    push_le32(&mut out, (header_size + 8) as u32);
    push_le32(&mut out, (header_size + 4) as u32);
    push_le32(&mut out, json_size as u32);
    out.extend_from_slice(text);
    let mut i = json_size;
    while i < header_size
        invariant
            json_size <= i <= header_size,
            out@ == preamble(json_size as nat) + text@ + zeros((i - json_size) as nat),
        decreases header_size - i,
    {
        out.push(0u8);
        assert(zeros((i - json_size) as nat).push(0u8) =~= zeros((i + 1 - json_size) as nat));
        assert(out@ =~= preamble(json_size as nat) + text@ + zeros((i + 1 - json_size) as nat));
        i += 1;
    }
    out.extend_from_slice(data);
    assert(out@ =~= image(text@, data@));
    out
}

} // verus!
