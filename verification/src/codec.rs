//! Fixed-width integers and length-prefixed strings, the two building blocks
//! of every record and message.

use vstd::prelude::*;
use vstd::slice::slice_subrange;
use vstd::utf8::{decode_utf8, encode_utf8, valid_utf8};

verus! {

/// The eight bytes of `n`, most significant first.
pub open spec fn be64(n: u64) -> Seq<u8> {
    seq![
        ((n >> 56) & 0xff) as u8,
        ((n >> 48) & 0xff) as u8,
        ((n >> 40) & 0xff) as u8,
        ((n >> 32) & 0xff) as u8,
        ((n >> 24) & 0xff) as u8,
        ((n >> 16) & 0xff) as u8,
        ((n >> 8) & 0xff) as u8,
        (n & 0xff) as u8,
    ]
}

/// The integer whose big-endian bytes are the first eight bytes of `b`.
pub open spec fn be64_value(b: Seq<u8>) -> u64 {
    ((b[0] as u64) << 56) | ((b[1] as u64) << 48) | ((b[2] as u64) << 40) | ((b[3] as u64) << 32)
        | ((b[4] as u64) << 24) | ((b[5] as u64) << 16) | ((b[6] as u64) << 8) | (b[7] as u64)
}

/// Decoding the big-endian bytes of `n` gives `n` back, whatever follows them.
pub proof fn lemma_be64_round_trip(n: u64, rest: Seq<u8>)
    ensures
        be64(n).len() == 8,
        be64_value(be64(n) + rest) == n,
{
    let b = be64(n) + rest;
    let (b0, b1, b2, b3) = (b[0], b[1], b[2], b[3]);
    let (b4, b5, b6, b7) = (b[4], b[5], b[6], b[7]);
    assert(((b0 as u64) << 56) | ((b1 as u64) << 48) | ((b2 as u64) << 40) | ((b3 as u64) << 32)
        | ((b4 as u64) << 24) | ((b5 as u64) << 16) | ((b6 as u64) << 8) | (b7 as u64) == n)
        by (bit_vector)
        requires
            b0 == ((n >> 56) & 0xff) as u8,
            b1 == ((n >> 48) & 0xff) as u8,
            b2 == ((n >> 40) & 0xff) as u8,
            b3 == ((n >> 32) & 0xff) as u8,
            b4 == ((n >> 24) & 0xff) as u8,
            b5 == ((n >> 16) & 0xff) as u8,
            b6 == ((n >> 8) & 0xff) as u8,
            b7 == (n & 0xff) as u8,
    ;
}

/// One byte of `n`, for writing.
fn byte_of(n: u64, shift: u64) -> (b: u8)
    requires
        shift < 64,
    ensures
        b == ((n >> shift) & 0xff) as u8,
{
    let low: u64 = (n >> shift) & 0xff;
    assert(low < 256) by (bit_vector)
        requires
            low == (n >> shift) & 0xff,
    ;
    low as u8
}

/// Appends the big-endian bytes of `n` to `v`.
pub fn write_u64(v: &mut Vec<u8>, n: u64)
    ensures
        final(v)@ == old(v)@ + be64(n),
{
    v.push(byte_of(n, 56));
    v.push(byte_of(n, 48));
    v.push(byte_of(n, 40));
    v.push(byte_of(n, 32));
    v.push(byte_of(n, 24));
    v.push(byte_of(n, 16));
    v.push(byte_of(n, 8));
    v.push(byte_of(n, 0));
    assert(n >> 0 == n) by (bit_vector);
    assert(v@ =~= old(v)@ + be64(n));
}

/// Reads the big-endian integer that starts at `at`.
pub fn read_u64(buf: &[u8], at: usize) -> (n: u64)
    requires
        at + 8 <= buf@.len(),
    ensures
        n == be64_value(buf@.subrange(at as int, at + 8)),
{
    let ghost b = buf@.subrange(at as int, at + 8);
    assert(b[0] == buf@[at as int] && b[1] == buf@[at + 1] && b[2] == buf@[at + 2]);
    assert(b[3] == buf@[at + 3] && b[4] == buf@[at + 4] && b[5] == buf@[at + 5]);
    assert(b[6] == buf@[at + 6] && b[7] == buf@[at + 7]);
    ((buf[at] as u64) << 56) | ((buf[at + 1] as u64) << 48) | ((buf[at + 2] as u64) << 40) | ((
    buf[at + 3] as u64) << 32) | ((buf[at + 4] as u64) << 24) | ((buf[at + 5] as u64) << 16) | ((
    buf[at + 6] as u64) << 8) | (buf[at + 7] as u64)
}

/// What `String::from_utf8_lossy` makes of bytes that are not valid UTF-8.
pub uninterp spec fn utf8_repaired(bytes: Seq<u8>) -> Seq<char>;

/// The text that a string field's bytes stand for: the decoded characters
/// where the bytes are valid UTF-8, and the repaired text otherwise, so that a
/// damaged field never fails a whole record.
pub open spec fn text_of(bytes: Seq<u8>) -> Seq<char> {
    if valid_utf8(bytes) {
        decode_utf8(bytes)
    } else {
        utf8_repaired(bytes)
    }
}

/// A length-prefixed block: the length of `content` as eight big-endian
/// bytes, then `content`. Records, messages and string fields are all blocks.
pub open spec fn prefixed(content: Seq<u8>) -> Seq<u8> {
    be64(content.len() as u64) + content
}

/// Whether the eight bytes of a length prefix are there at `at`.
pub open spec fn block_started(b: Seq<u8>, at: int) -> bool {
    0 <= at && at + 8 <= b.len()
}

/// The length that the prefix at `at` declares.
pub open spec fn block_len(b: Seq<u8>, at: int) -> int {
    be64_value(b.subrange(at, at + 8)) as int
}

/// Whether a whole block starts at `at`: its prefix and as many bytes as the
/// prefix declares.
pub open spec fn has_block(b: Seq<u8>, at: int) -> bool {
    block_started(b, at) && at + 8 + block_len(b, at) <= b.len()
}

/// The offset just past the block that starts at `at`.
pub open spec fn block_end(b: Seq<u8>, at: int) -> int {
    at + 8 + block_len(b, at)
}

/// The content of the block that starts at `at`.
pub open spec fn block(b: Seq<u8>, at: int) -> Seq<u8> {
    b.subrange(at + 8, block_end(b, at))
}

/// A string field: the UTF-8 bytes of the text as a block.
pub open spec fn field(s: Seq<char>) -> Seq<u8> {
    prefixed(encode_utf8(s))
}

/// Whether the text's UTF-8 length fits the length prefix.
pub open spec fn fits(s: Seq<char>) -> bool {
    encode_utf8(s).len() <= u64::MAX
}

/// The text of the string field that starts at `at`.
pub open spec fn field_text(b: Seq<u8>, at: int) -> Seq<char> {
    text_of(block(b, at))
}

/// Calls `String::from_utf8_lossy` and takes the owned result. The standard
/// library documents that bytes which are valid UTF-8 come back as they are,
/// as a string. What comes back for other bytes, with replacement characters
/// in place of what is invalid, is not spelled out here: it is given the
/// name `utf8_repaired`.
#[verifier::external_body]
fn lossy_string(bytes: &[u8]) -> (s: String)
    ensures
        valid_utf8(bytes@) ==> encode_utf8(s@) == bytes@,
        !valid_utf8(bytes@) ==> s@ == utf8_repaired(bytes@),
{
    String::from_utf8_lossy(bytes).into_owned()
}

/// Decodes the bytes of a string field, never failing.
pub fn decode_text(bytes: &[u8]) -> (s: String)
    ensures
        s@ == text_of(bytes@),
{
    let s = lossy_string(bytes);
    proof {
        vstd::utf8::encode_utf8_decode_utf8(s@);
    }
    s
}

/// Text written as a field reads back as the same text.
pub proof fn lemma_text_round_trip(s: Seq<char>)
    ensures
        text_of(encode_utf8(s)) == s,
{
    vstd::utf8::encode_utf8_valid_utf8(s);
    vstd::utf8::encode_utf8_decode_utf8(s);
}

/// A block written in front of anything is found there again, whole.
pub proof fn lemma_block_round_trip(head: Seq<u8>, content: Seq<u8>, rest: Seq<u8>)
    requires
        content.len() <= u64::MAX,
    ensures
        prefixed(content).len() == 8 + content.len(),
        has_block(head + prefixed(content) + rest, head.len() as int),
        block_end(head + prefixed(content) + rest, head.len() as int) == head.len() + 8
            + content.len(),
        block(head + prefixed(content) + rest, head.len() as int) == content,
{
    let n = content.len() as u64;
    let b = head + prefixed(content) + rest;
    let at = head.len() as int;
    lemma_be64_round_trip(n, Seq::empty());
    assert(be64(n) + Seq::<u8>::empty() =~= be64(n));
    assert(b.subrange(at, at + 8) =~= be64(n));
    assert(b.subrange(at + 8, at + 8 + n) =~= content);
}

/// A block of which only a part has arrived is not there yet: no proper
/// prefix of a block is a whole block.
pub proof fn lemma_part_is_no_block(content: Seq<u8>, n: int)
    requires
        content.len() <= u64::MAX,
        0 <= n < prefixed(content).len(),
    ensures
        !has_block(prefixed(content).take(n), 0),
{
    let whole = prefixed(content);
    let part = whole.take(n);
    lemma_block_round_trip(Seq::empty(), content, Seq::empty());
    assert(Seq::<u8>::empty() + whole + Seq::<u8>::empty() =~= whole);
    if n >= 8 {
        assert(part.subrange(0, 8) =~= whole.subrange(0, 8));
    }
}

/// A field written in front of anything is found there again, with its text.
pub proof fn lemma_field_round_trip(head: Seq<u8>, s: Seq<char>, rest: Seq<u8>)
    requires
        fits(s),
    ensures
        field(s).len() == 8 + encode_utf8(s).len(),
        has_block(head + field(s) + rest, head.len() as int),
        block_end(head + field(s) + rest, head.len() as int) == head.len() + field(s).len(),
        field_text(head + field(s) + rest, head.len() as int) == s,
{
    lemma_block_round_trip(head, encode_utf8(s), rest);
    lemma_text_round_trip(s);
}

/// What a look at an offset finds of a block.
pub enum Extent {
    /// Fewer than the eight bytes of a length prefix are left.
    Short,
    /// The prefix is there, but fewer bytes follow than it declares.
    Partial,
    /// The whole block is there; it ends just before the offset given.
    Whole(usize),
}

/// Looks for a block at `at`.
pub fn find_block(data: &[u8], at: usize) -> (r: Extent)
    ensures
        match r {
            Extent::Short => !block_started(data@, at as int),
            Extent::Partial => block_started(data@, at as int) && !has_block(data@, at as int),
            Extent::Whole(end) => has_block(data@, at as int) && end == block_end(
                data@,
                at as int,
            ),
        },
{
    let len = data.len();
    if at > len || len - at < 8 {
        return Extent::Short;
    }
    let n = read_u64(data, at);
    let start = at + 8;
    if n > (len - start) as u64 {
        return Extent::Partial;
    }
    Extent::Whole(start + n as usize)
}

/// Appends `content` as a block.
pub fn write_block(v: &mut Vec<u8>, content: &[u8])
    ensures
        final(v)@ == old(v)@ + prefixed(content@),
        content@.len() <= u64::MAX,
{
    write_u64(v, content.len() as u64);
    let ghost mid = v@;
    v.extend_from_slice(content);
    assert(v@ =~= mid + content@);
    assert(v@ =~= old(v)@ + prefixed(content@));
}

/// Appends `s` as a string field.
pub fn write_str(v: &mut Vec<u8>, s: &str)
    ensures
        final(v)@ == old(v)@ + field(s@),
        fits(s@),
{
    let bytes = s.as_bytes();
    let n = bytes.len();
    assert(encode_utf8(s@).len() == n);
    write_block(v, bytes);
}

/// Reads the string field that starts at `at`, with the offset just past it;
/// `None` when the bytes end before the field does.
pub fn read_str(data: &[u8], at: usize) -> (r: Option<(String, usize)>)
    ensures
        match r {
            Some((s, next)) => has_block(data@, at as int) && s@ == field_text(data@, at as int)
                && next == block_end(data@, at as int),
            None => !has_block(data@, at as int),
        },
{
    match find_block(data, at) {
        Extent::Whole(end) => {
            let s = decode_text(slice_subrange(data, at + 8, end));
            Some((s, end))
        },
        _ => None,
    }
}

} // verus!
