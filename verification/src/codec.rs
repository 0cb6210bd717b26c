//! Little-endian integer and length-prefixed byte codec, and CRC-32.
//!
//! Every decoder is specified by a `parse_*` spec function over the whole
//! buffer and a starting offset: the decoder succeeds exactly when the parse
//! does, returns the parsed value and advances the offset to the parse's end.
use vstd::prelude::*;
use vstd::bytes::*;
use crate::error::{Error, corruption};

verus! {

// ---------------------------------------------------------------------------
// CRC-32 (IEEE 802.3, reflected polynomial 0xEDB88320)
// ---------------------------------------------------------------------------

/// One shift of the CRC register: shift right, folding in the polynomial when
/// the bit shifted out is set.
pub open spec fn crc_step(c: u32) -> u32 {
    if c & 1 != 0 {
        0xEDB8_8320u32 ^ (c >> 1u32)
    } else {
        c >> 1u32
    }
}

/// `n` register shifts applied to `c`.
pub open spec fn crc_shifts(c: u32, n: nat) -> u32
    decreases n,
{
    if n == 0 {
        c
    } else {
        crc_shifts(crc_step(c), (n - 1) as nat)
    }
}

/// Entry `i` of the byte-wise CRC table: eight shifts of `i`.
pub open spec fn crc_table_entry(i: u32) -> u32 {
    crc_shifts(i, 8)
}

/// The CRC register after feeding `data`, starting from all ones.
pub open spec fn crc_register(data: Seq<u8>) -> u32
    decreases data.len(),
{
    if data.len() == 0 {
        0xFFFF_FFFFu32
    } else {
        let c = crc_register(data.drop_last());
        crc_table_entry((c ^ (data.last() as u32)) & 0xFFu32) ^ (c >> 8u32)
    }
}

/// The CRC-32 checksum of `data`: the final register, inverted.
pub open spec fn spec_crc32(data: Seq<u8>) -> u32 {
    !crc_register(data)
}

/// The 256-entry byte-wise CRC table.
fn crc32_table() -> (t: Vec<u32>)
    ensures
        t@.len() == 256,
        forall|i: int| 0 <= i < 256 ==> #[trigger] t@[i] == crc_table_entry(i as u32),
{
    let mut table: Vec<u32> = Vec::new();
    let mut i: u32 = 0;
    while i < 256
        invariant
            i <= 256,
            table@.len() == i,
            forall|k: int| 0 <= k < i ==> #[trigger] table@[k] == crc_table_entry(k as u32),
        decreases 256 - i,
    {
        let mut c: u32 = i;
        let mut j: u32 = 0;
        while j < 8
            invariant
                j <= 8,
                crc_shifts(c, (8 - j) as nat) == crc_shifts(i, 8),
            decreases 8 - j,
        {
            if c & 1 != 0 {
                c = 0xEDB8_8320u32 ^ (c >> 1u32);
            } else {
                c = c >> 1u32;
            }
            j = j + 1;
        }
        table.push(c);
        i = i + 1;
    }
    table
}

/// Computes the CRC-32 (IEEE) checksum of `data`.
pub fn crc32(data: &[u8]) -> (r: u32)
    ensures
        r == spec_crc32(data@),
{
    let table = crc32_table();
    let mut crc: u32 = 0xFFFF_FFFFu32;
    let mut i: usize = 0;
    while i < data.len()
        invariant
            i <= data@.len(),
            table@.len() == 256,
            forall|k: int| 0 <= k < 256 ==> #[trigger] table@[k] == crc_table_entry(k as u32),
            crc == crc_register(data@.subrange(0, i as int)),
        decreases data@.len() - i,
    {
        let byte = data[i];
        let idx32: u32 = (crc ^ (byte as u32)) & 0xFFu32;
        assert(idx32 < 256) by (bit_vector)
            requires
                idx32 == (crc ^ (byte as u32)) & 0xFFu32,
        ;
        let idx: usize = idx32 as usize;
        let next = table[idx] ^ (crc >> 8u32);
        proof {
            let s = data@.subrange(0, i + 1);
            assert(s.drop_last() =~= data@.subrange(0, i as int));
            assert(s.last() == byte);
        }
        crc = next;
        i = i + 1;
    }
    proof {
        assert(data@.subrange(0, data@.len() as int) =~= data@);
    }
    !crc
}

// ---------------------------------------------------------------------------
// Encodings
// ---------------------------------------------------------------------------

/// Little-endian bytes of a `u32`.
pub open spec fn u32_le(v: u32) -> Seq<u8> {
    spec_u32_to_le_bytes(v)
}

/// Little-endian bytes of a `u64`.
pub open spec fn u64_le(v: u64) -> Seq<u8> {
    spec_u64_to_le_bytes(v)
}

/// The length tag written before a byte string: its length, saturated to
/// `u32::MAX`.
pub open spec fn len_tag(n: nat) -> u32 {
    if n <= u32::MAX {
        n as u32
    } else {
        u32::MAX
    }
}

/// A byte string preceded by its length tag.
pub open spec fn prefixed(data: Seq<u8>) -> Seq<u8> {
    u32_le(len_tag(data.len())) + data
}

/// Appends `data` to `buf`.
pub(crate) fn extend(buf: &mut Vec<u8>, data: &[u8])
    ensures
        final(buf)@ == old(buf)@ + data@,
{
    let mut i: usize = 0;
    while i < data.len()
        invariant
            i <= data@.len(),
            buf@ == old(buf)@ + data@.subrange(0, i as int),
        decreases data@.len() - i,
    {
        buf.push(data[i]);
        i = i + 1;
    }
    proof {
        assert(data@.subrange(0, data@.len() as int) =~= data@);
    }
}

/// Appends `v` in little-endian order.
pub(crate) fn put_u32(buf: &mut Vec<u8>, v: u32)
    ensures
        final(buf)@ == old(buf)@ + u32_le(v),
{
    let bytes = u32_to_le_bytes(v);
    extend(buf, bytes.as_slice());
}

/// Appends `v` in little-endian order.
pub(crate) fn put_u64(buf: &mut Vec<u8>, v: u64)
    ensures
        final(buf)@ == old(buf)@ + u64_le(v),
{
    let bytes = u64_to_le_bytes(v);
    extend(buf, bytes.as_slice());
}

/// Appends `data` preceded by its length tag.
pub(crate) fn put_bytes(buf: &mut Vec<u8>, data: &[u8])
    ensures
        final(buf)@ == old(buf)@ + prefixed(data@),
{
    let n = data.len();
    let tag: u32 = if n <= 0xFFFF_FFFFusize {
        n as u32
    } else {
        0xFFFF_FFFFu32
    };
    put_u32(buf, tag);
    extend(buf, data);
    proof {
        assert(buf@ =~= old(buf)@ + prefixed(data@));
    }
}

// ---------------------------------------------------------------------------
// Parsers
// ---------------------------------------------------------------------------

/// The `len` bytes at `off`, and the offset after them.
pub open spec fn parse_bytes(data: Seq<u8>, off: int, len: int) -> Option<(Seq<u8>, int)> {
    if 0 <= off && 0 <= len && off + len <= data.len() {
        Some((data.subrange(off, off + len), off + len))
    } else {
        None
    }
}

/// The little-endian `u32` at `off`, and the offset after it.
pub open spec fn parse_u32(data: Seq<u8>, off: int) -> Option<(u32, int)> {
    if 0 <= off && off + 4 <= data.len() {
        Some((spec_u32_from_le_bytes(data.subrange(off, off + 4)), off + 4))
    } else {
        None
    }
}

/// The little-endian `u64` at `off`, and the offset after it.
pub open spec fn parse_u64(data: Seq<u8>, off: int) -> Option<(u64, int)> {
    if 0 <= off && off + 8 <= data.len() {
        Some((spec_u64_from_le_bytes(data.subrange(off, off + 8)), off + 8))
    } else {
        None
    }
}

/// The length-prefixed byte string at `off`, and the offset after it.
pub open spec fn parse_prefixed(data: Seq<u8>, off: int) -> Option<(Seq<u8>, int)> {
    match parse_u32(data, off) {
        Some((n, o)) => parse_bytes(data, o, n as int),
        None => None,
    }
}

/// Reads a little-endian `u32` at `*offset` and advances past it.
pub(crate) fn read_u32(data: &[u8], offset: &mut usize) -> (r: Result<u32, Error>)
    ensures
        match r {
            Ok(v) => parse_u32(data@, *old(offset) as int) == Some((v, *final(offset) as int)),
            Err(e) => parse_u32(data@, *old(offset) as int) is None && e is Corruption
                && *final(offset) == *old(offset),
        },
{
    let total = data.len();
    if *offset > usize::MAX - 4 {
        return Err(corruption("integer overflow"));
    }
    let end = *offset + 4;
    if end > total {
        return Err(corruption("truncated u32"));
    }
    let v = u32_from_le_bytes(vstd::slice::slice_subrange(data, *offset, end));
    *offset = end;
    Ok(v)
}

/// Reads a little-endian `u64` at `*offset` and advances past it.
pub(crate) fn read_u64(data: &[u8], offset: &mut usize) -> (r: Result<u64, Error>)
    ensures
        match r {
            Ok(v) => parse_u64(data@, *old(offset) as int) == Some((v, *final(offset) as int)),
            Err(e) => parse_u64(data@, *old(offset) as int) is None && e is Corruption
                && *final(offset) == *old(offset),
        },
{
    let total = data.len();
    if *offset > usize::MAX - 8 {
        return Err(corruption("integer overflow"));
    }
    let end = *offset + 8;
    if end > total {
        return Err(corruption("truncated u64"));
    }
    let v = u64_from_le_bytes(vstd::slice::slice_subrange(data, *offset, end));
    *offset = end;
    Ok(v)
}

/// Reads `len` bytes at `*offset` and advances past them.
pub(crate) fn read_bytes<'a>(data: &'a [u8], offset: &mut usize, len: usize) -> (r: Result<
    &'a [u8],
    Error,
>)
    ensures
        match r {
            Ok(s) => parse_bytes(data@, *old(offset) as int, len as int) == Some(
                (s@, *final(offset) as int),
            ),
            Err(e) => parse_bytes(data@, *old(offset) as int, len as int) is None
                && e is Corruption && *final(offset) == *old(offset),
        },
{
    let total = data.len();
    if *offset > usize::MAX - len {
        return Err(corruption("integer overflow"));
    }
    let end = *offset + len;
    if end > total {
        return Err(corruption("truncated byte slice"));
    }
    let slice = vstd::slice::slice_subrange(data, *offset, end);
    *offset = end;
    Ok(slice)
}

/// Reads a length-prefixed byte string at `*offset` and advances past it.
/// On failure the offset may have moved past the length tag.
pub(crate) fn read_len_prefixed<'a>(data: &'a [u8], offset: &mut usize) -> (r: Result<
    &'a [u8],
    Error,
>)
    ensures
        match r {
            Ok(s) => parse_prefixed(data@, *old(offset) as int) == Some(
                (s@, *final(offset) as int),
            ),
            Err(e) => parse_prefixed(data@, *old(offset) as int) is None && e is Corruption,
        },
{
    let len = read_u32(data, offset)?;
    read_bytes(data, offset, len as usize)
}

// ---------------------------------------------------------------------------
// Round trips
// ---------------------------------------------------------------------------

/// Reading a `u32` back at the place it was written gives the value written.
pub proof fn lemma_parse_u32_of(pre: Seq<u8>, v: u32, post: Seq<u8>)
    ensures
        u32_le(v).len() == 4,
        parse_u32(pre + u32_le(v) + post, pre.len() as int) == Some((v, pre.len() + 4int)),
{
    lemma_auto_spec_u32_to_from_le_bytes();
    let d = pre + u32_le(v) + post;
    assert(d.subrange(pre.len() as int, pre.len() + 4int) =~= u32_le(v));
}

/// Reading a `u64` back at the place it was written gives the value written.
pub proof fn lemma_parse_u64_of(pre: Seq<u8>, v: u64, post: Seq<u8>)
    ensures
        u64_le(v).len() == 8,
        parse_u64(pre + u64_le(v) + post, pre.len() as int) == Some((v, pre.len() + 8int)),
{
    lemma_auto_spec_u64_to_from_le_bytes();
    let d = pre + u64_le(v) + post;
    assert(d.subrange(pre.len() as int, pre.len() + 8int) =~= u64_le(v));
}

/// Reading a length-prefixed string back at the place it was written gives the
/// string written, as long as its length fits the `u32` tag.
pub proof fn lemma_parse_prefixed_of(pre: Seq<u8>, s: Seq<u8>, post: Seq<u8>)
    requires
        s.len() <= u32::MAX,
    ensures
        prefixed(s).len() == 4 + s.len(),
        parse_prefixed(pre + prefixed(s) + post, pre.len() as int) == Some(
            (s, pre.len() + 4int + s.len()),
        ),
{
    lemma_auto_spec_u32_to_from_le_bytes();
    let tag = len_tag(s.len());
    assert(pre + prefixed(s) + post =~= pre + u32_le(tag) + (s + post));
    lemma_parse_u32_of(pre, tag, s + post);
    let d = pre + prefixed(s) + post;
    assert(d.subrange(pre.len() + 4int, pre.len() + 4int + s.len()) =~= s);
}

} // verus!
