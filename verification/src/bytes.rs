use crate::error::{invalid_pe, is_invalid_pe, Error};
use vstd::prelude::*;

verus! {

/// The unsigned little-endian number held by `n` bytes of `b` from `offset`.
pub open spec fn le_value(b: Seq<u8>, offset: int, n: nat) -> nat
    decreases n,
{
    if n == 0 {
        0
    } else {
        b[offset] as nat + 256 * le_value(b, offset + 1, (n - 1) as nat)
    }
}

/// The outcome of reading an `n`-byte little-endian field at `offset`:
/// the value, or the message of the `InvalidPe` error.
pub open spec fn spec_read_le(b: Seq<u8>, offset: int, n: nat) -> Result<nat, Seq<char>> {
    if offset + n > usize::MAX {
        Err("offset overflow"@)
    } else if offset + n > b.len() {
        Err("truncated header"@)
    } else {
        Ok(le_value(b, offset, n))
    }
}

/// `r` is the result that reading `n` bytes at `offset` of `b` must give.
pub open spec fn read_le_result<T>(b: Seq<u8>, offset: int, n: nat, r: Result<T, Error>, as_nat: spec_fn(T) -> nat) -> bool {
    match spec_read_le(b, offset, n) {
        Ok(v) => r matches Ok(x) && as_nat(x) == v,
        Err(msg) => r matches Err(e) && is_invalid_pe(e, msg),
    }
}

proof fn lemma_le_value_2(b: Seq<u8>, o: int)
    ensures
        le_value(b, o, 2) == b[o] + 256 * b[o + 1],
{
    reveal_with_fuel(le_value, 3);
}

proof fn lemma_le_value_4(b: Seq<u8>, o: int)
    ensures
        le_value(b, o, 4) == b[o] + 256 * b[o + 1] + 65536 * b[o + 2] + 16777216 * b[o + 3],
{
    reveal_with_fuel(le_value, 5);
}

proof fn lemma_le_value_8(b: Seq<u8>, o: int)
    ensures
        le_value(b, o, 8) == b[o] + 0x100 * b[o + 1] + 0x1_0000 * b[o + 2] + 0x100_0000 * b[o + 3]
            + 0x1_0000_0000 * b[o + 4] + 0x100_0000_0000 * b[o + 5] + 0x1_0000_0000_0000 * b[o
            + 6] + 0x100_0000_0000_0000 * b[o + 7],
{
    reveal_with_fuel(le_value, 9);
}

/// Reads a little-endian `u16` at `offset`.
pub fn read_u16(bytes: &[u8], offset: usize) -> (r: Result<u16, Error>)
    ensures
        read_le_result(bytes@, offset as int, 2, r, |x: u16| x as nat),
{
    if offset > usize::MAX - 2 {
        return Err(invalid_pe("offset overflow"));
    }
    if offset + 2 > bytes.len() {
        return Err(invalid_pe("truncated header"));
    }
    proof {
        lemma_le_value_2(bytes@, offset as int);
    }
    Ok(bytes[offset] as u16 + 0x100 * bytes[offset + 1] as u16)
}

/// Reads a little-endian `u32` at `offset`.
pub fn read_u32(bytes: &[u8], offset: usize) -> (r: Result<u32, Error>)
    ensures
        read_le_result(bytes@, offset as int, 4, r, |x: u32| x as nat),
{
    if offset > usize::MAX - 4 {
        return Err(invalid_pe("offset overflow"));
    }
    if offset + 4 > bytes.len() {
        return Err(invalid_pe("truncated header"));
    }
    proof {
        lemma_le_value_4(bytes@, offset as int);
    }
    Ok(bytes[offset] as u32 + 0x100 * bytes[offset + 1] as u32 + 0x1_0000 * bytes[offset
        + 2] as u32 + 0x100_0000 * bytes[offset + 3] as u32)
}

/// Reads a little-endian `u64` at `offset`.
pub fn read_u64(bytes: &[u8], offset: usize) -> (r: Result<u64, Error>)
    ensures
        read_le_result(bytes@, offset as int, 8, r, |x: u64| x as nat),
{
    if offset > usize::MAX - 8 {
        return Err(invalid_pe("offset overflow"));
    }
    if offset + 8 > bytes.len() {
        return Err(invalid_pe("truncated header"));
    }
    proof {
        lemma_le_value_8(bytes@, offset as int);
    }
    Ok(bytes[offset] as u64 + 0x100 * bytes[offset + 1] as u64 + 0x1_0000 * bytes[offset
        + 2] as u64 + 0x100_0000 * bytes[offset + 3] as u64 + 0x1_0000_0000 * bytes[offset
        + 4] as u64 + 0x100_0000_0000 * bytes[offset + 5] as u64 + 0x1_0000_0000_0000
        * bytes[offset + 6] as u64 + 0x100_0000_0000_0000 * bytes[offset + 7] as u64)
}


/// The little-endian `u32` at `offset`, where four bytes are known to be
/// there.
pub fn le_u32_at(bytes: &[u8], offset: usize) -> (r: u32)
    requires
        offset + 4 <= bytes@.len(),
    ensures
        r as nat == le_value(bytes@, offset as int, 4),
{
    proof {
        lemma_le_value_4(bytes@, offset as int);
    }
    bytes[offset] as u32 + 0x100 * bytes[offset + 1] as u32 + 0x1_0000 * bytes[offset + 2] as u32
        + 0x100_0000 * bytes[offset + 3] as u32
}

/// A little-endian field of up to eight bytes is below `2^(8n)`.
pub proof fn lemma_le_value_bound(b: Seq<u8>, o: int, n: nat)
    requires
        n <= 8,
    ensures
        n == 2 ==> le_value(b, o, n) <= u16::MAX,
        n == 4 ==> le_value(b, o, n) <= u32::MAX,
        n == 8 ==> le_value(b, o, n) <= u64::MAX,
{
    if n == 2 {
        lemma_le_value_2(b, o);
    } else if n == 4 {
        lemma_le_value_4(b, o);
    } else if n == 8 {
        lemma_le_value_8(b, o);
    }
}

} // verus!
