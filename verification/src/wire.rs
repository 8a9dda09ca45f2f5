//! Big-endian integers as they appear in an index.

use vstd::prelude::*;

verus! {

/// The byte of `n` that starts at bit `shift`.
pub open spec fn byte_of(n: u64, shift: u64) -> u8 {
    ((n >> shift) & 0xff) as u8
}

/// The four bytes of `n`, most significant first.
pub open spec fn be32(n: u32) -> Seq<u8> {
    seq![byte_of(n as u64, 24), byte_of(n as u64, 16), byte_of(n as u64, 8), byte_of(n as u64, 0)]
}

/// The eight bytes of `n`, most significant first.
pub open spec fn be64(n: u64) -> Seq<u8> {
    seq![
        byte_of(n, 56),
        byte_of(n, 48),
        byte_of(n, 40),
        byte_of(n, 32),
        byte_of(n, 24),
        byte_of(n, 16),
        byte_of(n, 8),
        byte_of(n, 0),
    ]
}

/// Whether the `n` bytes starting at `at` lie inside `f`.
pub open spec fn readable(f: Seq<u8>, at: int, n: int) -> bool {
    0 <= at && 0 <= n && at + n <= f.len()
}

/// The number whose big-endian bytes are `b0` to `b3`.
pub open spec fn join32(b0: u8, b1: u8, b2: u8, b3: u8) -> u32 {
    (b0 as u32) << 24 | (b1 as u32) << 16 | (b2 as u32) << 8 | (b3 as u32)
}

/// The number whose big-endian bytes are `b0` to `b7`.
pub open spec fn join64(b0: u8, b1: u8, b2: u8, b3: u8, b4: u8, b5: u8, b6: u8, b7: u8) -> u64 {
    (b0 as u64) << 56 | (b1 as u64) << 48 | (b2 as u64) << 40 | (b3 as u64) << 32 | (b4 as u64)
        << 24 | (b5 as u64) << 16 | (b6 as u64) << 8 | (b7 as u64)
}

/// The big-endian `u32` stored at `at`.
pub open spec fn u32_at(f: Seq<u8>, at: int) -> u32
    recommends
        readable(f, at, 4),
{
    join32(f[at], f[at + 1], f[at + 2], f[at + 3])
}

/// The big-endian `u64` stored at `at`.
pub open spec fn u64_at(f: Seq<u8>, at: int) -> u64
    recommends
        readable(f, at, 8),
{
    join64(f[at], f[at + 1], f[at + 2], f[at + 3], f[at + 4], f[at + 5], f[at + 6], f[at + 7])
}

/// Joining the bytes of a `u32` gives it back.
pub proof fn lemma_join32(n: u32)
    ensures
        join32(byte_of(n as u64, 24), byte_of(n as u64, 16), byte_of(n as u64, 8), byte_of(n as u64, 0))
            == n,
{
    assert((((((n as u64) >> 24) & 0xff) as u8) as u32) << 24 | (((((n as u64) >> 16) & 0xff) as u8) as u32)
        << 16 | (((((n as u64) >> 8) & 0xff) as u8) as u32) << 8 | (((((n as u64) >> 0) & 0xff) as u8) as u32)
        == n) by (bit_vector);
}

/// Joining the bytes of a `u64` gives it back.
pub proof fn lemma_join64(n: u64)
    ensures
        join64(
            byte_of(n, 56),
            byte_of(n, 48),
            byte_of(n, 40),
            byte_of(n, 32),
            byte_of(n, 24),
            byte_of(n, 16),
            byte_of(n, 8),
            byte_of(n, 0),
        ) == n,
{
    assert(((((n >> 56) & 0xff) as u8) as u64) << 56 | ((((n >> 48) & 0xff) as u8) as u64) << 48 | ((((n
        >> 40) & 0xff) as u8) as u64) << 40 | ((((n >> 32) & 0xff) as u8) as u64) << 32 | ((((n >> 24)
        & 0xff) as u8) as u64) << 24 | ((((n >> 16) & 0xff) as u8) as u64) << 16 | ((((n >> 8) & 0xff) as u8) as u64)
        << 8 | ((((n >> 0) & 0xff) as u8) as u64) == n) by (bit_vector);
}

/// Reading back what `be32` wrote gives the number written.
pub proof fn lemma_be32_round_trip(f: Seq<u8>, at: int, n: u32)
    requires
        readable(f, at, 4),
        f.subrange(at, at + 4) == be32(n),
    ensures
        u32_at(f, at) == n,
{
    let b = f.subrange(at, at + 4);
    assert(b[0] == f[at] && b[1] == f[at + 1] && b[2] == f[at + 2] && b[3] == f[at + 3]);
    lemma_join32(n);
}

/// Reading back what `be64` wrote gives the number written.
pub proof fn lemma_be64_round_trip(f: Seq<u8>, at: int, n: u64)
    requires
        readable(f, at, 8),
        f.subrange(at, at + 8) == be64(n),
    ensures
        u64_at(f, at) == n,
{
    let b = f.subrange(at, at + 8);
    assert(b[0] == f[at] && b[1] == f[at + 1] && b[2] == f[at + 2] && b[3] == f[at + 3]);
    assert(b[4] == f[at + 4] && b[5] == f[at + 5] && b[6] == f[at + 6] && b[7] == f[at + 7]);
    lemma_join64(n);
}

/// The byte of `n` that starts at bit `shift`.
fn byte_at(n: u64, shift: u64) -> (b: u8)
    requires
        shift < 64,
    ensures
        b == byte_of(n, shift),
{
    let masked: u64 = (n >> shift) & 0xff;
    assert((n >> shift) & 0xff < 256) by (bit_vector);
    masked as u8
}

/// Appends `n` to `out`, most significant byte first.
pub fn put_u32(out: &mut Vec<u8>, n: u32)
    ensures
        final(out)@ == old(out)@ + be32(n),
{
    let wide: u64 = n as u64;
    out.push(byte_at(wide, 24));
    out.push(byte_at(wide, 16));
    out.push(byte_at(wide, 8));
    out.push(byte_at(wide, 0));
    assert(out@ =~= old(out)@ + be32(n));
}

/// Appends `n` to `out`, most significant byte first.
pub fn put_u64(out: &mut Vec<u8>, n: u64)
    ensures
        final(out)@ == old(out)@ + be64(n),
{
    out.push(byte_at(n, 56));
    out.push(byte_at(n, 48));
    out.push(byte_at(n, 40));
    out.push(byte_at(n, 32));
    out.push(byte_at(n, 24));
    out.push(byte_at(n, 16));
    out.push(byte_at(n, 8));
    out.push(byte_at(n, 0));
    assert(out@ =~= old(out)@ + be64(n));
}

/// Reads the big-endian `u32` at `at`, if its four bytes lie inside `f`.
pub fn get_u32(f: &[u8], at: usize) -> (r: Option<u32>)
    ensures
        r == if readable(f@, at as int, 4) {
            Some(u32_at(f@, at as int))
        } else {
            None
        },
{
    if at > f.len() || f.len() - at < 4 {
        return None;
    }
    let b0: u32 = f[at] as u32;
    let b1: u32 = f[at + 1] as u32;
    let b2: u32 = f[at + 2] as u32;
    let b3: u32 = f[at + 3] as u32;
    Some(b0 << 24 | b1 << 16 | b2 << 8 | b3)
}

/// Reads the big-endian `u64` at `at`, if its eight bytes lie inside `f`.
pub fn get_u64(f: &[u8], at: usize) -> (r: Option<u64>)
    ensures
        r == if readable(f@, at as int, 8) {
            Some(u64_at(f@, at as int))
        } else {
            None
        },
{
    if at > f.len() || f.len() - at < 8 {
        return None;
    }
    let b0: u64 = f[at] as u64;
    let b1: u64 = f[at + 1] as u64;
    let b2: u64 = f[at + 2] as u64;
    let b3: u64 = f[at + 3] as u64;
    let b4: u64 = f[at + 4] as u64;
    let b5: u64 = f[at + 5] as u64;
    let b6: u64 = f[at + 6] as u64;
    let b7: u64 = f[at + 7] as u64;
    Some(b0 << 56 | b1 << 48 | b2 << 40 | b3 << 32 | b4 << 24 | b5 << 16 | b6 << 8 | b7)
}

} // verus!
