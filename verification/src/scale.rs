//! Byte-level readers for the storage values and version records the runtime
//! cache decodes: little-endian fixed-width integers and compact-prefixed
//! lengths.

use vstd::prelude::*;

verus! {

/// The little-endian value of `bytes[pos .. pos + n]`.
pub open spec fn le_value(bytes: Seq<u8>, pos: int, n: int) -> int
    decreases n,
{
    if n <= 0 {
        0
    } else {
        bytes[pos] + 256 * le_value(bytes, pos + 1, n - 1)
    }
}

/// Read a little-endian `u64` from the first eight bytes, as the storage
/// encoding of an unsigned 64-bit integer has them.  `None` when fewer than
/// eight bytes are given.
pub fn decode_u64_le(bytes: &[u8]) -> (r: Option<u64>)
    ensures
        bytes@.len() < 8 ==> r is None,
        bytes@.len() >= 8 ==> r == Some(le_value(bytes@, 0, 8) as u64),
{
    if bytes.len() < 8 {
        return None;
    }
    let mut acc: u64 = 0;
    let mut i: usize = 8;
    while i > 0
        invariant
            i <= 8,
            bytes@.len() >= 8,
            acc == le_value(bytes@, i as int, 8 - i),
            acc < pow256(8 - i),
        decreases i,
    {
        proof {
            lemma_pow256_bounds();
            lemma_pow256_mono(8 - i, 7);
        }
        i = i - 1;
        acc = acc * 256 + (bytes[i] as u64);
    }
    proof {
        lemma_pow256_bounds();
    }
    Some(acc)
}

/// Whether a compact-encoded unsigned 32-bit value starts at `pos`: the two
/// low bits of the first byte select one, two or four bytes holding the value
/// shifted left by two, or a following four-byte little-endian value.
pub open spec fn compact_ok(bytes: Seq<u8>, pos: int) -> bool {
    &&& 0 <= pos < bytes.len()
    &&& {
        let m = bytes[pos] % 4;
        if m == 0 {
            true
        } else if m == 1 {
            pos + 2 <= bytes.len()
        } else if m == 2 {
            pos + 4 <= bytes.len()
        } else {
            bytes[pos] / 4 == 0 && pos + 5 <= bytes.len()
        }
    }
}

/// How many bytes the compact encoding at `pos` occupies.
pub open spec fn compact_size(bytes: Seq<u8>, pos: int) -> int {
    let m = bytes[pos] % 4;
    if m == 0 {
        1
    } else if m == 1 {
        2
    } else if m == 2 {
        4
    } else {
        5
    }
}

/// The value the compact encoding at `pos` holds.
pub open spec fn compact_value(bytes: Seq<u8>, pos: int) -> int {
    let m = bytes[pos] % 4;
    if m == 0 {
        (bytes[pos] as int) / 4
    } else if m == 1 {
        le_value(bytes, pos, 2) / 4
    } else if m == 2 {
        le_value(bytes, pos, 4) / 4
    } else {
        le_value(bytes, pos + 1, 4)
    }
}

/// Read a compact-encoded unsigned 32-bit value at `pos`, returning it with
/// the position just past it.  `None` when no well-formed encoding that fits
/// 32 bits starts there.
pub fn decode_compact_u32(bytes: &Vec<u8>, pos: usize) -> (r: Option<(u32, usize)>)
    requires
        pos <= bytes@.len(),
    ensures
        compact_ok(bytes@, pos as int) ==> (r matches Some((v, end)) && v == compact_value(
            bytes@,
            pos as int,
        ) && end == pos + compact_size(bytes@, pos as int)),
        compact_ok(bytes@, pos as int) ==> 0 <= compact_value(bytes@, pos as int) < 0x100000000,
        !compact_ok(bytes@, pos as int) ==> r is None,
{
    if pos >= bytes.len() {
        return None;
    }
    let b = bytes[pos];
    let m = b % 4;
    if m == 0 {
        Some(((b / 4) as u32, pos + 1))
    } else if m == 1 {
        if bytes.len() - pos < 2 {
            return None;
        }
        let v: u32 = (b as u32) + 256 * (bytes[pos + 1] as u32);
        proof {
            assert(le_value(bytes@, pos + 2, 0) == 0);
            assert(le_value(bytes@, pos + 1, 1) == bytes@[pos + 1]);
            assert(le_value(bytes@, pos as int, 2) == bytes@[pos as int] + 256 * le_value(
                bytes@,
                pos + 1,
                1,
            ));
        }
        Some((v / 4, pos + 2))
    } else if m == 2 {
        if bytes.len() - pos < 4 {
            return None;
        }
        let v: u32 = (b as u32) + 256 * (bytes[pos + 1] as u32) + 0x10000 * (bytes[pos + 2] as u32)
            + 0x1000000 * (bytes[pos + 3] as u32);
        proof {
            assert(le_value(bytes@, pos + 4, 0) == 0);
            assert(le_value(bytes@, pos + 3, 1) == bytes@[pos + 3]);
            assert(le_value(bytes@, pos + 2, 2) == bytes@[pos + 2] + 256 * le_value(
                bytes@,
                pos + 3,
                1,
            ));
            assert(le_value(bytes@, pos + 1, 3) == bytes@[pos + 1] + 256 * le_value(
                bytes@,
                pos + 2,
                2,
            ));
            assert(le_value(bytes@, pos as int, 4) == bytes@[pos as int] + 256 * le_value(
                bytes@,
                pos + 1,
                3,
            ));
        }
        Some((v / 4, pos + 4))
    } else {
        if b / 4 != 0 || bytes.len() - pos < 5 {
            return None;
        }
        proof {
            lemma_le_value_bound(bytes@, pos + 1, 4);
            lemma_pow256_bounds();
        }
        match decode_u32_le(bytes, pos + 1) {
            Some((v, end)) => Some((v, end)),
            None => None,
        }
    }
}

/// Read a little-endian `u32` at `pos`, returning it with the position just
/// past it.  `None` when fewer than four bytes remain.
pub fn decode_u32_le(bytes: &Vec<u8>, pos: usize) -> (r: Option<(u32, usize)>)
    requires
        pos <= bytes@.len(),
    ensures
        pos + 4 <= bytes@.len() ==> (r matches Some((v, end)) && v == le_value(
            bytes@,
            pos as int,
            4,
        ) && end == pos + 4),
        pos + 4 <= bytes@.len() ==> 0 <= le_value(bytes@, pos as int, 4) < 0x100000000,
        pos + 4 > bytes@.len() ==> r is None,
{
    if bytes.len() - pos < 4 {
        return None;
    }
    let v: u32 = (bytes[pos] as u32) + 256 * (bytes[pos + 1] as u32) + 0x10000 * (bytes[pos + 2]
        as u32) + 0x1000000 * (bytes[pos + 3] as u32);
    proof {
        assert(le_value(bytes@, pos + 4, 0) == 0);
        assert(le_value(bytes@, pos + 3, 1) == bytes@[pos + 3]);
        assert(le_value(bytes@, pos + 2, 2) == bytes@[pos + 2] + 256 * le_value(bytes@, pos + 3, 1));
        assert(le_value(bytes@, pos + 1, 3) == bytes@[pos + 1] + 256 * le_value(bytes@, pos + 2, 2));
        assert(le_value(bytes@, pos as int, 4) == bytes@[pos as int] + 256 * le_value(
            bytes@,
            pos + 1,
            3,
        ));
    }
    Some((v, pos + 4))
}

/// Copy `n` bytes starting at `pos`, returning them with the position just
/// past them.  `None` when fewer than `n` bytes remain.
pub fn read_bytes(bytes: &Vec<u8>, pos: usize, n: usize) -> (r: Option<(Vec<u8>, usize)>)
    requires
        pos <= bytes@.len(),
    ensures
        pos + n <= bytes@.len() ==> (r matches Some((v, end)) && v@ == bytes@.subrange(
            pos as int,
            pos + n,
        ) && end == pos + n),
        pos + n > bytes@.len() ==> r is None,
{
    if bytes.len() - pos < n {
        return None;
    }
    let end: usize = pos + n;
    let mut v: Vec<u8> = Vec::new();
    let mut i: usize = 0;
    while i < n
        invariant
            i <= n,
            end == pos + n,
            pos + n <= bytes@.len(),
            v@ == bytes@.subrange(pos as int, pos + i),
        decreases n - i,
    {
        v.push(bytes[pos + i]);
        proof {
            assert(bytes@.subrange(pos as int, pos + i).push(bytes@[pos + i]) =~= bytes@.subrange(
                pos as int,
                pos + i + 1,
            ));
        }
        i = i + 1;
    }
    Some((v, pos + n))
}

/// 256 to the `n`.
pub open spec fn pow256(n: int) -> int
    decreases n,
{
    if n <= 0 {
        1
    } else {
        256 * pow256(n - 1)
    }
}

proof fn lemma_le_value_bound(bytes: Seq<u8>, pos: int, n: int)
    requires
        0 <= pos,
        pos + n <= bytes.len(),
    ensures
        0 <= le_value(bytes, pos, n) < pow256(n),
    decreases n,
{
    if n > 0 {
        lemma_le_value_bound(bytes, pos + 1, n - 1);
    }
}

proof fn lemma_pow256_bounds()
    ensures
        pow256(0) == 1,
        pow256(1) == 256,
        pow256(2) == 0x10000,
        pow256(3) == 0x1000000,
        pow256(4) == 0x100000000,
        pow256(5) == 0x10000000000,
        pow256(6) == 0x1000000000000,
        pow256(7) == 0x100000000000000,
        pow256(8) == 0x10000000000000000,
{
    reveal_with_fuel(pow256, 9);
}

proof fn lemma_pow256_mono(a: int, b: int)
    requires
        a <= b,
    ensures
        1 <= pow256(a) <= pow256(b),
    decreases b - a,
{
    if a == b {
        lemma_pow256_pos(a);
    } else {
        lemma_pow256_mono(a, b - 1);
    }
}

proof fn lemma_pow256_pos(n: int)
    ensures
        pow256(n) >= 1,
    decreases (if n > 0 { n } else { 0 }),
{
    if n > 0 {
        lemma_pow256_pos(n - 1);
    }
}

} // verus!
