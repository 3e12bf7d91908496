//! CRC-32 checksums.

use vstd::prelude::*;

verus! {

/// The remainder of one more zero bit: shift right, and subtract the (reflected)
/// polynomial where a one was shifted out.
pub open spec fn crc_bit(crc: u32) -> u32 {
    if crc & 1 == 1 {
        (crc >> 1) ^ 0xedb8_8320
    } else {
        crc >> 1
    }
}

/// `n` steps of `crc_bit`.
pub open spec fn crc_bits(crc: u32, n: nat) -> u32
    decreases n,
{
    if n == 0 {
        crc
    } else {
        crc_bit(crc_bits(crc, (n - 1) as nat))
    }
}

/// The remainder after the bytes of `data`, from the remainder `crc`.
pub open spec fn crc_bytes(crc: u32, data: Seq<u8>) -> u32
    decreases data.len(),
{
    if data.len() == 0 {
        crc
    } else {
        crc_bits(crc_bytes(crc, data.drop_last()) ^ (data.last() as u32), 8)
    }
}

/// The CRC-32 (IEEE 802.3, reflected) of `data`.
pub open spec fn checksum(data: Seq<u8>) -> u32 {
    !crc_bytes(0xffff_ffff, data)
}

/// CRC-32 (IEEE 802.3, reflected), computed without a table.
pub fn crc32(data: &[u8]) -> (r: u32)
    ensures
        r == checksum(data@),
{
    let mut crc: u32 = 0xffff_ffff;
    let mut i: usize = 0;
    while i < data.len()
        invariant
            i <= data@.len(),
            crc == crc_bytes(0xffff_ffff, data@.take(i as int)),
        decreases data@.len() - i,
    {
        let start: u32 = crc ^ (data[i] as u32);
        crc = start;
        let mut n: u32 = 0;
        while n < 8
            invariant
                n <= 8,
                crc == crc_bits(start, n as nat),
            decreases 8 - n,
        {
            crc = if crc & 1 == 1 {
                (crc >> 1) ^ 0xedb8_8320
            } else {
                crc >> 1
            };
            n = n + 1;
        }
        assert(data@.take(i + 1).drop_last() =~= data@.take(i as int));
        i = i + 1;
    }
    assert(data@.take(i as int) =~= data@);
    !crc
}

proof fn lemma_crc_bits_injective(a: u32, b: u32, n: nat)
    requires
        a != b,
    ensures
        crc_bits(a, n) != crc_bits(b, n),
    decreases n,
{
    if n > 0 {
        lemma_crc_bits_injective(a, b, (n - 1) as nat);
        let x = crc_bits(a, (n - 1) as nat);
        let y = crc_bits(b, (n - 1) as nat);
        let fx = if x & 1 == 1 {
            (x >> 1) ^ 0xedb8_8320u32
        } else {
            x >> 1
        };
        let fy = if y & 1 == 1 {
            (y >> 1) ^ 0xedb8_8320u32
        } else {
            y >> 1
        };
        assert(fx != fy) by (bit_vector)
            requires
                x != y,
                fx == (if x & 1 == 1 {
                    (x >> 1) ^ 0xedb8_8320u32
                } else {
                    x >> 1
                }),
                fy == (if y & 1 == 1 {
                    (y >> 1) ^ 0xedb8_8320u32
                } else {
                    y >> 1
                }),
        ;
    }
}

proof fn lemma_crc_bytes_differ(a: Seq<u8>, b: Seq<u8>, i: int)
    requires
        a.len() == b.len(),
        0 <= i < a.len(),
        a[i] != b[i],
        forall|j: int| 0 <= j < a.len() && j != i ==> a[j] == b[j],
    ensures
        crc_bytes(0xffff_ffff, a) != crc_bytes(0xffff_ffff, b),
    decreases a.len(),
{
    let last = a.len() - 1;
    let x = crc_bytes(0xffff_ffff, a.drop_last());
    let y = crc_bytes(0xffff_ffff, b.drop_last());
    let (p, q) = (a.last(), b.last());
    if i == last {
        assert(a.drop_last() =~= b.drop_last());
        assert(x ^ (p as u32) != y ^ (q as u32)) by (bit_vector)
            requires
                x == y,
                p != q,
        ;
    } else {
        lemma_crc_bytes_differ(a.drop_last(), b.drop_last(), i);
        assert(x ^ (p as u32) != y ^ (q as u32)) by (bit_vector)
            requires
                x != y,
                p == q,
        ;
    }
    lemma_crc_bits_injective(x ^ (p as u32), y ^ (q as u32), 8);
}

/// Changing one byte changes the checksum: damage to a single byte never goes
/// unnoticed.
pub proof fn lemma_checksum_detects_change(a: Seq<u8>, b: Seq<u8>, i: int)
    requires
        a.len() == b.len(),
        0 <= i < a.len(),
        a[i] != b[i],
        forall|j: int| 0 <= j < a.len() && j != i ==> a[j] == b[j],
    ensures
        checksum(a) != checksum(b),
{
    lemma_crc_bytes_differ(a, b, i);
    let x = crc_bytes(0xffff_ffff, a);
    let y = crc_bytes(0xffff_ffff, b);
    assert(!x != !y) by (bit_vector)
        requires
            x != y,
    ;
}

} // verus!
