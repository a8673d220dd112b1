//! CRC32 checksum (the ISO-HDLC polynomial), computed byte by byte through
//! a 256-entry lookup table.

use vstd::prelude::*;

verus! {

/// The lookup table type: one entry per byte value.
pub type Crc32Table = [u32; 256];

/// One round of the table generator: shift right, folding the polynomial in
/// when the low bit is set.
pub open spec fn crc_round(acc: u32) -> u32 {
    if acc & 1 == 1 {
        0xedb88320u32 ^ (acc >> 1u32)
    } else {
        acc >> 1u32
    }
}

/// `k` rounds of the table generator.
pub open spec fn crc_rounds(acc: u32, k: nat) -> u32
    decreases k,
{
    if k == 0 {
        acc
    } else {
        crc_rounds(crc_round(acc), (k - 1) as nat)
    }
}

/// The table entry for byte value `n`: eight generator rounds.
pub open spec fn crc_entry(n: u32) -> u32 {
    crc_rounds(n, 8)
}

/// The table holds the entry for each byte value.
pub open spec fn is_crc_table(table: Seq<u32>) -> bool {
    table.len() == 256 && forall|j: int| 0 <= j < 256 ==> table[j] == crc_entry(j as u32)
}

/// The running remainder after folding `data` into `acc` through the table.
pub open spec fn crc_fold_tbl(table: Seq<u32>, acc: u32, data: Seq<u8>) -> u32
    decreases data.len(),
{
    if data.len() == 0 {
        acc
    } else {
        crc_fold_tbl(
            table,
            (acc >> 8u32) ^ table[((acc & 0xff) ^ (data[0] as u32)) as int],
            data.drop_first(),
        )
    }
}

/// The running remainder with the canonical table.
pub open spec fn crc_fold(acc: u32, data: Seq<u8>) -> u32
    decreases data.len(),
{
    if data.len() == 0 {
        acc
    } else {
        crc_fold(
            (acc >> 8u32) ^ crc_entry((acc & 0xff) ^ (data[0] as u32)),
            data.drop_first(),
        )
    }
}

/// The CRC32 checksum of `data`: fold into an all-ones register and invert.
pub open spec fn crc32_spec(data: Seq<u8>) -> u32 {
    !crc_fold(0xffffffffu32, data)
}

/// Folding through a faithful table equals folding through the entries.
pub proof fn lemma_crc_fold_tbl(table: Seq<u32>, acc: u32, data: Seq<u8>)
    requires
        is_crc_table(table),
    ensures
        crc_fold_tbl(table, acc, data) == crc_fold(acc, data),
    decreases data.len(),
{
    if data.len() == 0 {
    } else {
        let b = data[0];
        let iu = (acc & 0xff) ^ (b as u32);
        assert(iu < 256) by (bit_vector)
            requires
                iu == (acc & 0xff) ^ (b as u32),
        ;
        lemma_crc_fold_tbl(table, (acc >> 8u32) ^ table[iu as int], data.drop_first());
    }
}

/// Builds the lookup table of the CRC32 ISO-HDLC polynomial.
pub fn generate_crc32_lookuptable() -> (r: Crc32Table)
    ensures
        is_crc_table(r@),
{
    let mut table: Crc32Table = [0u32; 256];
    let mut n: usize = 0;
    while n < 256
        invariant
            n <= 256,
            forall|j: int| 0 <= j < n ==> table@[j] == crc_entry(j as u32),
        decreases 256 - n,
    {
        let mut acc: u32 = n as u32;
        let mut k: usize = 0;
        while k < 8
            invariant
                k <= 8,
                crc_rounds(acc, (8 - k) as nat) == crc_entry(n as u32),
            decreases 8 - k,
        {
            acc = if acc & 1 == 1 {
                0xedb88320u32 ^ (acc >> 1u32)
            } else {
                acc >> 1u32
            };
            k = k + 1;
        }
        table[n] = acc;
        n = n + 1;
    }
    table
}

/// Computes the CRC32 checksum of `data` through the given lookup table.
///
/// With a faithful table this is the checksum itself; the contract states
/// the fold over whatever table is supplied.
pub fn crc32_with_table(data: &[u8], table: &Crc32Table) -> (r: u32)
    ensures
        r == !crc_fold_tbl(table@, 0xffffffffu32, data@),
        is_crc_table(table@) ==> r == crc32_spec(data@),
{
    let mut acc: u32 = 0xffffffffu32;
    let mut i: usize = 0;
    proof {
        assert(data@.skip(0) =~= data@);
    }
    while i < data.len()
        invariant
            i <= data@.len(),
            crc_fold_tbl(table@, acc, data@.skip(i as int)) == crc_fold_tbl(
                table@,
                0xffffffffu32,
                data@,
            ),
        decreases data@.len() - i,
    {
        let ghost rem = data@.skip(i as int);
        proof {
            assert(rem[0] == data@[i as int]);
            assert(rem.drop_first() =~= data@.skip(i + 1));
        }
        let byte = data[i];
        let idx: u32 = (acc & 0xff) ^ (byte as u32);
        proof {
            assert(((acc & 0xff) ^ (byte as u32)) < 256) by (bit_vector);
        }
        acc = (acc >> 8u32) ^ table[idx as usize];
        i = i + 1;
    }
    proof {
        assert(data@.skip(data@.len() as int) =~= Seq::<u8>::empty());
        if is_crc_table(table@) {
            lemma_crc_fold_tbl(table@, 0xffffffffu32, data@);
        }
    }
    !acc
}

/// Computes the CRC32 checksum of `data`, generating the table first.
pub fn crc32(data: &[u8]) -> (r: u32)
    ensures
        r == crc32_spec(data@),
{
    let crc32_table = generate_crc32_lookuptable();
    crc32_with_table(data, &crc32_table)
}

} // verus!
