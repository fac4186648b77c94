use vstd::prelude::*;

verus! {

/// Modulus of the running aggregate checksum.
pub const MODULO_VALUE: u32 = 400_000_000;

/// The CRC-32 of a byte sequence.
pub uninterp spec fn crc32_of(bytes: Seq<u8>) -> u32;

/// Relies on `crc32fast::hash`: the CRC-32 of the bytes, a function of the bytes alone.
#[verifier::external_body]
pub(crate) fn content_hash(bytes: &Vec<u8>) -> (r: u32)
    ensures
        r == crc32_of(bytes@),
{
    crc32fast::hash(bytes.as_slice())
}

/// Running sum modulo `MODULO_VALUE`, folded from the first checksum to the last.
pub open spec fn aggregate(sums: Seq<u32>) -> int
    decreases sums.len(),
{
    if sums.len() == 0 {
        0
    } else {
        (aggregate(sums.drop_last()) + sums.last()) % (MODULO_VALUE as int)
    }
}

/// The plain sum of the checksums.
pub open spec fn total(sums: Seq<u32>) -> int
    decreases sums.len(),
{
    if sums.len() == 0 {
        0
    } else {
        total(sums.drop_last()) + sums.last()
    }
}

/// Folding the running sum modulo `MODULO_VALUE` gives the plain sum modulo `MODULO_VALUE`.
pub proof fn lemma_aggregate_is_total_mod(sums: Seq<u32>)
    ensures
        aggregate(sums) == total(sums) % (MODULO_VALUE as int),
    decreases sums.len(),
{
    if sums.len() > 0 {
        let p = sums.drop_last();
        lemma_aggregate_is_total_mod(p);
        vstd::arithmetic::div_mod::lemma_add_mod_noop_right(
            sums.last() as int,
            total(p),
            MODULO_VALUE as int,
        );
    }
}

/// The plain sum of a concatenation is the sum of the parts' sums.
pub proof fn lemma_total_concat(a: Seq<u32>, b: Seq<u32>)
    ensures
        total(a + b) == total(a) + total(b),
    decreases b.len(),
{
    if b.len() > 0 {
        lemma_total_concat(a, b.drop_last());
        assert((a + b).drop_last() =~= a + b.drop_last());
    } else {
        assert(a + b =~= a);
    }
}

} // verus!
