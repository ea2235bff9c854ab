//! Deterministic haystack generation from a hash stream, used by the test
//! suites to build reproducible data.

use vstd::prelude::*;

verus! {

/// The 64-bit XXH3 digest of a byte sequence. The digest is a pure function
/// of the input bytes; its definition lives in the outside hash crate.
pub uninterp spec fn xxh3_of(input: Seq<u8>) -> u64;

/// Relies on `xxhash_rust::xxh3::xxh3_64`: the digest depends on the input
/// bytes alone.
#[verifier::external_body]
fn xxh3_64(input: &[u8]) -> (r: u64)
    ensures
        r == xxh3_of(input@),
{
    xxhash_rust::xxh3::xxh3_64(input)
}

/// The big-endian bytes of `x`, most significant first.
pub open spec fn spec_be_bytes(x: u64) -> Seq<u8> {
    Seq::new(8, |j: int| ((x >> ((56 - 8 * j) as u64)) & 0xff) as u8)
}

/// Byte `i` of the generated stream: the chunks are the big-endian digests
/// of the big-endian chunk indices.
pub open spec fn spec_xxh3_data_byte(i: int) -> u8 {
    spec_be_bytes(xxh3_of(spec_be_bytes((i / 8) as u64)))[i % 8]
}

fn be_bytes(x: u64) -> (r: Vec<u8>)
    ensures
        r@ == spec_be_bytes(x),
{
    let mut r: Vec<u8> = Vec::new();
    r.push((x >> 56) as u8);
    r.push((x >> 48) as u8);
    r.push((x >> 40) as u8);
    r.push((x >> 32) as u8);
    r.push((x >> 24) as u8);
    r.push((x >> 16) as u8);
    r.push((x >> 8) as u8);
    r.push(x as u8);
    proof {
        assert(x as u8 == ((x >> 0u64) & 0xff) as u8) by (bit_vector);
        assert((x >> 56u64) as u8 == ((x >> 56u64) & 0xff) as u8) by (bit_vector);
        assert((x >> 48u64) as u8 == ((x >> 48u64) & 0xff) as u8) by (bit_vector);
        assert((x >> 40u64) as u8 == ((x >> 40u64) & 0xff) as u8) by (bit_vector);
        assert((x >> 32u64) as u8 == ((x >> 32u64) & 0xff) as u8) by (bit_vector);
        assert((x >> 24u64) as u8 == ((x >> 24u64) & 0xff) as u8) by (bit_vector);
        assert((x >> 16u64) as u8 == ((x >> 16u64) & 0xff) as u8) by (bit_vector);
        assert((x >> 8u64) as u8 == ((x >> 8u64) & 0xff) as u8) by (bit_vector);
        assert(r@ =~= spec_be_bytes(x));
    }
    r
}

/// Builds `length` bytes of deterministic data: the concatenated big-endian
/// XXH3 digests of the chunk indices 0, 1, 2, ...
pub fn xxh3_data(length: usize) -> (r: Vec<u8>)
    requires
        length <= usize::MAX - 8,
    ensures
        r@.len() == length,
        forall|i: int| 0 <= i < length ==> r@[i] == spec_xxh3_data_byte(i),
{
    let mut r: Vec<u8> = Vec::new();
    let mut chunk: u64 = 0;
    while r.len() < length
        invariant
            length <= usize::MAX - 8,
            r@.len() <= length,
            r@.len() == 8 * chunk || (r@.len() == length && 8 * chunk >= length),
            forall|i: int| 0 <= i < r@.len() ==> r@[i] == spec_xxh3_data_byte(i),
        decreases length - r@.len(),
    {
        let idx = be_bytes(chunk);
        let digest = xxh3_64(idx.as_slice());
        let bytes = be_bytes(digest);
        let ghost pre_len = r@.len() as int;
        let mut j: usize = 0;
        while j < 8 && r.len() < length
            invariant
                length <= usize::MAX - 8,
                j <= 8,
                pre_len == 8 * chunk,
                r@.len() == pre_len + j || (r@.len() == length && r@.len() <= pre_len + j),
                r@.len() <= length,
                bytes@ == spec_be_bytes(xxh3_of(spec_be_bytes(chunk))),
                forall|i: int| 0 <= i < r@.len() ==> r@[i] == spec_xxh3_data_byte(i),
            decreases 8 - j,
        {
            proof {
                let i = r@.len() as int;
                assert(i == 8 * chunk + j);
                assert(i / 8 == chunk && i % 8 == j) by {
                    vstd::arithmetic::div_mod::lemma_fundamental_div_mod_converse(
                        i,
                        8,
                        chunk as int,
                        j as int,
                    );
                }
            }
            r.push(bytes[j]);
            j = j + 1;
        }
        if chunk < u64::MAX {
            chunk = chunk + 1;
        } else {
            proof {
                assert(8 * (u64::MAX as int) >= length);
            }
        }
    }
    r
}

} // verus!
