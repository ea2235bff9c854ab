//! Chunkmask primitives: constant-time manipulations of 64-bit lane masks,
//! shared by the pattern compiler and the scanner. Bit `i` of a chunkmask
//! corresponds to lane `i` of a 64-byte chunk, least significant bit first.

use vstd::arithmetic::div_mod::{
    lemma_fundamental_div_mod, lemma_fundamental_div_mod_converse, lemma_mod_bound,
};
use vstd::prelude::*;

verus! {

/// Bit `i` of `m`, false outside `0..64`.
pub open spec fn bit(m: u64, i: int) -> bool {
    0 <= i < 64 && (m >> (i as u64)) & 1u64 == 1u64
}

/// All of bits `j`, `j + 1`, ..., `j + w - 1` of `m` are set.
pub open spec fn all_set(m: u64, j: int, w: int) -> bool {
    forall|l: int| 0 <= l < w ==> #[trigger] bit(m, j + l)
}

/// The alignments the scanner supports: powers of two up to the chunk width.
pub open spec fn valid_align(a: int) -> bool {
    a == 1 || a == 2 || a == 4 || a == 8 || a == 16 || a == 32 || a == 64
}

proof fn lemma_and_shift_step(m: u64, s: u64, t: u64)
    requires
        s < 64,
        t == m & (m >> s),
    ensures
        forall|j: int| bit(t, j) <==> bit(m, j) && j + s < 64 && bit(m, j + s),
{
    assert(forall|j: u64|
        j < 64 ==> (((t >> j) & 1u64 == 1u64) <==> ((m >> j) & 1u64 == 1u64 && j + s < 64 && (m
            >> ((j + s) as u64)) & 1u64 == 1u64))) by (bit_vector)
        requires
            s < 64,
            t == m & (m >> s),
    ;
    assert forall|j: int| bit(t, j) <==> bit(m, j) && j + s < 64 && bit(m, j + s) by {
        if 0 <= j < 64 {
            assert((t >> (j as u64)) & 1u64 == 1u64 <==> ((m >> (j as u64)) & 1u64 == 1u64 && (
            j as u64) + s < 64 && (m >> (((j as u64) + s) as u64)) & 1u64 == 1u64));
        }
    }
}

proof fn lemma_all_set_join(m: u64, j: int, w: int)
    requires
        w >= 0,
    ensures
        all_set(m, j, 2 * w) <==> all_set(m, j, w) && all_set(m, j + w, w),
{
    if all_set(m, j, w) && all_set(m, j + w, w) {
        assert forall|l: int| 0 <= l < 2 * w implies #[trigger] bit(m, j + l) by {
            if l < w {
                assert(bit(m, j + l));
            } else {
                assert(bit(m, j + w + (l - w)));
            }
        }
    }
    if all_set(m, j, 2 * w) {
        assert forall|l: int| 0 <= l < w implies #[trigger] bit(m, j + w + l) by {
            assert(bit(m, j + (w + l)));
        }
    }
}

/// Characterizes one doubling step of the reduction chain: if `bit(mid, j)`
/// covers a window of `w` bits of `m`, then `bit(t, j)` covers `2 * w` bits.
proof fn lemma_reduce_step(m: u64, mid: u64, t: u64, w: int)
    requires
        1 <= w <= 32,
        t == mid & (mid >> (w as u64)),
        forall|j: int| bit(mid, j) <==> j + w <= 64 && all_set(m, j, w),
    ensures
        forall|j: int| bit(t, j) <==> j + 2 * w <= 64 && all_set(m, j, 2 * w),
{
    lemma_and_shift_step(mid, w as u64, t);
    assert forall|j: int| bit(t, j) <==> j + 2 * w <= 64 && all_set(m, j, 2 * w) by {
        lemma_all_set_join(m, j, w);
    }
}

/// The bit pattern with one bit set at the start of each `a`-wide group.
fn group_pattern(align: usize) -> (r: u64)
    requires
        valid_align(align as int),
    ensures
        forall|j: int| bit(r, j) <==> 0 <= j < 64 && j % (align as int) == 0,
{
    let r: u64 = if align == 1 {
        0xffff_ffff_ffff_ffff
    } else if align == 2 {
        0x5555_5555_5555_5555
    } else if align == 4 {
        0x1111_1111_1111_1111
    } else if align == 8 {
        0x0101_0101_0101_0101
    } else if align == 16 {
        0x0001_0001_0001_0001
    } else if align == 32 {
        0x0000_0001_0000_0001
    } else {
        0x1
    };
    proof {
        let a = align as u64;
        assert(forall|j: u64|
            j < 64 ==> (((r >> j) & 1u64 == 1u64) <==> j % a == 0)) by (bit_vector)
            requires
                a == 1 || a == 2 || a == 4 || a == 8 || a == 16 || a == 32 || a == 64,
                r == (if a == 1 {
                    0xffff_ffff_ffff_ffffu64
                } else if a == 2 {
                    0x5555_5555_5555_5555u64
                } else if a == 4 {
                    0x1111_1111_1111_1111u64
                } else if a == 8 {
                    0x0101_0101_0101_0101u64
                } else if a == 16 {
                    0x0001_0001_0001_0001u64
                } else if a == 32 {
                    0x0000_0001_0000_0001u64
                } else {
                    0x1u64
                }),
        ;
        assert forall|j: int| bit(r, j) <==> 0 <= j < 64 && j % (align as int) == 0 by {
            if 0 <= j < 64 {
                assert((r >> (j as u64)) & 1u64 == 1u64 <==> (j as u64) % a == 0);
            }
        }
    }
    r
}

/// Generates a mask whose bits are set below position `len` (clamped to the
/// chunk width).
pub fn data_len_mask(len: usize) -> (r: u64)
    ensures
        forall|j: int| bit(r, j) <==> 0 <= j < 64 && j < len,
{
    if len >= 64 {
        proof {
            assert(forall|j: u64|
                j < 64 ==> (0xffff_ffff_ffff_ffffu64 >> j) & 1u64 == 1u64) by (bit_vector);
        }
        0xffff_ffff_ffff_ffff
    } else {
        proof {
            let l = len as u64;
            assert(1u64 << l >= 1) by (bit_vector)
                requires
                    l < 64,
            ;
        }
        let r = (1u64 << (len as u64)) - 1;
        proof {
            let l = len as u64;
            assert(forall|j: u64| j < 64 ==> ((r >> j) & 1u64 == 1u64 <==> j < l)) by (bit_vector)
                requires
                    l < 64,
                    r == (1u64 << l) - 1,
            ;
            assert forall|j: int| bit(r, j) <==> 0 <= j < 64 && j < len by {
                if 0 <= j < 64 {
                    assert((r >> (j as u64)) & 1u64 == 1u64 <==> (j as u64) < l);
                }
            }
        }
        r
    }
}

/// Filters a chunkmask down to whole groups: bit `g` of the result is set iff
/// `g` starts an alignment group and all `align` bits of that group are set.
pub fn reduce_bitmask(bitmask: u64, align: usize) -> (r: u64)
    requires
        valid_align(align as int),
    ensures
        forall|g: int|
            bit(r, g) <==> 0 <= g < 64 && g % (align as int) == 0 && all_set(
                bitmask,
                g,
                align as int,
            ),
{
    let gp = group_pattern(align);
    let mut t = bitmask;
    proof {
        assert forall|j: int| bit(t, j) <==> j + 1 <= 64 && all_set(bitmask, j, 1) by {
            assert(all_set(bitmask, j, 1) <==> bit(bitmask, j + 0));
        }
    }
    if align >= 2 {
        let t2 = t & (t >> 1);
        proof {
            lemma_reduce_step(bitmask, t, t2, 1);
        }
        t = t2;
    }
    if align >= 4 {
        let t2 = t & (t >> 2);
        proof {
            lemma_reduce_step(bitmask, t, t2, 2);
        }
        t = t2;
    }
    if align >= 8 {
        let t2 = t & (t >> 4);
        proof {
            lemma_reduce_step(bitmask, t, t2, 4);
        }
        t = t2;
    }
    if align >= 16 {
        let t2 = t & (t >> 8);
        proof {
            lemma_reduce_step(bitmask, t, t2, 8);
        }
        t = t2;
    }
    if align >= 32 {
        let t2 = t & (t >> 16);
        proof {
            lemma_reduce_step(bitmask, t, t2, 16);
        }
        t = t2;
    }
    if align >= 64 {
        let t2 = t & (t >> 32);
        proof {
            lemma_reduce_step(bitmask, t, t2, 32);
        }
        t = t2;
    }
    let r = t & gp;
    proof {
        let a = align as int;
        assert(forall|j: u64|
            j < 64 ==> (((t & gp) >> j) & 1u64 == 1u64 <==> ((t >> j) & 1u64 == 1u64 && (gp >> j)
                & 1u64 == 1u64))) by (bit_vector);
        assert forall|g: int|
            bit(r, g) <==> 0 <= g < 64 && g % a == 0 && all_set(bitmask, g, a) by {
            if 0 <= g < 64 {
                assert(((t & gp) >> (g as u64)) & 1u64 == 1u64 <==> ((t >> (g as u64)) & 1u64
                    == 1u64 && (gp >> (g as u64)) & 1u64 == 1u64));
                assert(bit(r, g) <==> bit(t, g) && bit(gp, g));
                if g % a == 0 {
                    assert(g + a <= 64) by {
                        assert(g % a == 0 && g < 64 ==> g <= 64 - a) by (nonlinear_arith)
                            requires
                                valid_align(a),
                                0 <= g < 64,
                        ;
                    }
                }
            }
        }
    }
    r
}

/// Bits of an `or` are the union of the operands' bits.
pub proof fn lemma_bit_or(x: u64, y: u64)
    ensures
        forall|j: int| #[trigger] bit(x | y, j) <==> bit(x, j) || bit(y, j),
{
    assert(forall|j: u64|
        j < 64 ==> (((x | y) >> j) & 1u64 == 1u64 <==> ((x >> j) & 1u64 == 1u64 || (y >> j) & 1u64
            == 1u64))) by (bit_vector);
    assert forall|j: int| #[trigger] bit(x | y, j) <==> bit(x, j) || bit(y, j) by {
        if 0 <= j < 64 {
            assert(((x | y) >> (j as u64)) & 1u64 == 1u64 <==> ((x >> (j as u64)) & 1u64 == 1u64
                || (y >> (j as u64)) & 1u64 == 1u64));
        }
    }
}

/// Bits of an `and` are the intersection of the operands' bits.
pub proof fn lemma_bit_and(x: u64, y: u64)
    ensures
        forall|j: int| #[trigger] bit(x & y, j) <==> bit(x, j) && bit(y, j),
{
    assert(forall|j: u64|
        j < 64 ==> (((x & y) >> j) & 1u64 == 1u64 <==> ((x >> j) & 1u64 == 1u64 && (y >> j) & 1u64
            == 1u64))) by (bit_vector);
    assert forall|j: int| #[trigger] bit(x & y, j) <==> bit(x, j) && bit(y, j) by {
        if 0 <= j < 64 {
            assert(((x & y) >> (j as u64)) & 1u64 == 1u64 <==> ((x >> (j as u64)) & 1u64 == 1u64
                && (y >> (j as u64)) & 1u64 == 1u64));
        }
    }
}

/// Bits of an `xor` are the symmetric difference of the operands' bits.
pub proof fn lemma_bit_xor(x: u64, y: u64)
    ensures
        forall|j: int| #[trigger] bit(x ^ y, j) <==> (0 <= j < 64 && bit(x, j) != bit(y, j)),
{
    assert(forall|j: u64|
        j < 64 ==> (((x ^ y) >> j) & 1u64 == 1u64 <==> (((x >> j) & 1u64 == 1u64) != ((y >> j)
            & 1u64 == 1u64)))) by (bit_vector);
    assert forall|j: int|
        #[trigger] bit(x ^ y, j) <==> (0 <= j < 64 && bit(x, j) != bit(y, j)) by {
        if 0 <= j < 64 {
            assert(((x ^ y) >> (j as u64)) & 1u64 == 1u64 <==> (((x >> (j as u64)) & 1u64 == 1u64)
                != ((y >> (j as u64)) & 1u64 == 1u64)));
        }
    }
}

/// The single-bit mask `1 << k` has exactly bit `k`.
pub proof fn lemma_bit_single(k: u64)
    requires
        k < 64,
    ensures
        forall|j: int| #[trigger] bit(1u64 << k, j) <==> j == k,
{
    assert(forall|j: u64|
        j < 64 ==> (((1u64 << k) >> j) & 1u64 == 1u64 <==> j == k)) by (bit_vector)
        requires
            k < 64,
    ;
    assert forall|j: int| #[trigger] bit(1u64 << k, j) <==> j == k by {
        if 0 <= j < 64 {
            assert(((1u64 << k) >> (j as u64)) & 1u64 == 1u64 <==> (j as u64) == k);
        }
    }
}

/// Setting one bit: `m | (1 << k)` has the bits of `m` plus bit `k`.
pub proof fn lemma_bit_set(m: u64, k: u64)
    requires
        k < 64,
    ensures
        forall|j: int| #[trigger] bit(m | (1u64 << k), j) <==> bit(m, j) || j == k,
{
    lemma_bit_or(m, 1u64 << k);
    lemma_bit_single(k);
}

/// Clearing a set bit by xor: the result loses exactly bit `k` and shrinks.
pub proof fn lemma_bit_clear(m: u64, k: u64)
    requires
        k < 64,
        bit(m, k as int),
    ensures
        forall|j: int| #[trigger] bit(m ^ (1u64 << k), j) <==> bit(m, j) && j != k,
        (m ^ (1u64 << k)) < m,
{
    lemma_bit_xor(m, 1u64 << k);
    lemma_bit_single(k);
    assert((m ^ (1u64 << k)) < m) by (bit_vector)
        requires
            k < 64,
            (m >> k) & 1u64 == 1u64,
    ;
}

/// Bits of a left shift: bit `j` of `m << s` is bit `j - s` of `m`.
pub proof fn lemma_bit_shl(m: u64, s: u64)
    requires
        s < 64,
    ensures
        forall|j: int| #[trigger] bit(m << s, j) <==> 0 <= j < 64 && j >= s && bit(m, j - s),
{
    assert(forall|j: u64|
        j < 64 ==> (((m << s) >> j) & 1u64 == 1u64 <==> (j >= s && (m >> ((j - s) as u64)) & 1u64
            == 1u64))) by (bit_vector)
        requires
            s < 64,
    ;
    assert forall|j: int| #[trigger] bit(m << s, j) <==> 0 <= j < 64 && j >= s && bit(m, j - s) by {
        if 0 <= j < 64 {
            assert(((m << s) >> (j as u64)) & 1u64 == 1u64 <==> ((j as u64) >= s && (m >> (((
            j as u64) - s) as u64)) & 1u64 == 1u64));
        }
    }
}

proof fn lemma_or_shl_step(m: u64, s: u64, t: u64)
    requires
        s < 64,
        t == m | (m << s),
    ensures
        forall|j: int|
            #[trigger] bit(t, j) <==> bit(m, j) || (0 <= j < 64 && j >= s && bit(m, j - s)),
{
    lemma_bit_or(m, m << s);
    lemma_bit_shl(m, s);
    assert forall|j: int|
        #[trigger] bit(t, j) <==> bit(m, j) || (0 <= j < 64 && j >= s && bit(m, j - s)) by {
        assert(bit(t, j) <==> bit(m, j) || bit(m << s, j));
    }
}

/// How `% a` changes when subtracting `w <= a`: the group origin `j - j % a`
/// is unchanged while the in-group offset stays at least `w`.
proof fn lemma_mod_sub(j: int, w: int, a: int)
    requires
        0 < w,
        2 * w <= a,
        0 <= j,
        j >= w,
    ensures
        j % a >= w ==> (j - w) % a == j % a - w && (j - w) - ((j - w) % a) == j - (j % a),
        j % a < w ==> (j - w) % a == j % a + a - w,
{
    lemma_fundamental_div_mod(j, a);
    lemma_mod_bound(j, a);
    let q = j / a;
    let r = j % a;
    assert(j == a * q + r);
    assert(a * q == q * a) by (nonlinear_arith);
    if r >= w {
        lemma_fundamental_div_mod_converse(j - w, a, q, r - w);
    } else {
        assert((q - 1) * a == q * a - a) by (nonlinear_arith);
        lemma_fundamental_div_mod_converse(j - w, a, q - 1, r + a - w);
    }
}

proof fn lemma_extend_step(t0: u64, mid: u64, t: u64, w: int, a: int)
    requires
        1 <= w <= 32,
        2 * w <= a,
        a <= 64,
        t == mid | (mid << (w as u64)),
        forall|j: int|
            0 <= j < 64 ==> (#[trigger] bit(mid, j) <==> j % a < w && bit(t0, j - (j % a))),
    ensures
        forall|j: int|
            0 <= j < 64 ==> (#[trigger] bit(t, j) <==> j % a < 2 * w && bit(t0, j - (j % a))),
{
    lemma_or_shl_step(mid, w as u64, t);
    assert forall|j: int| 0 <= j < 64 implies (#[trigger] bit(t, j) <==> j % a < 2 * w && bit(
        t0,
        j - (j % a),
    )) by {
        lemma_mod_bound(j, a);
        assert(bit(t, j) <==> bit(mid, j) || (j >= w && bit(mid, j - w)));
        if j >= w {
            lemma_mod_sub(j, w, a);
            if j % a >= w {
                assert((j - w) % a == j % a - w);
                assert(bit(mid, j - w) <==> j % a - w < w && bit(t0, j - (j % a)));
            } else {
                assert((j - w) % a == j % a + a - w);
                assert(j % a + a - w >= w);
                assert(!bit(mid, j - w));
            }
        }
    }
}

/// Extends the group-start bits of a chunkmask to entire groups: bit `j` of
/// the result equals the bit at the start of `j`'s alignment group.
pub fn extend_bitmask(bitmask: u64, align: usize) -> (r: u64)
    requires
        valid_align(align as int),
    ensures
        forall|j: int|
            #[trigger] bit(r, j) <==> 0 <= j < 64 && bit(bitmask, j - (j % (align as int))),
{
    let a = align;
    let gp = group_pattern(align);
    let t0 = bitmask & gp;
    proof {
        lemma_bit_and(bitmask, gp);
        assert forall|j: int|
            0 <= j < 64 implies (#[trigger] bit(t0, j) <==> j % (a as int) < 1 && bit(
            t0,
            j - (j % (a as int)),
        )) by {
            lemma_mod_bound(j, a as int);
            if j % (a as int) == 0 {
                assert(j - (j % (a as int)) == j);
            } else {
                assert(!bit(t0, j));
            }
        }
    }
    let mut t = t0;
    if align >= 2 {
        let t2 = t | (t << 1);
        proof {
            lemma_extend_step(t0, t, t2, 1, a as int);
        }
        t = t2;
    }
    if align >= 4 {
        let t2 = t | (t << 2);
        proof {
            lemma_extend_step(t0, t, t2, 2, a as int);
        }
        t = t2;
    }
    if align >= 8 {
        let t2 = t | (t << 4);
        proof {
            lemma_extend_step(t0, t, t2, 4, a as int);
        }
        t = t2;
    }
    if align >= 16 {
        let t2 = t | (t << 8);
        proof {
            lemma_extend_step(t0, t, t2, 8, a as int);
        }
        t = t2;
    }
    if align >= 32 {
        let t2 = t | (t << 16);
        proof {
            lemma_extend_step(t0, t, t2, 16, a as int);
        }
        t = t2;
    }
    if align >= 64 {
        let t2 = t | (t << 32);
        proof {
            lemma_extend_step(t0, t, t2, 32, a as int);
        }
        t = t2;
    }
    proof {
        let ai = a as int;
        assert forall|j: int|
            #[trigger] bit(t, j) <==> 0 <= j < 64 && bit(bitmask, j - (j % ai)) by {
            if 0 <= j < 64 {
                lemma_mod_bound(j, ai);
                assert(bit(t, j) <==> j % ai < ai && bit(t0, j - (j % ai)));
                let g = j - (j % ai);
                lemma_fundamental_div_mod(j, ai);
                lemma_fundamental_div_mod_converse(g, ai, j / ai, 0);
                assert(g % ai == 0);
                assert(bit(t0, g) <==> bit(bitmask, g) && bit(gp, g));
            }
        }
    }
    t
}

/// Extends a length mask up to whole alignment groups wherever the pattern's
/// anchor mask fills the rest of the group; used by the safe candidate
/// builder to keep partial tail groups from producing false candidates.
pub fn mask_min_len(len_mask: u64, pattern_mask: u64, align: usize) -> (r: u64)
    requires
        valid_align(align as int),
    ensures
        forall|j: int|
            #[trigger] bit(r, j) <==> bit(len_mask, j) || (0 <= j < 64 && all_set(
                pattern_mask | len_mask,
                j - (j % (align as int)),
                align as int,
            )),
{
    let groups = reduce_bitmask(pattern_mask | len_mask, align);
    let spread = extend_bitmask(groups, align);
    let r = spread | len_mask;
    proof {
        let ai = align as int;
        lemma_bit_or(spread, len_mask);
        assert forall|j: int|
            #[trigger] bit(r, j) <==> bit(len_mask, j) || (0 <= j < 64 && all_set(
                pattern_mask | len_mask,
                j - (j % ai),
                ai,
            )) by {
            assert(bit(r, j) <==> bit(spread, j) || bit(len_mask, j));
            if 0 <= j < 64 {
                lemma_mod_bound(j, ai);
                let g = j - (j % ai);
                lemma_fundamental_div_mod(j, ai);
                lemma_fundamental_div_mod_converse(g, ai, j / ai, 0);
                assert(bit(spread, j) <==> bit(groups, g));
                assert(bit(groups, g) <==> (0 <= g < 64 && g % ai == 0 && all_set(
                    pattern_mask | len_mask,
                    g,
                    ai,
                )));
            }
        }
    }
    r
}

} // verus!
