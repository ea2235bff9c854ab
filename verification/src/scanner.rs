//! The scanner state machine: chunk-by-chunk candidate generation over the
//! haystack, candidate verification, and a lazy cursor yielding match
//! offsets in ascending order.
//!
//! Positions are tracked in a shifted address coordinate: the haystack base
//! is placed at `base = 128 + (address % 64)`, so chunk boundaries fall on
//! multiples of the chunk width exactly as they would for hardware loads,
//! while all arithmetic stays on nonnegative integers.

use crate::masks::{
    all_set, bit, data_len_mask, lemma_bit_and, lemma_bit_or, lemma_bit_set, mask_min_len,
    reduce_bitmask, valid_align,
};
use crate::pattern::{is_match, pat_match_at, Pattern};
use vstd::arithmetic::div_mod::{
    lemma_fundamental_div_mod, lemma_fundamental_div_mod_converse, lemma_mod_bound,
};
use vstd::prelude::*;

verus! {

/// Relies on `<[u8]>::as_ptr` and `pointer::addr` for the haystack's base
/// address. The scanner uses it only modulo the chunk width, to place its
/// chunk boundaries where aligned vector loads would fall and to apply the
/// pattern's alignment to addresses. Nothing is promised of the value: where
/// a slice sits depends on its allocation.
#[verifier::external_body]
pub(crate) fn base_addr(data: &[u8]) -> usize {
    data.as_ptr().addr()
}

/// In-group offsets keep their value: bit `g + l` of a group starting at `g`
/// sits `l` lanes into it.
proof fn lemma_mod_in_group(g: int, l: int, a: int)
    requires
        0 < a,
        0 <= g,
        g % a == 0,
        0 <= l < a,
    ensures
        (g + l) % a == l,
        (g + l) - ((g + l) % a) == g,
{
    lemma_fundamental_div_mod(g, a);
    let q = g / a;
    assert(g == a * q);
    assert(q * a == a * q) by (nonlinear_arith);
    lemma_fundamental_div_mod_converse(g + l, a, q, l);
}

/// Calculates the offset greater or equal to the first possible candidate
/// offset that lands on a chunk boundary while not exceeding the first
/// possible offset by more than one chunk. `r` is the haystack base address
/// modulo the chunk width.
pub fn first_offset(r: usize, first_byte_offset: usize, align: usize) -> (ao: usize)
    requires
        r < 64,
        valid_align(align as int),
        first_byte_offset + align <= 64,
        first_byte_offset as int % (align as int) == 0,
    ensures
        1 <= ao <= 128,
        (ao + r) % 64 == 0,
        ao as int % (align as int) == (64 - r) % (align as int),
        (ao as int % (align as int)) + first_byte_offset < ao,
        ao as int - 64 <= (ao as int % (align as int)) + first_byte_offset,
{
    let ai: usize = align;
    let mut align_offset = 64 - r;
    let data_align = align_offset % ai;
    let first_possible = data_align + first_byte_offset;
    proof {
        lemma_mod_bound(align_offset as int, ai as int);
        assert((align_offset + r) % 64 == 0);
        assert((align_offset + 64) as int % (ai as int) == align_offset as int % (ai as int)) by {
            lemma_fundamental_div_mod(align_offset as int, ai as int);
            let q = align_offset as int / (ai as int);
            assert(align_offset == (ai as int) * q + align_offset as int % (ai as int));
            let m64: int = 64int / (ai as int);
            assert((ai as int) * m64 == 64 && (q + m64) * (ai as int) == (ai as int) * q + 64) by {
                let aii = ai as int;
                if aii == 1 {
                    assert(aii * (64int / aii) == 64);
                    assert((q + 64int / aii) * aii == aii * q + 64);
                } else if aii == 2 {
                    assert(aii * (64int / aii) == 64);
                    assert((q + 64int / aii) * aii == aii * q + 64);
                } else if aii == 4 {
                    assert(aii * (64int / aii) == 64);
                    assert((q + 64int / aii) * aii == aii * q + 64);
                } else if aii == 8 {
                    assert(aii * (64int / aii) == 64);
                    assert((q + 64int / aii) * aii == aii * q + 64);
                } else if aii == 16 {
                    assert(aii * (64int / aii) == 64);
                    assert((q + 64int / aii) * aii == aii * q + 64);
                } else if aii == 32 {
                    assert(aii * (64int / aii) == 64);
                    assert((q + 64int / aii) * aii == aii * q + 64);
                } else {
                    assert(aii * (64int / aii) == 64);
                    assert((q + 64int / aii) * aii == aii * q + 64);
                }
            }
            lemma_fundamental_div_mod_converse(
                align_offset + 64,
                ai as int,
                q + 64int / (ai as int),
                align_offset as int % (ai as int),
            );
        }
    }
    if align_offset <= first_possible {
        align_offset = align_offset + 64;
    }
    align_offset
}

proof fn lemma_mod_zero_sum(a: int, x: int, y: int)
    requires
        0 < a,
        x % a == 0,
        y % a == 0,
    ensures
        (x + y) % a == 0,
        (x - y) % a == 0,
{
    lemma_fundamental_div_mod(x, a);
    lemma_fundamental_div_mod(y, a);
    let qx = x / a;
    let qy = y / a;
    assert((qx + qy) * a == a * qx + a * qy) by (nonlinear_arith);
    assert((qx - qy) * a == a * qx - a * qy) by (nonlinear_arith);
    lemma_fundamental_div_mod_converse(x + y, a, qx + qy, 0);
    lemma_fundamental_div_mod_converse(x - y, a, qx - qy, 0);
}

proof fn lemma_mod64_to_align(a: int, x: int)
    requires
        valid_align(a),
        x % 64 == 0,
    ensures
        x % a == 0,
{
    lemma_fundamental_div_mod(x, 64);
    let q = x / 64;
    assert(x == 64 * q);
    let m: int = if a == 1 {
        64
    } else if a == 2 {
        32
    } else if a == 4 {
        16
    } else if a == 8 {
        8
    } else if a == 16 {
        4
    } else if a == 32 {
        2
    } else {
        1
    };
    assert(a * m == 64);
    assert((m * q) * a == (a * m) * q) by (nonlinear_arith);
    lemma_fundamental_div_mod_converse(x, a, m * q, 0);
}

proof fn lemma_mod_zero_small(a: int, x: int)
    requires
        0 < a,
        x % a == 0,
        -a < x < a,
    ensures
        x == 0,
{
    if 0 < x < a {
        lemma_fundamental_div_mod_converse(x, a, 0, x);
    } else if -a < x < 0 {
        lemma_fundamental_div_mod_converse(x, a, -1, x + a);
    }
}

/// The distance from an offset to its alignment-group origin vanishes
/// modulo the alignment.
proof fn lemma_mod_origin(a: int, x: int)
    requires
        0 < a,
    ensures
        (x - x % a) % a == 0,
{
    lemma_fundamental_div_mod(x, a);
    let q = x / a;
    assert(q * a == a * q) by (nonlinear_arith);
    lemma_fundamental_div_mod_converse(x - x % a, a, q, 0);
}

/// Whether the anchor-group check passes for the group starting at lane `g`
/// of a chunk whose lane 0 reads `d[start]`: every lane of the group either
/// is a wildcard lane or, when it lies below the readable window `n`, holds
/// the anchor group's byte. Lanes at or beyond `n` must be wildcard lanes.
pub open spec fn group_pass(p: Pattern, d: Seq<u8>, start: int, n: int, g: int) -> bool {
    forall|l: int|
        0 <= l < p.alignment as int ==> ((g + l < n ==> (#[trigger] bit(p.first_bytes_mask, g + l)
            || d[start + g + l] == p.first_bytes@[g + l])) && (g + l >= n ==> bit(
            p.first_bytes_mask,
            g + l,
        )))
}

/// Every passing group has a fixed lane that was actually read and matched:
/// the anchor group always holds at least one fixed position.
proof fn lemma_group_pass_witness(p: Pattern, d: Seq<u8>, start: int, n: int, g: int)
    requires
        p.wf(),
        0 <= g < 64,
        g % (p.alignment as int) == 0,
        group_pass(p, d, start, n, g),
    ensures
        exists|l: int|
            0 <= l < p.alignment as int && g + l < n && !(#[trigger] bit(
                p.first_bytes_mask,
                g + l,
            )),
{
    let a = p.alignment as int;
    let g0 = p.first_byte_offset as int;
    let l = choose|l: int| 0 <= l < a && #[trigger] bit(p.mask, g0 + l);
    lemma_mod_in_group(g, l, a);
    assert((g + l) % a == l);
    assert(!bit(p.first_bytes_mask, g + l));
    assert(g + l < n) by {
        if g + l >= n {
            assert(bit(p.first_bytes_mask, g + l));
        }
    }
}

/// Produces the candidate chunkmask for one chunk: bit `g` is set iff `g`
/// starts an alignment group whose anchor-group check passes. With
/// `safe_read` the readable window is `len` bytes from `start` and partial
/// tail groups are suppressed; without it the whole chunk must be readable.
pub(crate) fn build_candidates(
    data: &[u8],
    start: usize,
    len: usize,
    pattern: &Pattern,
    safe_read: bool,
) -> (r: u64)
    requires
        pattern.wf(),
        safe_read ==> start + (if len < 64 {
            len as int
        } else {
            64
        }) <= data@.len(),
        !safe_read ==> len == 64 && start + 64 <= data@.len(),
    ensures
        forall|g: int|
            #[trigger] bit(r, g) <==> 0 <= g < 64 && g % (pattern.alignment as int) == 0
                && group_pass(
                *pattern,
                data@,
                start as int,
                if len < 64 {
                    len as int
                } else {
                    64
                },
                g,
            ),
{
    let ghost a = pattern.alignment as int;
    let ghost d = data@;
    let total = data.len();
    proof {
        assert(total == d.len());
    }
    let n = if len < 64 {
        len
    } else {
        64
    };
    let mut search: u64 = 0;
    proof {
        assert(forall|j: u64| (0u64 >> j) & 1u64 == 0u64) by (bit_vector);
    }
    let mut j: usize = 0;
    while j < n
        invariant
            pattern.wf(),
            d == data@,
            n <= 64,
            total == d.len(),
            start + n <= total,
            j <= n,
            forall|j2: int|
                #[trigger] bit(search, j2) <==> 0 <= j2 < j && d[start + j2]
                    == pattern.first_bytes@[j2],
        decreases n - j,
    {
        if data[start + j] == pattern.first_bytes[j] {
            proof {
                lemma_bit_set(search, j as u64);
            }
            search = search | (1u64 << (j as u64));
        }
        j = j + 1;
    }
    proof {
        lemma_bit_or(search, pattern.first_bytes_mask);
    }
    search = search | pattern.first_bytes_mask;
    let ghost lanes = search;
    let len_mask = data_len_mask(len);
    proof {
        assert(forall|j2: int|
            #[trigger] bit(lanes, j2) <==> ((0 <= j2 < n && d[start + j2]
                == pattern.first_bytes@[j2]) || bit(pattern.first_bytes_mask, j2)));
    }
    if safe_read {
        let mml = mask_min_len(len_mask, pattern.first_bytes_mask, pattern.alignment);
        proof {
            lemma_bit_and(search, mml);
        }
        search = search & mml;
        proof {
            assert(forall|j2: int|
                #[trigger] bit(search, j2) <==> bit(lanes, j2) && (bit(len_mask, j2) || all_set(
                    pattern.first_bytes_mask | len_mask,
                    j2 - (j2 % a),
                    a,
                )));
        }
    }
    let r = reduce_bitmask(search, pattern.alignment);
    proof {
        let ni = n as int;
        let st = start as int;
        let neg = pattern.first_bytes_mask;
        lemma_bit_or(neg, len_mask);
        assert forall|g: int|
            #[trigger] bit(r, g) <==> 0 <= g < 64 && g % a == 0 && group_pass(
                *pattern,
                d,
                st,
                ni,
                g,
            ) by {
            if 0 <= g < 64 && g % a == 0 {
                assert(bit(r, g) <==> all_set(search, g, a));
                if all_set(search, g, a) {
                    assert forall|l: int| 0 <= l < a implies ((g + l < ni ==> (#[trigger] bit(
                        neg,
                        g + l,
                    ) || d[st + g + l] == pattern.first_bytes@[g + l])) && (g + l >= ni ==> bit(
                        neg,
                        g + l,
                    ))) by {
                        lemma_mod_in_group(g, l, a);
                        assert(bit(search, g + l));
                        if safe_read && g + l >= ni {
                            assert(!bit(len_mask, g + l));
                            assert(all_set(neg | len_mask, g, a));
                            assert(bit(neg | len_mask, g + l));
                        }
                    }
                    assert(group_pass(*pattern, d, st, ni, g));
                }
                if group_pass(*pattern, d, st, ni, g) {
                    assert forall|l: int| 0 <= l < a implies #[trigger] bit(search, g + l) by {
                        lemma_mod_in_group(g, l, a);
                        assert((g + l < ni ==> (bit(neg, g + l) || d[st + g + l]
                            == pattern.first_bytes@[g + l])) && (g + l >= ni ==> bit(neg, g + l)));
                        assert(bit(lanes, g + l));
                        if safe_read && g + l >= ni {
                            assert forall|l2: int| 0 <= l2 < a implies #[trigger] bit(
                                neg | len_mask,
                                g + l2,
                            ) by {
                                assert((g + l2 < ni ==> (bit(neg, g + l2) || d[st + g + l2]
                                    == pattern.first_bytes@[g + l2])) && (g + l2 >= ni ==> bit(
                                    neg,
                                    g + l2,
                                )));
                                if g + l2 < ni {
                                    assert(bit(len_mask, g + l2));
                                }
                            }
                            assert(all_set(neg | len_mask, g, a));
                        }
                    }
                    assert(all_set(search, g, a));
                }
            } else {
                assert(!bit(r, g));
            }
        }
    }
    r
}

/// Calculates the candidate chunkmask for the data before the first chunk
/// boundary and shifts it so that its end lines up with the scanner's
/// initial, intentionally out-of-bounds chunk position.
pub fn initial_candidates(pattern: &Pattern, data: &[u8], align_offset: usize) -> (r: u64)
    requires
        pattern.wf(),
        1 <= data@.len() <= usize::MAX - 1024,
        align_offset <= 128,
        align_offset as int % (pattern.alignment as int) + pattern.first_byte_offset
            < align_offset,
        align_offset as int - 64 <= align_offset as int % (pattern.alignment as int)
            + pattern.first_byte_offset,
    ensures
        ({
            let a = pattern.alignment as int;
            let g0 = pattern.first_byte_offset as int;
            let da = align_offset as int % a;
            let fp = da + g0;
            let mo = if align_offset <= data@.len() {
                align_offset as int
            } else {
                data@.len() as int
            };
            let sh = 64 + fp - align_offset;
            if data@.len() < da + pattern.length {
                r == 0
            } else {
                forall|j: int|
                    #[trigger] bit(r, j) <==> sh <= j < 64 && (j - sh) % a == 0 && group_pass(
                        *pattern,
                        data@,
                        fp,
                        mo - fp,
                        j - sh,
                    )
            }
        }),
{
    let ghost a = pattern.alignment as int;
    let ghost g0 = pattern.first_byte_offset as int;
    let da = align_offset % pattern.alignment;
    proof {
        lemma_mod_bound(align_offset as int, a);
        assert(forall|j: u64| (0u64 >> j) & 1u64 == 0u64) by (bit_vector);
    }
    if data.len() < da + pattern.length {
        return 0;
    }
    let fp = da + pattern.first_byte_offset;
    let mo = if align_offset <= data.len() {
        align_offset
    } else {
        data.len()
    };
    proof {
        assert(fp < mo);
        assert(mo - fp <= 64);
    }
    let raw = build_candidates(data, fp, mo - fp, pattern, true);
    let sh = 64 + fp - align_offset;
    proof {
        assert(sh < 64);
        crate::masks::lemma_bit_shl(raw, sh as u64);
        let ni = if mo - fp < 64 {
            mo - fp
        } else {
            64int
        };
        assert(ni == mo - fp);
        // no candidate group is shifted out: each passing group has a fixed
        // lane inside the window, so its start lies below the window end
        assert forall|g: int| #[trigger] bit(raw, g) implies g < 64 - sh by {
            lemma_group_pass_witness(*pattern, data@, fp as int, mo - fp, g);
            let lw = choose|l: int|
                0 <= l < a && g + l < mo - fp && !(#[trigger] bit(
                    pattern.first_bytes_mask,
                    g + l,
                ));
            assert(g < mo - fp);
            assert(mo - fp <= 64 - sh);
        }
    }
    raw << (sh as u64)
}


/// The requirements [`Scanner::new`] establishes for the initial candidate
/// mask: the pattern parses, the haystack is nonempty, and `ao` came from
/// [`first_offset`] for base residue `r`.
spec fn init_pre(p: Pattern, d: Seq<u8>, r: int, ao: int) -> bool {
    &&& p.wf()
    &&& 1 <= d.len() <= usize::MAX - 1024
    &&& 0 <= r < 64
    &&& 1 <= ao <= 128
    &&& (ao + r) % 64 == 0
    &&& (ao % (p.alignment as int)) + p.first_byte_offset < ao
    &&& ao - 64 <= (ao % (p.alignment as int)) + p.first_byte_offset
}

/// What [`initial_candidates`] returned for `ao`, as a predicate.
spec fn init_mask_spec(p: Pattern, d: Seq<u8>, ao: int, cm: u64) -> bool {
    let a = p.alignment as int;
    let g0 = p.first_byte_offset as int;
    let da = ao % a;
    let fp = da + g0;
    let mo = if ao <= d.len() {
        ao
    } else {
        d.len() as int
    };
    let sh = 64 + fp - ao;
    if d.len() < da + p.length {
        cm == 0
    } else {
        forall|j: int|
            #[trigger] bit(cm, j) <==> sh <= j < 64 && (j - sh) % a == 0 && group_pass(
                p,
                d,
                fp,
                mo - fp,
                j - sh,
            )
    }
}

/// The initial chunk's boundary and the pattern's alignment agree: the first
/// possible aligned match offset is `ao % a`, and it is congruent to `-r`.
proof fn lemma_init_congruence(p: Pattern, d: Seq<u8>, r: int, ao: int)
    requires
        init_pre(p, d, r, ao),
    ensures
        (r + ao % (p.alignment as int)) % (p.alignment as int) == 0,
        (64 + (ao % (p.alignment as int)) + p.first_byte_offset - ao) % (p.alignment as int) == 0,
{
    let a = p.alignment as int;
    let g0 = p.first_byte_offset as int;
    let da = ao % a;
    lemma_mod_bound(ao, a);
    lemma_mod64_to_align(a, ao + r);
    lemma_mod_origin(a, ao);
    lemma_mod_zero_sum(a, ao + r, ao - da);
    assert((r + da) % a == 0);
    lemma_mod64_to_align(a, 64);
    lemma_mod_zero_sum(a, 64, ao - da);
    assert((64 - ao + da) % a == 0);
    assert(g0 % a == 0);
    lemma_mod_zero_sum(a, 64 - ao + da, g0);
}

/// Soundness of the initial candidates: every bit stands for a group start
/// of an aligned offset inside the haystack.
proof fn lemma_init_sound(p: Pattern, d: Seq<u8>, r: int, ao: int, cm: u64)
    requires
        init_pre(p, d, r, ao),
        init_mask_spec(p, d, ao, cm),
    ensures
        forall|j: int|
            #[trigger] bit(cm, j) ==> j % (p.alignment as int) == 0 && 0 <= ao - 64 + j
                - p.first_byte_offset < d.len() && (r + (ao - 64 + j - p.first_byte_offset)) % (
            p.alignment as int) == 0,
{
    let a = p.alignment as int;
    let g0 = p.first_byte_offset as int;
    let da = ao % a;
    let fp = da + g0;
    let mo = if ao <= d.len() {
        ao
    } else {
        d.len() as int
    };
    let sh = 64 + fp - ao;
    lemma_mod_bound(ao, a);
    lemma_init_congruence(p, d, r, ao);
    if d.len() < da + p.length {
        assert(forall|j: u64| (0u64 >> j) & 1u64 == 0u64) by (bit_vector);
        assert(forall|j: int| !(#[trigger] bit(cm, j)));
    } else {
        assert forall|j: int| #[trigger] bit(cm, j) implies j % a == 0 && 0 <= ao - 64 + j - g0
            < d.len() && (r + (ao - 64 + j - g0)) % a == 0 by {
            let g = j - sh;
            let o = ao - 64 + j - g0;
            assert(o == g + da);
            assert(g % a == 0);
            lemma_group_pass_witness(p, d, fp, mo - fp, g);
            let lw = choose|lw: int|
                0 <= lw < a && g + lw < mo - fp && !(#[trigger] bit(p.first_bytes_mask, g + lw));
            assert(fp + g + lw < mo <= d.len());
            assert(o <= fp + g + lw - g0);
            assert(o < d.len());
            lemma_mod_zero_sum(a, r + da, g);
            assert((r + o) % a == 0);
            assert(sh % a == 0);
            lemma_mod_zero_sum(a, g, sh);
            assert(j % a == 0);
        }
    }
}

/// Completeness of the initial candidates: every aligned match whose anchor
/// group begins before the first chunk boundary is represented.
proof fn lemma_init_complete(p: Pattern, d: Seq<u8>, r: int, ao: int, cm: u64)
    requires
        init_pre(p, d, r, ao),
        init_mask_spec(p, d, ao, cm),
    ensures
        forall|o: int|
            0 <= o && #[trigger] is_match(p, d, r, o) && o + p.first_byte_offset < ao ==> bit(
                cm,
                o + p.first_byte_offset + 64 - ao,
            ),
{
    let a = p.alignment as int;
    let g0 = p.first_byte_offset as int;
    let la = p.length as int;
    let da = ao % a;
    let fp = da + g0;
    let mo = if ao <= d.len() {
        ao
    } else {
        d.len() as int
    };
    let sh = 64 + fp - ao;
    lemma_mod_bound(ao, a);
    lemma_init_congruence(p, d, r, ao);
    assert forall|o: int|
        0 <= o && #[trigger] is_match(p, d, r, o) && o + g0 < ao implies bit(
        cm,
        o + g0 + 64 - ao,
    ) by {
        // o is congruent to da modulo the alignment
        lemma_mod_zero_sum(a, r + o, r + da);
        assert((o - da) % a == 0);
        assert(o >= da) by {
            if o < da {
                lemma_mod_zero_small(a, o - da);
            }
        }
        assert(o + la <= d.len());
        assert(d.len() >= da + la);
        let g = o - da;
        let j = o + g0 + 64 - ao;
        assert(j == g + sh);
        assert(g % a == 0) by {
            lemma_mod_origin(a, o);
            lemma_mod_bound(o, a);
            lemma_mod_zero_sum(a, o - da, o - o % a);
            lemma_mod_zero_small(a, o % a - da);
        }
        // the group lies entirely below the chunk boundary
        assert(fp + g + a <= ao) by {
            lemma_mod_origin(a, ao);
            assert((ao - da) % a == 0);
            lemma_mod_zero_sum(a, ao - da, g0);
            lemma_mod_zero_sum(a, ao - da - g0, g);
            assert((ao - (fp + g)) % a == 0);
            assert(ao - (fp + g) > 0);
            if ao - (fp + g) < a {
                lemma_mod_zero_small(a, ao - (fp + g));
            }
        }
        assert(group_pass(p, d, fp, mo - fp, g)) by {
            assert forall|l: int| 0 <= l < a implies ((g + l < mo - fp ==> (#[trigger] bit(
                p.first_bytes_mask,
                g + l,
            ) || d[fp + g + l] == p.first_bytes@[g + l])) && (g + l >= mo - fp ==> bit(
                p.first_bytes_mask,
                g + l,
            ))) by {
                lemma_mod_in_group(g, l, a);
                assert(g + l < 64);
                assert(bit(p.first_bytes_mask, g + l) <==> !bit(p.mask, g0 + l));
                if bit(p.mask, g0 + l) {
                    // a fixed lane: inside the pattern, the window, and equal
                    assert(g0 + l < la);
                    assert(fp + g + l == o + (g0 + l));
                    assert(o + g0 + l < o + la <= d.len());
                    assert(fp + g + l < ao);
                    assert(g + l < mo - fp);
                    assert(d[o + (g0 + l)] == p.bytes@[g0 + l]);
                    assert(p.first_bytes@[g + l] == p.bytes@[g0 + (g + l) % a]);
                }
            }
        }
        assert(sh <= j < 64 && (j - sh) % a == 0);
        assert(bit(cm, j));
    }
}


/// Soundness of a chunk's candidate mask: every bit stands for a group start
/// of an aligned offset inside the haystack, at or after the chunk's first
/// representable offset.
proof fn lemma_chunk_sound(p: Pattern, d: Seq<u8>, r: int, start: int, w: int, cm: u64)
    requires
        p.wf(),
        0 <= start,
        0 <= r,
        (start + r) % (p.alignment as int) == 0,
        w == if d.len() - start < 64 {
            d.len() - start
        } else {
            64int
        },
        start <= d.len(),
    ensures
        forall|j: int|
            #[trigger] bit(cm, j) && (bit(cm, j) <==> 0 <= j < 64 && j % (p.alignment as int) == 0
                && group_pass(p, d, start, w, j)) ==> j % (p.alignment as int) == 0 && start - (
            p.first_byte_offset as int) <= start + j - p.first_byte_offset < d.len() && (r + (start
                + j - p.first_byte_offset)) % (p.alignment as int) == 0,
{
    let a = p.alignment as int;
    let g0 = p.first_byte_offset as int;
    assert forall|j: int|
        #[trigger] bit(cm, j) && (bit(cm, j) <==> 0 <= j < 64 && j % a == 0 && group_pass(
            p,
            d,
            start,
            w,
            j,
        )) implies j % a == 0 && start - g0 <= start + j - g0 < d.len() && (r + (start + j - g0))
        % a == 0 by {
        lemma_group_pass_witness(p, d, start, w, j);
        let lw = choose|lw: int|
            0 <= lw < a && j + lw < w && !(#[trigger] bit(p.first_bytes_mask, j + lw));
        assert(start + j + lw < start + w <= d.len());
        assert(start + j - g0 <= start + j + lw);
        assert(start + j - g0 < d.len());
        assert((r + (start + j - g0)) % a == 0) by {
            lemma_mod_zero_sum(a, start + r, j);
            assert(g0 % a == 0);
            lemma_mod_zero_sum(a, start + r + j, g0);
        }
    }
}

/// Completeness of a chunk's candidate mask: every aligned match whose
/// anchor group starts inside the chunk is represented.
proof fn lemma_chunk_complete(p: Pattern, d: Seq<u8>, r: int, start: int, w: int, cm: u64)
    requires
        p.wf(),
        0 <= start,
        0 <= r,
        (start + r) % (p.alignment as int) == 0,
        w == if d.len() - start < 64 {
            d.len() - start
        } else {
            64int
        },
        start <= d.len(),
        forall|g: int|
            #[trigger] bit(cm, g) <==> 0 <= g < 64 && g % (p.alignment as int) == 0 && group_pass(
                p,
                d,
                start,
                w,
                g,
            ),
    ensures
        forall|o: int|
            #[trigger] is_match(p, d, r, o) && start <= o + p.first_byte_offset < start + 64
                ==> bit(cm, o + p.first_byte_offset - start),
{
    let a = p.alignment as int;
    let g0 = p.first_byte_offset as int;
    let la = p.length as int;
    assert forall|o: int|
        #[trigger] is_match(p, d, r, o) && start <= o + g0 < start + 64 implies bit(
        cm,
        o + g0 - start,
    ) by {
        let g = o + g0 - start;
        assert(g % a == 0) by {
            // r + o, start + r and g0 all vanish modulo the alignment
            lemma_mod_zero_sum(a, r + o, start + r);
            assert((o - start) % a == 0);
            lemma_mod_zero_sum(a, o - start, g0);
        }
        assert(group_pass(p, d, start, w, g)) by {
            assert forall|l: int| 0 <= l < a implies ((g + l < w ==> (#[trigger] bit(
                p.first_bytes_mask,
                g + l,
            ) || d[start + g + l] == p.first_bytes@[g + l])) && (g + l >= w ==> bit(
                p.first_bytes_mask,
                g + l,
            ))) by {
                lemma_mod_in_group(g, l, a);
                assert(g + l < 64);
                assert(bit(p.first_bytes_mask, g + l) <==> !bit(p.mask, g0 + l));
                if bit(p.mask, g0 + l) {
                    assert(g0 + l < la);
                    assert(start + g + l == o + (g0 + l));
                    assert(o + g0 + l < o + la <= d.len());
                    assert(g + l < d.len() - start);
                    assert(g + l < w);
                    assert(d[o + (g0 + l)] == p.bytes@[g0 + l]);
                    assert(p.first_bytes@[g + l] == p.bytes@[g0 + (g + l) % a]);
                }
            }
        }
    }
}

/// An iterator-like cursor searching a given [`Pattern`] in data.
///
/// Yields the match offsets in strictly ascending order through
/// [`Scanner::next`]; after the first `None` every further call returns
/// `None`.
pub struct Scanner<'pattern, 'data> {
    /// needle
    pattern: &'pattern Pattern,
    /// one bit for each byte lane of the current chunk; the least significant
    /// bit corresponds to the first byte of the chunk
    candidates_mask: u64,
    /// the haystack
    data: &'data [u8],
    /// shifted address of the first haystack byte: 128 plus the base address
    /// modulo the chunk width
    base: usize,
    /// shifted address of one past the end of data, minus two chunks
    end: usize,
    /// shifted address of the current chunk
    position: usize,
    /// whether the end of the data slice is near
    exhausted: bool,
    /// everything below this match offset has already been yielded
    frontier: Ghost<int>,
}

impl<'pattern, 'data> Scanner<'pattern, 'data> {
    /// The pattern this scanner searches for.
    pub closed spec fn pat(self) -> Pattern {
        *self.pattern
    }

    /// The haystack bytes.
    pub closed spec fn hay(self) -> Seq<u8> {
        self.data@
    }

    /// The haystack's base address modulo the chunk width.
    pub closed spec fn residue(self) -> int {
        self.base - 128
    }

    /// Match offsets below this have been yielded; none of them remains to
    /// come, and nothing at or above it has been yielded yet.
    pub closed spec fn frontier(self) -> int {
        self.frontier@
    }

    spec fn a(self) -> int {
        self.pattern.alignment as int
    }

    spec fn g0(self) -> int {
        self.pattern.first_byte_offset as int
    }

    spec fn n(self) -> int {
        self.data@.len() as int
    }

    /// The match offset a candidate bit `j` of the current chunk stands for.
    spec fn o_of(self, j: int) -> int {
        self.position + j - self.g0() - self.base
    }

    spec fn cfg_ok(self) -> bool {
        &&& (*self.pattern).wf()
        &&& self.data@.len() <= usize::MAX - 1024
        &&& 128 <= self.base < 192
        &&& 0 <= self.frontier@
    }

    spec fn geom(self) -> bool {
        &&& self.end == self.base + self.n() - 128
        &&& self.position % 64 == 0
        &&& 128 <= self.position
        &&& self.base < self.position + 64
        &&& self.position <= self.end + 192
        &&& (!self.exhausted ==> self.position < self.end)
        &&& (self.exhausted ==> self.position >= self.end)
        &&& self.frontier@ + self.g0() + self.base <= self.position + 64
    }

    /// Every pending candidate lies at a group start, stands for an offset
    /// not yet passed, within the haystack, and at an aligned address.
    spec fn cand_sound(self) -> bool {
        forall|j: int|
            #[trigger] bit(self.candidates_mask, j) ==> j % self.a() == 0 && self.o_of(j)
                >= self.frontier@ && self.o_of(j) < self.n() && (self.residue() + self.o_of(j))
                % self.a() == 0
    }

    /// Every match not yet yielded is still ahead: its anchor group start
    /// either lies beyond the current chunk or is a pending candidate.
    spec fn cand_complete(self) -> bool {
        forall|o: int|
            self.frontier@ <= o && #[trigger] is_match(self.pat(), self.hay(), self.residue(), o)
                ==> self.base + o + self.g0() >= self.position + 64 || bit(
                self.candidates_mask,
                self.base + o + self.g0() - self.position,
            )
    }

    /// The scanner's invariant: established by [`Scanner::new`] and kept by
    /// [`Scanner::next`].
    pub closed spec fn wf(self) -> bool {
        &&& self.cfg_ok()
        &&& if self.n() == 0 {
            &&& self.exhausted
            &&& self.candidates_mask == 0
            &&& self.position == usize::MAX
            &&& self.end == 0
        } else {
            &&& self.geom()
            &&& self.cand_sound()
            &&& self.cand_complete()
        }
    }

    /// Creates a cursor that searches `data` for `pattern`.
    #[verifier::rlimit(100)]
    pub fn new(pattern: &'pattern Pattern, data: &'data [u8]) -> (s: Self)
        requires
            pattern.wf(),
            data@.len() <= usize::MAX - 1024,
        ensures
            s.wf(),
            s.pat() == *pattern,
            s.hay() == data@,
            s.frontier() == 0,
            0 <= s.residue() < 64,
    {
        if data.len() == 0 {
            return Scanner {
                pattern,
                data,
                candidates_mask: 0,
                base: 128,
                end: 0,
                position: usize::MAX,
                exhausted: true,
                frontier: Ghost(0),
            };
        }
        let ghost a = pattern.alignment as int;
        let ghost g0 = pattern.first_byte_offset as int;
        let ghost la = pattern.length as int;
        let ghost d = data@;
        let ghost n = data@.len() as int;
        let addr = base_addr(data);
        let r = addr % 64;
        proof {
            lemma_mod_bound(addr as int, 64);
            assert(g0 % a == 0);
            assert(g0 + a <= 64) by {
                let lx = choose|lx: int| 0 <= lx < a && #[trigger] bit(pattern.mask, g0 + lx);
                lemma_mod_in_group(g0, 0, a);
            }
        }
        let align_offset = first_offset(r, pattern.first_byte_offset, pattern.alignment);
        let candidates_mask = initial_candidates(pattern, data, align_offset);
        let base = r + 128;
        let position = base + align_offset - 64;
        let end = base + data.len() - 128;
        let exhausted = position >= end;
        let s = Scanner {
            pattern,
            data,
            candidates_mask,
            base,
            end,
            position,
            exhausted,
            frontier: Ghost(0),
        };
        proof {
            let ao = align_offset as int;
            // geometry
            assert((ao + r) % 64 == 0);
            assert(position == r + 64 + ao);
            assert(position as int % 64 == 0) by {
                lemma_mod_zero_sum(64, ao + r, 64);
            }
            assert(r + ao == 64 || r + ao == 128) by {
                lemma_mod_bound(r + ao, 64);
                lemma_fundamental_div_mod(r + ao, 64);
                let q = (r + ao) / 64;
                assert(r + ao == 64 * q);
                assert(1 <= r + ao <= 191);
                if q <= 0 {
                    assert(64 * q <= 0) by (nonlinear_arith)
                        requires
                            q <= 0,
                    ;
                    assert(false);
                }
                if q >= 3 {
                    assert(64 * q >= 192) by (nonlinear_arith)
                        requires
                            q >= 3,
                    ;
                    assert(false);
                }
            }
            assert(s.geom());
            assert(init_pre(*pattern, d, r as int, ao));
            assert(init_mask_spec(*pattern, d, ao, candidates_mask));
            lemma_init_sound(*pattern, d, r as int, ao, candidates_mask);
            assert forall|j: int| #[trigger] bit(s.candidates_mask, j) implies j % a == 0
                && s.o_of(j) >= 0 && s.o_of(j) < n && (s.residue() + s.o_of(j)) % a == 0 by {
                assert(s.o_of(j) == ao - 64 + j - g0);
            }
            assert(s.cand_sound());
            lemma_init_complete(*pattern, d, r as int, ao, candidates_mask);
            assert forall|o: int|
                0 <= o && #[trigger] is_match(s.pat(), s.hay(), s.residue(), o) implies s.base + o
                + s.g0() >= s.position + 64 || bit(
                s.candidates_mask,
                s.base + o + s.g0() - s.position,
            ) by {
                if s.base + o + g0 < s.position + 64 {
                    assert(o + g0 < ao);
                    assert(bit(candidates_mask, o + g0 + 64 - ao));
                    assert(s.base + o + s.g0() - s.position == o + g0 + 64 - ao);
                }
            }
            assert(s.cand_complete());
            assert(s.wf());
        }
        s
    }

    /// Calculates candidates for the end part of the haystack, where loads
    /// must be bounds-checked.
    fn end_candidates(&mut self)
        requires
            old(self).cfg_ok(),
            old(self).n() > 0,
            old(self).end == old(self).base + old(self).n() - 128,
            old(self).position % 64 == 0,
            old(self).exhausted,
            128 <= old(self).position,
            old(self).base < old(self).position,
            old(self).end + 64 <= old(self).position < old(self).end + 128,
            old(self).frontier@ + old(self).g0() + old(self).base <= old(self).position,
            forall|o: int|
                old(self).frontier@ <= o && #[trigger] is_match(
                    old(self).pat(),
                    old(self).hay(),
                    old(self).residue(),
                    o,
                ) ==> old(self).base + o + old(self).g0() >= old(self).position,
        ensures
            final(self).wf(),
            final(self).pattern == old(self).pattern,
            final(self).data == old(self).data,
            final(self).base == old(self).base,
            final(self).end == old(self).end,
            final(self).position == old(self).position,
            final(self).exhausted == old(self).exhausted,
            final(self).frontier@ == old(self).frontier@,
    {
        let ghost a = self.pattern.alignment as int;
        let ghost g0 = self.pattern.first_byte_offset as int;
        let ghost d = self.data@;
        let ghost n = self.data@.len() as int;
        let ghost r = self.base - 128;
        let start = self.position - self.base;
        let remaining_length = self.end + 128 - self.position;
        proof {
            assert(start + remaining_length == n);
            assert(remaining_length <= 64);
            assert(1 <= remaining_length);
            assert((start + r) % a == 0) by {
                lemma_mod64_to_align(a, self.position - 128);
            }
        }
        let cm = build_candidates(self.data, start, remaining_length, self.pattern, true);
        let ghost pre = *self;
        self.candidates_mask = cm;
        proof {
            let w = if n - start < 64 {
                n - start
            } else {
                64int
            };
            assert(w == remaining_length);
            lemma_chunk_sound(*self.pattern, d, r, start as int, w, cm);
            assert forall|j: int| #[trigger] bit(cm, j) implies j % a == 0 && self.o_of(j)
                >= self.frontier@ && self.o_of(j) < n && (r + self.o_of(j)) % a == 0 by {
                assert(bit(cm, j) <==> 0 <= j < 64 && j % a == 0 && group_pass(
                    *self.pattern,
                    d,
                    start as int,
                    w,
                    j,
                ));
                assert(self.o_of(j) == start + j - g0);
            }
            assert(self.cand_sound());
            lemma_chunk_complete(*self.pattern, d, r, start as int, w, cm);
            assert forall|o: int|
                self.frontier@ <= o && #[trigger] is_match(self.pat(), self.hay(), r, o) implies
                self.base + o + g0 >= self.position + 64 || bit(
                cm,
                self.base + o + g0 - self.position,
            ) by {
                if self.base + o + g0 < self.position + 64 {
                    assert(is_match(pre.pat(), pre.hay(), pre.residue(), o));
                    assert(self.base + o + g0 >= self.position);
                    assert(start <= o + g0 < start + 64);
                    assert(bit(cm, o + g0 - start));
                }
            }
            assert(self.cand_complete());
            assert(self.wf());
        }
    }

    /// Search logic for when unchecked, aligned reads are not possible any
    /// more: drains the current chunk, then at most one bounds-checked tail
    /// chunk.
    fn end_search(&mut self) -> (r: Option<usize>)
        requires
            old(self).wf(),
            old(self).exhausted,
        ensures
            final(self).wf(),
            final(self).pat() == old(self).pat(),
            final(self).hay() == old(self).hay(),
            final(self).residue() == old(self).residue(),
            final(self).exhausted,
            match r {
                Some(o) => {
                    &&& is_match(final(self).pat(), final(self).hay(), final(self).residue(), o as int)
                    &&& old(self).frontier() <= o
                    &&& forall|o2: int|
                        old(self).frontier() <= o2 < o ==> !is_match(
                            final(self).pat(),
                            final(self).hay(),
                            final(self).residue(),
                            o2,
                        )
                    &&& final(self).frontier() == o + 1
                },
                None => {
                    &&& final(self).frontier() == old(self).frontier()
                    &&& forall|o2: int|
                        final(self).frontier() <= o2 ==> !is_match(
                            final(self).pat(),
                            final(self).hay(),
                            final(self).residue(),
                            o2,
                        )
                },
            },
    {
        let ghost a = self.pattern.alignment as int;
        let ghost g0 = self.pattern.first_byte_offset as int;
        let ghost la = self.pattern.length as int;
        let res = self.consume_candidates(true);
        if let Some(position) = res {
            return Some(position);
        }
        let ghost mid = *self;
        if self.position < self.end + 64 {
            self.position = self.position + 64;
            proof {
                assert(self.position >= self.end + 64);
                assert(self.position < self.end + 128);
                assert(self.base < self.position) by {
                    assert(mid.base < mid.position + 64);
                }
                assert(self.frontier@ + g0 + self.base <= self.position);
                assert forall|o: int|
                    self.frontier@ <= o && #[trigger] is_match(
                        self.pat(),
                        self.hay(),
                        self.residue(),
                        o,
                    ) implies self.base + o + g0 >= self.position by {
                    assert(is_match(mid.pat(), mid.hay(), mid.residue(), o));
                }
            }
            self.end_candidates();
        }
        let res2 = self.consume_candidates(true);
        proof {
            if res2 is None {
                assert forall|o2: int|
                    self.frontier@ <= o2 implies !is_match(
                    self.pat(),
                    self.hay(),
                    self.residue(),
                    o2,
                ) by {
                    if is_match(self.pat(), self.hay(), self.residue(), o2) {
                        if self.n() == 0 {
                            assert(o2 + la <= 0);
                        } else {
                            assert(self.position >= self.end + 64);
                            assert(self.base + o2 + g0 >= self.position + 64 >= self.end + 128);
                            assert(o2 + g0 >= self.n());
                            assert(o2 + la <= self.n());
                            assert(g0 < la);
                        }
                        assert(false);
                    }
                }
            }
        }
        res2
    }

    /// Advances the cursor until the next match, or reports that none
    /// remains. Offsets come out in strictly ascending order, and once the
    /// cursor reports `None` every further call reports `None`.
    pub fn next(&mut self) -> (r: Option<usize>)
        requires
            old(self).wf(),
        ensures
            final(self).wf(),
            final(self).pat() == old(self).pat(),
            final(self).hay() == old(self).hay(),
            final(self).residue() == old(self).residue(),
            match r {
                Some(o) => {
                    &&& is_match(final(self).pat(), final(self).hay(), final(self).residue(), o as int)
                    &&& old(self).frontier() <= o
                    &&& forall|o2: int|
                        old(self).frontier() <= o2 < o ==> !is_match(
                            final(self).pat(),
                            final(self).hay(),
                            final(self).residue(),
                            o2,
                        )
                    &&& final(self).frontier() == o + 1
                },
                None => {
                    &&& final(self).frontier() == old(self).frontier()
                    &&& forall|o2: int|
                        final(self).frontier() <= o2 ==> !is_match(
                            final(self).pat(),
                            final(self).hay(),
                            final(self).residue(),
                            o2,
                        )
                },
            },
    {
        if self.exhausted {
            return self.end_search();
        }
        let ghost a = self.pattern.alignment as int;
        let ghost g0 = self.pattern.first_byte_offset as int;
        let ghost d = self.data@;
        let ghost n = self.data@.len() as int;
        let ghost r_res = self.base - 128;
        loop
            invariant
                self.wf(),
                !self.exhausted,
                self.n() > 0,
                self.pattern == old(self).pattern,
                self.data == old(self).data,
                self.base == old(self).base,
                self.end == old(self).end,
                self.frontier@ == old(self).frontier@,
                a == self.pattern.alignment as int,
                g0 == self.pattern.first_byte_offset as int,
                d == self.data@,
                n == self.data@.len() as int,
                r_res == self.base - 128,
            decreases self.end - self.position,
        {
            let res = self.consume_candidates(false);
            if let Some(position) = res {
                return Some(position);
            }
            let ghost mid = *self;
            self.position = self.position + 64;
            if self.position >= self.end {
                self.exhausted = true;
            }
            let start = self.position - self.base;
            proof {
                assert(self.position <= self.end + 63);
                assert(start + 64 <= n);
                assert((start + r_res) % a == 0) by {
                    lemma_mod64_to_align(a, self.position - 128);
                }
                assert(self.frontier@ + g0 + self.base <= self.position);
            }
            let cm = build_candidates(self.data, start, 64, self.pattern, false);
            self.candidates_mask = cm;
            proof {
                let w = if n - start < 64 {
                    n - start
                } else {
                    64int
                };
                assert(w == 64);
                lemma_chunk_sound(*self.pattern, d, r_res, start as int, w, cm);
                assert forall|j: int| #[trigger] bit(cm, j) implies j % a == 0 && self.o_of(j)
                    >= self.frontier@ && self.o_of(j) < n && (r_res + self.o_of(j)) % a == 0 by {
                    assert(bit(cm, j) <==> 0 <= j < 64 && j % a == 0 && group_pass(
                        *self.pattern,
                        d,
                        start as int,
                        w,
                        j,
                    ));
                    assert(self.o_of(j) == start + j - g0);
                }
                assert(self.cand_sound());
                lemma_chunk_complete(*self.pattern, d, r_res, start as int, w, cm);
                assert forall|o: int|
                    self.frontier@ <= o && #[trigger] is_match(self.pat(), self.hay(), r_res, o)
                    implies self.base + o + g0 >= self.position + 64 || bit(
                    cm,
                    self.base + o + g0 - self.position,
                ) by {
                    if self.base + o + g0 < self.position + 64 {
                        assert(is_match(mid.pat(), mid.hay(), mid.residue(), o));
                        assert(mid.base + o + mid.g0() >= mid.position + 64);
                        assert(start <= o + g0 < start + 64);
                        assert(bit(cm, o + g0 - start));
                    }
                }
                assert(self.cand_complete());
                assert(self.wf());
            }
            if self.exhausted {
                return self.end_search();
            }
        }
    }

    /// Pops candidates off the current chunk until one verifies or the chunk
    /// is drained. With `safe_read` every candidate is first checked to
    /// leave room for the whole needle; without it the chunk is known to be
    /// far enough from the end that no check is needed.
    fn consume_candidates(&mut self, safe_read: bool) -> (r: Option<usize>)
        requires
            old(self).wf(),
            !safe_read ==> old(self).n() > 0 && !old(self).exhausted,
        ensures
            final(self).wf(),
            final(self).pattern == old(self).pattern,
            final(self).data == old(self).data,
            final(self).base == old(self).base,
            final(self).end == old(self).end,
            final(self).position == old(self).position,
            final(self).exhausted == old(self).exhausted,
            match r {
                Some(o) => {
                    &&& is_match(final(self).pat(), final(self).hay(), final(self).residue(), o as int)
                    &&& old(self).frontier() <= o
                    &&& forall|o2: int|
                        old(self).frontier() <= o2 < o ==> !is_match(
                            final(self).pat(),
                            final(self).hay(),
                            final(self).residue(),
                            o2,
                        )
                    &&& final(self).frontier() == o + 1
                },
                None => {
                    &&& final(self).frontier() == old(self).frontier()
                    &&& forall|o2: int|
                        final(self).frontier() <= o2 && #[trigger] is_match(
                            final(self).pat(),
                            final(self).hay(),
                            final(self).residue(),
                            o2,
                        ) ==> final(self).base + o2 + final(self).g0() >= final(self).position + 64
                },
            },
    {
        broadcast use vstd::std_specs::bits::axiom_u64_trailing_zeros;

        let ghost orig = *self;
        loop
            invariant
                orig == *old(self),
                self.wf(),
                self.pattern == orig.pattern,
                self.data == orig.data,
                self.base == orig.base,
                self.end == orig.end,
                self.position == orig.position,
                self.exhausted == orig.exhausted,
                self.frontier@ == orig.frontier@,
                orig.wf(),
                !safe_read ==> orig.n() > 0 && !orig.exhausted,
            decreases self.candidates_mask,
        {
            if self.candidates_mask == 0 {
                proof {
                    assert forall|o2: int|
                        self.frontier() <= o2 && #[trigger] is_match(
                            self.pat(),
                            self.hay(),
                            self.residue(),
                            o2,
                        ) implies self.base + o2 + self.g0() >= self.position + 64 by {
                        if self.n() == 0 {
                            assert(o2 + self.pat().length <= 0);
                            assert(false);
                        }
                    }
                }
                return None;
            }
            let offset_u32 = self.candidates_mask.trailing_zeros();
            let offset = offset_u32 as usize;
            proof {
                assert(offset < 64);
                assert((self.candidates_mask >> (offset as u64)) & 1u64 == 1u64);
                assert(bit(self.candidates_mask, offset as int));
                assert(self.n() > 0);
                crate::masks::lemma_bit_clear(self.candidates_mask, offset as u64);
            }
            let ghost pre = *self;
            let ghost pre_mask = self.candidates_mask;
            let ghost o_here = self.o_of(offset as int);
            self.candidates_mask = self.candidates_mask ^ (1u64 << (offset as u64));
            proof {
                assert(pre.cand_sound() && pre.cand_complete());
                assert(self.pat() == pre.pat() && self.hay() == pre.hay() && self.residue()
                    == pre.residue() && self.position == pre.position && self.base == pre.base
                    && self.g0() == pre.g0() && self.frontier@ == pre.frontier@);
            }
            proof {
                assert(o_here >= self.frontier@ >= 0);
                assert(o_here < self.n());
                assert(self.position + offset >= self.g0() + self.base);
                // bits below the popped one are clear
                assert(forall|j2: int|
                    0 <= j2 < offset ==> !(#[trigger] bit(pre_mask, j2))) by {
                    assert(forall|j3: u64|
                        0 <= j3 < offset_u32 ==> #[trigger] (pre_mask >> j3) & 1u64 == 0u64);
                    assert forall|j2: int| 0 <= j2 < offset implies !(#[trigger] bit(
                        pre_mask,
                        j2,
                    )) by {
                        assert((pre_mask >> (j2 as u64)) & 1u64 == 0u64);
                    }
                }
            }
            let offset_ptr = self.position + offset - self.pattern.first_byte_offset;
            let position = offset_ptr - self.base;
            proof {
                assert(position == o_here);
            }
            let len = self.data.len() - position;
            if safe_read && len < self.pattern.length {
                proof {
                    assert forall|o2: int|
                        self.frontier() <= o2 && #[trigger] is_match(
                            self.pat(),
                            self.hay(),
                            self.residue(),
                            o2,
                        ) implies self.base + o2 + self.g0() >= self.position + 64 by {
                        let j2 = self.base + o2 + self.g0() - self.position;
                        if j2 < 64 {
                            assert(is_match(pre.pat(), pre.hay(), pre.residue(), o2));
                            assert(bit(pre_mask, j2));
                            assert(pre.o_of(j2) == o2);
                            if o2 != o_here {
                                assert(j2 != offset);
                                assert(j2 > offset);
                            }
                            assert(o2 >= o_here);
                            assert(o2 + self.pat().length > self.n());
                            assert(!pat_match_at(self.pat(), self.hay(), o2));
                            assert(false);
                        }
                    }
                    // the popped candidate is no match either: re-establish
                    // completeness for the cleared bit
                    assert(self.cand_complete());
                }
                return None;
            }
            proof {
                if !safe_read {
                    assert(self.position < self.end);
                    assert(o_here + self.pat().length <= self.n());
                } else {
                    assert(o_here + self.pat().length <= self.n());
                }
            }
            if verify_candidate(self.pattern, self.data, position) {
                proof {
                    assert(pat_match_at(self.pat(), self.hay(), o_here));
                    assert((self.residue() + o_here) % self.a() == 0);
                    assert(is_match(self.pat(), self.hay(), self.residue(), o_here));
                    assert forall|o2: int|
                        self.frontier@ <= o2 < o_here implies !is_match(
                            self.pat(),
                            self.hay(),
                            self.residue(),
                            o2,
                        ) by {
                        if is_match(self.pat(), self.hay(), self.residue(), o2) {
                            assert(is_match(pre.pat(), pre.hay(), pre.residue(), o2));
                            let j2 = self.base + o2 + self.g0() - self.position;
                            assert(j2 < offset);
                            assert(pre.base + o2 + pre.g0() >= pre.position + 64 || bit(
                                pre_mask,
                                j2,
                            ));
                            assert(false);
                        }
                    }
                }
                let ghost new_frontier = o_here + 1;
                proof {
                    assert forall|j2: int|
                        #[trigger] bit(self.candidates_mask, j2) implies j2 % self.a() == 0
                            && self.o_of(j2) >= new_frontier && self.o_of(j2) < self.n() && (
                        self.residue() + self.o_of(j2)) % self.a() == 0 by {
                        assert(bit(pre_mask, j2) && j2 != offset);
                        assert(j2 > offset);
                    }
                }
                self.frontier = Ghost(new_frontier);
                proof {
                    assert(self.cand_sound());
                    assert forall|o2: int|
                        self.frontier@ <= o2 && #[trigger] is_match(
                            self.pat(),
                            self.hay(),
                            self.residue(),
                            o2,
                        ) implies self.base + o2 + self.g0() >= self.position + 64 || bit(
                        self.candidates_mask,
                        self.base + o2 + self.g0() - self.position,
                    ) by {
                        assert(is_match(pre.pat(), pre.hay(), pre.residue(), o2));
                        let j2 = self.base + o2 + self.g0() - self.position;
                        if j2 < 64 {
                            assert(bit(pre_mask, j2));
                            assert(pre.o_of(j2) == o2);
                            assert(j2 != offset);
                        }
                    }
                    assert(self.cand_complete());
                }
                return Some(position);
            }
            proof {
                // not a match: dropping its bit keeps completeness
                assert forall|o2: int|
                    self.frontier@ <= o2 && #[trigger] is_match(
                        self.pat(),
                        self.hay(),
                        self.residue(),
                        o2,
                    ) implies self.base + o2 + self.g0() >= self.position + 64 || bit(
                    self.candidates_mask,
                    self.base + o2 + self.g0() - self.position,
                ) by {
                    assert(is_match(pre.pat(), pre.hay(), pre.residue(), o2));
                    let j2 = self.base + o2 + self.g0() - self.position;
                    if j2 < 64 {
                        assert(bit(pre_mask, j2));
                        assert(pre.o_of(j2) == o2);
                        if o2 == o_here {
                            assert(!pat_match_at(self.pat(), self.hay(), o2));
                            assert(false);
                        }
                        assert(j2 != offset);
                    }
                }
                assert(self.cand_complete());
            }
        }
    }
}

impl Pattern {
    /// Creates a cursor through `data`. See [`Scanner::new`] for remarks.
    pub fn matches<'pattern, 'data>(&'pattern self, data: &'data [u8]) -> (s: Scanner<
        'pattern,
        'data,
    >)
        requires
            self.wf(),
            data@.len() <= usize::MAX - 1024,
        ensures
            s.wf(),
            s.pat() == *self,
            s.hay() == data@,
            s.frontier() == 0,
            0 <= s.residue() < 64,
    {
        Scanner::new(self, data)
    }
}

/// `o` is the first match at or after the frontier `f`: the shape in which
/// [`Scanner::next`] reports an offset.
pub open spec fn first_match_from(p: Pattern, d: Seq<u8>, r: int, f: int, o: int) -> bool {
    &&& is_match(p, d, r, o)
    &&& f <= o
    &&& forall|o2: int| f <= o2 < o ==> !is_match(p, d, r, o2)
}

/// Monotonicity of yielded offsets: each yield moves the frontier past
/// itself, and the next yield starts searching at the frontier, so offsets
/// come out strictly increasing.
pub proof fn lemma_yields_ascend(p: Pattern, d: Seq<u8>, r: int, f: int, o1: int, o2: int)
    requires
        first_match_from(p, d, r, f, o1),
        first_match_from(p, d, r, o1 + 1, o2),
    ensures
        o1 < o2,
{
}

/// Idempotence at the end: once no match remains at or after the frontier,
/// and the frontier does not move, no call can ever find a match again.
pub proof fn lemma_end_is_final(p: Pattern, d: Seq<u8>, r: int, f: int, o: int)
    requires
        forall|o2: int| f <= o2 ==> !is_match(p, d, r, o2),
        f <= o,
    ensures
        !is_match(p, d, r, o),
{
}

/// Misalignment invariance: with alignment 1 the match set does not depend
/// on where the haystack sits in memory, so shifting the slice start (which
/// only changes the base residue) leaves the yielded offsets unchanged.
pub proof fn lemma_shift_invariant(p: Pattern, d: Seq<u8>, r1: int, r2: int, o: int)
    requires
        p.alignment == 1,
    ensures
        is_match(p, d, r1, o) == is_match(p, d, r2, o),
{
    lemma_fundamental_div_mod_converse(r1 + o, 1, r1 + o, 0);
    lemma_fundamental_div_mod_converse(r2 + o, 1, r2 + o, 0);
}

/// Round trip: a pattern rebuilt from its own bytes and fixed-position mask
/// (as [`Pattern::from_slice_align`] does) matches at exactly the same
/// offsets as the original.
pub proof fn lemma_round_trip(p: Pattern, q: Pattern, d: Seq<u8>, r: int, o: int)
    requires
        p.wf(),
        q.alignment == p.alignment,
        q.length == p.length,
        forall|i: int| 0 <= i < p.length ==> q.bytes@[i] == p.bytes@[i],
        forall|u: int| #[trigger] bit(q.mask, u) <==> bit(p.mask, u),
    ensures
        is_match(q, d, r, o) == is_match(p, d, r, o),
{
    if pat_match_at(p, d, o) {
        assert forall|u: int| 0 <= u < q.length && #[trigger] bit(q.mask, u) implies d[o + u]
            == q.bytes@[u] by {
            assert(bit(p.mask, u));
        }
    }
    if pat_match_at(q, d, o) {
        assert forall|u: int| 0 <= u < p.length && #[trigger] bit(p.mask, u) implies d[o + u]
            == p.bytes@[u] by {
            assert(bit(q.mask, u));
        }
    }
}

/// Verifies the full needle against the haystack at match offset `o`.
fn verify_candidate(pattern: &Pattern, data: &[u8], o: usize) -> (r: bool)
    requires
        pattern.wf(),
        o + pattern.length <= data@.len(),
    ensures
        r == pat_match_at(*pattern, data@, o as int),
{
    let total = data.len();
    proof {
        assert(total == data@.len());
    }
    let mut u: usize = 0;
    while u < pattern.length
        invariant
            pattern.wf(),
            total == data@.len(),
            o + pattern.length <= total,
            u <= pattern.length,
            forall|u2: int|
                0 <= u2 < u && #[trigger] bit(pattern.mask, u2) ==> data@[o + u2]
                    == pattern.bytes@[u2],
        decreases pattern.length - u,
    {
        if (pattern.mask >> (u as u64)) & 1 == 1 {
            proof {
                assert(bit(pattern.mask, u as int));
            }
            if data[o + u] != pattern.bytes[u] {
                return false;
            }
        } else {
            proof {
                assert(!bit(pattern.mask, u as int));
            }
        }
        u = u + 1;
    }
    true
}

} // verus!
