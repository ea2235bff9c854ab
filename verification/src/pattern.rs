//! The compiled pattern: needle bytes, a fixed-position mask, and the anchor
//! group that the scanner's first pass searches for.

use crate::const_utils::{
    hex_to_u8, is_wildcard, spec_hex_byte, spec_is_hex_token, spec_is_wildcard, tokens,
    tokens_from, SplitAsciiWhitespace,
};
use crate::masks::{bit, lemma_bit_set, valid_align};
use vstd::arithmetic::div_mod::{lemma_fundamental_div_mod, lemma_mod_bound};
use vstd::prelude::*;

verus! {

/// Chunk width in bytes: the scanner inspects this many haystack bytes per
/// step, and a pattern holds at most this many positions.
pub const BYTES: usize = 64;

/// Error cases surfaced while turning pattern text into a [`Pattern`].
#[derive(Clone, Copy, Debug, PartialEq, Eq, Structural)]
#[non_exhaustive]
pub enum ParsePatternError {
    /// More tokens than the chunk width allows.
    PatternTooLong,
    /// A token that is neither a wildcard nor two hex digits.
    InvalidHexNumber,
    /// Every position is a wildcard, so no anchor byte can be chosen.
    MissingNonWildcardByte,
    /// The requested alignment is not a power of two within the chunk width.
    AlignmentUnsupported,
}

/// A prepared pattern. Allows to search for a given byte sequence in data,
/// with wildcard positions and an optional alignment requirement.
#[derive(Clone, Debug)]
pub struct Pattern {
    /// The needle, zero-padded to the chunk width.
    pub bytes: Vec<u8>,
    /// The anchor group repeated across a whole chunk.
    pub first_bytes: Vec<u8>,
    /// Bit `i` set iff needle position `i` is a fixed byte, not a wildcard.
    pub mask: u64,
    /// Inverted lane mask for `first_bytes`: bit set on wildcard lanes.
    pub first_bytes_mask: u64,
    /// Start of the alignment group the anchor was chosen from.
    pub first_byte_offset: usize,
    /// Number of needle positions.
    pub length: usize,
    /// Matches are restricted to addresses that are multiples of this.
    pub alignment: usize,
}

/// Number of set bits of `mask` among positions `g`, ..., `g + w - 1`.
pub open spec fn count_in_group(mask: u64, g: int, w: int) -> int
    decreases w,
{
    if w <= 0 {
        0
    } else {
        count_in_group(mask, g, w - 1) + if bit(mask, g + (w - 1)) {
            1int
        } else {
            0int
        }
    }
}

/// Scanning fold over the first `n` alignment groups: the index of the group
/// with the most fixed positions (first group wins ties) and that count.
pub open spec fn spec_group_scan(mask: u64, a: int, n: int) -> (int, int)
    decreases n,
{
    if n <= 0 {
        (0, 0)
    } else {
        let prev = spec_group_scan(mask, a, n - 1);
        let c = count_in_group(mask, (n - 1) * a, a);
        if c > prev.1 {
            (n - 1, c)
        } else {
            prev
        }
    }
}

/// The byte offset of the densest alignment group of `mask`.
pub open spec fn spec_anchor_group(mask: u64, a: int) -> int {
    spec_group_scan(mask, a, 64int / a).0 * a
}

impl Pattern {
    /// Structural well-formedness: what every constructor establishes and the
    /// scanner relies on.
    pub open spec fn wf(self) -> bool {
        let a = self.alignment as int;
        let g0 = self.first_byte_offset as int;
        &&& self.bytes@.len() == 64
        &&& self.first_bytes@.len() == 64
        &&& valid_align(a)
        &&& 1 <= self.length <= 64
        &&& g0 < self.length
        &&& g0 % a == 0
        &&& self.mask != 0
        &&& forall|u: int| #[trigger] bit(self.mask, u) ==> u < self.length
        &&& exists|l: int| 0 <= l < a && #[trigger] bit(self.mask, g0 + l)
        &&& forall|j: int|
            0 <= j < 64 ==> self.first_bytes@[j] == self.bytes@[g0 + #[trigger] (j % a)]
        &&& forall|j: int|
            0 <= j < 64 ==> (#[trigger] bit(self.first_bytes_mask, j) <==> !bit(
                self.mask,
                g0 + (j % a),
            ))
    }
}

/// The needle of `p` matches the haystack `d` at offset `o`: the whole needle
/// lies inside the haystack and every fixed position agrees.
pub open spec fn pat_match_at(p: Pattern, d: Seq<u8>, o: int) -> bool {
    &&& 0 <= o
    &&& o + p.length <= d.len()
    &&& forall|u: int| 0 <= u < p.length && #[trigger] bit(p.mask, u) ==> d[o + u] == p.bytes@[u]
}

/// A match that the scanner reports: the needle matches at `o` and the
/// address of the match start is a multiple of the pattern's alignment.
/// `r` is the haystack base address modulo the chunk width.
pub open spec fn is_match(p: Pattern, d: Seq<u8>, r: int, o: int) -> bool {
    &&& pat_match_at(p, d, o)
    &&& (r + o) % (p.alignment as int) == 0
}

proof fn lemma_count_pos_exists(mask: u64, g: int, w: int)
    requires
        count_in_group(mask, g, w) > 0,
    ensures
        exists|l: int| 0 <= l < w && #[trigger] bit(mask, g + l),
    decreases w,
{
    if w > 0 {
        if bit(mask, g + (w - 1)) {
            assert(0 <= w - 1 < w && bit(mask, g + (w - 1)));
        } else {
            lemma_count_pos_exists(mask, g, w - 1);
            let l = choose|l: int| 0 <= l < w - 1 && #[trigger] bit(mask, g + l);
            assert(0 <= l < w && bit(mask, g + l));
        }
    }
}

proof fn lemma_bit_count_pos(mask: u64, g: int, w: int, l: int)
    requires
        0 <= l < w,
        bit(mask, g + l),
    ensures
        count_in_group(mask, g, w) > 0,
    decreases w,
{
    if l == w - 1 {
        lemma_count_nonneg(mask, g, w - 1);
    } else {
        lemma_bit_count_pos(mask, g, w - 1, l);
    }
}

proof fn lemma_count_nonneg(mask: u64, g: int, w: int)
    ensures
        count_in_group(mask, g, w) >= 0,
    decreases w,
{
    if w > 0 {
        lemma_count_nonneg(mask, g, w - 1);
    }
}

proof fn lemma_align_div(ai: int)
    requires
        valid_align(ai),
    ensures
        (64int / ai) * ai == 64,
        64int / ai >= 1,
{
    if ai == 1 {
        assert(64int / 1int == 64);
    } else if ai == 2 {
        assert(64int / 2int == 32);
    } else if ai == 4 {
        assert(64int / 4int == 16);
    } else if ai == 8 {
        assert(64int / 8int == 8);
    } else if ai == 16 {
        assert(64int / 16int == 4);
    } else if ai == 32 {
        assert(64int / 32int == 2);
    } else {
        assert(64int / 64int == 1);
    }
}

proof fn lemma_group_bounds(ai: int, i: int, n: int)
    requires
        valid_align(ai),
        n * ai == 64,
        0 <= i < n,
    ensures
        0 <= i * ai,
        i * ai + ai <= 64,
        (i * ai) % ai == 0,
        i * ai == ai * i,
{
    if ai == 1 {
        assert(i * ai == i * 1 && ai * i == 1 * i && n * ai == n * 1);
    } else if ai == 2 {
        assert(i * ai == i * 2 && ai * i == 2 * i && n * ai == n * 2);
    } else if ai == 4 {
        assert(i * ai == i * 4 && ai * i == 4 * i && n * ai == n * 4);
    } else if ai == 8 {
        assert(i * ai == i * 8 && ai * i == 8 * i && n * ai == n * 8);
    } else if ai == 16 {
        assert(i * ai == i * 16 && ai * i == 16 * i && n * ai == n * 16);
    } else if ai == 32 {
        assert(i * ai == i * 32 && ai * i == 32 * i && n * ai == n * 32);
    } else {
        assert(i * ai == i * 64 && ai * i == 64 * i && n * ai == n * 64);
    }
}

proof fn lemma_group_of_bit(ai: int, u: int, n: int) -> (i: int)
    requires
        valid_align(ai),
        n * ai == 64,
        0 <= u < 64,
    ensures
        0 <= i < n,
        i * ai <= u < i * ai + ai,
        u == i * ai + (u % ai),
    decreases 0int,
{
    lemma_fundamental_div_mod(u, ai);
    lemma_mod_bound(u, ai);
    let i = u / ai;
    assert(u == ai * i + (u % ai));
    if ai == 1 {
        assert(i * ai == i * 1 && ai * i == 1 * i && n * ai == n * 1);
    } else if ai == 2 {
        assert(i * ai == i * 2 && ai * i == 2 * i && n * ai == n * 2);
    } else if ai == 4 {
        assert(i * ai == i * 4 && ai * i == 4 * i && n * ai == n * 4);
    } else if ai == 8 {
        assert(i * ai == i * 8 && ai * i == 8 * i && n * ai == n * 8);
    } else if ai == 16 {
        assert(i * ai == i * 16 && ai * i == 16 * i && n * ai == n * 16);
    } else if ai == 32 {
        assert(i * ai == i * 32 && ai * i == 32 * i && n * ai == n * 32);
    } else {
        assert(i * ai == i * 64 && ai * i == 64 * i && n * ai == n * 64);
    }
    i
}

/// Chooses the anchor group: the start offset of the alignment group of
/// `mask` with the most fixed positions, the lowest such group on a tie.
/// With no fixed position at all there is no anchor to scan for.
pub(crate) fn find_first_byte_offset(mask: u64, align: usize) -> (r: Result<
    usize,
    ParsePatternError,
>)
    requires
        valid_align(align as int),
    ensures
        match r {
            Ok(g) => {
                &&& mask != 0
                &&& g == spec_anchor_group(mask, align as int)
                &&& g as int % (align as int) == 0
                &&& g + align <= 64
                &&& exists|l: int| 0 <= l < align && #[trigger] bit(mask, g + l)
            },
            Err(e) => mask == 0 && e == ParsePatternError::MissingNonWildcardByte,
        },
{
    let a = align;
    let ghost ai = align as int;
    let n_groups = 64 / a;
    let mut i: usize = 0;
    let mut smallest: usize = 0;
    let mut highest_count: usize = 0;
    proof {
        assert(64 as int / ai == 64int / ai);
        lemma_align_div(ai);
        assert(n_groups as int * ai == 64);
        assert(n_groups >= 1);
    }
    while i < n_groups
        invariant
            valid_align(ai),
            a == ai,
            n_groups == 64int / ai,
            i <= n_groups,
            (smallest as int, highest_count as int) == spec_group_scan(mask, ai, i as int),
            smallest < n_groups,
            highest_count > 0 ==> highest_count == count_in_group(mask, smallest as int * ai, ai),
            forall|i2: int|
                0 <= i2 < i ==> #[trigger] count_in_group(mask, i2 * ai, ai) <= highest_count,
            highest_count <= 64,
            n_groups as int * ai == 64,
        decreases n_groups - i,
    {
        proof {
            lemma_group_bounds(ai, i as int, n_groups as int);
        }
        let g = i * a;
        let mut l: usize = 0;
        let mut chunk_count: usize = 0;
        while l < a
            invariant
                valid_align(ai),
                a == ai,
                g + a <= 64,
                l <= a,
                chunk_count == count_in_group(mask, g as int, l as int),
                chunk_count <= l,
            decreases a - l,
        {
            let idx = g + l;
            if (mask >> (idx as u64)) & 1 == 1 {
                proof {
                    assert(bit(mask, idx as int));
                }
                chunk_count = chunk_count + 1;
            } else {
                proof {
                    assert(!bit(mask, idx as int));
                }
            }
            l = l + 1;
        }
        if chunk_count > highest_count {
            highest_count = chunk_count;
            smallest = i;
        }
        proof {
            lemma_count_nonneg(mask, i as int * ai, ai);
        }
        i = i + 1;
    }
    if highest_count == 0 {
        proof {
            if mask != 0 {
                vstd::std_specs::bits::axiom_u64_trailing_zeros(mask);
                let u2 = vstd::std_specs::bits::u64_trailing_zeros(mask) as int;
                assert(bit(mask, u2));
                assert(0 <= u2 < 64);
                let iu = lemma_group_of_bit(ai, u2, n_groups as int);
                assert(bit(mask, iu * ai + (u2 % ai)));
                lemma_bit_count_pos(mask, iu * ai, ai, u2 % ai);
                assert(count_in_group(mask, iu * ai, ai) <= highest_count);
                assert(false);
            }
        }
        Err(ParsePatternError::MissingNonWildcardByte)
    } else {
        proof {
            lemma_group_bounds(ai, smallest as int, n_groups as int);
        }
        let g = smallest * a;
        proof {
            lemma_count_pos_exists(mask, g as int, ai);
            if mask == 0 {
                let l = choose|l: int| 0 <= l < ai && #[trigger] bit(mask, g as int + l);
                assert(forall|j: u64| (0u64 >> j) & 1u64 == 0u64) by (bit_vector);
                assert(!bit(mask, g as int + l));
            }
        }
        Ok(g)
    }
}

impl Pattern {
    /// Create a pattern from a byte slice and a mask, searched with the given
    /// alignment. Byte slices longer than the chunk width are cut short. A 0
    /// bit of `mask` marks the byte at that position as a wildcard; `mask` is
    /// trimmed to `bytes.len()`. At least one unmasked position must remain
    /// within the trimmed range.
    pub fn from_slice_align(bytes: &[u8], mask: u64, alignment: usize) -> (p: Pattern)
        requires
            valid_align(alignment as int),
            exists|u: int| 0 <= u < 64 && u < bytes@.len() && #[trigger] bit(mask, u),
        ensures
            p.wf(),
            p.alignment == alignment,
            p.length == if bytes@.len() < 64 {
                bytes@.len() as int
            } else {
                64
            },
            forall|i: int| 0 <= i < p.length ==> p.bytes@[i] == bytes@[i],
            forall|i: int| p.length <= i < 64 ==> p.bytes@[i] == 0,
            forall|u: int| #[trigger] bit(p.mask, u) <==> bit(mask, u) && u < p.length,
            p.first_byte_offset == spec_anchor_group(p.mask, alignment as int),
    {
        let length = if bytes.len() < 64 {
            bytes.len()
        } else {
            64
        };
        let mut input: Vec<u8> = Vec::new();
        let mut i: usize = 0;
        while i < 64
            invariant
                length <= bytes@.len(),
                length <= 64,
                i <= 64,
                input@.len() == i,
                forall|i2: int| 0 <= i2 < i && i2 < length ==> input@[i2] == bytes@[i2],
                forall|i2: int| length <= i2 < i ==> input@[i2] == 0,
            decreases 64 - i,
        {
            if i < length {
                input.push(bytes[i]);
            } else {
                input.push(0);
            }
            i = i + 1;
        }
        let len_mask = crate::masks::data_len_mask(length);
        let trimmed = mask & len_mask;
        proof {
            crate::masks::lemma_bit_and(mask, len_mask);
            let u = choose|u: int| 0 <= u < 64 && u < bytes@.len() && #[trigger] bit(mask, u);
            if length < bytes@.len() {
                assert(bit(mask, u) && u < 64);
                assert(u < length);
            }
            assert(bit(trimmed, u));
            if trimmed == 0 {
                assert(forall|j: u64| (0u64 >> j) & 1u64 == 0u64) by (bit_vector);
                assert(!bit(trimmed, u));
            }
        }
        let first_byte_offset = match find_first_byte_offset(trimmed, alignment) {
            Ok(g) => g,
            Err(_) => vstd::pervasive::unreached(),
        };
        let (first_bytes, first_bytes_mask) = fill_first_bytes(
            &input,
            trimmed,
            first_byte_offset,
            alignment,
        );
        let p = Pattern {
            bytes: input,
            first_bytes,
            mask: trimmed,
            first_bytes_mask,
            first_byte_offset,
            length,
            alignment,
        };
        proof {
            let ai = alignment as int;
            let g0 = first_byte_offset as int;
            let l = choose|l: int| 0 <= l < ai && #[trigger] bit(trimmed, g0 + l);
            assert(bit(trimmed, g0 + l));
            assert(g0 + l < length);
            assert(1 <= p.length);
        }
        p
    }

    /// Create a pattern from a byte slice and a mask, unconstrained by
    /// alignment. See [`Pattern::from_slice_align`].
    pub fn from_slice(bytes: &[u8], mask: u64) -> (p: Pattern)
        requires
            exists|u: int| 0 <= u < 64 && u < bytes@.len() && #[trigger] bit(mask, u),
        ensures
            p.wf(),
            p.alignment == 1,
            p.length == if bytes@.len() < 64 {
                bytes@.len() as int
            } else {
                64
            },
            forall|i: int| 0 <= i < p.length ==> p.bytes@[i] == bytes@[i],
            forall|i: int| p.length <= i < 64 ==> p.bytes@[i] == 0,
            forall|u: int| #[trigger] bit(p.mask, u) <==> bit(mask, u) && u < p.length,
            p.first_byte_offset == spec_anchor_group(p.mask, 1),
    {
        Pattern::from_slice_align(bytes, mask, 1)
    }
}

/// A pattern token is either a wildcard or two hex digits.
pub open spec fn spec_token_is_ok(t: Seq<char>) -> bool {
    spec_is_wildcard(t) || spec_is_hex_token(t)
}

/// The pattern text parses: a supported alignment, at most a chunk width of
/// tokens, every token well-formed, and at least one fixed byte.
pub open spec fn spec_parse_ok(s: Seq<char>, alignment: usize) -> bool {
    let toks = tokens(s);
    &&& valid_align(alignment as int)
    &&& toks.len() <= 64
    &&& forall|i: int| 0 <= i < toks.len() ==> spec_token_is_ok(#[trigger] toks[i])
    &&& exists|i: int| 0 <= i < toks.len() && !spec_is_wildcard(#[trigger] toks[i])
}

/// What parsing pattern text returns, case by case: each error comes exactly
/// on the inputs listed for it, and a returned pattern's fields are pinned to
/// the token list.
pub open spec fn spec_from_str_result(
    s: Seq<char>,
    alignment: usize,
    r: Result<Pattern, ParsePatternError>,
) -> bool {
    let toks = tokens(s);
    let a = alignment as int;
    match r {
        Err(ParsePatternError::AlignmentUnsupported) => !valid_align(a),
        Err(ParsePatternError::PatternTooLong) => valid_align(a) && toks.len() > 64,
        Err(ParsePatternError::InvalidHexNumber) => {
            &&& valid_align(a)
            &&& toks.len() <= 64
            &&& exists|i: int| 0 <= i < toks.len() && !spec_token_is_ok(#[trigger] toks[i])
        },
        Err(ParsePatternError::MissingNonWildcardByte) => {
            &&& valid_align(a)
            &&& toks.len() <= 64
            &&& forall|i: int| 0 <= i < toks.len() ==> spec_token_is_ok(#[trigger] toks[i])
            &&& forall|i: int| 0 <= i < toks.len() ==> spec_is_wildcard(#[trigger] toks[i])
        },
        Ok(p) => {
            &&& spec_parse_ok(s, alignment)
            &&& p.wf()
            &&& p.alignment == alignment
            &&& p.length == toks.len()
            &&& forall|u: int|
                #[trigger] bit(p.mask, u) <==> 0 <= u < toks.len() && !spec_is_wildcard(toks[u])
            &&& forall|i: int|
                0 <= i < 64 ==> p.bytes@[i] == (if 0 <= i < toks.len() && !spec_is_wildcard(
                    toks[i],
                ) {
                    spec_hex_byte(toks[i])
                } else {
                    0u8
                })
            &&& p.first_byte_offset == spec_anchor_group(p.mask, a)
        },
    }
}

impl Pattern {
    /// Parses pattern text: whitespace-separated tokens, each two hex digits
    /// or a wildcard starting with `.` or `?`, searched with the given
    /// alignment.
    pub fn from_str_align(s: &str, alignment: usize) -> (r: Result<Pattern, ParsePatternError>)
        ensures
            spec_from_str_result(s@, alignment, r),
    {
        if !(alignment == 1 || alignment == 2 || alignment == 4 || alignment == 8 || alignment
            == 16 || alignment == 32 || alignment == 64) {
            return Err(ParsePatternError::AlignmentUnsupported);
        }
        let ghost toks = tokens(s@);
        let it0 = SplitAsciiWhitespace::new(s);
        let length = it0.clone().count();
        if length > 64 {
            return Err(ParsePatternError::PatternTooLong);
        }
        let mut buffer: Vec<u8> = Vec::new();
        let mut mask: u64 = 0;
        let mut index: usize = 0;
        let mut it = it0;
        proof {
            assert(forall|j: u64| (0u64 >> j) & 1u64 == 0u64) by (bit_vector);
        }
        loop
            invariant_except_break
                valid_align(alignment as int),
                it.wf(),
                it.text() == s@,
                0 <= it.pos() <= s@.len(),
                toks == tokens(s@),
                toks.len() == length <= 64,
                index <= toks.len(),
                tokens_from(s@, it.pos()).len() == toks.len() - index,
                forall|k: int|
                    0 <= k < toks.len() - index ==> tokens_from(s@, it.pos())[k] == toks[index
                        + k],
                buffer@.len() == index,
                forall|k: int| 0 <= k < index ==> spec_token_is_ok(#[trigger] toks[k]),
                forall|u: int|
                    0 <= u < index ==> buffer@[u] == (if !spec_is_wildcard(#[trigger] toks[u]) {
                        spec_hex_byte(toks[u])
                    } else {
                        0u8
                    }),
                forall|u: int|
                    #[trigger] bit(mask, u) <==> 0 <= u < index && !spec_is_wildcard(toks[u]),
            ensures
                index == toks.len(),
                buffer@.len() == index,
                forall|k: int| 0 <= k < toks.len() ==> spec_token_is_ok(#[trigger] toks[k]),
                forall|u: int|
                    0 <= u < index ==> buffer@[u] == (if !spec_is_wildcard(#[trigger] toks[u]) {
                        spec_hex_byte(toks[u])
                    } else {
                        0u8
                    }),
                forall|u: int|
                    #[trigger] bit(mask, u) <==> 0 <= u < index && !spec_is_wildcard(toks[u]),
            decreases s@.len() - it.pos(),
        {
            let ghost pre = it;
            let res = it.next();
            it = res.0;
            match res.1 {
                Some(b) => {
                    proof {
                        assert(tokens_from(s@, pre.pos()).len() > 0);
                        assert(index < toks.len());
                        assert(b@ == tokens_from(s@, pre.pos())[0]);
                        assert(b@ == toks[index as int]);
                    }
                    if !is_wildcard(b) {
                        match hex_to_u8(b) {
                            Ok(parsed) => {
                                proof {
                                    lemma_bit_set(mask, index as u64);
                                }
                                buffer.push(parsed);
                                mask = mask | (1u64 << (index as u64));
                            },
                            Err(_) => {
                                proof {
                                    assert(0 <= index < toks.len());
                                    assert(!spec_token_is_ok(toks[index as int]));
                                }
                                return Err(ParsePatternError::InvalidHexNumber);
                            },
                        }
                    } else {
                        buffer.push(0);
                    }
                    index = index + 1;
                },
                None => {
                    break ;
                },
            }
        }
        while buffer.len() < 64
            invariant
                index <= buffer@.len() <= 64,
                forall|u: int| index <= u < buffer@.len() ==> buffer@[u] == 0u8,
                forall|u: int|
                    0 <= u < index ==> buffer@[u] == (if !spec_is_wildcard(#[trigger] toks[u]) {
                        spec_hex_byte(toks[u])
                    } else {
                        0u8
                    }),
            decreases 64 - buffer@.len(),
        {
            buffer.push(0);
        }
        if mask == 0 {
            proof {
                assert(forall|i: int|
                    0 <= i < toks.len() ==> spec_is_wildcard(#[trigger] toks[i])) by {
                    assert forall|i: int| 0 <= i < toks.len() implies spec_is_wildcard(
                        #[trigger] toks[i],
                    ) by {
                        if !spec_is_wildcard(toks[i]) {
                            assert(bit(mask, i));
                        }
                    }
                }
            }
            return Err(ParsePatternError::MissingNonWildcardByte);
        }
        let first_byte_offset = match find_first_byte_offset(mask, alignment) {
            Ok(g) => g,
            Err(_) => vstd::pervasive::unreached(),
        };
        let (first_bytes, first_bytes_mask) = fill_first_bytes(
            &buffer,
            mask,
            first_byte_offset,
            alignment,
        );
        let p = Pattern {
            bytes: buffer,
            first_bytes,
            mask,
            first_bytes_mask,
            first_byte_offset,
            length: index,
            alignment,
        };
        proof {
            let ai = alignment as int;
            let g0 = first_byte_offset as int;
            let l = choose|l: int| 0 <= l < ai && #[trigger] bit(mask, g0 + l);
            assert(bit(mask, g0 + l));
            assert(g0 + l < index);
            let u0 = choose|u0: int| #[trigger] bit(mask, u0);
            assert(1 <= p.length);
            assert(exists|i: int| 0 <= i < toks.len() && !spec_is_wildcard(#[trigger] toks[i]))
                by {
                assert(bit(mask, g0 + l) && !spec_is_wildcard(toks[g0 + l]));
            }
            assert forall|i2: int|
                0 <= i2 < 64 implies p.bytes@[i2] == (if 0 <= i2 < toks.len()
                && !spec_is_wildcard(toks[i2]) {
                spec_hex_byte(toks[i2])
            } else {
                0u8
            }) by {
                if i2 < index {
                    assert(p.bytes@[i2] == (if !spec_is_wildcard(toks[i2]) {
                        spec_hex_byte(toks[i2])
                    } else {
                        0u8
                    }));
                }
            }
            assert(spec_parse_ok(s@, alignment));
            assert(exists|l2: int|
                0 <= l2 < p.alignment as int && #[trigger] bit(
                    p.mask,
                    (p.first_byte_offset as int) + l2,
                )) by {
                assert(0 <= l < p.alignment as int && bit(
                    p.mask,
                    (p.first_byte_offset as int) + l,
                ));
            }
            assert(forall|j: int|
                0 <= j < 64 ==> p.first_bytes@[j] == p.bytes@[(p.first_byte_offset as int)
                    + #[trigger] (j % (p.alignment as int))]);
            assert(forall|j: int|
                0 <= j < 64 ==> (#[trigger] bit(p.first_bytes_mask, j) <==> !bit(
                    p.mask,
                    (p.first_byte_offset as int) + (j % (p.alignment as int)),
                )));
            assert(p.wf());
            assert(p.length == toks.len());
            assert(p.first_byte_offset == spec_anchor_group(p.mask, alignment as int));
            assert(forall|u: int|
                #[trigger] bit(p.mask, u) <==> 0 <= u < toks.len() && !spec_is_wildcard(toks[u]));
        }
        Ok(p)
    }

    /// Parses pattern text, unconstrained by alignment. See
    /// [`Pattern::from_str_align`].
    pub fn from_str(s: &str) -> (r: Result<Pattern, ParsePatternError>)
        ensures
            spec_from_str_result(s@, 1, r),
    {
        Pattern::from_str_align(s, 1)
    }

    /// Parses a pattern that is known to be well-formed. Use
    /// [`Pattern::from_str`] to get an error for arbitrary input instead.
    pub fn new(pattern: &str) -> (p: Pattern)
        requires
            spec_parse_ok(pattern@, 1),
        ensures
            spec_from_str_result(pattern@, 1, Ok(p)),
    {
        match Pattern::from_str(pattern) {
            Ok(p) => p,
            Err(_) => vstd::pervasive::unreached(),
        }
    }

    /// Parses a pattern that is known to be well-formed, searched with the
    /// given alignment. See [`Pattern::new`].
    pub fn new_align(pattern: &str, alignment: usize) -> (p: Pattern)
        requires
            spec_parse_ok(pattern@, alignment),
        ensures
            spec_from_str_result(pattern@, alignment, Ok(p)),
    {
        match Pattern::from_str_align(pattern, alignment) {
            Ok(p) => p,
            Err(_) => vstd::pervasive::unreached(),
        }
    }
}

impl core::str::FromStr for Pattern {
    type Err = ParsePatternError;

    fn from_str(s: &str) -> Result<Pattern, ParsePatternError> {
        Pattern::from_str(s)
    }
}

/// Builds the repeated anchor-group vector and its inverted lane mask: lane
/// `j` of a chunk is compared against needle position `g0 + (j % align)`,
/// and wildcard lanes are marked in the returned chunkmask.
pub(crate) fn fill_first_bytes(bytes: &Vec<u8>, mask: u64, g0: usize, align: usize) -> (r: (
    Vec<u8>,
    u64,
))
    requires
        bytes@.len() == 64,
        valid_align(align as int),
        g0 + align <= 64,
        g0 as int % (align as int) == 0,
    ensures
        r.0@.len() == 64,
        forall|j: int| 0 <= j < 64 ==> r.0@[j] == bytes@[g0 + #[trigger] (j % (align as int))],
        forall|j: int|
            #[trigger] bit(r.1, j) <==> 0 <= j < 64 && !bit(mask, g0 + (j % (align as int))),
{
    let ghost ai = align as int;
    let mut first: Vec<u8> = Vec::new();
    let mut first_mask: u64 = 0;
    proof {
        assert(forall|j: u64| (0u64 >> j) & 1u64 == 0u64) by (bit_vector);
    }
    let mut j: usize = 0;
    while j < 64
        invariant
            valid_align(ai),
            ai == align,
            g0 + align <= 64,
            bytes@.len() == 64,
            j <= 64,
            first@.len() == j,
            forall|j2: int| 0 <= j2 < j ==> first@[j2] == bytes@[g0 + #[trigger] (j2 % ai)],
            forall|j2: int|
                #[trigger] bit(first_mask, j2) <==> 0 <= j2 < j && !bit(mask, g0 + (j2 % ai)),
        decreases 64 - j,
    {
        let l = j % align;
        proof {
            lemma_mod_bound(j as int, ai);
        }
        first.push(bytes[g0 + l]);
        let idx = g0 + l;
        if (mask >> (idx as u64)) & 1 != 1 {
            proof {
                lemma_bit_set(first_mask, j as u64);
                assert(!bit(mask, idx as int));
            }
            first_mask = first_mask | (1u64 << (j as u64));
        } else {
            proof {
                assert(bit(mask, idx as int));
            }
        }
        j = j + 1;
    }
    (first, first_mask)
}

} // verus!
