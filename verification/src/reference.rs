//! Reference implementation: a straightforward scalar scanner used for
//! differential testing against the chunked engine, together with a small
//! generator type for property-test inputs.

use crate::const_utils::{
    hex_to_u8, is_wildcard, spec_hex_byte, spec_is_wildcard, tokens, tokens_from,
    SplitAsciiWhitespace,
};
use crate::pattern::ParsePatternError;
use vstd::arithmetic::div_mod::{lemma_fundamental_div_mod, lemma_mod_bound};
use vstd::prelude::*;

verus! {

/// A parsed pattern for the reference scanner.
pub struct Pattern {
    /// Bytes of the pattern. `None` used for wildcard bytes.
    pub pattern: Vec<Option<u8>>,
    /// Matches are restricted to addresses that are multiples of this.
    pub alignment: u8,
}

/// The reference notion of a match: the needle lies inside the haystack at
/// `o`, every fixed byte agrees, and the match address is a multiple of the
/// alignment. `r` is the haystack base address modulo the alignment.
pub open spec fn ref_is_match(p: Pattern, d: Seq<u8>, r: int, o: int) -> bool {
    &&& 0 <= o
    &&& o + p.pattern@.len() <= d.len()
    &&& forall|i: int|
        0 <= i < p.pattern@.len() ==> (#[trigger] p.pattern@[i] matches Some(b) ==> d[o + i] == b)
    &&& (r + o) % (p.alignment as int) == 0
}

impl Pattern {
    /// A usable reference pattern: a sane alignment and at least one fixed
    /// byte.
    pub open spec fn wf(self) -> bool {
        &&& 1 <= self.alignment <= 64
        &&& self.pattern@.len() >= 1
        &&& exists|i: int| 0 <= i < self.pattern@.len() && #[trigger] self.pattern@[i] is Some
    }

    /// Parses pattern text the simple way: one `Option<u8>` per token.
    pub fn from_str(s: &str, alignment: u8) -> (r: Result<Pattern, ParsePatternError>)
        requires
            1 <= alignment <= 64,
            (forall|i: int|
                0 <= i < tokens(s@).len() ==> crate::pattern::spec_token_is_ok(
                    #[trigger] tokens(s@)[i],
                )) ==> exists|i: int|
                0 <= i < tokens(s@).len() && !spec_is_wildcard(#[trigger] tokens(s@)[i]),
        ensures
            match r {
                Ok(p) => {
                    &&& forall|i: int|
                        0 <= i < tokens(s@).len() ==> crate::pattern::spec_token_is_ok(
                            #[trigger] tokens(s@)[i],
                        )
                    &&& p.wf()
                    &&& p.alignment == alignment
                    &&& p.pattern@.len() == tokens(s@).len()
                    &&& forall|i: int|
                        0 <= i < tokens(s@).len() ==> #[trigger] p.pattern@[i] == (
                        if spec_is_wildcard(tokens(s@)[i]) {
                            Option::<u8>::None
                        } else {
                            Option::<u8>::Some(spec_hex_byte(tokens(s@)[i]))
                        })
                },
                Err(e) => {
                    &&& e == ParsePatternError::InvalidHexNumber
                    &&& exists|i: int|
                        0 <= i < tokens(s@).len() && !crate::pattern::spec_token_is_ok(
                            #[trigger] tokens(s@)[i],
                        )
                },
            },
    {
        let ghost toks = tokens(s@);
        let mut pattern: Vec<Option<u8>> = Vec::new();
        let mut it = SplitAsciiWhitespace::new(s);
        let ghost mut index: int = 0;
        loop
            invariant_except_break
                it.wf(),
                it.text() == s@,
                toks == tokens(s@),
                0 <= index,
                pattern@.len() == index,
                index <= toks.len(),
                tokens_from(s@, it.pos()).len() == toks.len() - index,
                forall|k: int|
                    0 <= k < toks.len() - index ==> tokens_from(s@, it.pos())[k] == toks[index
                        + k],
                forall|k: int| 0 <= k < index ==> crate::pattern::spec_token_is_ok(
                    #[trigger] toks[k],
                ),
                forall|i: int|
                    0 <= i < index ==> #[trigger] pattern@[i] == (if spec_is_wildcard(toks[i]) {
                        Option::<u8>::None
                    } else {
                        Option::<u8>::Some(spec_hex_byte(toks[i]))
                    }),
            ensures
                index == toks.len(),
                pattern@.len() == index,
                forall|k: int| 0 <= k < toks.len() ==> crate::pattern::spec_token_is_ok(
                    #[trigger] toks[k],
                ),
                forall|i: int|
                    0 <= i < index ==> #[trigger] pattern@[i] == (if spec_is_wildcard(toks[i]) {
                        Option::<u8>::None
                    } else {
                        Option::<u8>::Some(spec_hex_byte(toks[i]))
                    }),
            decreases s@.len() - it.pos(),
        {
            let ghost pre = it;
            let res = it.next();
            it = res.0;
            match res.1 {
                Some(b) => {
                    proof {
                        assert(b@ == tokens_from(s@, pre.pos())[0]);
                        assert(b@ == toks[index]);
                    }
                    if is_wildcard(b) {
                        pattern.push(None);
                    } else {
                        match hex_to_u8(b) {
                            Ok(parsed) => {
                                pattern.push(Some(parsed));
                            },
                            Err(e) => {
                                proof {
                                    assert(!crate::pattern::spec_token_is_ok(toks[index]));
                                }
                                return Err(e);
                            },
                        }
                    }
                    proof {
                        index = index + 1;
                    }
                },
                None => {
                    break ;
                },
            }
        }
        let p = Pattern { pattern, alignment };
        proof {
            let i0 = choose|i0: int|
                0 <= i0 < toks.len() && !spec_is_wildcard(#[trigger] toks[i0]);
            assert(p.pattern@[i0] is Some);
        }
        Ok(p)
    }

    /// Creates a reference scan through `data`.
    pub fn matches<'pattern, 'data>(&'pattern self, data: &'data [u8]) -> (s: Scanner<
        'pattern,
        'data,
    >)
        requires
            self.wf(),
            data@.len() <= usize::MAX - 64,
        ensures
            s.wf(),
            s.pat() == *self,
            s.hay() == data@,
            0 <= s.frontier(),
            0 <= s.residue() < self.alignment,
            forall|o: int| 0 <= o < s.frontier() ==> !ref_is_match(*self, data@, s.residue(), o),
    {
        Scanner::new(self, data)
    }
}

/// Match `pattern` against the start of `data`, byte by byte.
///
/// Assumes that `data` is at least as long as the pattern.
pub fn plain_match(pattern: &Pattern, data: &[u8]) -> (r: bool)
    requires
        pattern.pattern@.len() <= data@.len(),
    ensures
        r == forall|i: int|
            0 <= i < pattern.pattern@.len() ==> (#[trigger] pattern.pattern@[i] matches Some(b)
                ==> data@[i] == b),
{
    let n = pattern.pattern.len();
    let total = data.len();
    let mut i: usize = 0;
    while i < n
        invariant
            n == pattern.pattern@.len(),
            total == data@.len(),
            n <= total,
            i <= n,
            forall|i2: int|
                0 <= i2 < i ==> (#[trigger] pattern.pattern@[i2] matches Some(b) ==> data@[i2]
                    == b),
        decreases n - i,
    {
        match pattern.pattern[i] {
            Some(b) => {
                if data[i] != b {
                    return false;
                }
            },
            None => {},
        }
        i = i + 1;
    }
    true
}

/// The scalar reference scan: tries every aligned offset in order.
pub struct Scanner<'pattern, 'data> {
    pattern: &'pattern Pattern,
    data: &'data [u8],
    offset: usize,
    /// the base address modulo the alignment
    residue: Ghost<int>,
}

impl<'pattern, 'data> Scanner<'pattern, 'data> {
    /// The pattern this scan searches for.
    pub closed spec fn pat(self) -> Pattern {
        *self.pattern
    }

    /// The haystack bytes.
    pub closed spec fn hay(self) -> Seq<u8> {
        self.data@
    }

    /// The haystack's base address modulo the alignment.
    pub closed spec fn residue(self) -> int {
        self.residue@
    }

    /// Offsets below this have been tried already.
    pub closed spec fn frontier(self) -> int {
        self.offset as int
    }

    /// The scan's invariant.
    pub closed spec fn wf(self) -> bool {
        &&& (*self.pattern).wf()
        &&& self.data@.len() <= usize::MAX - 64
        &&& 0 <= self.residue@ < self.pattern.alignment as int
        &&& (self.residue@ + self.offset) % (self.pattern.alignment as int) == 0
    }

    /// Creates a reference scan, starting at the first aligned address.
    pub fn new(pattern: &'pattern Pattern, data: &'data [u8]) -> (s: Self)
        requires
            pattern.wf(),
            data@.len() <= usize::MAX - 64,
        ensures
            s.wf(),
            s.pat() == *pattern,
            s.hay() == data@,
            0 <= s.frontier(),
            0 <= s.residue() < pattern.alignment,
            forall|o: int| 0 <= o < s.frontier() ==> !ref_is_match(*pattern, data@, s.residue(), o),
    {
        let a = pattern.alignment as usize;
        let addr = crate::scanner::base_addr(data);
        let r = addr % a;
        let offset = (a - r) % a;
        proof {
            lemma_mod_bound(addr as int, a as int);
            lemma_mod_bound((a - r) as int, a as int);
            if r == 0 {
                vstd::arithmetic::div_mod::lemma_fundamental_div_mod_converse(
                    a as int,
                    a as int,
                    1,
                    0,
                );
                assert(offset == 0);
                vstd::arithmetic::div_mod::lemma_fundamental_div_mod_converse(0, a as int, 0, 0);
            } else {
                vstd::arithmetic::div_mod::lemma_fundamental_div_mod_converse(
                    (a - r) as int,
                    a as int,
                    0,
                    (a - r) as int,
                );
                assert(offset == a - r);
                vstd::arithmetic::div_mod::lemma_fundamental_div_mod_converse(
                    (r + offset) as int,
                    a as int,
                    1,
                    0,
                );
            }
            assert((r + offset) % (a as int) == 0);
        }
        let s = Scanner { pattern, data, offset, residue: Ghost(r as int) };
        proof {
            assert forall|o: int| 0 <= o < s.frontier() implies !ref_is_match(
                *pattern,
                data@,
                s.residue(),
                o,
            ) by {
                if ref_is_match(*pattern, data@, s.residue(), o) {
                    // 0 < r + o < a, so the match address is not aligned
                    assert(r > 0);
                    assert(offset == a - r);
                    assert(0 < r as int + o < a as int);
                    vstd::arithmetic::div_mod::lemma_fundamental_div_mod_converse(
                        r as int + o,
                        a as int,
                        0,
                        r as int + o,
                    );
                    assert(false);
                }
            }
        }
        s
    }

    /// Advances to the next match, or reports that none remains. See
    /// [`crate::Scanner::next`] for the contract shape.
    pub fn next(&mut self) -> (r: Option<usize>)
        requires
            old(self).wf(),
        ensures
            final(self).wf(),
            final(self).pat() == old(self).pat(),
            final(self).hay() == old(self).hay(),
            final(self).residue() == old(self).residue(),
            match r {
                Some(o) => {
                    &&& ref_is_match(final(self).pat(), final(self).hay(), final(self).residue(), o as int)
                    &&& old(self).frontier() <= o
                    &&& forall|o2: int|
                        old(self).frontier() <= o2 < o ==> !ref_is_match(
                            final(self).pat(),
                            final(self).hay(),
                            final(self).residue(),
                            o2,
                        )
                    &&& final(self).frontier() == o + final(self).pat().alignment
                },
                None => {
                    &&& forall|o2: int|
                        old(self).frontier() <= o2 ==> !ref_is_match(
                            final(self).pat(),
                            final(self).hay(),
                            final(self).residue(),
                            o2,
                        )
                    &&& final(self).frontier() >= old(self).frontier()
                },
            },
    {
        let ghost orig = *self;
        let a = self.pattern.alignment as usize;
        let plen = self.pattern.pattern.len();
        let total = self.data.len();
        loop
            invariant
                orig == *old(self),
                self.wf(),
                self.pattern == orig.pattern,
                self.data == orig.data,
                self.residue@ == orig.residue@,
                a == self.pattern.alignment as usize,
                plen == self.pattern.pattern@.len(),
                total == self.data@.len(),
                orig.wf(),
                self.offset >= orig.offset,
                forall|o2: int|
                    orig.offset <= o2 < self.offset ==> !ref_is_match(
                        *self.pattern,
                        self.data@,
                        self.residue@,
                        o2,
                    ),
            decreases total + 64 - self.offset,
        {
            if !(total >= self.offset && total - self.offset >= plen) {
                proof {
                    assert forall|o2: int|
                        orig.offset <= o2 implies !ref_is_match(
                        *self.pattern,
                        self.data@,
                        self.residue@,
                        o2,
                    ) by {
                        if o2 < self.offset {
                        } else {
                            assert(o2 + plen > total);
                        }
                    }
                }
                return None;
            }
            let is_hit = plain_match_at(self.pattern, self.data, self.offset);
            let here = self.offset;
            self.offset = self.offset + a;
            proof {
                assert((self.residue@ + self.offset) % (a as int) == 0) by {
                    vstd::arithmetic::div_mod::lemma_mod_multiples_vanish(
                        1,
                        self.residue@ + here,
                        a as int,
                    );
                }
                // offsets strictly between aligned offsets are never matches
                assert forall|o2: int| here < o2 < here + a implies !ref_is_match(
                    *self.pattern,
                    self.data@,
                    self.residue@,
                    o2,
                ) by {
                    if ref_is_match(*self.pattern, self.data@, self.residue@, o2) {
                        lemma_multiple_gap(a as int, self.residue@ + here, self.residue@ + o2);
                        assert(false);
                    }
                }
            }
            if is_hit {
                return Some(here);
            }
        }
    }
}

/// [`plain_match`] against the suffix of `data` starting at `offset`.
fn plain_match_at(pattern: &Pattern, data: &[u8], offset: usize) -> (r: bool)
    requires
        offset <= data@.len(),
        offset + pattern.pattern@.len() <= data@.len(),
    ensures
        r == forall|i: int|
            0 <= i < pattern.pattern@.len() ==> (#[trigger] pattern.pattern@[i] matches Some(b)
                ==> data@[offset + i] == b),
{
    let n = pattern.pattern.len();
    let total = data.len();
    let mut i: usize = 0;
    while i < n
        invariant
            n == pattern.pattern@.len(),
            total == data@.len(),
            offset + n <= total,
            i <= n,
            forall|i2: int|
                0 <= i2 < i ==> (#[trigger] pattern.pattern@[i2] matches Some(b) ==> data@[offset
                    + i2] == b),
        decreases n - i,
    {
        match pattern.pattern[i] {
            Some(b) => {
                if data[offset + i] != b {
                    return false;
                }
            },
            None => {},
        }
        i = i + 1;
    }
    true
}

/// Two distinct multiples of `a` are at least `a` apart.
proof fn lemma_multiple_gap(a: int, x: int, y: int)
    requires
        0 < a,
        x % a == 0,
        y % a == 0,
        x < y,
    ensures
        y >= x + a,
{
    lemma_fundamental_div_mod(x, a);
    lemma_fundamental_div_mod(y, a);
    let qx = x / a;
    let qy = y / a;
    assert(x == a * qx && y == a * qy);
    assert(a * qx < a * qy ==> a * qy >= a * qx + a) by (nonlinear_arith)
        requires
            0 < a,
    ;
}

/// A pattern string for property-test input generation.
#[derive(Debug, Clone)]
pub struct PatternStr(pub String);

/// The bits of `n`, least significant first.
pub fn u8_to_bits(n: &u8) -> (r: [bool; 8])
    ensures
        forall|i: int| 0 <= i < 8 ==> r[i] == ((*n >> (i as u8)) & 1u8 == 1u8),
{
    let n = *n;
    [
        (n >> 0u8) & 1 == 1,
        (n >> 1u8) & 1 == 1,
        (n >> 2u8) & 1 == 1,
        (n >> 3u8) & 1 == 1,
        (n >> 4u8) & 1 == 1,
        (n >> 5u8) & 1 == 1,
        (n >> 6u8) & 1 == 1,
        (n >> 7u8) & 1 == 1,
    ]
}

} // verus!
