//! Tokenizing helpers for the textual pattern format: a whitespace splitter,
//! the wildcard test, and two-digit hex parsing.

use crate::pattern::ParsePatternError;
use vstd::prelude::*;
use vstd::string::StrSliceExecFns;

verus! {

/// The characters `u8::is_ascii_whitespace` accepts.
pub open spec fn is_space(c: char) -> bool {
    c == ' ' || c == '\t' || c == '\n' || c == '\u{c}' || c == '\r'
}

/// The first position at or after `i` that does not hold whitespace.
pub open spec fn skip_ws(s: Seq<char>, i: int) -> int
    decreases s.len() - i,
{
    if 0 <= i < s.len() && is_space(s[i]) {
        skip_ws(s, i + 1)
    } else {
        i
    }
}

/// The first position at or after `i` that holds whitespace.
pub open spec fn token_end(s: Seq<char>, i: int) -> int
    decreases s.len() - i,
{
    if 0 <= i < s.len() && !is_space(s[i]) {
        token_end(s, i + 1)
    } else {
        i
    }
}

proof fn lemma_skip_ws_bounds(s: Seq<char>, i: int)
    requires
        0 <= i <= s.len(),
    ensures
        i <= skip_ws(s, i) <= s.len(),
        skip_ws(s, i) < s.len() ==> !is_space(s[skip_ws(s, i)]),
    decreases s.len() - i,
{
    if i < s.len() && is_space(s[i]) {
        lemma_skip_ws_bounds(s, i + 1);
    }
}

proof fn lemma_token_end_bounds(s: Seq<char>, i: int)
    requires
        0 <= i <= s.len(),
    ensures
        i <= token_end(s, i) <= s.len(),
        i < s.len() && !is_space(s[i]) ==> i < token_end(s, i),
    decreases s.len() - i,
{
    if i < s.len() && !is_space(s[i]) {
        lemma_token_end_bounds(s, i + 1);
    }
}

/// The whitespace-separated tokens of `s` from position `i` on.
pub open spec fn tokens_from(s: Seq<char>, i: int) -> Seq<Seq<char>>
    decreases s.len() - i,
    when 0 <= i <= s.len()
    via tokens_from_decreases
{
    let j = skip_ws(s, i);
    if j >= s.len() {
        Seq::empty()
    } else {
        seq![s.subrange(j, token_end(s, j))] + tokens_from(s, token_end(s, j))
    }
}

#[via_fn]
proof fn tokens_from_decreases(s: Seq<char>, i: int) {
    lemma_skip_ws_bounds(s, i);
    let j = skip_ws(s, i);
    if j < s.len() {
        assert(!is_space(s[j]));
        lemma_token_end_bounds(s, j);
        assert(token_end(s, j) > j);
    }
}

/// The whitespace-separated tokens of `s`.
pub open spec fn tokens(s: Seq<char>) -> Seq<Seq<char>> {
    tokens_from(s, 0)
}

/// Every token is at most as long as the text that follows its start.
proof fn lemma_tokens_from_len(s: Seq<char>, i: int)
    requires
        0 <= i <= s.len(),
    ensures
        tokens_from(s, i).len() <= s.len() - i,
    decreases s.len() - i,
{
    lemma_skip_ws_bounds(s, i);
    let j = skip_ws(s, i);
    if j < s.len() {
        lemma_token_end_bounds(s, j);
        lemma_tokens_from_len(s, token_end(s, j));
    }
}

fn is_space_char(c: char) -> (r: bool)
    ensures
        r == is_space(c),
{
    c == ' ' || c == '\t' || c == '\n' || c == '\u{c}' || c == '\r'
}

/// Splits pattern text at ASCII whitespace, one token per call.
pub struct SplitAsciiWhitespace<'a> {
    s: &'a str,
    pos: usize,
}

impl<'a> SplitAsciiWhitespace<'a> {
    /// The text being split.
    pub closed spec fn text(self) -> Seq<char> {
        self.s@
    }

    /// The current position within the text.
    pub closed spec fn pos(self) -> int {
        self.pos as int
    }

    /// The splitter never stands past the end of its text.
    pub closed spec fn wf(self) -> bool {
        0 <= self.pos <= self.s@.len()
    }

    pub fn new(s: &'a str) -> (r: Self)
        ensures
            r.wf(),
            r.text() == s@,
            r.pos() == 0,
    {
        Self { s, pos: 0 }
    }

    pub fn clone(&self) -> (r: Self)
        ensures
            r.text() == self.text(),
            r.pos() == self.pos(),
            self.wf() ==> r.wf(),
    {
        Self { s: self.s, pos: self.pos }
    }

    /// Yields the next token, or `None` at the end of the text.
    pub fn next(self) -> (r: (Self, Option<&'a str>))
        requires
            self.wf(),
        ensures
            r.0.wf(),
            r.0.text() == self.text(),
            r.0.pos() >= self.pos(),
            r.0.pos() <= self.text().len(),
            match r.1 {
                Some(t) => {
                    &&& tokens_from(self.text(), self.pos()).len() > 0
                    &&& t@ == tokens_from(self.text(), self.pos())[0]
                    &&& t@.len() > 0
                    &&& tokens_from(self.text(), r.0.pos()) == tokens_from(
                        self.text(),
                        self.pos(),
                    ).drop_first()
                    &&& self.pos() < r.0.pos()
                },
                None => tokens_from(self.text(), self.pos()).len() == 0,
            },
    {
        let ghost start = self.pos as int;
        let n = self.s.unicode_len();
        let mut i = self.pos;
        proof {
            lemma_skip_ws_bounds(self.s@, start);
        }
        while i < n && is_space_char(self.s.get_char(i))
            invariant
                n == self.s@.len(),
                0 <= i <= n,
                skip_ws(self.s@, start) == skip_ws(self.s@, i as int),
                start <= i,
            decreases n - i,
        {
            i = i + 1;
        }
        proof {
            assert(skip_ws(self.s@, i as int) == i as int);
        }
        if i >= n {
            return (Self { s: self.s, pos: i }, None);
        }
        let mut k = i;
        proof {
            lemma_token_end_bounds(self.s@, i as int);
        }
        while k < n && !is_space_char(self.s.get_char(k))
            invariant
                n == self.s@.len(),
                0 <= k <= n,
                token_end(self.s@, i as int) == token_end(self.s@, k as int),
                i <= k,
            decreases n - k,
        {
            k = k + 1;
        }
        proof {
            assert(token_end(self.s@, k as int) == k as int);
            lemma_token_end_bounds(self.s@, i as int);
        }
        let t = self.s.substring_char(i, k);
        (Self { s: self.s, pos: k }, Some(t))
    }

    /// Counts the remaining tokens.
    pub fn count(self) -> (r: usize)
        requires
            self.wf(),
        ensures
            r == tokens_from(self.text(), self.pos()).len(),
    {
        let n = self.s.unicode_len();
        proof {
            lemma_tokens_from_len(self.text(), self.pos());
        }
        let ghost total = tokens_from(self.text(), self.pos()).len() as int;
        let mut i: usize = 0;
        let mut this = self;
        loop
            invariant
                this.wf(),
                this.text() == self.text(),
                n == self.text().len(),
                total <= n,
                total == tokens_from(self.text(), self.pos()).len(),
                self.wf(),
                i + tokens_from(self.text(), this.pos()).len() == total,
                i <= total,
            decreases self.text().len() - this.pos(),
        {
            proof {
                lemma_tokens_from_len(this.text(), this.pos());
            }
            let ghost pre = this;
            let res = this.next();
            this = res.0;
            let x = res.1;
            match x {
                Some(_) => {
                    i = i + 1;
                },
                None => {
                    return i;
                },
            }
        }
    }
}

/// A token stands for a wildcard byte when its first character is `.` or `?`.
pub open spec fn spec_is_wildcard(t: Seq<char>) -> bool {
    t.len() > 0 && (t[0] == '.' || t[0] == '?')
}

/// Allows `.` and `?` as wildcard and only considers the first character.
pub fn is_wildcard(byte: &str) -> (r: bool)
    requires
        byte@.len() > 0,
    ensures
        r == spec_is_wildcard(byte@),
{
    let c = byte.get_char(0);
    c == '.' || c == '?'
}

/// The value of a hex digit, or -1 for any other character.
pub open spec fn hex_val(c: char) -> int {
    if '0' as u32 <= c as u32 && c as u32 <= '9' as u32 {
        c as u32 - '0' as u32
    } else if 'A' as u32 <= c as u32 && c as u32 <= 'F' as u32 {
        c as u32 - 'A' as u32 + 10
    } else if 'a' as u32 <= c as u32 && c as u32 <= 'f' as u32 {
        c as u32 - 'a' as u32 + 10
    } else {
        -1
    }
}

/// Whether a token is exactly two hex digits.
pub open spec fn spec_is_hex_token(t: Seq<char>) -> bool {
    t.len() == 2 && hex_val(t[0]) >= 0 && hex_val(t[1]) >= 0
}

/// The byte value of a two-hex-digit token.
pub open spec fn spec_hex_byte(t: Seq<char>) -> u8 {
    (hex_val(t[0]) * 16 + hex_val(t[1])) as u8
}

fn hex_digit(c: char) -> (r: Option<u8>)
    ensures
        match r {
            Some(v) => hex_val(c) == v && v < 16,
            None => hex_val(c) < 0,
        },
{
    let b = c as u32;
    if b >= '0' as u32 && b <= '9' as u32 {
        Some((b - '0' as u32) as u8)
    } else if b >= 'A' as u32 && b <= 'F' as u32 {
        Some((b - 'A' as u32 + 10) as u8)
    } else if b >= 'a' as u32 && b <= 'f' as u32 {
        Some((b - 'a' as u32 + 10) as u8)
    } else {
        None
    }
}

/// Parses a two-hex-digit token into its byte value.
pub fn hex_to_u8(hex: &str) -> (r: Result<u8, ParsePatternError>)
    ensures
        match r {
            Ok(v) => spec_is_hex_token(hex@) && v == spec_hex_byte(hex@),
            Err(e) => !spec_is_hex_token(hex@) && e == ParsePatternError::InvalidHexNumber,
        },
{
    if hex.unicode_len() != 2 {
        return Err(ParsePatternError::InvalidHexNumber);
    }
    let hi = match hex_digit(hex.get_char(0)) {
        Some(v) => v,
        None => {
            return Err(ParsePatternError::InvalidHexNumber);
        },
    };
    let lo = match hex_digit(hex.get_char(1)) {
        Some(v) => v,
        None => {
            return Err(ParsePatternError::InvalidHexNumber);
        },
    };
    Ok(hi * 16 + lo)
}

} // verus!
