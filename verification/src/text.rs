//! Lines, tokens and numbers of the mesh text format.
//!
//! A text is a sequence of bytes. Lines end at a line feed; within a line,
//! tokens are maximal runs of bytes that are neither blank nor a line
//! feed. Two kinds of token carry numbers: decimal numbers (coordinates)
//! and unsigned integers (vertex references).

use vstd::prelude::*;

verus! {

pub const LINE_FEED: u8 = 10;

pub const PLUS: u8 = 43;

pub const MINUS: u8 = 45;

pub const DOT: u8 = 46;

pub const DIGIT_ZERO: u8 = 48;

pub const DIGIT_NINE: u8 = 57;

/// A half-open range of byte positions in a text.
#[derive(Clone, Copy, Debug, PartialEq, Eq)]
pub struct Span {
    pub start: usize,
    pub end: usize,
}

/// The bytes of `s` that a span selects.
pub open spec fn word(s: Seq<u8>, span: Span) -> Seq<u8> {
    s.subrange(span.start as int, span.end as int)
}

/// Space, tab, vertical tab, form feed and carriage return separate
/// tokens within a line.
pub open spec fn is_blank(b: u8) -> bool {
    b == 32 || b == 9 || b == 11 || b == 12 || b == 13
}

/// `0` to `9`.
pub open spec fn is_digit(b: u8) -> bool {
    DIGIT_ZERO <= b <= DIGIT_NINE
}

/// `+` or `-`.
pub open spec fn is_sign(b: u8) -> bool {
    b == PLUS || b == MINUS
}

/// Position of the line feed that ends the line containing `i`, or the
/// length of the text if the line is the last one and has none.
pub open spec fn line_end(s: Seq<u8>, i: int) -> int
    decreases s.len() - i,
{
    if 0 <= i < s.len() && s[i] != LINE_FEED {
        line_end(s, i + 1)
    } else {
        i
    }
}

/// First position from `i` on that does not hold a blank.
pub open spec fn skip_blanks(s: Seq<u8>, i: int) -> int
    decreases s.len() - i,
{
    if 0 <= i < s.len() && is_blank(s[i]) {
        skip_blanks(s, i + 1)
    } else {
        i
    }
}

/// First position from `i` on that holds a blank or a line feed, or the
/// length of the text.
pub open spec fn token_end(s: Seq<u8>, i: int) -> int
    decreases s.len() - i,
{
    if 0 <= i < s.len() && !is_blank(s[i]) && s[i] != LINE_FEED {
        token_end(s, i + 1)
    } else {
        i
    }
}

/// First position from `i` on that does not hold a digit.
pub open spec fn digits_end(s: Seq<u8>, i: int) -> int
    decreases s.len() - i,
{
    if 0 <= i < s.len() && is_digit(s[i]) {
        digits_end(s, i + 1)
    } else {
        i
    }
}

/// A line ends at or after each of its positions, at a line feed or at
/// the end of the text.
pub proof fn lemma_line_end_bounds(s: Seq<u8>, i: int)
    requires
        0 <= i <= s.len(),
    ensures
        i <= line_end(s, i) <= s.len(),
        line_end(s, i) < s.len() ==> s[line_end(s, i)] == LINE_FEED,
    decreases s.len() - i,
{
    if i < s.len() && s[i] != LINE_FEED {
        lemma_line_end_bounds(s, i + 1);
    }
}

/// Skipping blanks moves forward and stops at a byte that is no blank.
pub proof fn lemma_skip_blanks_bounds(s: Seq<u8>, i: int)
    requires
        0 <= i <= s.len(),
    ensures
        i <= skip_blanks(s, i) <= s.len(),
        skip_blanks(s, i) < s.len() ==> !is_blank(s[skip_blanks(s, i)]),
    decreases s.len() - i,
{
    if i < s.len() && is_blank(s[i]) {
        lemma_skip_blanks_bounds(s, i + 1);
    }
}

/// A token that starts at a byte which is neither blank nor line feed
/// has at least that byte.
pub proof fn lemma_token_end_bounds(s: Seq<u8>, i: int)
    requires
        0 <= i <= s.len(),
    ensures
        i <= token_end(s, i) <= s.len(),
        i < s.len() && !is_blank(s[i]) && s[i] != LINE_FEED ==> i < token_end(s, i),
    decreases s.len() - i,
{
    if i < s.len() && !is_blank(s[i]) && s[i] != LINE_FEED {
        lemma_token_end_bounds(s, i + 1);
    }
}

/// The tokens of the line that contains `i`, from `i` on, in order.
pub open spec fn tokens_from(s: Seq<u8>, i: int) -> Seq<Span>
    decreases s.len() - i,
    via tokens_from_decreases
{
    let a = skip_blanks(s, i);
    if 0 <= i <= a < s.len() && s[a] != LINE_FEED {
        let b = token_end(s, a);
        seq![Span { start: a as usize, end: b as usize }] + tokens_from(s, b)
    } else {
        Seq::empty()
    }
}

#[via_fn]
proof fn tokens_from_decreases(s: Seq<u8>, i: int) {
    let a = skip_blanks(s, i);
    if 0 <= i <= a < s.len() && s[a] != LINE_FEED {
        lemma_skip_blanks_bounds(s, i);
        lemma_token_end_bounds(s, a);
    }
}

/// Finds the end of the line that contains position `i`.
pub fn find_line_end(input: &[u8], i: usize) -> (e: usize)
    requires
        i <= input@.len(),
    ensures
        e == line_end(input@, i as int),
        i <= e <= input@.len(),
{
    let mut j: usize = i;
    while j < input.len() && input[j] != LINE_FEED
        invariant
            i <= j <= input@.len(),
            line_end(input@, i as int) == line_end(input@, j as int),
        decreases input@.len() - j,
    {
        j += 1;
    }
    j
}

fn blank(b: u8) -> (r: bool)
    ensures
        r == is_blank(b),
{
    b == 32 || b == 9 || b == 11 || b == 12 || b == 13
}

fn digit(b: u8) -> (r: bool)
    ensures
        r == is_digit(b),
{
    DIGIT_ZERO <= b && b <= DIGIT_NINE
}

fn find_token_start(input: &[u8], i: usize) -> (a: usize)
    requires
        i <= input@.len(),
    ensures
        a == skip_blanks(input@, i as int),
        i <= a <= input@.len(),
{
    let mut j: usize = i;
    while j < input.len() && blank(input[j])
        invariant
            i <= j <= input@.len(),
            skip_blanks(input@, i as int) == skip_blanks(input@, j as int),
        decreases input@.len() - j,
    {
        j += 1;
    }
    j
}

fn find_token_end(input: &[u8], i: usize) -> (b: usize)
    requires
        i <= input@.len(),
    ensures
        b == token_end(input@, i as int),
        i <= b <= input@.len(),
{
    let mut j: usize = i;
    while j < input.len() && !blank(input[j]) && input[j] != LINE_FEED
        invariant
            i <= j <= input@.len(),
            token_end(input@, i as int) == token_end(input@, j as int),
        decreases input@.len() - j,
    {
        j += 1;
    }
    j
}

fn find_digits_end(input: &[u8], i: usize) -> (e: usize)
    requires
        i <= input@.len(),
    ensures
        e == digits_end(input@, i as int),
        i <= e <= input@.len(),
{
    let mut j: usize = i;
    while j < input.len() && digit(input[j])
        invariant
            i <= j <= input@.len(),
            digits_end(input@, i as int) == digits_end(input@, j as int),
        decreases input@.len() - j,
    {
        j += 1;
    }
    j
}

/// Splits the line that contains position `i` into tokens, from `i` on.
pub fn tokenize(input: &[u8], i: usize) -> (tokens: Vec<Span>)
    requires
        i <= input@.len(),
    ensures
        tokens@ == tokens_from(input@, i as int),
        forall|k: int|
            0 <= k < tokens@.len() ==> (#[trigger] tokens@[k]).start < tokens@[k].end <= input@.len(),
{
    let mut tokens: Vec<Span> = Vec::new();
    let mut pos: usize = i;
    loop
        invariant
            i <= pos <= input@.len(),
            tokens_from(input@, i as int) == tokens@ + tokens_from(input@, pos as int),
            forall|k: int|
                0 <= k < tokens@.len() ==> (#[trigger] tokens@[k]).start < tokens@[k].end <= input@.len(),
        ensures
            tokens@ == tokens_from(input@, i as int),
        decreases input@.len() - pos,
    {
        let a: usize = find_token_start(input, pos);
        if a >= input.len() || input[a] == LINE_FEED {
            assert(tokens@ + Seq::<Span>::empty() =~= tokens@);
            break ;
        }
        let b: usize = find_token_end(input, a);
        proof {
            lemma_skip_blanks_bounds(input@, pos as int);
            lemma_token_end_bounds(input@, a as int);
            let first = Span { start: a, end: b };
            assert(tokens_from(input@, pos as int) == seq![first] + tokens_from(input@, b as int));
            assert(tokens@ + (seq![first] + tokens_from(input@, b as int)) =~= tokens@.push(first)
                + tokens_from(input@, b as int));
        }
        tokens.push(Span { start: a, end: b });
        pos = b;
    }
    tokens
}

/// Upper-case ASCII letters folded to lower case, other bytes unchanged.
pub open spec fn lower(b: u8) -> u8 {
    if 65 <= b <= 90 {
        (b + 32) as u8
    } else {
        b
    }
}

/// Every byte folded to lower case.
pub open spec fn lowered(w: Seq<u8>) -> Seq<u8> {
    w.map_values(|b: u8| lower(b))
}

/// `inf`, `infinity` or `nan`, in any mix of upper and lower case.
pub open spec fn is_special(w: Seq<u8>) -> bool {
    ||| lowered(w) == seq![105u8, 110u8, 102u8]
    ||| lowered(w) == seq![110u8, 97u8, 110u8]
    ||| lowered(w) == seq![105u8, 110u8, 102u8, 105u8, 110u8, 105u8, 116u8, 121u8]
}

/// From `c` to its end, `w` is an exponent: `e` or `E`, an optional sign
/// and at least one digit.
pub open spec fn is_exponent(w: Seq<u8>, c: int) -> bool {
    &&& 0 <= c < w.len()
    &&& lower(w[c]) == 101
    &&& {
        let d = if c + 1 < w.len() && is_sign(w[c + 1]) { c + 2 } else { c + 1 };
        d < digits_end(w, d) == w.len()
    }
}

/// From `a` to its end, `w` is a decimal number: digits with at most one
/// dot among them and at least one digit before or after it, optionally
/// followed by an exponent.
pub open spec fn is_decimal(w: Seq<u8>, a: int) -> bool {
    let b = digits_end(w, a);
    let dot = b < w.len() && w[b] == DOT;
    let c = if dot { digits_end(w, b + 1) } else { b };
    let digits = if dot { c - a - 1 } else { c - a };
    digits > 0 && (c == w.len() || is_exponent(w, c))
}

/// The token is a coordinate: an optional sign followed by a decimal
/// number or by one of the special words. This is the set of texts that
/// the standard library reads as a floating-point number.
pub open spec fn is_number(w: Seq<u8>) -> bool {
    let a = if w.len() > 0 && is_sign(w[0]) { 1int } else { 0int };
    is_special(w.subrange(a, w.len() as int)) || is_decimal(w, a)
}

/// The number that the digits of `w` from `from` up to `to` spell.
pub open spec fn decimal_value(w: Seq<u8>, from: int, to: int) -> nat
    decreases to - from,
{
    if to <= from {
        0
    } else {
        decimal_value(w, from, to - 1) * 10 + (w[to - 1] - DIGIT_ZERO) as nat
    }
}

/// The value of a vertex reference: an optional plus sign followed by at
/// least one digit and nothing else, spelling a number that fits the
/// machine's index type. `None` for every other token.
pub open spec fn index_value(w: Seq<u8>) -> Option<usize> {
    let a = if w.len() > 0 && w[0] == PLUS { 1int } else { 0int };
    if a < w.len() && digits_end(w, a) == w.len() && decimal_value(w, a, w.len() as int) <= usize::MAX {
        Some(decimal_value(w, a, w.len() as int) as usize)
    } else {
        None
    }
}

proof fn lemma_digits_all(s: Seq<u8>, i: int)
    requires
        0 <= i <= s.len(),
    ensures
        forall|k: int| i <= k < digits_end(s, i) ==> is_digit(#[trigger] s[k]),
    decreases s.len() - i,
{
    if i < s.len() && is_digit(s[i]) {
        lemma_digits_all(s, i + 1);
    }
}

proof fn lemma_decimal_value_grows(w: Seq<u8>, from: int, mid: int, to: int)
    requires
        from <= mid <= to,
    ensures
        decimal_value(w, from, mid) <= decimal_value(w, from, to),
    decreases to - mid,
{
    if mid < to {
        lemma_decimal_value_grows(w, from, mid, to - 1);
    }
}

fn fold(b: u8) -> (r: u8)
    ensures
        r == lower(b),
{
    if 65 <= b && b <= 90 {
        b + 32
    } else {
        b
    }
}

fn special(w: &[u8], a: usize) -> (r: bool)
    requires
        a <= w@.len(),
    ensures
        r == is_special(w@.subrange(a as int, w@.len() as int)),
{
    let ghost rest = lowered(w@.subrange(a as int, w@.len() as int));
    proof {
        assert(rest.len() == w@.len() - a);
        assert forall|k: int| 0 <= k < rest.len() implies rest[k] == lower(w@[a + k]) by {}
    }
    let n: usize = w.len() - a;
    if n == 3 {
        let x: u8 = fold(w[a]);
        let y: u8 = fold(w[a + 1]);
        let z: u8 = fold(w[a + 2]);
        let r = (x == 105 && y == 110 && z == 102) || (x == 110 && y == 97 && z == 110);
        proof {
            assert(rest[0] == x && rest[1] == y && rest[2] == z);
            if x == 105 && y == 110 && z == 102 {
                assert(rest =~= seq![105u8, 110u8, 102u8]);
            }
            if x == 110 && y == 97 && z == 110 {
                assert(rest =~= seq![110u8, 97u8, 110u8]);
            }
            if rest == seq![105u8, 110u8, 102u8] {
                assert(x == 105 && y == 110 && z == 102);
            }
            if rest == seq![110u8, 97u8, 110u8] {
                assert(x == 110 && y == 97 && z == 110);
            }
        }
        r
    } else if n == 8 {
        let r = fold(w[a]) == 105 && fold(w[a + 1]) == 110 && fold(w[a + 2]) == 102 && fold(w[a + 3])
            == 105 && fold(w[a + 4]) == 110 && fold(w[a + 5]) == 105 && fold(w[a + 6]) == 116 && fold(
            w[a + 7],
        ) == 121;
        proof {
            let want = seq![105u8, 110u8, 102u8, 105u8, 110u8, 105u8, 116u8, 121u8];
            assert(rest[0] == lower(w@[a + 0]) && rest[1] == lower(w@[a + 1]) && rest[2] == lower(
                w@[a + 2],
            ) && rest[3] == lower(w@[a + 3]) && rest[4] == lower(w@[a + 4]) && rest[5] == lower(
                w@[a + 5],
            ) && rest[6] == lower(w@[a + 6]) && rest[7] == lower(w@[a + 7]));
            if r {
                assert(rest =~= want);
            }
            if rest == want {
                assert(want[0] == 105 && want[1] == 110 && want[2] == 102 && want[3] == 105 && want[4]
                    == 110 && want[5] == 105 && want[6] == 116 && want[7] == 121);
                assert(r);
            }
        }
        r
    } else {
        false
    }
}

/// Decides whether a token is a coordinate.
pub fn check_number(w: &[u8]) -> (ok: bool)
    ensures
        ok == is_number(w@),
{
    let n: usize = w.len();
    let a: usize = if n > 0 && (w[0] == PLUS || w[0] == MINUS) { 1 } else { 0 };
    if special(w, a) {
        return true;
    }
    let b: usize = find_digits_end(w, a);
    let dot: bool = b < n && w[b] == DOT;
    let c: usize = if dot { find_digits_end(w, b + 1) } else { b };
    let digits: usize = if dot { c - a - 1 } else { c - a };
    if digits == 0 {
        return false;
    }
    if c == n {
        return true;
    }
    if fold(w[c]) != 101 {
        return false;
    }
    let d: usize = if c + 1 < n && (w[c + 1] == PLUS || w[c + 1] == MINUS) { c + 2 } else { c + 1 };
    let e: usize = find_digits_end(w, d);
    d < e && e == n
}

/// Reads a token as a vertex reference.
pub fn parse_index(w: &[u8]) -> (r: Option<usize>)
    ensures
        r == index_value(w@),
{
    let n: usize = w.len();
    let a: usize = if n > 0 && w[0] == PLUS { 1 } else { 0 };
    if a >= n {
        return None;
    }
    let e: usize = find_digits_end(w, a);
    if e != n {
        return None;
    }
    proof {
        lemma_digits_all(w@, a as int);
    }
    let mut acc: usize = 0;
    let mut i: usize = a;
    while i < n
        invariant
            a <= i <= n,
            n == w@.len(),
            a == (if w@.len() > 0 && w@[0] == PLUS { 1int } else { 0int }),
            acc == decimal_value(w@, a as int, i as int),
            forall|k: int| a <= k < n ==> is_digit(#[trigger] w@[k]),
        decreases n - i,
    {
        let d: usize = (w[i] - DIGIT_ZERO) as usize;
        if acc > (usize::MAX - d) / 10 {
            proof {
                assert(is_digit(w@[i as int]));
                assert(decimal_value(w@, a as int, i + 1) == acc * 10 + d);
                let room: int = (usize::MAX - d) / 10;
                assert(10 * room + 10 > usize::MAX - d);
                assert(acc * 10 + d > usize::MAX);
                lemma_decimal_value_grows(w@, a as int, i + 1, n as int);
            }
            return None;
        }
        acc = acc * 10 + d;
        i += 1;
    }
    Some(acc)
}

} // verus!
