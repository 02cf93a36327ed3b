//! The grammar, as a total function from an input and a position to a parse
//! outcome. Every executable parser is proved to return exactly what these
//! functions say.
//!
//! Each function reads at a position `i` of the input `s` and, on success,
//! reports the parsed model together with the position just past what was
//! consumed. Alternation in [`value_s`] tries the productions in the fixed
//! order `null`, `bool`, `number`, `string`, `array`, `object` and takes the
//! first success, so a failed attempt consumes nothing.

use vstd::prelude::*;

use crate::value::{dedup_pairs, Json, PRes, ParseError};

verus! {

/// Insignificant whitespace: space, tab, carriage return, line feed.
pub open spec fn is_ws(c: u8) -> bool {
    c == 32 || c == 9 || c == 13 || c == 10
}

/// A decimal digit.
pub open spec fn is_digit(c: u8) -> bool {
    48 <= c <= 57
}

/// First position at or after `i` that holds no whitespace (or the end).
pub open spec fn ws_end(s: Seq<u8>, i: int) -> int
    decreases s.len() - i,
{
    if 0 <= i < s.len() && is_ws(s[i]) {
        ws_end(s, i + 1)
    } else {
        i
    }
}

pub proof fn lemma_ws_end(s: Seq<u8>, i: int)
    ensures
        i <= ws_end(s, i),
        i <= s.len() ==> ws_end(s, i) <= s.len(),
        forall|k: int| i <= k < ws_end(s, i) ==> is_ws(s[k]),
        0 <= ws_end(s, i) < s.len() ==> !is_ws(s[ws_end(s, i)]),
    decreases s.len() - i,
{
    if 0 <= i < s.len() && is_ws(s[i]) {
        lemma_ws_end(s, i + 1);
    }
}

/// End of the digit run that starts at `i`.
pub open spec fn digits_end(s: Seq<u8>, i: int) -> int
    decreases s.len() - i,
{
    if 0 <= i < s.len() && is_digit(s[i]) {
        digits_end(s, i + 1)
    } else {
        i
    }
}

pub proof fn lemma_digits_end(s: Seq<u8>, i: int)
    ensures
        i <= digits_end(s, i),
        i <= s.len() ==> digits_end(s, i) <= s.len(),
        forall|k: int| i <= k < digits_end(s, i) ==> is_digit(s[k]),
        0 <= digits_end(s, i) < s.len() ==> !is_digit(s[digits_end(s, i)]),
    decreases s.len() - i,
{
    if 0 <= i < s.len() && is_digit(s[i]) {
        lemma_digits_end(s, i + 1);
    }
}

/// The integer the digit run `s[i..j)` denotes, most significant digit first.
pub open spec fn digits_val(s: Seq<u8>, i: int, j: int) -> int
    decreases j - i,
{
    if i < j {
        digits_val(s, i, j - 1) * 10 + (s[j - 1] - 48)
    } else {
        0
    }
}

/// The digit values (each in `0..=9`) of the digit run `s[i..j)`, in order.
pub open spec fn digit_seq(s: Seq<u8>, i: int, j: int) -> Seq<u8> {
    Seq::new(if j >= i { (j - i) as nat } else { 0 }, |k: int| (s[i + k] - 48) as u8)
}

/// A digit run denotes a non-negative integer, and a longer run never
/// denotes a smaller one.
pub proof fn lemma_digits_val_bounds(s: Seq<u8>, i: int, j1: int, j2: int)
    requires
        i <= j1 <= j2,
        forall|k: int| i <= k < j2 ==> is_digit(s[k]),
    ensures
        0 <= digits_val(s, i, j1) <= digits_val(s, i, j2),
    decreases j2 - i,
{
    if j2 > i {
        if j1 == j2 {
            lemma_digits_val_bounds(s, i, j2 - 1, j2 - 1);
        } else {
            lemma_digits_val_bounds(s, i, j1, j2 - 1);
        }
    }
}

/// Whitespace, the byte `t`, then whitespace, starting at `i`.
pub open spec fn sep_s(s: Seq<u8>, i: int, t: u8) -> PRes<()> {
    let j = ws_end(s, i);
    if 0 <= j < s.len() && s[j] == t {
        PRes::Parsed((), ws_end(s, j + 1))
    } else {
        PRes::Failed(ParseError::UnexpectedToken(j as usize))
    }
}

pub proof fn lemma_sep_s(s: Seq<u8>, i: int, t: u8)
    ensures
        match sep_s(s, i, t) {
            PRes::Parsed(_, m) => i < m <= s.len(),
            PRes::Failed(_) => true,
        },
{
    lemma_ws_end(s, i);
    let j = ws_end(s, i);
    if 0 <= j < s.len() && s[j] == t {
        lemma_ws_end(s, j + 1);
    }
}

/// The literal `null` at `i`.
pub open spec fn null_s(s: Seq<u8>, i: int) -> PRes<()> {
    if 0 <= i && i + 4 <= s.len() && s[i] == 110 && s[i + 1] == 117 && s[i + 2] == 108 && s[i + 3]
        == 108 {
        PRes::Parsed((), i + 4)
    } else {
        PRes::Failed(ParseError::UnexpectedToken(i as usize))
    }
}

/// The literal `true` or `false` at `i`, tried in that order.
pub open spec fn bool_s(s: Seq<u8>, i: int) -> PRes<bool> {
    if 0 <= i && i + 4 <= s.len() && s[i] == 116 && s[i + 1] == 114 && s[i + 2] == 117 && s[i + 3]
        == 101 {
        PRes::Parsed(true, i + 4)
    } else if 0 <= i && i + 5 <= s.len() && s[i] == 102 && s[i + 1] == 97 && s[i + 2] == 108 && s[i
        + 3] == 115 && s[i + 4] == 101 {
        PRes::Parsed(false, i + 5)
    } else {
        PRes::Failed(ParseError::UnexpectedToken(i as usize))
    }
}

/// A numeric literal at `i`: an optional `-`, one or more digits, and an
/// optional `.` followed by one or more digits. Without a fractional part
/// the literal is an integer and must fit in a 64-bit signed integer (its
/// digit run must not exceed `i64::MAX`; the sign is applied afterwards);
/// with one, it is a decimal whose parts are kept exactly. The whole part
/// is bounded the same way in both shapes.
pub open spec fn num_s(s: Seq<u8>, i: int) -> PRes<Json> {
    let p = if 0 <= i < s.len() && s[i] == 45 {
        i + 1
    } else {
        i
    };
    let q = digits_end(s, p);
    if q == p {
        PRes::Failed(ParseError::UnexpectedToken(p as usize))
    } else if digits_val(s, p, q) > i64::MAX as int {
        PRes::Failed(ParseError::InvalidNumericLiteral(p as usize))
    } else if 0 <= q < s.len() && s[q] == 46 {
        let f = digits_end(s, q + 1);
        if f == q + 1 {
            PRes::Failed(ParseError::UnexpectedToken((q + 1) as usize))
        } else {
            PRes::Parsed(
                Json::Float { neg: p != i, whole: digits_val(s, p, q), frac: digit_seq(s, q + 1, f) },
                f,
            )
        }
    } else {
        PRes::Parsed(
            Json::Int(
                if p != i {
                    -digits_val(s, p, q)
                } else {
                    digits_val(s, p, q)
                },
            ),
            q,
        )
    }
}

pub proof fn lemma_num_s(s: Seq<u8>, i: int)
    ensures
        match num_s(s, i) {
            PRes::Parsed(n, j) => i < j <= s.len() && match n {
                Json::Int(v) => -(i64::MAX as int) <= v <= i64::MAX as int,
                Json::Float { neg, whole, frac } => 0 <= whole <= i64::MAX as int && frac.len() >= 1
                    && forall|k: int| 0 <= k < frac.len() ==> frac[k] < 10,
                _ => false,
            },
            PRes::Failed(_) => true,
        },
{
    let p = if 0 <= i < s.len() && s[i] == 45 {
        i + 1
    } else {
        i
    };
    lemma_digits_end(s, p);
    let q = digits_end(s, p);
    if q != p {
        lemma_digits_val_bounds(s, p, q, q);
        if 0 <= q < s.len() && s[q] == 46 {
            lemma_digits_end(s, q + 1);
        }
    }
}

/// First position at or after `i` that holds a double quote (or the end).
pub open spec fn quote_end(s: Seq<u8>, i: int) -> int
    decreases s.len() - i,
{
    if 0 <= i < s.len() && s[i] != 34 {
        quote_end(s, i + 1)
    } else {
        i
    }
}

pub proof fn lemma_quote_end(s: Seq<u8>, i: int)
    ensures
        i <= quote_end(s, i),
        i <= s.len() ==> quote_end(s, i) <= s.len(),
        forall|k: int| i <= k < quote_end(s, i) ==> s[k] != 34,
        0 <= quote_end(s, i) < s.len() ==> s[quote_end(s, i)] == 34,
    decreases s.len() - i,
{
    if 0 <= i < s.len() && s[i] != 34 {
        lemma_quote_end(s, i + 1);
    }
}

/// A string literal at `i`: an opening quote, every byte up to the next
/// quote taken verbatim (no escape processing), and that closing quote.
/// Fails unterminated when no closing quote exists.
pub open spec fn str_s(s: Seq<u8>, i: int) -> PRes<Seq<u8>> {
    if 0 <= i < s.len() && s[i] == 34 {
        let e = quote_end(s, i + 1);
        if e < s.len() {
            PRes::Parsed(s.subrange(i + 1, e), e + 1)
        } else {
            PRes::Failed(ParseError::UnterminatedLiteral(i as usize))
        }
    } else {
        PRes::Failed(ParseError::UnexpectedToken(i as usize))
    }
}

pub proof fn lemma_str_s(s: Seq<u8>, i: int)
    ensures
        match str_s(s, i) {
            PRes::Parsed(_, j) => i + 2 <= j <= s.len(),
            PRes::Failed(_) => true,
        },
{
    if 0 <= i < s.len() && s[i] == 34 {
        lemma_quote_end(s, i + 1);
    }
}

/// A value at `i`: the first of `null`, `bool`, `number`, `string`,
/// `array`, `object` that parses there. When every alternative fails the
/// alternation is exhausted at `i`.
pub open spec fn value_s(s: Seq<u8>, i: int) -> PRes<Json>
    decreases s.len() - i, 2int,
{
    match null_s(s, i) {
        PRes::Parsed(_, j) => PRes::Parsed(Json::Null, j),
        PRes::Failed(_) => match bool_s(s, i) {
            PRes::Parsed(b, j) => PRes::Parsed(Json::Bool(b), j),
            PRes::Failed(_) => match num_s(s, i) {
                PRes::Parsed(n, j) => PRes::Parsed(n, j),
                PRes::Failed(_) => match str_s(s, i) {
                    PRes::Parsed(t, j) => PRes::Parsed(Json::Str(t), j),
                    PRes::Failed(_) => match arr_s(s, i) {
                        PRes::Parsed(vs, j) => PRes::Parsed(Json::Arr(vs), j),
                        PRes::Failed(_) => match obj_s(s, i) {
                            PRes::Parsed(ps, j) => PRes::Parsed(Json::Obj(ps), j),
                            PRes::Failed(_) => PRes::Failed(
                                ParseError::ExhaustedAlternatives(i as usize),
                            ),
                        },
                    },
                },
            },
        },
    }
}

/// One or more comma-separated values starting at `i`. A comma that is not
/// followed by a value is left unconsumed (the alternation backtracks to
/// just before it). Fails only when no first value parses at `i`.
pub open spec fn elems_s(s: Seq<u8>, i: int) -> PRes<Seq<Json>>
    decreases s.len() - i, 3int,
{
    match value_s(s, i) {
        PRes::Failed(e) => PRes::Failed(e),
        PRes::Parsed(v, k) => match sep_s(s, k, 44) {
            PRes::Failed(_) => PRes::Parsed(seq![v], k),
            PRes::Parsed(_, m) => if i < m <= s.len() {
                match elems_s(s, m) {
                    PRes::Failed(_) => PRes::Parsed(seq![v], k),
                    PRes::Parsed(vs, e) => PRes::Parsed(seq![v] + vs, e),
                }
            } else {
                PRes::Parsed(seq![v], k)
            },
        },
    }
}

/// How a missing closing delimiter is reported: when the input ended before
/// the terminator, the construct that began at `start` is unterminated;
/// otherwise the byte in the way is the unexpected token.
pub open spec fn close_err(s: Seq<u8>, at: int, start: int, e: ParseError) -> ParseError {
    if ws_end(s, at) == s.len() {
        ParseError::UnterminatedLiteral(start as usize)
    } else {
        e
    }
}

/// An array at `i`: `[`, zero or more comma-separated values, `]`, with
/// whitespace around the delimiters and separators.
pub open spec fn arr_s(s: Seq<u8>, i: int) -> PRes<Seq<Json>>
    decreases s.len() - i, 0int,
    via arr_s_dec
{
    match sep_s(s, i, 91) {
        PRes::Failed(e) => PRes::Failed(e),
        PRes::Parsed(_, j) => match elems_s(s, j) {
            PRes::Failed(_) => match sep_s(s, j, 93) {
                PRes::Failed(e) => PRes::Failed(close_err(s, j, i, e)),
                PRes::Parsed(_, e2) => PRes::Parsed(Seq::empty(), e2),
            },
            PRes::Parsed(vs, k) => match sep_s(s, k, 93) {
                PRes::Failed(e) => PRes::Failed(close_err(s, k, i, e)),
                PRes::Parsed(_, e2) => PRes::Parsed(vs, e2),
            },
        },
    }
}

#[via_fn]
proof fn arr_s_dec(s: Seq<u8>, i: int) {
    lemma_sep_s(s, i, 91);
}

/// A key/value pair at `i`: a string key, `:` with surrounding whitespace,
/// then a value.
pub open spec fn pair_s(s: Seq<u8>, i: int) -> PRes<(Seq<u8>, Json)>
    decreases s.len() - i, 1int,
    via pair_s_dec
{
    match str_s(s, i) {
        PRes::Failed(e) => PRes::Failed(e),
        PRes::Parsed(k, j) => match sep_s(s, j, 58) {
            PRes::Failed(e) => PRes::Failed(e),
            PRes::Parsed(_, m) => match value_s(s, m) {
                PRes::Failed(e) => PRes::Failed(e),
                PRes::Parsed(v, e2) => PRes::Parsed((k, v), e2),
            },
        },
    }
}

#[via_fn]
proof fn pair_s_dec(s: Seq<u8>, i: int) {
    lemma_str_s(s, i);
    match str_s(s, i) {
        PRes::Parsed(_, j) => lemma_sep_s(s, j, 58),
        PRes::Failed(_) => (),
    }
}

/// One or more comma-separated key/value pairs starting at `i`, with the
/// same backtracking over a trailing comma as [`elems_s`].
pub open spec fn pairs_s(s: Seq<u8>, i: int) -> PRes<Seq<(Seq<u8>, Json)>>
    decreases s.len() - i, 3int,
{
    match pair_s(s, i) {
        PRes::Failed(e) => PRes::Failed(e),
        PRes::Parsed(p, k) => match sep_s(s, k, 44) {
            PRes::Failed(_) => PRes::Parsed(seq![p], k),
            PRes::Parsed(_, m) => if i < m <= s.len() {
                match pairs_s(s, m) {
                    PRes::Failed(_) => PRes::Parsed(seq![p], k),
                    PRes::Parsed(ps, e) => PRes::Parsed(seq![p] + ps, e),
                }
            } else {
                PRes::Parsed(seq![p], k)
            },
        },
    }
}

/// An object at `i`: `{`, one or more comma-separated pairs, `}`. The raw
/// pairs are collapsed so that a repeated key's final value wins; an empty
/// object is not part of the grammar.
pub open spec fn obj_s(s: Seq<u8>, i: int) -> PRes<Seq<(Seq<u8>, Json)>>
    decreases s.len() - i, 0int,
    via obj_s_dec
{
    match sep_s(s, i, 123) {
        PRes::Failed(e) => PRes::Failed(e),
        PRes::Parsed(_, j) => match pairs_s(s, j) {
            PRes::Failed(e) => PRes::Failed(e),
            PRes::Parsed(ps, k) => match sep_s(s, k, 125) {
                PRes::Failed(e) => PRes::Failed(close_err(s, k, i, e)),
                PRes::Parsed(_, e2) => PRes::Parsed(dedup_pairs(ps), e2),
            },
        },
    }
}

#[via_fn]
proof fn obj_s_dec(s: Seq<u8>, i: int) {
    lemma_sep_s(s, i, 123);
}

/// Every production that succeeds consumes at least one byte and stops
/// within the input; an element or pair list is never empty.
pub proof fn lemma_value_pos(s: Seq<u8>, i: int)
    ensures
        match value_s(s, i) {
            PRes::Parsed(_, j) => i < j <= s.len(),
            PRes::Failed(_) => true,
        },
    decreases s.len() - i, 2int,
{
    lemma_num_s(s, i);
    lemma_str_s(s, i);
    lemma_arr_pos(s, i);
    lemma_obj_pos(s, i);
}

pub proof fn lemma_elems_pos(s: Seq<u8>, i: int)
    ensures
        match elems_s(s, i) {
            PRes::Parsed(vs, j) => i < j <= s.len() && vs.len() >= 1,
            PRes::Failed(_) => true,
        },
    decreases s.len() - i, 3int,
{
    lemma_value_pos(s, i);
    match value_s(s, i) {
        PRes::Parsed(_, k) => {
            lemma_sep_s(s, k, 44);
            match sep_s(s, k, 44) {
                PRes::Parsed(_, m) => {
                    if i < m <= s.len() {
                        lemma_elems_pos(s, m);
                    }
                },
                PRes::Failed(_) => (),
            }
        },
        PRes::Failed(_) => (),
    }
}

pub proof fn lemma_arr_pos(s: Seq<u8>, i: int)
    ensures
        match arr_s(s, i) {
            PRes::Parsed(_, j) => i < j <= s.len(),
            PRes::Failed(_) => true,
        },
    decreases s.len() - i, 0int,
{
    lemma_sep_s(s, i, 91);
    match sep_s(s, i, 91) {
        PRes::Parsed(_, j) => {
            lemma_elems_pos(s, j);
            lemma_sep_s(s, j, 93);
            match elems_s(s, j) {
                PRes::Parsed(_, k) => lemma_sep_s(s, k, 93),
                PRes::Failed(_) => (),
            }
        },
        PRes::Failed(_) => (),
    }
}

pub proof fn lemma_pair_pos(s: Seq<u8>, i: int)
    ensures
        match pair_s(s, i) {
            PRes::Parsed(_, j) => i < j <= s.len(),
            PRes::Failed(_) => true,
        },
    decreases s.len() - i, 1int,
{
    lemma_str_s(s, i);
    match str_s(s, i) {
        PRes::Parsed(_, j) => {
            lemma_sep_s(s, j, 58);
            match sep_s(s, j, 58) {
                PRes::Parsed(_, m) => lemma_value_pos(s, m),
                PRes::Failed(_) => (),
            }
        },
        PRes::Failed(_) => (),
    }
}

pub proof fn lemma_pairs_pos(s: Seq<u8>, i: int)
    ensures
        match pairs_s(s, i) {
            PRes::Parsed(ps, j) => i < j <= s.len() && ps.len() >= 1,
            PRes::Failed(_) => true,
        },
    decreases s.len() - i, 3int,
{
    lemma_pair_pos(s, i);
    match pair_s(s, i) {
        PRes::Parsed(_, k) => {
            lemma_sep_s(s, k, 44);
            match sep_s(s, k, 44) {
                PRes::Parsed(_, m) => {
                    if i < m <= s.len() {
                        lemma_pairs_pos(s, m);
                    }
                },
                PRes::Failed(_) => (),
            }
        },
        PRes::Failed(_) => (),
    }
}

pub proof fn lemma_obj_pos(s: Seq<u8>, i: int)
    ensures
        match obj_s(s, i) {
            PRes::Parsed(_, j) => i < j <= s.len(),
            PRes::Failed(_) => true,
        },
    decreases s.len() - i, 0int,
{
    lemma_sep_s(s, i, 123);
    match sep_s(s, i, 123) {
        PRes::Parsed(_, j) => {
            lemma_pairs_pos(s, j);
            match pairs_s(s, j) {
                PRes::Parsed(_, k) => lemma_sep_s(s, k, 125),
                PRes::Failed(_) => (),
            }
        },
        PRes::Failed(_) => (),
    }
}

} // verus!
