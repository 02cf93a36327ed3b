//! The cursor-based parser. Each function reads the byte slice `s` from
//! position `i`, and returns the parsed piece with the position just past
//! what it consumed, or an error and no progress. Every function is proved
//! to return exactly the outcome of the corresponding grammar function.

use vstd::prelude::*;

use crate::grammar::{
    arr_s, bool_s, close_err, digit_seq, digits_end, digits_val, elems_s, is_digit, is_ws,
    lemma_digits_end, lemma_digits_val_bounds, lemma_ws_end, null_s, num_s, obj_s, pair_s,
    pairs_s, quote_end, sep_s, str_s, value_s, ws_end,
};
use crate::value::{
    dedup_pairs, insert_pair, key_at, lemma_dedup_push, lemma_key_at, lemma_models,
    lemma_models_concat, lemma_pair_models, lemma_pair_models_concat, models, pair_models, Dec,
    Json, JsonValue, Num, PRes, ParseError,
};

verus! {

fn byte_at(s: &[u8], j: usize) -> (c: u8)
    requires
        j < s@.len(),
    ensures
        c == s@[j as int],
{
    *vstd::slice::slice_index_get(s, j)
}

fn ws_byte(s: &[u8], j: usize) -> (b: bool)
    requires
        j < s@.len(),
    ensures
        b == is_ws(s@[j as int]),
{
    let c = byte_at(s, j);
    c == 32 || c == 9 || c == 13 || c == 10
}

fn digit_byte(s: &[u8], j: usize) -> (b: bool)
    requires
        j < s@.len(),
    ensures
        b == is_digit(s@[j as int]),
{
    let c = byte_at(s, j);
    48 <= c && c <= 57
}

/// Advance past insignificant whitespace.
fn skip_ws(s: &[u8], i: usize) -> (j: usize)
    requires
        i <= s@.len(),
    ensures
        j as int == ws_end(s@, i as int),
        i <= j <= s@.len(),
{
    let mut j: usize = i;
    while j < s.len() && ws_byte(s, j)
        invariant
            i <= j <= s@.len(),
            ws_end(s@, i as int) == ws_end(s@, j as int),
        decreases s@.len() - j,
    {
        j = j + 1;
    }
    j
}

/// Scan the digit run at `i`; return its value and end, or report that the
/// run does not fit (its value exceeds `i64::MAX`).
fn scan_digits(s: &[u8], i: usize) -> (r: Result<(u64, usize), ParseError>)
    requires
        i <= s@.len(),
    ensures
        match r {
            Ok((v, j)) => i <= j <= s@.len() && j as int == digits_end(s@, i as int) && v as int
                == digits_val(s@, i as int, j as int) && v <= i64::MAX as u64,
            Err(e) => e == ParseError::InvalidNumericLiteral(i) && digits_val(
                s@,
                i as int,
                digits_end(s@, i as int),
            ) > i64::MAX as int,
        },
{
    let mut j: usize = i;
    let mut v: u64 = 0;
    while j < s.len() && digit_byte(s, j)
        invariant
            i <= j <= s@.len(),
            digits_end(s@, i as int) == digits_end(s@, j as int),
            forall|k: int| i <= k < j ==> is_digit(s@[k]),
            v as int == digits_val(s@, i as int, j as int),
            v <= i64::MAX as u64,
        decreases s@.len() - j,
    {
        let c = byte_at(s, j);
        let d: u64 = (c - 48) as u64;
        if v > (0x7fff_ffff_ffff_ffffu64 - d) / 10 {
            proof {
                let si = s@;
                let ii = i as int;
                let jj = j as int;
                let q = (i64::MAX as int - d) / 10;
                assert(10 * (v as int) >= 10 * (q + 1));
                assert(10 * q <= i64::MAX as int - d) by (nonlinear_arith)
                    requires q == (i64::MAX as int - d) / 10 && d <= 9;
                assert(10 * q + 10 > i64::MAX as int - d) by (nonlinear_arith)
                    requires q == (i64::MAX as int - d) / 10 && d <= 9;
                assert(digits_val(si, ii, jj + 1) == digits_val(si, ii, jj) * 10 + d);
                assert(digits_val(si, ii, jj + 1) > i64::MAX as int);
                lemma_digits_end(si, ii);
                lemma_digits_end(si, jj + 1);
                let e = digits_end(si, ii);
                assert(e == digits_end(si, jj + 1));
                assert(forall|k: int| ii <= k < e ==> is_digit(si[k]));
                lemma_digits_val_bounds(si, ii, jj + 1, e);
            }
            return Err(ParseError::InvalidNumericLiteral(i));
        }
        v = v * 10 + d;
        j = j + 1;
    }
    Ok((v, j))
}

/// Collect the digit values of the digit run at `i`.
fn scan_frac(s: &[u8], i: usize) -> (r: (Vec<u8>, usize))
    requires
        i <= s@.len(),
    ensures
        r.1 as int == digits_end(s@, i as int),
        i <= r.1 <= s@.len(),
        r.0@ == digit_seq(s@, i as int, r.1 as int),
{
    let mut j: usize = i;
    let mut out: Vec<u8> = Vec::new();
    while j < s.len() && digit_byte(s, j)
        invariant
            i <= j <= s@.len(),
            digits_end(s@, i as int) == digits_end(s@, j as int),
            out@ == digit_seq(s@, i as int, j as int),
        decreases s@.len() - j,
    {
        let c = byte_at(s, j);
        out.push(c - 48);
        j = j + 1;
        proof {
            assert(out@ =~= digit_seq(s@, i as int, j as int));
        }
    }
    (out, j)
}

/// Parse the literal `null` at `i`.
pub fn parse_null(s: &[u8], i: usize) -> (r: Result<usize, ParseError>)
    requires
        i <= s@.len(),
    ensures
        match r {
            Ok(j) => null_s(s@, i as int) == PRes::Parsed((), j as int) && i < j <= s@.len(),
            Err(e) => null_s(s@, i as int) == PRes::<()>::Failed(e),
        },
{
    if s.len() - i >= 4 && byte_at(s, i) == 110 && byte_at(s, i + 1) == 117 && byte_at(s, i + 2)
        == 108 && byte_at(s, i + 3) == 108 {
        Ok(i + 4)
    } else {
        Err(ParseError::UnexpectedToken(i))
    }
}

/// Parse `true` or `false` at `i`, tried in that order.
pub fn parse_bool(s: &[u8], i: usize) -> (r: Result<(bool, usize), ParseError>)
    requires
        i <= s@.len(),
    ensures
        match r {
            Ok((b, j)) => bool_s(s@, i as int) == PRes::Parsed(b, j as int) && i < j <= s@.len(),
            Err(e) => bool_s(s@, i as int) == PRes::<bool>::Failed(e),
        },
{
    if s.len() - i >= 4 && byte_at(s, i) == 116 && byte_at(s, i + 1) == 114 && byte_at(s, i + 2)
        == 117 && byte_at(s, i + 3) == 101 {
        Ok((true, i + 4))
    } else if s.len() - i >= 5 && byte_at(s, i) == 102 && byte_at(s, i + 1) == 97 && byte_at(
        s,
        i + 2,
    ) == 108 && byte_at(s, i + 3) == 115 && byte_at(s, i + 4) == 101 {
        Ok((false, i + 5))
    } else {
        Err(ParseError::UnexpectedToken(i))
    }
}

/// Parse a numeric literal at `i`: optional `-`, digits, optionally `.` and
/// more digits. The variant is `Int` exactly when no fractional separator
/// follows the whole part.
pub fn parse_number(s: &[u8], i: usize) -> (r: Result<(Num, usize), ParseError>)
    requires
        i <= s@.len(),
    ensures
        match r {
            Ok((n, j)) => num_s(s@, i as int) == PRes::Parsed(n.model(), j as int) && i < j
                <= s@.len() && (n matches Num::Float(d) ==> d.wf()),
            Err(e) => num_s(s@, i as int) == PRes::<Json>::Failed(e),
        },
{
    proof {
        crate::grammar::lemma_num_s(s@, i as int);
    }
    let (neg, p): (bool, usize) = if i < s.len() && byte_at(s, i) == 45 {
        (true, i + 1)
    } else {
        (false, i)
    };
    let (v, q) = match scan_digits(s, p) {
        Err(e) => {
            return Err(e);
        },
        Ok(x) => x,
    };
    if q == p {
        return Err(ParseError::UnexpectedToken(p));
    }
    if q < s.len() && byte_at(s, q) == 46 {
        let (frac, f) = scan_frac(s, q + 1);
        if f == q + 1 {
            return Err(ParseError::UnexpectedToken(q + 1));
        }
        Ok((Num::Float(Dec { neg, whole: v as i64, frac }), f))
    } else {
        let w = v as i64;
        Ok((Num::Int(if neg { -w } else { w }), q))
    }
}

/// Parse a string literal at `i`, taking the bytes between the quotes
/// verbatim.
pub fn parse_string(s: &[u8], i: usize) -> (r: Result<(Vec<u8>, usize), ParseError>)
    requires
        i <= s@.len(),
    ensures
        match r {
            Ok((t, j)) => str_s(s@, i as int) == PRes::Parsed(t@, j as int) && i < j <= s@.len(),
            Err(e) => str_s(s@, i as int) == PRes::<Seq<u8>>::Failed(e),
        },
{
    if !(i < s.len() && byte_at(s, i) == 34) {
        return Err(ParseError::UnexpectedToken(i));
    }
    let mut j: usize = i + 1;
    while j < s.len() && byte_at(s, j) != 34
        invariant
            i + 1 <= j <= s@.len(),
            quote_end(s@, (i + 1) as int) == quote_end(s@, j as int),
        decreases s@.len() - j,
    {
        j = j + 1;
    }
    if j >= s.len() {
        return Err(ParseError::UnterminatedLiteral(i));
    }
    let mut t: Vec<u8> = Vec::new();
    let mut k: usize = i + 1;
    while k < j
        invariant
            i + 1 <= k <= j < s@.len(),
            t@ == s@.subrange((i + 1) as int, k as int),
        decreases j - k,
    {
        t.push(byte_at(s, k));
        k = k + 1;
        proof {
            assert(t@ =~= s@.subrange((i + 1) as int, k as int));
        }
    }
    Ok((t, j + 1))
}

/// Recognize whitespace, the single byte `t`, then whitespace, starting at
/// `i`; succeed with the position after the trailing whitespace.
pub fn sep_with_space(s: &[u8], i: usize, t: u8) -> (r: Result<usize, ParseError>)
    requires
        i <= s@.len(),
    ensures
        match r {
            Ok(j) => sep_s(s@, i as int, t) == PRes::Parsed((), j as int) && i < j <= s@.len(),
            Err(e) => sep_s(s@, i as int, t) == PRes::<()>::Failed(e),
        },
{
    let j = skip_ws(s, i);
    if j < s.len() && byte_at(s, j) == t {
        let m = skip_ws(s, j + 1);
        Ok(m)
    } else {
        Err(ParseError::UnexpectedToken(j))
    }
}

/// Parse a value at `i`: the first of `null`, `bool`, `number`, `string`,
/// `array`, `object` that succeeds there. A failed alternative consumes
/// nothing; when all fail, the alternation is exhausted at `i`.
pub fn parse_value(s: &[u8], i: usize) -> (r: Result<(JsonValue, usize), ParseError>)
    requires
        i <= s@.len(),
    ensures
        match r {
            Ok((v, j)) => value_s(s@, i as int) == PRes::Parsed(v.model(), j as int) && i < j
                <= s@.len(),
            Err(e) => value_s(s@, i as int) == PRes::<Json>::Failed(e),
        },
    decreases s@.len() - i, 2int,
{
    match parse_null(s, i) {
        Ok(j) => {
            return Ok((JsonValue::Null, j));
        },
        Err(_) => {},
    }
    match parse_bool(s, i) {
        Ok((b, j)) => {
            return Ok((JsonValue::Bool(b), j));
        },
        Err(_) => {},
    }
    match parse_number(s, i) {
        Ok((n, j)) => {
            return Ok((JsonValue::Number(n), j));
        },
        Err(_) => {},
    }
    match parse_string(s, i) {
        Ok((t, j)) => {
            return Ok((JsonValue::Str(t), j));
        },
        Err(_) => {},
    }
    match parse_array(s, i) {
        Ok((vs, j)) => {
            return Ok((JsonValue::Array(vs), j));
        },
        Err(_) => {},
    }
    match parse_object(s, i) {
        Ok((ps, j)) => Ok((JsonValue::Object(ps), j)),
        Err(_) => Err(ParseError::ExhaustedAlternatives(i)),
    }
}

/// Parse one or more comma-separated values starting at `i`; a comma not
/// followed by a value is left unconsumed.
fn parse_elems(s: &[u8], i: usize) -> (r: Result<(Vec<JsonValue>, usize), ParseError>)
    requires
        i <= s@.len(),
    ensures
        match r {
            Ok((vs, j)) => elems_s(s@, i as int) == PRes::Parsed(models(vs@), j as int) && i < j
                <= s@.len(),
            Err(e) => elems_s(s@, i as int) == PRes::<Seq<Json>>::Failed(e),
        },
    decreases s@.len() - i, 3int,
{
    let (v, k) = match parse_value(s, i) {
        Err(e) => {
            return Err(e);
        },
        Ok(x) => x,
    };
    let ghost vm = v.model();
    match sep_with_space(s, k, 44) {
        Err(_) => {
            let out = vec![v];
            proof {
                lemma_models(out@);
                assert(models(out@) =~= seq![vm]);
            }
            Ok((out, k))
        },
        Ok(m) => {
            match parse_elems(s, m) {
                Err(_) => {
                    let out = vec![v];
                    proof {
                        lemma_models(out@);
                        assert(models(out@) =~= seq![vm]);
                    }
                    Ok((out, k))
                },
                Ok((mut rest, e)) => {
                    let ghost restv = rest@;
                    let mut out = vec![v];
                    let ghost firstv = out@;
                    out.append(&mut rest);
                    proof {
                        lemma_models(firstv);
                        assert(models(firstv) =~= seq![vm]);
                        lemma_models_concat(firstv, restv);
                    }
                    Ok((out, e))
                },
            }
        },
    }
}

/// Report a missing closing delimiter: unterminated when the input ended
/// before it, the unexpected byte otherwise.
fn close_failure(s: &[u8], at: usize, start: usize, e: ParseError) -> (r: ParseError)
    requires
        at <= s@.len(),
        e == ParseError::UnexpectedToken(ws_end(s@, at as int) as usize),
    ensures
        r == close_err(s@, at as int, start as int, e),
{
    proof {
        lemma_ws_end(s@, at as int);
    }
    let at_end = match e {
        ParseError::UnexpectedToken(pos) => pos == s.len(),
        _ => false,
    };
    if at_end {
        ParseError::UnterminatedLiteral(start)
    } else {
        e
    }
}

/// Parse an array at `i`: `[`, zero or more comma-separated values, `]`.
pub fn parse_array(s: &[u8], i: usize) -> (r: Result<(Vec<JsonValue>, usize), ParseError>)
    requires
        i <= s@.len(),
    ensures
        match r {
            Ok((vs, j)) => arr_s(s@, i as int) == PRes::Parsed(models(vs@), j as int) && i < j
                <= s@.len(),
            Err(e) => arr_s(s@, i as int) == PRes::<Seq<Json>>::Failed(e),
        },
    decreases s@.len() - i, 0int,
{
    let j = match sep_with_space(s, i, 91) {
        Err(e) => {
            return Err(e);
        },
        Ok(j) => j,
    };
    match parse_elems(s, j) {
        Err(_) => match sep_with_space(s, j, 93) {
            Err(e) => Err(close_failure(s, j, i, e)),
            Ok(e2) => {
                let out: Vec<JsonValue> = Vec::new();
                proof {
                    assert(models(out@) =~= Seq::<Json>::empty());
                }
                Ok((out, e2))
            },
        },
        Ok((vs, k)) => match sep_with_space(s, k, 93) {
            Err(e) => Err(close_failure(s, k, i, e)),
            Ok(e2) => Ok((vs, e2)),
        },
    }
}

/// Parse one key/value pair at `i`: a string key, `:`, a value.
fn parse_pair(s: &[u8], i: usize) -> (r: Result<((Vec<u8>, JsonValue), usize), ParseError>)
    requires
        i <= s@.len(),
    ensures
        match r {
            Ok((p, j)) => pair_s(s@, i as int) == PRes::Parsed((p.0@, p.1.model()), j as int) && i
                < j <= s@.len(),
            Err(e) => pair_s(s@, i as int) == PRes::<(Seq<u8>, Json)>::Failed(e),
        },
    decreases s@.len() - i, 1int,
{
    let (key, j) = match parse_string(s, i) {
        Err(e) => {
            return Err(e);
        },
        Ok(x) => x,
    };
    let m = match sep_with_space(s, j, 58) {
        Err(e) => {
            return Err(e);
        },
        Ok(m) => m,
    };
    match parse_value(s, m) {
        Err(e) => Err(e),
        Ok((v, e2)) => Ok(((key, v), e2)),
    }
}

/// Parse one or more comma-separated pairs starting at `i`.
fn parse_pairs(s: &[u8], i: usize) -> (r: Result<(Vec<(Vec<u8>, JsonValue)>, usize), ParseError>)
    requires
        i <= s@.len(),
    ensures
        match r {
            Ok((ps, j)) => pairs_s(s@, i as int) == PRes::Parsed(pair_models(ps@), j as int) && i
                < j <= s@.len(),
            Err(e) => pairs_s(s@, i as int) == PRes::<Seq<(Seq<u8>, Json)>>::Failed(e),
        },
    decreases s@.len() - i, 3int,
{
    let (p, k) = match parse_pair(s, i) {
        Err(e) => {
            return Err(e);
        },
        Ok(x) => x,
    };
    let ghost pm = (p.0@, p.1.model());
    match sep_with_space(s, k, 44) {
        Err(_) => {
            let out = vec![p];
            proof {
                lemma_pair_models(out@);
                assert(pair_models(out@) =~= seq![pm]);
            }
            Ok((out, k))
        },
        Ok(m) => {
            match parse_pairs(s, m) {
                Err(_) => {
                    let out = vec![p];
                    proof {
                        lemma_pair_models(out@);
                        assert(pair_models(out@) =~= seq![pm]);
                    }
                    Ok((out, k))
                },
                Ok((mut rest, e)) => {
                    let ghost restv = rest@;
                    let mut out = vec![p];
                    let ghost firstv = out@;
                    out.append(&mut rest);
                    proof {
                        lemma_pair_models(firstv);
                        assert(pair_models(firstv) =~= seq![pm]);
                        lemma_pair_models_concat(firstv, restv);
                    }
                    Ok((out, e))
                },
            }
        },
    }
}

/// Compare two byte strings.
fn eq_bytes(a: &Vec<u8>, b: &Vec<u8>) -> (r: bool)
    ensures
        r == (a@ == b@),
{
    if a.len() != b.len() {
        return false;
    }
    let mut k: usize = 0;
    while k < a.len()
        invariant
            k <= a@.len(),
            a@.len() == b@.len(),
            forall|x: int| 0 <= x < k ==> a@[x] == b@[x],
        decreases a@.len() - k,
    {
        if a[k] != b[k] {
            return false;
        }
        k = k + 1;
    }
    proof {
        assert(a@ =~= b@);
    }
    true
}

/// The index of the first pair whose key is `key`, if any.
fn find_key(acc: &Vec<(Vec<u8>, JsonValue)>, key: &Vec<u8>) -> (r: Option<usize>)
    ensures
        match r {
            Some(x) => x < acc@.len() && key_at(pair_models(acc@), key@) == x as int,
            None => key_at(pair_models(acc@), key@) == -1,
        },
{
    let ghost pm = pair_models(acc@);
    let mut x: usize = 0;
    while x < acc.len()
        invariant
            x <= acc@.len(),
            pm == pair_models(acc@),
            forall|y: int| 0 <= y < x ==> #[trigger] pm[y].0 != key@,
        decreases acc@.len() - x,
    {
        proof {
            lemma_pair_models(acc@);
        }
        if eq_bytes(&acc[x].0, &key) {
            proof {
                lemma_key_at(pm, key@);
                assert(pm[x as int].0 == key@);
            }
            return Some(x);
        }
        x = x + 1;
    }
    proof {
        lemma_pair_models(acc@);
        lemma_key_at(pm, key@);
    }
    None
}

/// Insert a pair: overwrite the first pair with the same key in place, or
/// append when the key is new.
fn insert_pair_exec(acc: Vec<(Vec<u8>, JsonValue)>, key: Vec<u8>, v: JsonValue) -> (r: Vec<
    (Vec<u8>, JsonValue),
>)
    ensures
        pair_models(r@) == insert_pair(pair_models(acc@), key@, v.model()),
{
    let ghost pm = pair_models(acc@);
    proof {
        lemma_pair_models(acc@);
    }
    let mut out = acc;
    match find_key(&out, &key) {
        Some(x) => {
            let ghost km = (key@, v.model());
            out[x] = (key, v);
            proof {
                lemma_pair_models(out@);
                assert forall|y: int|
                    0 <= y < pm.len() implies #[trigger] pair_models(out@)[y] == pm.update(
                    x as int,
                    km,
                )[y] by {
                    if y != x as int {
                        assert(out@[y] == acc@[y]);
                    }
                }
                assert(pair_models(out@) =~= pm.update(x as int, km));
            }
            out
        },
        None => {
            out.push((key, v));
            proof {
                lemma_pair_models(out@);
                assert forall|y: int|
                    0 <= y < pm.len() + 1 implies #[trigger] pair_models(out@)[y] == pm.push(
                    (key@, v.model()),
                )[y] by {
                    if y < pm.len() {
                        assert(out@[y] == acc@[y]);
                    }
                }
                assert(pair_models(out@) =~= pm.push((key@, v.model())));
            }
            out
        },
    }
}

/// Collapse raw pairs in order, so a repeated key's final value replaces the
/// earlier one in place and keys end up unique.
pub(crate) fn dedup_exec(ps: Vec<(Vec<u8>, JsonValue)>) -> (r: Vec<(Vec<u8>, JsonValue)>)
    ensures
        pair_models(r@) == dedup_pairs(pair_models(ps@)),
{
    let ghost full = pair_models(ps@);
    let mut rest = ps;
    let mut out: Vec<(Vec<u8>, JsonValue)> = Vec::new();
    let ghost mut done: Seq<(Seq<u8>, Json)> = Seq::empty();
    proof {
        assert(pair_models(out@) =~= dedup_pairs(done));
        assert(done + pair_models(rest@) =~= full);
    }
    while rest.len() > 0
        invariant
            pair_models(out@) == dedup_pairs(done),
            done + pair_models(rest@) == full,
        decreases rest@.len(),
    {
        let ghost prev = rest@;
        let p = rest.remove(0);
        let ghost pm = (p.0@, p.1.model());
        proof {
            lemma_pair_models(prev);
            lemma_pair_models(rest@);
            assert(rest@ =~= prev.subrange(1, prev.len() as int));
            assert forall|y: int|
                0 <= y < prev.len() implies #[trigger] pair_models(prev)[y] == (seq![pm]
                + pair_models(rest@))[y] by {
                if y >= 1 {
                    assert(prev[y] == rest@[y - 1]);
                    assert((seq![pm] + pair_models(rest@))[y] == pair_models(rest@)[y - 1]);
                } else {
                    assert(prev[0] == p);
                }
            }
            assert(pair_models(prev) =~= seq![pm] + pair_models(rest@));
        }
        out = insert_pair_exec(out, p.0, p.1);
        proof {
            lemma_dedup_push(done, pm);
            done = done.push(pm);
            assert(done + pair_models(rest@) =~= full);
        }
    }
    proof {
        lemma_pair_models(rest@);
        assert(done =~= full);
    }
    out
}

/// Parse an object at `i`: `{`, one or more comma-separated pairs, `}`; a
/// repeated key's final value wins.
pub fn parse_object(s: &[u8], i: usize) -> (r: Result<
    (Vec<(Vec<u8>, JsonValue)>, usize),
    ParseError,
>)
    requires
        i <= s@.len(),
    ensures
        match r {
            Ok((ps, j)) => obj_s(s@, i as int) == PRes::Parsed(pair_models(ps@), j as int) && i < j
                <= s@.len(),
            Err(e) => obj_s(s@, i as int) == PRes::<Seq<(Seq<u8>, Json)>>::Failed(e),
        },
    decreases s@.len() - i, 0int,
{
    let j = match sep_with_space(s, i, 123) {
        Err(e) => {
            return Err(e);
        },
        Ok(j) => j,
    };
    let (raw, k) = match parse_pairs(s, j) {
        Err(e) => {
            return Err(e);
        },
        Ok(x) => x,
    };
    match sep_with_space(s, k, 125) {
        Err(e) => Err(close_failure(s, k, i, e)),
        Ok(e2) => {
            let out = dedup_exec(raw);
            Ok((out, e2))
        },
    }
}

/// Parse one document: the value at the start of the input. Trailing bytes
/// after the value are left for the caller, as the grammar's entry point
/// does not demand the end of input.
pub fn parse_json(s: &[u8]) -> (r: Result<JsonValue, ParseError>)
    ensures
        match r {
            Ok(v) => value_s(s@, 0) matches PRes::Parsed(m, _) && m == v.model(),
            Err(e) => value_s(s@, 0) == PRes::<Json>::Failed(e),
        },
{
    match parse_value(s, 0) {
        Ok((v, _)) => Ok(v),
        Err(e) => Err(e),
    }
}

} // verus!
