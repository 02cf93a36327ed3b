//! The grammar's general guarantees, stated and proved once over every
//! input: what the keyword literals parse to, what a numeric literal
//! denotes, how a parsed array relates to the parses of its elements, what
//! mapping a parsed object denotes, and which malformed inputs fail.

use vstd::prelude::*;

use crate::grammar::{
    digit_seq, digits_end, digits_val, elems_s, is_digit, lemma_digits_end, lemma_quote_end,
    lemma_sep_s, lemma_value_pos, lemma_ws_end, num_s, obj_s, pair_s, pairs_s, quote_end, sep_s,
    str_s, value_s, ws_end,
};
use crate::value::{
    dedup_pairs, insert_pair, key_at, lemma_key_at, to_map, unique_keys, Json, PRes, ParseError,
};

verus! {

/// The keyword literals parse to exactly their values and consume exactly
/// their own bytes: `null` yields `Null`, `true` and `false` yield the
/// booleans.
pub proof fn lemma_literals(s: Seq<u8>, i: int)
    requires
        0 <= i,
    ensures
        i + 4 <= s.len() && s[i] == 110 && s[i + 1] == 117 && s[i + 2] == 108 && s[i + 3] == 108
            ==> value_s(s, i) == PRes::Parsed(Json::Null, i + 4),
        i + 4 <= s.len() && s[i] == 116 && s[i + 1] == 114 && s[i + 2] == 117 && s[i + 3] == 101
            ==> value_s(s, i) == PRes::Parsed(Json::Bool(true), i + 4),
        i + 5 <= s.len() && s[i] == 102 && s[i + 1] == 97 && s[i + 2] == 108 && s[i + 3] == 115 && s[i
            + 4] == 101 ==> value_s(s, i) == PRes::Parsed(Json::Bool(false), i + 5),
{
}

/// The integer a plain digit string denotes.
pub open spec fn ascii_digits_val(d: Seq<u8>) -> int
    decreases d.len(),
{
    if d.len() == 0 {
        0
    } else {
        ascii_digits_val(d.drop_last()) * 10 + (d.last() - 48)
    }
}

/// The digit values of a plain digit string.
pub open spec fn digit_vals(d: Seq<u8>) -> Seq<u8> {
    Seq::new(d.len(), |k: int| (d[k] - 48) as u8)
}

/// The text of a numeric literal: an optional minus sign, the whole-part
/// digits, and, when fractional digits are given, a point and those digits.
pub open spec fn render_number(neg: bool, d1: Seq<u8>, d2: Seq<u8>) -> Seq<u8> {
    (if neg {
        seq![45u8]
    } else {
        Seq::empty()
    }) + d1 + (if d2.len() > 0 {
        seq![46u8] + d2
    } else {
        Seq::empty()
    })
}

/// A digit run bounded by a non-digit (or the end) stops exactly there.
proof fn lemma_digits_end_exact(s: Seq<u8>, i: int, j: int)
    requires
        0 <= i <= j <= s.len(),
        forall|k: int| i <= k < j ==> is_digit(#[trigger] s[k]),
        j == s.len() || !is_digit(s[j]),
    ensures
        digits_end(s, i) == j,
    decreases j - i,
{
    if i < j {
        lemma_digits_end_exact(s, i + 1, j);
    }
}

/// A digit run that copies a digit string denotes that string's integer.
proof fn lemma_digits_val_eq(s: Seq<u8>, i: int, j: int, d: Seq<u8>)
    requires
        0 <= i <= j <= s.len(),
        j - i == d.len(),
        forall|k: int| 0 <= k < d.len() ==> s[i + k] == #[trigger] d[k],
    ensures
        digits_val(s, i, j) == ascii_digits_val(d),
    decreases d.len(),
{
    if d.len() > 0 {
        lemma_digits_val_eq(s, i, j - 1, d.drop_last());
        assert(s[j - 1] == d[d.len() - 1]);
    }
}

/// A numeric literal parses to a decimal exactly when it has fractional
/// digits, and its parts are the literal's own: the whole part denotes the
/// whole digits, the fraction holds the fractional digit values in order,
/// and the sign is the literal's sign — so the parsed number denotes the
/// literal's mathematical value, and the whole literal is consumed. The one
/// input left out is a whole part beyond the integer range, which the
/// grammar reports as an invalid numeric literal.
pub proof fn lemma_number_literal(neg: bool, d1: Seq<u8>, d2: Seq<u8>)
    requires
        d1.len() >= 1,
        forall|k: int| 0 <= k < d1.len() ==> is_digit(#[trigger] d1[k]),
        forall|k: int| 0 <= k < d2.len() ==> is_digit(#[trigger] d2[k]),
        ascii_digits_val(d1) <= i64::MAX as int,
    ensures
        num_s(render_number(neg, d1, d2), 0) == PRes::Parsed(
            if d2.len() > 0 {
                Json::Float { neg, whole: ascii_digits_val(d1), frac: digit_vals(d2) }
            } else {
                Json::Int(
                    if neg {
                        -ascii_digits_val(d1)
                    } else {
                        ascii_digits_val(d1)
                    },
                )
            },
            render_number(neg, d1, d2).len() as int,
        ),
        value_s(render_number(neg, d1, d2), 0) == PRes::Parsed(
            num_s(render_number(neg, d1, d2), 0).value(),
            render_number(neg, d1, d2).len() as int,
        ),
{
    let s = render_number(neg, d1, d2);
    let p: int = if neg {
        1
    } else {
        0
    };
    assert forall|k: int| 0 <= k < d1.len() implies s[p + k] == d1[k] by {}
    if neg {
        assert(s[0] == 45);
    }
    let q = p + d1.len();
    if d2.len() > 0 {
        assert(s[q] == 46);
        assert forall|k: int| 0 <= k < d2.len() implies s[q + 1 + k] == d2[k] by {}
        lemma_digits_end_exact(s, p, q);
        lemma_digits_end_exact(s, q + 1, s.len() as int);
        lemma_digits_val_eq(s, p, q, d1);
        assert(digit_seq(s, q + 1, s.len() as int) =~= digit_vals(d2));
    } else {
        lemma_digits_end_exact(s, p, q);
        lemma_digits_val_eq(s, p, q, d1);
    }
    assert(is_digit(d1[0]));
    assert(s[p] == d1[0]);
}

/// Witnesses that values parse one after another: element `k` is the value
/// parse at `ps[k]`, ending at `qs[k]`, and a comma separator leads from
/// each element's end to the next element's start.
pub open spec fn elems_chain(s: Seq<u8>, i: int, vs: Seq<Json>, ps: Seq<int>, qs: Seq<int>) -> bool {
    &&& ps.len() == vs.len()
    &&& qs.len() == vs.len()
    &&& vs.len() >= 1
    &&& ps[0] == i
    &&& forall|k: int|
        0 <= k < vs.len() ==> value_s(s, #[trigger] ps[k]) == PRes::Parsed(vs[k], qs[k])
    &&& forall|k: int|
        1 <= k < vs.len() ==> sep_s(s, qs[k - 1], 44) == PRes::Parsed((), #[trigger] ps[k])
}

/// A parsed element list is a sequential chain of value parses, and the
/// list ends where its last element ends.
pub proof fn lemma_elems_chain(s: Seq<u8>, i: int)
    requires
        elems_s(s, i).is_parsed(),
    ensures
        exists|ps: Seq<int>, qs: Seq<int>|
            elems_chain(s, i, elems_s(s, i).value(), ps, qs) && qs[elems_s(
                s,
                i,
            ).value().len() - 1] == elems_s(s, i).end(),
    decreases s.len() - i, 3int,
{
    let vs = elems_s(s, i).value();
    match value_s(s, i) {
        PRes::Failed(_) => {},
        PRes::Parsed(v, k) => {
            lemma_value_pos(s, i);
            lemma_sep_s(s, k, 44);
            match sep_s(s, k, 44) {
                PRes::Failed(_) => {
                    assert(elems_chain(s, i, vs, seq![i], seq![k]));
                },
                PRes::Parsed(_, m) => {
                    if elems_s(s, m).is_parsed() {
                        lemma_elems_chain(s, m);
                        let vs2 = elems_s(s, m).value();
                        let (ps2, qs2): (Seq<int>, Seq<int>) = choose|ps2: Seq<int>, qs2: Seq<int>|
                            elems_chain(s, m, vs2, ps2, qs2) && qs2[vs2.len() - 1] == elems_s(
                                s,
                                m,
                            ).end();
                        let ps = seq![i] + ps2;
                        let qs = seq![k] + qs2;
                        assert(vs == seq![v] + vs2);
                        assert forall|x: int|
                            0 <= x < vs.len() implies value_s(s, #[trigger] ps[x]) == PRes::Parsed(
                            vs[x],
                            qs[x],
                        ) by {
                            if x >= 1 {
                                assert(ps[x] == ps2[x - 1]);
                                assert(qs[x] == qs2[x - 1]);
                                assert(vs[x] == vs2[x - 1]);
                            }
                        }
                        assert forall|x: int|
                            1 <= x < vs.len() implies sep_s(s, qs[x - 1], 44) == PRes::Parsed(
                            (),
                            #[trigger] ps[x],
                        ) by {
                            if x == 1 {
                                assert(qs[0] == k && ps[1] == ps2[0] && ps2[0] == m);
                            } else {
                                assert(qs[x - 1] == qs2[x - 2] && ps[x] == ps2[x - 1]);
                            }
                        }
                        assert(elems_chain(s, i, vs, ps, qs) && qs[vs.len() - 1] == elems_s(
                            s,
                            i,
                        ).end());
                    } else {
                        assert(elems_chain(s, i, vs, seq![i], seq![k]));
                    }
                },
            }
        },
    }
}

/// A well-formed array parses to exactly the sequential value parses of its
/// elements, in order: after the opening bracket the elements chain one
/// comma apart, and the closing bracket follows the last element. An empty
/// array has no chain and closes right after it opens.
pub proof fn lemma_array_elements(s: Seq<u8>, i: int)
    requires
        crate::grammar::arr_s(s, i).is_parsed(),
    ensures
        sep_s(s, i, 91).is_parsed(),
        ({
            let vs = crate::grammar::arr_s(s, i).value();
            let j0 = sep_s(s, i, 91).end();
            if vs.len() == 0 {
                sep_s(s, j0, 93) == PRes::Parsed((), crate::grammar::arr_s(s, i).end())
            } else {
                exists|ps: Seq<int>, qs: Seq<int>|
                    elems_chain(s, j0, vs, ps, qs) && sep_s(s, qs[vs.len() - 1], 93)
                        == PRes::Parsed((), crate::grammar::arr_s(s, i).end())
            }
        }),
{
    match sep_s(s, i, 91) {
        PRes::Failed(_) => {},
        PRes::Parsed(_, j) => {
            match elems_s(s, j) {
                PRes::Failed(_) => {},
                PRes::Parsed(_, _) => {
                    lemma_elems_chain(s, j);
                },
            }
        },
    }
}

/// Witnesses that key/value pairs parse one after another, a comma apart.
pub open spec fn pairs_chain(
    s: Seq<u8>,
    i: int,
    prs: Seq<(Seq<u8>, Json)>,
    ps: Seq<int>,
    qs: Seq<int>,
) -> bool {
    &&& ps.len() == prs.len()
    &&& qs.len() == prs.len()
    &&& prs.len() >= 1
    &&& ps[0] == i
    &&& forall|k: int|
        0 <= k < prs.len() ==> pair_s(s, #[trigger] ps[k]) == PRes::Parsed(prs[k], qs[k])
    &&& forall|k: int|
        1 <= k < prs.len() ==> sep_s(s, qs[k - 1], 44) == PRes::Parsed((), #[trigger] ps[k])
}

/// A parsed pair list is a sequential chain of pair parses, and it ends
/// where its last pair ends.
pub proof fn lemma_pairs_chain(s: Seq<u8>, i: int)
    requires
        pairs_s(s, i).is_parsed(),
    ensures
        exists|ps: Seq<int>, qs: Seq<int>|
            pairs_chain(s, i, pairs_s(s, i).value(), ps, qs) && qs[pairs_s(
                s,
                i,
            ).value().len() - 1] == pairs_s(s, i).end(),
    decreases s.len() - i, 3int,
{
    let prs = pairs_s(s, i).value();
    match pair_s(s, i) {
        PRes::Failed(_) => {},
        PRes::Parsed(p, k) => {
            crate::grammar::lemma_pair_pos(s, i);
            lemma_sep_s(s, k, 44);
            match sep_s(s, k, 44) {
                PRes::Failed(_) => {
                    assert(pairs_chain(s, i, prs, seq![i], seq![k]));
                },
                PRes::Parsed(_, m) => {
                    if pairs_s(s, m).is_parsed() {
                        lemma_pairs_chain(s, m);
                        let prs2 = pairs_s(s, m).value();
                        let (ps2, qs2): (Seq<int>, Seq<int>) = choose|ps2: Seq<int>, qs2: Seq<int>|
                            pairs_chain(s, m, prs2, ps2, qs2) && qs2[prs2.len() - 1] == pairs_s(
                                s,
                                m,
                            ).end();
                        let ps = seq![i] + ps2;
                        let qs = seq![k] + qs2;
                        assert(prs == seq![p] + prs2);
                        assert forall|x: int|
                            0 <= x < prs.len() implies pair_s(s, #[trigger] ps[x]) == PRes::Parsed(
                            prs[x],
                            qs[x],
                        ) by {
                            if x >= 1 {
                                assert(ps[x] == ps2[x - 1]);
                                assert(qs[x] == qs2[x - 1]);
                                assert(prs[x] == prs2[x - 1]);
                            }
                        }
                        assert forall|x: int|
                            1 <= x < prs.len() implies sep_s(s, qs[x - 1], 44) == PRes::Parsed(
                            (),
                            #[trigger] ps[x],
                        ) by {
                            if x == 1 {
                                assert(qs[0] == k && ps[1] == ps2[0] && ps2[0] == m);
                            } else {
                                assert(qs[x - 1] == qs2[x - 2] && ps[x] == ps2[x - 1]);
                            }
                        }
                        assert(pairs_chain(s, i, prs, ps, qs) && qs[prs.len() - 1] == pairs_s(
                            s,
                            i,
                        ).end());
                    } else {
                        assert(pairs_chain(s, i, prs, seq![i], seq![k]));
                    }
                },
            }
        },
    }
}

/// Inserting a pair into a uniquely-keyed pair list keeps the keys unique
/// and denotes insertion into its mapping.
proof fn lemma_insert_pair(qs: Seq<(Seq<u8>, Json)>, k: Seq<u8>, v: Json)
    requires
        unique_keys(qs),
    ensures
        unique_keys(insert_pair(qs, k, v)),
        to_map(insert_pair(qs, k, v)) == to_map(qs).insert(k, v),
    decreases qs.len(),
{
    lemma_key_at(qs, k);
    let j = key_at(qs, k);
    if j == -1 {
        assert(qs.push((k, v)).drop_last() =~= qs);
        assert(unique_keys(qs.push((k, v))));
    } else {
        let up = qs.update(j, (k, v));
        assert(unique_keys(up));
        if j == qs.len() - 1 {
            assert(up.drop_last() =~= qs.drop_last());
            assert(to_map(up) == to_map(qs.drop_last()).insert(k, v));
            assert(to_map(qs) == to_map(qs.drop_last()).insert(qs.last().0, qs.last().1));
            assert(qs.last().0 == k);
            assert(to_map(qs).insert(k, v) =~= to_map(qs.drop_last()).insert(k, v));
        } else {
            let front = qs.drop_last();
            let last = qs.last();
            assert(up.drop_last() =~= front.update(j, (k, v)));
            assert(up.last() == last);
            lemma_key_at(front, k);
            assert(front[j].0 == k);
            assert(key_at(front, k) >= 0);
            let jf = key_at(front, k);
            assert(front[jf].0 == k);
            assert(jf == j);
            assert(unique_keys(front));
            lemma_insert_pair(front, k, v);
            assert(insert_pair(front, k, v) == front.update(j, (k, v)));
            assert(to_map(up) == to_map(front).insert(k, v).insert(last.0, last.1));
            assert(last.0 != k);
            assert(to_map(front).insert(k, v).insert(last.0, last.1) =~= to_map(front).insert(
                last.0,
                last.1,
            ).insert(k, v));
        }
    }
}

/// Collapsing raw pairs keeps each key's final value: the collapsed list
/// has unique keys and denotes the same mapping as the raw list, where a
/// later pair overrides an earlier one with the same key.
pub proof fn lemma_dedup_last_wins(prs: Seq<(Seq<u8>, Json)>)
    ensures
        unique_keys(dedup_pairs(prs)),
        to_map(dedup_pairs(prs)) == to_map(prs),
    decreases prs.len(),
{
    if prs.len() == 0 {
    } else {
        lemma_dedup_last_wins(prs.drop_last());
        lemma_insert_pair(dedup_pairs(prs.drop_last()), prs.last().0, prs.last().1);
    }
}

/// The mapping a pair list denotes binds a key to the value of the last
/// pair that holds it.
pub proof fn lemma_to_map_last(ps: Seq<(Seq<u8>, Json)>, j: int)
    requires
        0 <= j < ps.len(),
        forall|y: int| j < y < ps.len() ==> (#[trigger] ps[y]).0 != ps[j].0,
    ensures
        to_map(ps).dom().contains(ps[j].0),
        to_map(ps)[ps[j].0] == ps[j].1,
    decreases ps.len(),
{
    if j < ps.len() - 1 {
        assert forall|y: int| j < y < ps.len() - 1 implies (#[trigger] ps.drop_last()[y]).0
            != ps.drop_last()[j].0 by {
            assert(ps.drop_last()[y] == ps[y]);
        }
        lemma_to_map_last(ps.drop_last(), j);
        assert(ps.last() == ps[ps.len() - 1]);
    }
}

/// The mapping binds no key that no pair holds.
pub proof fn lemma_to_map_absent(ps: Seq<(Seq<u8>, Json)>, k: Seq<u8>)
    requires
        forall|y: int| 0 <= y < ps.len() ==> (#[trigger] ps[y]).0 != k,
    ensures
        !to_map(ps).dom().contains(k),
    decreases ps.len(),
{
    if ps.len() > 0 {
        assert forall|y: int| 0 <= y < ps.len() - 1 implies (#[trigger] ps.drop_last()[y]).0
            != k by {
            assert(ps.drop_last()[y] == ps[y]);
        }
        lemma_to_map_absent(ps.drop_last(), k);
        assert(ps.last() == ps[ps.len() - 1]);
    }
}

/// A well-formed object parses to the mapping of its pairs, each key bound
/// to its parsed value, a repeated key's final value winning: the parsed
/// pairs chain one comma apart after the opening brace, and the object's
/// pair list is their collapse — unique keys, same mapping.
pub proof fn lemma_object_pairs(s: Seq<u8>, i: int)
    requires
        obj_s(s, i).is_parsed(),
    ensures
        sep_s(s, i, 123).is_parsed(),
        pairs_s(s, sep_s(s, i, 123).end()).is_parsed(),
        ({
            let raw = pairs_s(s, sep_s(s, i, 123).end()).value();
            &&& obj_s(s, i).value() == dedup_pairs(raw)
            &&& unique_keys(obj_s(s, i).value())
            &&& to_map(obj_s(s, i).value()) == to_map(raw)
            &&& exists|ps: Seq<int>, qs: Seq<int>|
                pairs_chain(s, sep_s(s, i, 123).end(), raw, ps, qs)
        }),
{
    let j0 = sep_s(s, i, 123).end();
    match sep_s(s, i, 123) {
        PRes::Failed(_) => {},
        PRes::Parsed(_, j) => {
            match pairs_s(s, j) {
                PRes::Failed(_) => {},
                PRes::Parsed(raw, _) => {
                    lemma_pairs_chain(s, j);
                    lemma_dedup_last_wins(raw);
                    let (ps, qs): (Seq<int>, Seq<int>) = choose|ps: Seq<int>, qs: Seq<int>|
                        pairs_chain(s, j, raw, ps, qs) && qs[raw.len() - 1] == pairs_s(s, j).end();
                    assert(pairs_chain(s, j0, raw, ps, qs));
                },
            }
        },
    }
}

/// An input whose first byte begins no literal production, and whose first
/// non-whitespace byte opens no container, parses to no value: the
/// alternation is exhausted where it stood.
pub proof fn lemma_no_production_fails(s: Seq<u8>, i: int)
    requires
        0 <= i <= s.len(),
        i < s.len() ==> ({
            let c = s[i];
            c != 110 && c != 116 && c != 102 && c != 45 && c != 34 && !is_digit(c)
        }),
        ws_end(s, i) == s.len() || (s[ws_end(s, i)] != 91 && s[ws_end(s, i)] != 123),
    ensures
        value_s(s, i) == PRes::<Json>::Failed(ParseError::ExhaustedAlternatives(i as usize)),
{
    lemma_ws_end(s, i);
    lemma_digits_end(s, i);
    if i < s.len() {
        assert(digits_end(s, i) == i);
    }
}

/// A string that opens and never closes is an unterminated literal, and a
/// value cannot be parsed there.
pub proof fn lemma_unterminated_string(s: Seq<u8>, i: int)
    requires
        0 <= i < s.len(),
        s[i] == 34,
        forall|k: int| i < k < s.len() ==> s[k] != 34,
    ensures
        str_s(s, i) == PRes::<Seq<u8>>::Failed(ParseError::UnterminatedLiteral(i as usize)),
        value_s(s, i) == PRes::<Json>::Failed(ParseError::ExhaustedAlternatives(i as usize)),
{
    lemma_quote_end(s, i + 1);
    let e = quote_end(s, i + 1);
    if e < s.len() {
        assert(s[e] == 34);
        assert(false);
    }
    lemma_ws_end(s, i);
    lemma_digits_end(s, i);
    assert(digits_end(s, i) == i);
    assert(ws_end(s, i) == i);
}

} // verus!
