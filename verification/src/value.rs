//! The value tree a parse produces, its mathematical model, and the errors a
//! parse can report.

use vstd::prelude::*;

verus! {

broadcast use vstd::std_specs::vec::group_vec_axioms;

/// A decimal literal with a fractional part, kept exactly as written:
/// sign, whole part, and the fractional digits (each a value in `0..=9`).
///
/// The mathematical value is
/// `(if neg { -1 } else { 1 }) * (whole + 0.frac)`; keeping the digits avoids
/// any rounding and preserves leading zeros of the fraction.
#[derive(Debug, Clone, PartialEq)]
pub struct Dec {
    pub neg: bool,
    pub whole: i64,
    pub frac: Vec<u8>,
}

/// A numeric value: an integer when the literal had no fractional part,
/// a decimal when it did. The variant is decided by the shape of the
/// literal alone, never by inspecting the value's range.
#[derive(Debug, Clone, PartialEq)]
pub enum Num {
    Int(i64),
    Float(Dec),
}

/// One node of a parsed document.
///
/// Strings hold the raw bytes between the quotes, with no escape decoding.
/// Objects hold their pairs in first-appearance key order; a repeated key
/// overwrites the earlier value in place, so keys are unique.
#[derive(Debug, PartialEq)]
pub enum JsonValue {
    Null,
    Bool(bool),
    Number(Num),
    Str(Vec<u8>),
    Array(Vec<JsonValue>),
    Object(Vec<(Vec<u8>, JsonValue)>),
}

/// The mathematical model of a value tree.
pub enum Json {
    Null,
    Bool(bool),
    Int(int),
    Float { neg: bool, whole: int, frac: Seq<u8> },
    Str(Seq<u8>),
    Arr(Seq<Json>),
    Obj(Seq<(Seq<u8>, Json)>),
}

/// Why a parse failed, with the input position the failure points at.
#[derive(Debug, Clone, Copy, PartialEq, Eq, Structural)]
pub enum ParseError {
    /// The input at the position does not begin with the literal or
    /// delimiter the current production requires.
    UnexpectedToken(usize),
    /// A string began but the input ended before its closing quote.
    UnterminatedLiteral(usize),
    /// A digit run does not fit the integer representation.
    InvalidNumericLiteral(usize),
    /// Every production was tried at the position and all failed.
    ExhaustedAlternatives(usize),
}

/// The outcome of a parse step in the model: a value with the position just
/// past what was consumed, or an error.
pub enum PRes<T> {
    Parsed(T, int),
    Failed(ParseError),
}

impl<T> PRes<T> {
    pub open spec fn is_parsed(self) -> bool {
        self matches PRes::Parsed(_, _)
    }

    /// The parsed piece, on success.
    pub open spec fn value(self) -> T
        recommends
            self.is_parsed(),
    {
        match self {
            PRes::Parsed(v, _) => v,
            PRes::Failed(_) => vstd::pervasive::arbitrary(),
        }
    }

    /// The position just past what was consumed, on success.
    pub open spec fn end(self) -> int
        recommends
            self.is_parsed(),
    {
        match self {
            PRes::Parsed(_, j) => j,
            PRes::Failed(_) => vstd::pervasive::arbitrary(),
        }
    }
}

impl Dec {
    pub open spec fn model(self) -> Json {
        Json::Float { neg: self.neg, whole: self.whole as int, frac: self.frac@ }
    }

    /// Every fractional digit is an actual digit value and there is at
    /// least one of them; the whole part is non-negative.
    pub open spec fn wf(self) -> bool {
        self.whole >= 0 && self.frac@.len() >= 1 && forall|k: int|
            0 <= k < self.frac@.len() ==> self.frac@[k] < 10
    }
}

impl Num {
    pub open spec fn model(self) -> Json {
        match self {
            Num::Int(n) => Json::Int(n as int),
            Num::Float(d) => d.model(),
        }
    }
}

impl JsonValue {
    /// The model of this tree.
    pub open spec fn model(self) -> Json
        decreases self, 2int,
        via JsonValue::model_dec
    {
        match self {
            JsonValue::Null => Json::Null,
            JsonValue::Bool(b) => Json::Bool(b),
            JsonValue::Number(n) => n.model(),
            JsonValue::Str(s) => Json::Str(s@),
            JsonValue::Array(a) => Json::Arr(models(a@)),
            JsonValue::Object(ps) => Json::Obj(pair_models(ps@)),
        }
    }

    #[via_fn]
    proof fn model_dec(self) {
        match self {
            JsonValue::Array(a) => {
                assert(decreases_to!(self => a));
                assert(decreases_to!(a => a@));
            },
            JsonValue::Object(ps) => {
                assert(decreases_to!(self => ps));
                assert(decreases_to!(ps => ps@));
            },
            _ => {},
        }
    }
}

/// The models of a sequence of values, elementwise.
pub open spec fn models(a: Seq<JsonValue>) -> Seq<Json>
    decreases a, 1int,
    via models_dec
{
    if a.len() == 0 {
        Seq::empty()
    } else {
        models(a.drop_last()).push(a.last().model())
    }
}

#[via_fn]
proof fn models_dec(a: Seq<JsonValue>) {
    if a.len() > 0 {
        assert(decreases_to!(a => a[a.len() - 1]));
        assert(decreases_to!(a => a.subrange(0, a.len() - 1)));
    }
}

/// The models of a sequence of key/value pairs, elementwise.
pub open spec fn pair_models(ps: Seq<(Vec<u8>, JsonValue)>) -> Seq<(Seq<u8>, Json)>
    decreases ps, 1int,
    via pair_models_dec
{
    if ps.len() == 0 {
        Seq::empty()
    } else {
        pair_models(ps.drop_last()).push((ps.last().0@, ps.last().1.model()))
    }
}

#[via_fn]
proof fn pair_models_dec(ps: Seq<(Vec<u8>, JsonValue)>) {
    if ps.len() > 0 {
        assert(decreases_to!(ps => ps[ps.len() - 1]));
        assert(decreases_to!(ps => ps.subrange(0, ps.len() - 1)));
    }
}

/// `models` and `pair_models` act elementwise.
pub proof fn lemma_models(a: Seq<JsonValue>)
    ensures
        models(a).len() == a.len(),
        forall|k: int| 0 <= k < a.len() ==> #[trigger] models(a)[k] == a[k].model(),
    decreases a.len(),
{
    if a.len() > 0 {
        lemma_models(a.drop_last());
        assert forall|k: int| 0 <= k < a.len() implies #[trigger] models(a)[k] == a[k].model() by {
            if k < a.len() - 1 {
                assert(a.drop_last()[k] == a[k]);
            }
        }
    }
}

pub proof fn lemma_pair_models(ps: Seq<(Vec<u8>, JsonValue)>)
    ensures
        pair_models(ps).len() == ps.len(),
        forall|k: int|
            0 <= k < ps.len() ==> #[trigger] pair_models(ps)[k] == (ps[k].0@, ps[k].1.model()),
    decreases ps.len(),
{
    if ps.len() > 0 {
        lemma_pair_models(ps.drop_last());
        assert forall|k: int|
            0 <= k < ps.len() implies #[trigger] pair_models(ps)[k] == (
        ps[k].0@,
        ps[k].1.model(),
        ) by {
            if k < ps.len() - 1 {
                assert(ps.drop_last()[k] == ps[k]);
            }
        }
    }
}

/// `models` distributes over concatenation.
pub proof fn lemma_models_concat(a: Seq<JsonValue>, b: Seq<JsonValue>)
    ensures
        models(a + b) == models(a) + models(b),
{
    lemma_models(a);
    lemma_models(b);
    lemma_models(a + b);
    assert forall|k: int| 0 <= k < a.len() + b.len() implies models(a + b)[k] == (models(a)
        + models(b))[k] by {
        if k < a.len() {
            assert((a + b)[k] == a[k]);
        } else {
            assert((a + b)[k] == b[k - a.len()]);
        }
    }
    assert(models(a + b) =~= models(a) + models(b));
}

/// `pair_models` distributes over concatenation.
pub proof fn lemma_pair_models_concat(a: Seq<(Vec<u8>, JsonValue)>, b: Seq<(Vec<u8>, JsonValue)>)
    ensures
        pair_models(a + b) == pair_models(a) + pair_models(b),
{
    lemma_pair_models(a);
    lemma_pair_models(b);
    lemma_pair_models(a + b);
    assert forall|k: int| 0 <= k < a.len() + b.len() implies pair_models(a + b)[k] == (pair_models(
        a,
    ) + pair_models(b))[k] by {
        if k < a.len() {
            assert((a + b)[k] == a[k]);
        } else {
            assert((a + b)[k] == b[k - a.len()]);
        }
    }
    assert(pair_models(a + b) =~= pair_models(a) + pair_models(b));
}

/// The index of the first pair with key `k`, or `-1` if no pair has it.
pub open spec fn key_at(ps: Seq<(Seq<u8>, Json)>, k: Seq<u8>) -> int
    decreases ps.len(),
{
    if ps.len() == 0 {
        -1
    } else if ps[0].0 == k {
        0
    } else {
        let r = key_at(ps.drop_first(), k);
        if r < 0 {
            -1
        } else {
            r + 1
        }
    }
}

/// `key_at` names the first pair with the key, and `-1` means no pair has it.
pub proof fn lemma_key_at(ps: Seq<(Seq<u8>, Json)>, k: Seq<u8>)
    ensures
        ({
            let j = key_at(ps, k);
            &&& -1 <= j < ps.len()
            &&& j >= 0 ==> ps[j].0 == k && forall|y: int| 0 <= y < j ==> ps[y].0 != k
            &&& j == -1 ==> forall|y: int| 0 <= y < ps.len() ==> #[trigger] ps[y].0 != k
        }),
    decreases ps.len(),
{
    if ps.len() > 0 && ps[0].0 != k {
        lemma_key_at(ps.drop_first(), k);
        assert(forall|y: int| 1 <= y < ps.len() ==> #[trigger] ps[y] == ps.drop_first()[y - 1]);
    }
}

/// Insert `(k, v)`: overwrite in place if the key is present, append otherwise.
pub open spec fn insert_pair(
    ps: Seq<(Seq<u8>, Json)>,
    k: Seq<u8>,
    v: Json,
) -> Seq<(Seq<u8>, Json)> {
    let j = key_at(ps, k);
    if j >= 0 {
        ps.update(j, (k, v))
    } else {
        ps.push((k, v))
    }
}

/// Collapse raw pairs, in order, so that a repeated key's final value wins
/// and keys are unique.
pub open spec fn dedup_pairs(ps: Seq<(Seq<u8>, Json)>) -> Seq<(Seq<u8>, Json)>
    decreases ps.len(),
{
    if ps.len() == 0 {
        Seq::empty()
    } else {
        insert_pair(dedup_pairs(ps.drop_last()), ps.last().0, ps.last().1)
    }
}

/// Collapsing one more pair is one insertion.
pub proof fn lemma_dedup_push(ps: Seq<(Seq<u8>, Json)>, p: (Seq<u8>, Json))
    ensures
        dedup_pairs(ps.push(p)) == insert_pair(dedup_pairs(ps), p.0, p.1),
{
    assert(ps.push(p).drop_last() =~= ps);
    assert(ps.push(p).last() == p);
}

/// The mapping a pair sequence denotes: a later pair for the same key wins.
pub open spec fn to_map(ps: Seq<(Seq<u8>, Json)>) -> Map<Seq<u8>, Json>
    decreases ps.len(),
{
    if ps.len() == 0 {
        Map::empty()
    } else {
        to_map(ps.drop_last()).insert(ps.last().0, ps.last().1)
    }
}

/// No two pairs share a key.
pub open spec fn unique_keys(ps: Seq<(Seq<u8>, Json)>) -> bool {
    forall|a: int, b: int| 0 <= a < b < ps.len() ==> ps[a].0 != ps[b].0
}

} // verus!
