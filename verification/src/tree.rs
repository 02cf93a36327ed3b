//! The second route to a value tree: walking an already-recognized concrete
//! parse tree. A [`Node`] records which grammar rule matched, the text of its
//! span, and the nodes of the rules matched inside it; [`parse_value`]
//! converts such a tree into the same [`JsonValue`] model the cursor-based
//! parser produces. The walk interprets structure only — all recognition has
//! already happened — so a tree that does not fit the grammar's shape is
//! reported as an unexpected token at the start.

use vstd::prelude::*;

use crate::grammar::num_s;
use crate::value::{
    dedup_pairs, lemma_pair_models, pair_models, Json, JsonValue, PRes, ParseError,
};

verus! {

broadcast use vstd::std_specs::vec::group_vec_axioms;

/// The grammar rule a node of the concrete parse tree was matched by.
#[derive(Debug, Clone, Copy, PartialEq, Eq, Structural)]
pub enum NodeKind {
    Null,
    Bool,
    Number,
    Chars,
    Value,
    Array,
    Object,
    Pair,
}

/// One node of a concrete parse tree: the rule it matched, the bytes of its
/// span, and the nodes matched inside it.
#[derive(Debug, PartialEq)]
pub struct Node {
    pub kind: NodeKind,
    pub text: Vec<u8>,
    pub children: Vec<Node>,
}

/// The mathematical model of a parse-tree node.
pub struct NodeModel {
    pub kind: NodeKind,
    pub text: Seq<u8>,
    pub children: Seq<NodeModel>,
}

impl Node {
    /// The model of this node.
    pub open spec fn model(self) -> NodeModel
        decreases self, 2int,
        via Node::model_dec
    {
        NodeModel { kind: self.kind, text: self.text@, children: node_models(self.children@) }
    }

    #[via_fn]
    proof fn model_dec(self) {
        assert(decreases_to!(self => self.children));
        assert(decreases_to!(self.children => self.children@));
    }
}

/// The models of a sequence of nodes, elementwise.
pub open spec fn node_models(ns: Seq<Node>) -> Seq<NodeModel>
    decreases ns, 1int,
    via node_models_dec
{
    if ns.len() == 0 {
        Seq::empty()
    } else {
        node_models(ns.drop_last()).push(ns.last().model())
    }
}

#[via_fn]
proof fn node_models_dec(ns: Seq<Node>) {
    if ns.len() > 0 {
        assert(decreases_to!(ns => ns[ns.len() - 1]));
        assert(decreases_to!(ns => ns.subrange(0, ns.len() - 1)));
    }
}

pub proof fn lemma_node_models(ns: Seq<Node>)
    ensures
        node_models(ns).len() == ns.len(),
        forall|k: int| 0 <= k < ns.len() ==> #[trigger] node_models(ns)[k] == ns[k].model(),
    decreases ns.len(),
{
    if ns.len() > 0 {
        lemma_node_models(ns.drop_last());
        assert forall|k: int|
            0 <= k < ns.len() implies #[trigger] node_models(ns)[k] == ns[k].model() by {
            if k < ns.len() - 1 {
                assert(ns.drop_last()[k] == ns[k]);
            }
        }
    }
}

/// What the walk makes of one node.
///
/// A `Number` node's whole span must be one numeric literal; a `Bool` node
/// is `true` exactly when its span reads `true`; a `Value` node stands for
/// its first inner node; `Array` and `Object` nodes collect their inner
/// nodes; any other shape stops the walk.
pub open spec fn conv_s(n: NodeModel) -> Result<Json, ParseError>
    decreases n, 0int,
    via conv_s_dec
{
    match n.kind {
        NodeKind::Null => Ok(Json::Null),
        NodeKind::Bool => Ok(
            Json::Bool(n.text == seq![116u8, 114u8, 117u8, 101u8]),
        ),
        NodeKind::Number => match num_s(n.text, 0) {
            PRes::Parsed(v, end) => if end == n.text.len() {
                Ok(v)
            } else {
                Err(ParseError::InvalidNumericLiteral(0))
            },
            PRes::Failed(_) => Err(ParseError::InvalidNumericLiteral(0)),
        },
        NodeKind::Chars => Ok(Json::Str(n.text)),
        NodeKind::Value => if n.children.len() >= 1 {
            conv_s(n.children[0])
        } else {
            Err(ParseError::UnexpectedToken(0))
        },
        NodeKind::Array => match conv_list(n.children, 0) {
            Ok(vs) => Ok(Json::Arr(vs)),
            Err(e) => Err(e),
        },
        NodeKind::Object => match conv_obj(n.children, 0, Seq::empty(), Seq::empty()) {
            Ok(ps) => Ok(Json::Obj(dedup_pairs(ps))),
            Err(e) => Err(e),
        },
        NodeKind::Pair => Err(ParseError::UnexpectedToken(0)),
    }
}

#[via_fn]
proof fn conv_s_dec(n: NodeModel) {
    if n.kind == NodeKind::Value && n.children.len() >= 1 {
        assert(decreases_to!(n => n.children));
        assert(decreases_to!(n.children => n.children[0]));
    }
    assert(decreases_to!(n => n.children));
}

/// The values of the nodes `cs[k..]`, in order; the first failure wins.
pub open spec fn conv_list(cs: Seq<NodeModel>, k: int) -> Result<Seq<Json>, ParseError>
    decreases cs, cs.len() - k,
    via conv_list_dec
{
    if k < 0 || k >= cs.len() {
        Ok(Seq::empty())
    } else {
        match conv_s(cs[k]) {
            Err(e) => Err(e),
            Ok(v) => match conv_list(cs, k + 1) {
                Err(e) => Err(e),
                Ok(vs) => Ok(seq![v] + vs),
            },
        }
    }
}

#[via_fn]
proof fn conv_list_dec(cs: Seq<NodeModel>, k: int) {
    if 0 <= k < cs.len() {
        assert(decreases_to!(cs => cs[k]));
    }
}

/// Walk the children of an object node from `k` on: every child must be a
/// pair node, whose items update the current key and append the pairs seen
/// so far.
pub open spec fn conv_obj(
    cs: Seq<NodeModel>,
    k: int,
    key: Seq<u8>,
    acc: Seq<(Seq<u8>, Json)>,
) -> Result<Seq<(Seq<u8>, Json)>, ParseError>
    decreases cs, cs.len() - k,
    via conv_obj_dec
{
    if k < 0 || k >= cs.len() {
        Ok(acc)
    } else if cs[k].kind == NodeKind::Pair {
        match conv_pair(cs[k].children, 0, key, acc) {
            Err(e) => Err(e),
            Ok((key2, acc2)) => conv_obj(cs, k + 1, key2, acc2),
        }
    } else {
        Err(ParseError::UnexpectedToken(0))
    }
}

#[via_fn]
proof fn conv_obj_dec(cs: Seq<NodeModel>, k: int, key: Seq<u8>, acc: Seq<(Seq<u8>, Json)>) {
    if 0 <= k < cs.len() {
        assert(decreases_to!(cs => cs[k]));
        assert(decreases_to!(cs[k] => cs[k].children));
    }
}

/// Walk the items of a pair node from `k` on: a chars node names the key
/// for what follows; a value node appends its value under the current key;
/// anything else stops the walk. The key outlives its pair, as the walk
/// this mirrors kept it across iterations.
pub open spec fn conv_pair(
    ps: Seq<NodeModel>,
    k: int,
    key: Seq<u8>,
    acc: Seq<(Seq<u8>, Json)>,
) -> Result<(Seq<u8>, Seq<(Seq<u8>, Json)>), ParseError>
    decreases ps, ps.len() - k,
    via conv_pair_dec
{
    if k < 0 || k >= ps.len() {
        Ok((key, acc))
    } else if ps[k].kind == NodeKind::Chars {
        conv_pair(ps, k + 1, ps[k].text, acc)
    } else if ps[k].kind == NodeKind::Value {
        match conv_s(ps[k]) {
            Err(e) => Err(e),
            Ok(v) => conv_pair(ps, k + 1, key, acc.push((key, v))),
        }
    } else {
        Err(ParseError::UnexpectedToken(0))
    }
}

#[via_fn]
proof fn conv_pair_dec(ps: Seq<NodeModel>, k: int, key: Seq<u8>, acc: Seq<(Seq<u8>, Json)>) {
    if 0 <= k < ps.len() {
        assert(decreases_to!(ps => ps[k]));
    }
}

/// Copy a byte string.
fn copy_bytes(v: &Vec<u8>) -> (r: Vec<u8>)
    ensures
        r@ == v@,
{
    let mut out: Vec<u8> = Vec::new();
    let mut k: usize = 0;
    while k < v.len()
        invariant
            k <= v@.len(),
            out@ == v@.subrange(0, k as int),
        decreases v@.len() - k,
    {
        out.push(v[k]);
        k = k + 1;
        proof {
            assert(out@ =~= v@.subrange(0, k as int));
        }
    }
    proof {
        assert(out@ =~= v@);
    }
    out
}

/// Whether the bytes read `true`.
fn is_true_text(v: &Vec<u8>) -> (r: bool)
    ensures
        r == (v@ == seq![116u8, 114u8, 117u8, 101u8]),
{
    let r = v.len() == 4 && v[0] == 116 && v[1] == 114 && v[2] == 117 && v[3] == 101;
    proof {
        if r {
            assert(v@ =~= seq![116u8, 114u8, 117u8, 101u8]);
        } else {
            if v@ == seq![116u8, 114u8, 117u8, 101u8] {
                assert(v@.len() == 4);
                assert(v@[0] == 116 && v@[1] == 114 && v@[2] == 117 && v@[3] == 101);
            }
        }
    }
    r
}

/// Convert a concrete parse tree into the value it denotes, the same value
/// the cursor-based parser yields for the span the tree covers.
#[verifier::loop_isolation(false)]
pub fn parse_value(n: &Node) -> (r: Result<JsonValue, ParseError>)
    ensures
        match r {
            Ok(v) => conv_s(n.model()) == Result::<Json, ParseError>::Ok(v.model()),
            Err(e) => conv_s(n.model()) == Result::<Json, ParseError>::Err(e),
        },
    decreases n,
{
    match n.kind {
        NodeKind::Null => Ok(JsonValue::Null),
        NodeKind::Bool => Ok(JsonValue::Bool(is_true_text(&n.text))),
        NodeKind::Number => {
            match crate::parser::parse_number(n.text.as_slice(), 0) {
                Err(_) => Err(ParseError::InvalidNumericLiteral(0)),
                Ok((num, j)) => {
                    if j == n.text.len() {
                        Ok(JsonValue::Number(num))
                    } else {
                        Err(ParseError::InvalidNumericLiteral(0))
                    }
                },
            }
        },
        NodeKind::Chars => Ok(JsonValue::Str(copy_bytes(&n.text))),
        NodeKind::Value => {
            if n.children.len() >= 1 {
                proof {
                    lemma_node_models(n.children@);
                    assert(decreases_to!(*n => n.children));
                    assert(decreases_to!(n.children => n.children@));
                    assert(decreases_to!(n.children@ => n.children@[0]));
                }
                parse_value(&n.children[0])
            } else {
                Err(ParseError::UnexpectedToken(0))
            }
        },
        NodeKind::Array => {
            let ghost cs = n.model().children;
            proof {
                lemma_node_models(n.children@);
            }
            let mut out: Vec<JsonValue> = Vec::new();
            let mut a: usize = 0;
            proof {
                crate::value::lemma_models(out@);
                assert(crate::value::models(out@) =~= Seq::<Json>::empty());
            }
            while a < n.children.len()
                invariant
                    a <= n.children@.len(),
                    cs == n.model().children,
                    cs.len() == n.children@.len(),
                    forall|y: int| 0 <= y < cs.len() ==> #[trigger] cs[y] == n.children@[y].model(),
                    match conv_list(cs, a as int) {
                        Ok(rest) => conv_list(cs, 0) == Result::<Seq<Json>, ParseError>::Ok(
                            crate::value::models(out@) + rest,
                        ),
                        Err(e) => conv_list(cs, 0) == Result::<Seq<Json>, ParseError>::Err(e),
                    },
                decreases n.children@.len() - a,
            {
                proof {
                    assert(decreases_to!(*n => n.children));
                    assert(decreases_to!(n.children => n.children@));
                    assert(decreases_to!(n.children@ => n.children@[a as int]));
                }
                match parse_value(&n.children[a]) {
                    Err(e) => {
                        return Err(e);
                    },
                    Ok(v) => {
                        let ghost outv = out@;
                        let ghost vm = v.model();
                        out.push(v);
                        proof {
                            crate::value::lemma_models(outv);
                            crate::value::lemma_models(out@);
                            assert(crate::value::models(out@) =~= crate::value::models(outv)
                                + seq![vm]);
                            match conv_list(cs, a + 1) {
                                Ok(rest2) => {
                                    assert((crate::value::models(outv) + (seq![vm] + rest2)) =~= (
                                    crate::value::models(out@) + rest2));
                                },
                                Err(_) => {},
                            }
                        }
                        a = a + 1;
                    },
                }
            }
            proof {
                assert(crate::value::models(out@) + Seq::<Json>::empty() =~= crate::value::models(
                    out@,
                ));
            }
            Ok(JsonValue::Array(out))
        },
        NodeKind::Object => {
            let ghost cs = n.model().children;
            proof {
                lemma_node_models(n.children@);
            }
            let mut key: Vec<u8> = Vec::new();
            let mut raw: Vec<(Vec<u8>, JsonValue)> = Vec::new();
            let mut a: usize = 0;
            proof {
                lemma_pair_models(raw@);
                assert(pair_models(raw@) =~= Seq::<(Seq<u8>, Json)>::empty());
                assert(key@ =~= Seq::<u8>::empty());
            }
            while a < n.children.len()
                invariant
                    a <= n.children@.len(),
                    cs == n.model().children,
                    cs.len() == n.children@.len(),
                    forall|y: int| 0 <= y < cs.len() ==> #[trigger] cs[y] == n.children@[y].model(),
                    conv_obj(cs, 0, Seq::empty(), Seq::empty()) == conv_obj(
                        cs,
                        a as int,
                        key@,
                        pair_models(raw@),
                    ),
                decreases n.children@.len() - a,
            {
                let child = &n.children[a];
                if !matches!(child.kind, NodeKind::Pair) {
                    return Err(ParseError::UnexpectedToken(0));
                }
                let ghost psm = cs[a as int].children;
                proof {
                    lemma_node_models(child.children@);
                }
                let mut b: usize = 0;
                while b < child.children.len()
                    invariant
                        b <= child.children@.len(),
                        *child == n.children@[a as int],
                        child.kind == NodeKind::Pair,
                        a < n.children@.len(),
                        cs == n.model().children,
                        cs.len() == n.children@.len(),
                        forall|y: int|
                            0 <= y < cs.len() ==> #[trigger] cs[y] == n.children@[y].model(),
                        psm == cs[a as int].children,
                        psm.len() == child.children@.len(),
                        forall|y: int|
                            0 <= y < psm.len() ==> #[trigger] psm[y] == child.children@[y].model(),
                        match conv_pair(psm, b as int, key@, pair_models(raw@)) {
                            Ok((k2, a2)) => conv_obj(cs, 0, Seq::empty(), Seq::empty()) == conv_obj(
                                cs,
                                a + 1,
                                k2,
                                a2,
                            ),
                            Err(e) => conv_obj(cs, 0, Seq::empty(), Seq::empty()) == Result::<
                                Seq<(Seq<u8>, Json)>,
                                ParseError,
                            >::Err(e),
                        },
                    decreases child.children@.len() - b,
                {
                    let item = &child.children[b];
                    if matches!(item.kind, NodeKind::Chars) {
                        key = copy_bytes(&item.text);
                    } else if matches!(item.kind, NodeKind::Value) {
                        proof {
                            assert(decreases_to!(*n => n.children));
                            assert(decreases_to!(n.children => n.children@));
                            assert(decreases_to!(n.children@ => n.children@[a as int]));
                            assert(decreases_to!(n.children@[a as int] => n.children@[a as int].children));
                            assert(decreases_to!(n.children@[a as int].children => n.children@[a as int].children@));
                            assert(decreases_to!(n.children@[a as int].children@ => n.children@[a as int].children@[b as int]));
                        }
                        match parse_value(item) {
                            Err(e) => {
                                return Err(e);
                            },
                            Ok(v) => {
                                let keycopy = copy_bytes(&key);
                                let ghost rawv = raw@;
                                let ghost vm = v.model();
                                raw.push((keycopy, v));
                                proof {
                                    lemma_pair_models(rawv);
                                    lemma_pair_models(raw@);
                                    assert(pair_models(raw@) =~= pair_models(rawv).push(
                                        (key@, vm),
                                    ));
                                }
                            },
                        }
                    } else {
                        return Err(ParseError::UnexpectedToken(0));
                    }
                    b = b + 1;
                }
                a = a + 1;
            }
            let out = crate::parser::dedup_exec(raw);
            Ok(JsonValue::Object(out))
        },
        NodeKind::Pair => Err(ParseError::UnexpectedToken(0)),
    }
}

} // verus!
