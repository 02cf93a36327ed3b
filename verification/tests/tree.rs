use jsonval::tree::{parse_value, Node, NodeKind};
use jsonval::value::{Dec, JsonValue, Num, ParseError};

/// A leaf of the concrete parse tree.
fn leaf(kind: NodeKind, text: &[u8]) -> Node {
    Node { kind, text: text.to_vec(), children: vec![] }
}

/// An inner node of the concrete parse tree.
fn inner(kind: NodeKind, text: &[u8], children: Vec<Node>) -> Node {
    Node { kind, text: text.to_vec(), children }
}

/// The node the `value` rule produces around one matched production.
fn value_node(child: Node) -> Node {
    let text = child.text.clone();
    inner(NodeKind::Value, &text, vec![child])
}

/// The floating-point value a parsed number denotes.
fn num_value(v: &JsonValue) -> f64 {
    match v {
        JsonValue::Number(Num::Int(n)) => *n as f64,
        JsonValue::Number(Num::Float(Dec { neg, whole, frac })) => {
            let mut s = String::new();
            if *neg {
                s.push('-');
            }
            s.push_str(&whole.to_string());
            s.push('.');
            for digit in frac {
                s.push((b'0' + digit) as char);
            }
            s.parse::<f64>().unwrap()
        }
        other => panic!("expected a number, got {:?}", other),
    }
}

#[test]
fn pest_parse_null_should_work() {
    let n = leaf(NodeKind::Null, b"null");
    let v = parse_value(&n).unwrap();
    assert_eq!(v, JsonValue::Null);
}

#[test]
fn pest_parse_bool_should_work() {
    let n = leaf(NodeKind::Bool, b"true");
    let v = parse_value(&n).unwrap();
    assert_eq!(v, JsonValue::Bool(true));

    let n = leaf(NodeKind::Bool, b"false");
    let v = parse_value(&n).unwrap();
    assert_eq!(v, JsonValue::Bool(false));
}

#[test]
fn pest_parse_number_should_work() {
    let n = leaf(NodeKind::Number, b"123");
    let v = parse_value(&n).unwrap();
    assert_eq!(num_value(&v), 123.0);

    let n = leaf(NodeKind::Number, b"-123");
    let v = parse_value(&n).unwrap();
    assert_eq!(num_value(&v), -123.0);

    let n = leaf(NodeKind::Number, b"123.45");
    let v = parse_value(&n).unwrap();
    assert_eq!(num_value(&v), 123.45);
}

#[test]
fn pest_parse_string_should_work() {
    let n = leaf(NodeKind::Chars, b"hello");
    let v = parse_value(&n).unwrap();
    assert_eq!(v, JsonValue::Str(b"hello".to_vec()));
}

#[test]
fn pest_parse_array_should_work() {
    let n = inner(
        NodeKind::Array,
        b"[1, 2, 3]",
        vec![
            value_node(leaf(NodeKind::Number, b"1")),
            value_node(leaf(NodeKind::Number, b"2")),
            value_node(leaf(NodeKind::Number, b"3")),
        ],
    );
    let v = parse_value(&n).unwrap();
    assert_eq!(
        v,
        JsonValue::Array(vec![
            JsonValue::Number(Num::Int(1)),
            JsonValue::Number(Num::Int(2)),
            JsonValue::Number(Num::Int(3))
        ])
    );
}

#[test]
fn pest_parse_object_should_work() {
    let n = inner(
        NodeKind::Object,
        b"{\"name\": \"John Doe\", \"age\": 30}",
        vec![
            inner(
                NodeKind::Pair,
                b"\"name\": \"John Doe\"",
                vec![
                    leaf(NodeKind::Chars, b"name"),
                    value_node(leaf(NodeKind::Chars, b"John Doe")),
                ],
            ),
            inner(
                NodeKind::Pair,
                b"\"age\": 30",
                vec![leaf(NodeKind::Chars, b"age"), value_node(leaf(NodeKind::Number, b"30"))],
            ),
        ],
    );
    let v = parse_value(&n).unwrap();
    assert_eq!(
        v,
        JsonValue::Object(vec![
            (b"name".to_vec(), JsonValue::Str(b"John Doe".to_vec())),
            (b"age".to_vec(), JsonValue::Number(Num::Int(30))),
        ])
    );
}

#[test]
fn repeated_key_in_tree_final_value_wins() {
    let n = inner(
        NodeKind::Object,
        b"{\"a\": 1, \"a\": 2}",
        vec![
            inner(
                NodeKind::Pair,
                b"\"a\": 1",
                vec![leaf(NodeKind::Chars, b"a"), value_node(leaf(NodeKind::Number, b"1"))],
            ),
            inner(
                NodeKind::Pair,
                b"\"a\": 2",
                vec![leaf(NodeKind::Chars, b"a"), value_node(leaf(NodeKind::Number, b"2"))],
            ),
        ],
    );
    let v = parse_value(&n).unwrap();
    assert_eq!(v, JsonValue::Object(vec![(b"a".to_vec(), JsonValue::Number(Num::Int(2)))]));
}

#[test]
fn stray_pair_node_is_rejected() {
    let n = inner(NodeKind::Pair, b"", vec![]);
    assert_eq!(parse_value(&n).unwrap_err(), ParseError::UnexpectedToken(0));
}

#[test]
fn number_node_with_trailing_bytes_is_invalid() {
    let n = leaf(NodeKind::Number, b"12x");
    assert_eq!(parse_value(&n).unwrap_err(), ParseError::InvalidNumericLiteral(0));
}

#[test]
fn empty_value_node_is_rejected() {
    let n = inner(NodeKind::Value, b"", vec![]);
    assert_eq!(parse_value(&n).unwrap_err(), ParseError::UnexpectedToken(0));
}
