use otelmeister::trace::{Span, SpanStatus, Trace};
use otelmeister::tree::{build_tree, Node};

fn span(id: &str, parent: &str) -> Span {
    Span {
        span_id: id.as_bytes().to_vec(),
        parent_span_id: parent.as_bytes().to_vec(),
        name: id.to_string(),
        start_time_unix_nano: 0,
        end_time_unix_nano: 0,
        status: SpanStatus::Unset,
        events: Vec::new(),
    }
}

fn leaf(id: &str, parent: &str) -> Node {
    Node { span: span(id, parent), children: Vec::new() }
}

#[test]
fn build_tree_test() {
    let spans = vec![
        span("root-1", ""),
        span("s1", "root-1"),
        span("s2", "root-1"),
        span("s1-1", "s1"),
        span("root-2", "missing"),
    ];
    let want = vec![
        Node {
            span: span("root-1", ""),
            children: vec![
                Node { span: span("s1", "root-1"), children: vec![leaf("s1-1", "s1")] },
                leaf("s2", "root-1"),
            ],
        },
        leaf("root-2", "missing"),
    ];

    let got = build_tree(&spans);
    println!("{:?}", got);
    println!("{:?}", want);
    assert_eq!(got, want);
}

#[test]
fn dangling_parent_becomes_root() {
    let spans = vec![span("x", "missing"), span("y", "x")];
    let got = build_tree(&spans);
    assert_eq!(got.len(), 1);
    assert_eq!(got[0].span.span_id, b"x".to_vec());
    assert_eq!(got[0].children.len(), 1);
    assert_eq!(got[0].children[0].span.span_id, b"y".to_vec());
}

#[test]
fn empty_parent_id_is_root() {
    let spans = vec![span("only", "")];
    let got = build_tree(&spans);
    assert_eq!(got.len(), 1);
    assert!(got[0].children.is_empty());
}

#[test]
fn children_keep_input_order() {
    let spans = vec![
        span("p", ""),
        span("c3", "p"),
        span("c1", "p"),
        span("c2", "p"),
    ];
    let got = build_tree(&spans);
    assert_eq!(got.len(), 1);
    let kids: Vec<&[u8]> = got[0].children.iter().map(|n| n.span.span_id.as_slice()).collect();
    assert_eq!(kids, vec![b"c3".as_slice(), b"c1".as_slice(), b"c2".as_slice()]);
}

#[test]
fn roots_keep_input_order() {
    let spans = vec![span("b", ""), span("a", ""), span("c", "")];
    let got = build_tree(&spans);
    let roots: Vec<&[u8]> = got.iter().map(|n| n.span.span_id.as_slice()).collect();
    assert_eq!(roots, vec![b"b".as_slice(), b"a".as_slice(), b"c".as_slice()]);
}

#[test]
fn build_twice_is_identical() {
    let spans = vec![
        span("r", ""),
        span("a", "r"),
        span("b", "r"),
        span("a1", "a"),
    ];
    let once = build_tree(&spans);
    let twice = build_tree(&spans);
    assert_eq!(once, twice);
}

#[test]
fn every_span_appears_exactly_once() {
    let spans = vec![
        span("r", ""),
        span("a", "r"),
        span("b", "a"),
        span("lone", "nowhere"),
    ];
    let got = build_tree(&spans);
    let mut seen: Vec<Vec<u8>> = Vec::new();
    let mut stack: Vec<&Node> = got.iter().collect();
    while let Some(n) = stack.pop() {
        seen.push(n.span.span_id.clone());
        for c in &n.children {
            stack.push(c);
        }
    }
    seen.sort();
    let mut expect: Vec<Vec<u8>> = spans.iter().map(|s| s.span_id.clone()).collect();
    expect.sort();
    assert_eq!(seen, expect);
}

#[test]
fn parent_ids_match_in_forest() {
    let spans = vec![span("r", ""), span("a", "r"), span("b", "a")];
    let got = build_tree(&spans);
    let mut stack: Vec<&Node> = got.iter().collect();
    while let Some(n) = stack.pop() {
        for c in &n.children {
            assert_eq!(c.span.parent_span_id, n.span.span_id);
            stack.push(c);
        }
    }
}

#[test]
fn sorted_orders_by_start_and_is_stable() {
    let mk = |id: &str, start: u64| Span {
        span_id: id.as_bytes().to_vec(),
        parent_span_id: Vec::new(),
        name: id.to_string(),
        start_time_unix_nano: start,
        end_time_unix_nano: start,
        status: SpanStatus::Unset,
        events: Vec::new(),
    };
    let trace = Trace {
        spans: vec![mk("late", 5), mk("first-eq", 1), mk("second-eq", 1), mk("early", 0)],
    };
    let sorted = trace.sorted();
    let order: Vec<&[u8]> = sorted.spans.iter().map(|s| s.span_id.as_slice()).collect();
    assert_eq!(
        order,
        vec![b"early".as_slice(), b"first-eq".as_slice(), b"second-eq".as_slice(), b"late".as_slice()]
    );
}

#[test]
fn span_getters() {
    let s = span("me", "them");
    assert_eq!(s.id(), b"me".to_vec());
    assert_eq!(s.parent_id(), b"them".to_vec());
}
