use otelmeister::jaeger::{
    HexError, JaegerLog, JaegerReference, JaegerSpan, JaegerTrace, JaegerValue, JsonScalar,
};
use otelmeister::trace::{SpanStatus, Trace};

fn plain_span(id: &str) -> JaegerSpan {
    JaegerSpan {
        span_id: id.to_string(),
        operation_name: "op".to_string(),
        references: Vec::new(),
        tags: Vec::new(),
        logs: Vec::new(),
        start_time: 3,
        duration: 4,
    }
}

#[test]
fn to_span_converts_everything() {
    let js = JaegerSpan {
        span_id: "0a0b".to_string(),
        operation_name: "op".to_string(),
        references: vec![
            JaegerReference {
                ref_type: "FOLLOWS_FROM".to_string(),
                trace_id: "ff".to_string(),
                span_id: "eeee".to_string(),
            },
            JaegerReference {
                ref_type: "CHILD_OF".to_string(),
                trace_id: "ff".to_string(),
                span_id: "0102".to_string(),
            },
        ],
        tags: vec![JaegerValue {
            key: "error".to_string(),
            type_: "bool".to_string(),
            value: JsonScalar::Bool(true),
        }],
        logs: vec![JaegerLog {
            timestamp: 7,
            fields: vec![
                JaegerValue {
                    key: "other".to_string(),
                    type_: "string".to_string(),
                    value: JsonScalar::Text("skip".to_string()),
                },
                JaegerValue {
                    key: "event".to_string(),
                    type_: "string".to_string(),
                    value: JsonScalar::Text("boom".to_string()),
                },
            ],
        }],
        start_time: 3,
        duration: 4,
    };
    let span = js.to_span().unwrap();
    assert_eq!(span.span_id, vec![0x0a, 0x0b]);
    assert_eq!(span.parent_span_id, vec![0x01, 0x02]);
    assert_eq!(span.name, "op");
    assert_eq!(span.start_time_unix_nano, 3000);
    assert_eq!(span.end_time_unix_nano, 7000);
    assert_eq!(span.status, SpanStatus::Error);
    assert_eq!(span.events.len(), 1);
    assert_eq!(span.events[0].time_unix_nano, 7000);
    assert_eq!(span.events[0].name, "boom");
}

#[test]
fn to_span_without_child_of_has_empty_parent() {
    let js = plain_span("0a0b");
    let span = js.to_span().unwrap();
    assert!(span.parent_span_id.is_empty());
    assert_eq!(span.status, SpanStatus::Okay);
}

#[test]
fn to_span_rejects_bad_hex() {
    let js = plain_span("zz");
    assert_eq!(js.to_span(), Err(HexError::InvalidChar { ch: 'z', index: 0 }));
}

#[test]
fn to_span_rejects_odd_length_hex() {
    let js = plain_span("abc");
    assert_eq!(js.to_span(), Err(HexError::OddLength));
}

#[test]
fn to_span_rejects_bad_parent_hex() {
    let mut js = plain_span("0a0b");
    js.references = vec![JaegerReference {
        ref_type: "CHILD_OF".to_string(),
        trace_id: "ff".to_string(),
        span_id: "nope".to_string(),
    }];
    assert_eq!(js.to_span(), Err(HexError::InvalidChar { ch: 'n', index: 0 }));
}

#[test]
fn first_boolean_error_tag_decides() {
    let mut js = plain_span("0a0b");
    js.tags = vec![
        JaegerValue {
            key: "error".to_string(),
            type_: "bool".to_string(),
            value: JsonScalar::Other,
        },
        JaegerValue {
            key: "error".to_string(),
            type_: "bool".to_string(),
            value: JsonScalar::Bool(true),
        },
        JaegerValue {
            key: "error".to_string(),
            type_: "bool".to_string(),
            value: JsonScalar::Bool(false),
        },
    ];
    let span = js.to_span().unwrap();
    assert_eq!(span.status, SpanStatus::Error);
}

#[test]
fn false_error_tag_means_okay() {
    let mut js = plain_span("0a0b");
    js.tags = vec![JaegerValue {
        key: "error".to_string(),
        type_: "bool".to_string(),
        value: JsonScalar::Bool(false),
    }];
    assert_eq!(js.to_span().unwrap().status, SpanStatus::Okay);
}

#[test]
fn non_string_event_field_gets_empty_name() {
    let mut js = plain_span("0a0b");
    js.logs = vec![JaegerLog {
        timestamp: 1,
        fields: vec![JaegerValue {
            key: "event".to_string(),
            type_: "string".to_string(),
            value: JsonScalar::Other,
        }],
    }];
    let span = js.to_span().unwrap();
    assert_eq!(span.events.len(), 1);
    assert_eq!(span.events[0].name, "");
}

#[test]
fn from_jaeger_converts_all_spans() {
    let jt = JaegerTrace {
        trace_id: "deadbeef".to_string(),
        spans: vec![plain_span("0a0b"), plain_span("0c0d")],
    };
    let trace = Trace::from_jaeger(&jt).unwrap();
    assert_eq!(trace.spans.len(), 2);
    assert_eq!(trace.spans[0].span_id, vec![0x0a, 0x0b]);
    assert_eq!(trace.spans[1].span_id, vec![0x0c, 0x0d]);
}

#[test]
fn from_jaeger_rejects_bad_trace_id() {
    let jt = JaegerTrace { trace_id: "xyz".to_string(), spans: vec![plain_span("0a0b")] };
    assert_eq!(Trace::from_jaeger(&jt), Err(HexError::OddLength));
}

#[test]
fn from_jaeger_rejects_bad_span() {
    let jt = JaegerTrace {
        trace_id: "deadbeef".to_string(),
        spans: vec![plain_span("0a0b"), plain_span("qq")],
    };
    assert_eq!(Trace::from_jaeger(&jt), Err(HexError::InvalidChar { ch: 'q', index: 0 }));
}
