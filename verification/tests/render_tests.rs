use otelmeister::render::{trace_bounds, ConfigError, Renderer};
use otelmeister::render_trace;
use otelmeister::textfmt::{gray, truncate};
use otelmeister::trace::{Event, Span, SpanStatus, Trace};
use otelmeister::tree::Node;
use otelmeister::Format;

fn timed_span(id: &str, parent: &str, start: u64, end: u64) -> Span {
    Span {
        span_id: id.as_bytes().to_vec(),
        parent_span_id: parent.as_bytes().to_vec(),
        name: id.to_string(),
        start_time_unix_nano: start,
        end_time_unix_nano: end,
        status: SpanStatus::Unset,
        events: Vec::new(),
    }
}

#[test]
fn truncate_shortens_with_ellipsis() {
    assert_eq!(truncate("hello world", 8), "hello...");
    assert_eq!(truncate("hello world", 8).chars().count(), 8);
}

#[test]
fn truncate_keeps_short_strings() {
    assert_eq!(truncate("hi", 8), "hi");
    assert_eq!(truncate("exact", 5), "exact");
}

#[test]
fn truncate_is_a_no_op_when_no_room_for_ellipsis() {
    assert_eq!(truncate("abcdef", 3), "abcdef");
    assert_eq!(truncate("abcdef", 0), "abcdef");
}

#[test]
fn gray_wraps_in_styling_codes() {
    assert_eq!(gray("x"), "\x1b[38;5;255mx\x1b[0m");
    assert_eq!(gray(""), "\x1b[38;5;255m\x1b[0m");
}

#[test]
fn scale_is_proportional() {
    let r = Renderer { w_names: 10, w_durations: 50, min_start_time: 0, total_duration: 100 };
    assert_eq!(r.scale(0), 0);
    assert_eq!(r.scale(100), 50);
    assert_eq!(r.scale(50), 25);
    assert_eq!(r.scale(33), 16);
}

#[test]
fn renderer_new_checks_the_width() {
    assert_eq!(Renderer::new(40, 30, 0, 0), Err(ConfigError::WidthTooSmall));
    assert_eq!(Renderer::new(40, 42, 0, 0), Err(ConfigError::WidthTooSmall));
    let r = Renderer::new(40, 43, 0, 0).unwrap();
    assert_eq!(r.w_durations, 1);
}

#[test]
fn trace_bounds_of_empty_trace_is_none() {
    assert_eq!(trace_bounds(&Vec::new()), None);
}

#[test]
fn trace_bounds_spans_the_window() {
    let spans = vec![
        timed_span("a", "", 30, 40),
        timed_span("b", "", 10, 25),
        timed_span("c", "", 20, 90),
    ];
    assert_eq!(trace_bounds(&spans), Some((10, 80)));
}

#[test]
fn zero_width_span_renders_one_light_glyph() {
    let r = Renderer { w_names: 10, w_durations: 20, min_start_time: 100, total_duration: 0 };
    let node = Node { span: timed_span("zero", "", 100, 100), children: Vec::new() };
    let lines = r.render(&vec![node], 0);
    let expected = "> zero".to_string() + &" ".repeat(6) + " \u{23D0} " + "\u{2592}" + " "
        + "\x1b[38;5;255m0ns\x1b[0m";
    assert_eq!(lines, vec![expected]);
}

#[test]
fn error_span_gets_marker_and_narrower_name_column() {
    let r = Renderer { w_names: 10, w_durations: 20, min_start_time: 0, total_duration: 100 };
    let mut span = timed_span("oops", "", 0, 100);
    span.status = SpanStatus::Error;
    let lines = r.render(&vec![Node { span, children: Vec::new() }], 0);
    let expected = "> ".to_string() + "\x1b[1;38;5;160m\u{24D8}  \x1b[0m" + "oops"
        + &" ".repeat(3) + " \u{23D0} " + &"\u{2593}".repeat(20) + " "
        + "\x1b[38;5;255m100ns\x1b[0m";
    assert_eq!(lines, vec![expected]);
}

#[test]
fn long_name_is_truncated_to_the_name_column() {
    let r = Renderer { w_names: 10, w_durations: 20, min_start_time: 0, total_duration: 100 };
    let span = Span { name: "a-very-long-span-name".to_string(), ..timed_span("x", "", 0, 100) };
    let lines = r.render(&vec![Node { span, children: Vec::new() }], 0);
    assert!(lines[0].starts_with("> a-ver...   \u{23D0} "));
}

#[test]
fn event_lines_follow_their_span() {
    let r = Renderer { w_names: 10, w_durations: 20, min_start_time: 100, total_duration: 100 };
    let mut span = timed_span("s", "", 100, 200);
    span.events = vec![
        Event { time_unix_nano: 150, name: "boom".to_string() },
        Event { time_unix_nano: 200, name: "done".to_string() },
    ];
    let lines = r.render(&vec![Node { span, children: Vec::new() }], 0);
    assert_eq!(lines.len(), 3);
    let expected_event = "_ ".to_string() + &" ".repeat(10) + " \u{23D0} "
        + "\x1b[38;5;255mboom (+50ns)\x1b[0m";
    assert_eq!(lines[1], expected_event);
    assert!(lines[2].contains("done (+100ns)"));
}

#[test]
fn label_moves_left_past_the_midpoint() {
    let r = Renderer { w_names: 10, w_durations: 20, min_start_time: 0, total_duration: 100 };
    // Starts at 80% of the window: the label sits left of the bar.
    let span = timed_span("late", "", 80, 100);
    let lines = r.render(&vec![Node { span, children: Vec::new() }], 0);
    let label = gray("20ns") + " ";
    let bar_start = lines[0].find('\u{23D0}').unwrap();
    let tail = &lines[0][bar_start..];
    assert!(tail.contains(&label));
    let solid = "\u{2593}".repeat(4);
    assert!(tail.ends_with(&solid));
}

#[test]
fn render_trace_emits_preorder_lines() {
    let trace = Trace {
        spans: vec![
            timed_span("A", "", 0, 100),
            timed_span("B", "A", 10, 50),
            timed_span("C", "A", 60, 90),
        ],
    };
    let lines = render_trace(&trace, 10, 62).unwrap();
    assert_eq!(lines.len(), 3);
    assert!(lines[0].starts_with("> A"));
    assert!(lines[1].starts_with(">  B"));
    assert!(lines[2].starts_with(">  C"));
    assert!(lines[0].contains(&"\u{2593}".repeat(50)));
    assert!(lines[1].contains(&"\u{2593}".repeat(20)));
    assert!(lines[2].contains(&"\u{2593}".repeat(15)));
}

#[test]
fn render_trace_empty_trace_renders_nothing() {
    let trace = Trace { spans: Vec::new() };
    assert_eq!(render_trace(&trace, 10, 80), Ok(Vec::new()));
}

#[test]
fn render_trace_rejects_narrow_terminal() {
    let trace = Trace { spans: vec![timed_span("a", "", 0, 1)] };
    assert_eq!(render_trace(&trace, 10, 12), Err(ConfigError::WidthTooSmall));
}

#[test]
fn format_names_both_wire_formats() {
    assert_ne!(Format::Jaeger, Format::OTEL);
    assert_eq!(Format::Jaeger.name(), "jaeger");
    assert_eq!(Format::OTEL.name(), "otel");
}
