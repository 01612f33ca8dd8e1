//! The timeline renderer: walks the forest depth-first and produces one
//! formatted line per span, plus one per event, each annotated with a
//! proportionally scaled horizontal bar for its time interval.

use vstd::arithmetic::div_mod::{lemma_div_is_ordered, lemma_div_multiples_vanish};
use vstd::prelude::*;

use crate::textfmt::{
    append_solid_run, char_run, gray, spaces, spec_gray, spec_truncate, truncate,
};
use crate::trace::{Event, EventModel, Span, SpanModel, SpanStatus};
use crate::tree::{forest_model, lemma_forest_model_index, spec_forest, spec_node, Node, NodeModel};

verus! {

/// Name for the exact text `duration_human` prints for a nanosecond
/// count; it depends on the count alone.
pub uninterp spec fn human_of(nanos: u64) -> Seq<char>;

/// Relies on `duration_human::DurationHuman`: `new` accepts any
/// nanosecond count and the display format is a pure function of it.
#[verifier::external_body]
fn human_duration(nanos: u64) -> (r: String)
    ensures
        r@ == human_of(nanos),
{
    duration_human::DurationHuman::new(nanos).to_string()
}

/// Lays out the forest onto a terminal: a name column of `w_names`
/// characters, a separator, and a duration column of `w_durations`
/// characters onto which the window `[min_start_time, min_start_time +
/// total_duration]` is proportionally mapped.
#[derive(Debug, Clone, Copy, PartialEq, Eq, Structural)]
pub struct Renderer {
    pub w_names: usize,
    pub w_durations: usize,
    pub min_start_time: u64,
    pub total_duration: u64,
}

/// `floor(n * w / total)`: the column a nanosecond quantity lands on.  A
/// trace without any duration maps the empty quantity to the left edge
/// and anything else across the whole column, avoiding the division.
pub open spec fn spec_scale(n: int, w: int, total: int) -> int {
    if total == 0 {
        if n == 0 {
            0
        } else {
            w
        }
    } else {
        (n * w) / total
    }
}

/// Scale boundary: zero scales to the left edge, and the whole trace
/// duration scales to the full duration column whenever the trace has any
/// duration at all.
pub proof fn lemma_scale_boundary(w: int, total: int)
    requires
        total >= 0,
    ensures
        spec_scale(0, w, total) == 0,
        total > 0 ==> spec_scale(total, w, total) == w,
{
    if total > 0 {
        assert(0 * w == 0);
        assert(0int / total == 0) by (nonlinear_arith)
            requires
                total > 0,
        ;
        assert(total * w == w * total);
        lemma_div_multiples_vanish(w, total);
    }
}

impl Renderer {
    /// The renderer's widths leave room for the ellipsis and the error
    /// marker inside the name column.
    pub open spec fn wf(&self) -> bool {
        self.w_names >= 9
    }

    /// Builds a renderer for a terminal `columns` columns wide with a
    /// name column of `w_names` characters; what is left past the name
    /// column and the separator becomes the duration column.  Fails when
    /// the terminal is not wider than the name column plus separator, so
    /// that the subtraction below cannot wrap.
    pub fn new(w_names: usize, columns: usize, min_start_time: u64, total_duration: u64) -> (r:
        Result<Renderer, ConfigError>)
        requires
            w_names >= 9,
        ensures
            r is Ok <==> columns > w_names + 2,
            r matches Ok(rd) ==> rd == (Renderer {
                w_names,
                w_durations: (columns - w_names - 2) as usize,
                min_start_time,
                total_duration,
            }) && rd.wf(),
            r matches Err(e) ==> e == ConfigError::WidthTooSmall,
    {
        if w_names <= usize::MAX - 2 && columns > w_names + 2 {
            Ok(
                Renderer {
                    w_names,
                    w_durations: columns - w_names - 2,
                    min_start_time,
                    total_duration,
                },
            )
        } else {
            Err(ConfigError::WidthTooSmall)
        }
    }

    /// Scales a nanosecond quantity onto the duration column.
    pub fn scale(&self, n: u64) -> (r: usize)
        requires
            n <= self.total_duration || self.total_duration == 0,
        ensures
            r as int == spec_scale(n as int, self.w_durations as int, self.total_duration as int),
            r <= self.w_durations,
    {
        if self.total_duration == 0 {
            if n == 0 {
                0
            } else {
                self.w_durations
            }
        } else {
            proof {
                let ni = n as int;
                let wi = self.w_durations as int;
                assert(ni * wi <= u64::MAX * (usize::MAX as int)) by (nonlinear_arith)
                    requires
                        0 <= ni <= u64::MAX,
                        0 <= wi <= usize::MAX as int,
                ;
            }
            let num: u128 = (n as u128) * (self.w_durations as u128);
            let q: u128 = num / (self.total_duration as u128);
            proof {
                let ni = n as int;
                let wi = self.w_durations as int;
                let ti = self.total_duration as int;
                assert(ni * wi <= ti * wi) by (nonlinear_arith)
                    requires
                        0 <= ni <= ti,
                        0 <= wi,
                ;
                lemma_div_is_ordered(ni * wi, ti * wi, ti);
                assert(ti * wi == wi * ti);
                lemma_div_multiples_vanish(wi, ti);
                assert((ni * wi) / ti <= wi);
                assert((ni * wi) / ti >= 0) by (nonlinear_arith)
                    requires
                        ni >= 0,
                        wi >= 0,
                        ti > 0,
                ;
            }
            q as usize
        }
    }
}

/// A configuration the renderer cannot work with.
#[derive(Debug, Clone, Copy, PartialEq, Eq, Structural)]
pub enum ConfigError {
    WidthTooSmall,
}

/// The least start time among the spans.
pub open spec fn spec_min_start(spans: Seq<SpanModel>) -> u64
    recommends
        spans.len() > 0,
    decreases spans.len(),
{
    if spans.len() <= 1 {
        spans[0].start_time_unix_nano
    } else {
        let rest = spec_min_start(spans.drop_first());
        if spans[0].start_time_unix_nano <= rest {
            spans[0].start_time_unix_nano
        } else {
            rest
        }
    }
}

/// The greatest end time among the spans.
pub open spec fn spec_max_end(spans: Seq<SpanModel>) -> u64
    recommends
        spans.len() > 0,
    decreases spans.len(),
{
    if spans.len() <= 1 {
        spans[0].end_time_unix_nano
    } else {
        let rest = spec_max_end(spans.drop_first());
        if spans[0].end_time_unix_nano >= rest {
            spans[0].end_time_unix_nano
        } else {
            rest
        }
    }
}

proof fn lemma_bounds_cover(spans: Seq<SpanModel>)
    requires
        spans.len() > 0,
    ensures
        forall|i: int|
            0 <= i < spans.len() ==> spec_min_start(spans)
                <= (#[trigger] spans[i]).start_time_unix_nano,
        forall|i: int|
            0 <= i < spans.len() ==> (#[trigger] spans[i]).end_time_unix_nano <= spec_max_end(
                spans,
            ),
        exists|i: int| 0 <= i < spans.len() && spec_min_start(spans) == (#[trigger] spans[i]).start_time_unix_nano,
        exists|i: int| 0 <= i < spans.len() && spec_max_end(spans) == (#[trigger] spans[i]).end_time_unix_nano,
    decreases spans.len(),
{
    if spans.len() > 1 {
        lemma_bounds_cover(spans.drop_first());
        assert forall|i: int| 0 <= i < spans.len() implies spec_min_start(spans)
            <= (#[trigger] spans[i]).start_time_unix_nano && (#[trigger] spans[i]).end_time_unix_nano
            <= spec_max_end(spans) by {
            if i > 0 {
                assert(spans.drop_first()[i - 1] == spans[i]);
            }
        }
        if spec_min_start(spans) != spans[0].start_time_unix_nano {
            let k = choose|k: int|
                0 <= k < spans.drop_first().len() && spec_min_start(spans.drop_first()) == (
                #[trigger] spans.drop_first()[k]).start_time_unix_nano;
            assert(spans[k + 1] == spans.drop_first()[k]);
        }
        if spec_max_end(spans) != spans[0].end_time_unix_nano {
            let k = choose|k: int|
                0 <= k < spans.drop_first().len() && spec_max_end(spans.drop_first()) == (
                #[trigger] spans.drop_first()[k]).end_time_unix_nano;
            assert(spans[k + 1] == spans.drop_first()[k]);
        }
    }
}

/// The rendering window of a trace: the least start time across all its
/// spans and the overall duration to the greatest end time.  An empty
/// trace has no window.
pub fn trace_bounds(spans: &Vec<Span>) -> (r: Option<(u64, u64)>)
    requires
        forall|i: int|
            0 <= i < spans@.len() ==> (#[trigger] spans.deep_view()[i]).start_time_unix_nano
                <= spans.deep_view()[i].end_time_unix_nano,
    ensures
        r is Some <==> spans@.len() > 0,
        r matches Some(b) ==> b.0 == spec_min_start(spans.deep_view()) && b.0 + b.1
            == spec_max_end(spans.deep_view()),
{
    let ghost m = spans.deep_view();
    let n = spans.len();
    if n == 0 {
        return None;
    }
    let mut min_start = spans[0].start_time_unix_nano;
    let mut max_end = spans[0].end_time_unix_nano;
    let mut i: usize = 1;
    while i < n
        invariant
            1 <= i <= n,
            n == spans@.len(),
            m == spans.deep_view(),
            min_start == spec_min_start(m.subrange(0, i as int)),
            max_end == spec_max_end(m.subrange(0, i as int)),
        decreases n - i,
    {
        proof {
            lemma_bounds_step(m, i as int);
        }
        if spans[i].start_time_unix_nano < min_start {
            min_start = spans[i].start_time_unix_nano;
        }
        if spans[i].end_time_unix_nano > max_end {
            max_end = spans[i].end_time_unix_nano;
        }
        i += 1;
    }
    proof {
        assert(m.subrange(0, n as int) =~= m);
        lemma_bounds_cover(m);
        let k = choose|k: int|
            0 <= k < m.len() && spec_max_end(m) == (#[trigger] m[k]).end_time_unix_nano;
        assert(spec_min_start(m) <= m[k].start_time_unix_nano);
    }
    Some((min_start, max_end - min_start))
}

/// Extending the prefix by one span takes the lesser start and greater
/// end.
proof fn lemma_bounds_step(m: Seq<SpanModel>, i: int)
    requires
        1 <= i < m.len(),
    ensures
        spec_min_start(m.subrange(0, i + 1)) == (if m[i].start_time_unix_nano < spec_min_start(
            m.subrange(0, i),
        ) {
            m[i].start_time_unix_nano
        } else {
            spec_min_start(m.subrange(0, i))
        }),
        spec_max_end(m.subrange(0, i + 1)) == (if m[i].end_time_unix_nano > spec_max_end(
            m.subrange(0, i),
        ) {
            m[i].end_time_unix_nano
        } else {
            spec_max_end(m.subrange(0, i))
        }),
    decreases i,
{
    if i == 1 {
        assert(m.subrange(0, 2).drop_first() =~= m.subrange(1, 2));
        assert(m.subrange(0, 2)[0] == m[0]);
        assert(m.subrange(1, 2)[0] == m[1]);
        assert(m.subrange(0, 1)[0] == m[0]);
        assert(spec_min_start(m.subrange(1, 2)) == m[1].start_time_unix_nano);
        assert(spec_max_end(m.subrange(1, 2)) == m[1].end_time_unix_nano);
        assert(spec_min_start(m.subrange(0, 1)) == m[0].start_time_unix_nano);
        assert(spec_max_end(m.subrange(0, 1)) == m[0].end_time_unix_nano);
    } else {
        lemma_bounds_step(m.drop_first(), i - 1);
        assert(m.subrange(0, i + 1).drop_first() =~= m.drop_first().subrange(0, i));
        assert(m.subrange(0, i).drop_first() =~= m.drop_first().subrange(0, i - 1));
        assert(m.drop_first().subrange(0, i)[i - 1] == m[i]);
        assert(m.subrange(0, i + 1)[0] == m[0]);
        assert(m.subrange(0, i)[0] == m[0]);
    }
}

/// The span's interval fits the rendering window and its event
/// timestamps do not precede its start.
pub open spec fn span_in_window(s: SpanModel, min: u64, total: u64) -> bool {
    &&& min <= s.start_time_unix_nano
    &&& s.start_time_unix_nano <= s.end_time_unix_nano
    &&& s.end_time_unix_nano <= min + total
    &&& forall|e: int|
        0 <= e < s.events.len() ==> s.start_time_unix_nano
            <= #[trigger] s.events[e].time_unix_nano
}

/// Every span of the node's tree fits the rendering window.
pub open spec fn node_in_window(n: NodeModel, min: u64, total: u64) -> bool
    decreases n,
{
    span_in_window(n.span, min, total) && forest_in_window(n.children, min, total)
}

/// Every span of the forest fits the rendering window.
pub open spec fn forest_in_window(f: Seq<NodeModel>, min: u64, total: u64) -> bool
    decreases f,
{
    if f.len() == 0 {
        true
    } else {
        node_in_window(f[0], min, total) && forest_in_window(f.drop_first(), min, total)
    }
}

proof fn lemma_forest_in_window_index(f: Seq<NodeModel>, min: u64, total: u64)
    requires
        forest_in_window(f, min, total),
    ensures
        forall|i: int| 0 <= i < f.len() ==> node_in_window(#[trigger] f[i], min, total),
    decreases f.len(),
{
    if f.len() > 0 {
        lemma_forest_in_window_index(f.drop_first(), min, total);
        assert forall|i: int| 0 <= i < f.len() implies node_in_window(#[trigger] f[i], min, total) by {
            if i > 0 {
                assert(f.drop_first()[i - 1] == f[i]);
            }
        }
    }
}

/// One more than the deepest chain of children under the node.
pub open spec fn node_height(n: NodeModel) -> nat
    decreases n,
{
    1 + forest_height(n.children)
}

/// The deepest chain of children in the forest.
pub open spec fn forest_height(f: Seq<NodeModel>) -> nat
    decreases f,
{
    if f.len() == 0 {
        0
    } else {
        let h0 = node_height(f[0]);
        let hr = forest_height(f.drop_first());
        if h0 > hr {
            h0
        } else {
            hr
        }
    }
}

proof fn lemma_forest_height_index(f: Seq<NodeModel>)
    ensures
        forall|i: int| 0 <= i < f.len() ==> node_height(#[trigger] f[i]) <= forest_height(f),
    decreases f.len(),
{
    if f.len() > 0 {
        lemma_forest_height_index(f.drop_first());
        assert forall|i: int| 0 <= i < f.len() implies node_height(#[trigger] f[i])
            <= forest_height(f) by {
            if i > 0 {
                assert(f.drop_first()[i - 1] == f[i]);
            }
        }
    }
}

/// The number of spans in the node's tree.
pub open spec fn node_span_count(n: NodeModel) -> nat
    decreases n,
{
    1 + forest_span_count(n.children)
}

/// The number of spans in the forest.
pub open spec fn forest_span_count(f: Seq<NodeModel>) -> nat
    decreases f,
{
    if f.len() == 0 {
        0nat
    } else {
        node_span_count(f[0]) + forest_span_count(f.drop_first())
    }
}

/// The number of events on spans in the node's tree.
pub open spec fn node_event_count(n: NodeModel) -> nat
    decreases n,
{
    n.span.events.len() + forest_event_count(n.children)
}

/// The number of events on spans in the forest.
pub open spec fn forest_event_count(f: Seq<NodeModel>) -> nat
    decreases f,
{
    if f.len() == 0 {
        0nat
    } else {
        node_event_count(f[0]) + forest_event_count(f.drop_first())
    }
}

proof fn lemma_tree_len(spans: Seq<SpanModel>, i: int, fuel: nat)
    requires
        0 <= i < spans.len(),
    ensures
        node_span_count(spec_node(spans, i, fuel)) == crate::tree::tree_indices(
            spans,
            i,
            fuel,
        ).len(),
    decreases fuel, 0int, 0int,
{
    broadcast use vstd::multiset::group_multiset_axioms;

    if fuel == 0 {
        assert(forest_span_count(spec_node(spans, i, fuel).children) == 0);
    } else {
        crate::tree::lemma_child_indices_upto_props(spans, i, spans.len() as int);
        let cs = crate::tree::child_indices(spans, i);
        lemma_subforest_len(spans, cs, (fuel - 1) as nat);
        assert(spec_node(spans, i, fuel).children =~= cs.map_values(
            |j: int| spec_node(spans, j, (fuel - 1) as nat),
        ));
    }
}

proof fn lemma_subforest_len(spans: Seq<SpanModel>, idxs: Seq<int>, fuel: nat)
    requires
        forall|t: int| 0 <= t < idxs.len() ==> 0 <= #[trigger] idxs[t] < spans.len(),
    ensures
        forest_span_count(idxs.map_values(|j: int| spec_node(spans, j, fuel)))
            == crate::tree::subforest_indices(spans, idxs, fuel).len(),
    decreases fuel, 1int, idxs.len(),
{
    broadcast use vstd::multiset::group_multiset_axioms;

    let mapped = idxs.map_values(|j: int| spec_node(spans, j, fuel));
    if idxs.len() == 0 {
        assert(mapped.len() == 0);
    } else {
        lemma_tree_len(spans, idxs[0], fuel);
        assert forall|t: int| 0 <= t < idxs.drop_first().len() implies 0 <= #[trigger] idxs.drop_first()[t]
            < spans.len() by {
            assert(idxs.drop_first()[t] == idxs[t + 1]);
        }
        lemma_subforest_len(spans, idxs.drop_first(), fuel);
        assert(mapped.drop_first() =~= idxs.drop_first().map_values(
            |j: int| spec_node(spans, j, fuel),
        ));
        assert(mapped[0] == spec_node(spans, idxs[0], fuel));
    }
}

/// Partition, completed: the forest of an acyclic trace holds exactly
/// one node per input span — none lost, none duplicated.
pub proof fn lemma_forest_span_count_complete(spans: Seq<SpanModel>)
    requires
        crate::tree::acyclic(spans),
    ensures
        forest_span_count(spec_forest(spans)) == spans.len(),
{
    broadcast use vstd::multiset::group_multiset_axioms;

    let rs = crate::tree::root_indices(spans);
    crate::tree::lemma_root_indices_props(spans);
    lemma_subforest_len(spans, rs, spans.len() as nat);
    assert(spec_forest(spans) =~= rs.map_values(
        |j: int| spec_node(spans, j, spans.len() as nat),
    ));

    crate::tree::lemma_forest_indices_exactly_once(spans);
    let fi = crate::tree::forest_indices(spans);
    let ident = Seq::new(spans.len(), |i: int| i);
    assert(ident.no_duplicates());
    assert forall|x: int| fi.count(x) == ident.to_multiset().count(x) by {
        broadcast use vstd::seq_lib::group_to_multiset_ensures;

        if 0 <= x < spans.len() {
            assert(ident[x] == x);
            assert(ident.contains(x));
            ident.lemma_multiset_has_no_duplicates();
            assert(ident.to_multiset().count(x) == 1);
        } else {
            assert(!ident.contains(x));
            assert(ident.to_multiset().count(x) == 0);
        }
    }
    assert(fi =~= ident.to_multiset());
    assert(ident.to_multiset().len() == ident.len()) by {
        broadcast use vstd::seq_lib::group_to_multiset_ensures;

    }
}

/// `s` padded on the left with spaces up to `w` characters; `s` unchanged
/// when it is already that long.
pub open spec fn spec_pad_left(s: Seq<char>, w: int) -> Seq<char> {
    if s.len() >= w {
        s
    } else {
        char_run(' ', w - s.len()) + s
    }
}

/// The horizontal bar for a span: its gray duration label on the roomier
/// side of a run of fill glyphs that covers the span's scaled interval,
/// the whole positioned at the interval's scaled start.  An interval that
/// scales to no width at all is shown as one light glyph instead.
pub open spec fn spec_bar(s: SpanModel, w_dur: int, min: u64, total: u64) -> Seq<char> {
    let pos = spec_scale(s.start_time_unix_nano - min, w_dur, total as int);
    let width = spec_scale(s.end_time_unix_nano - s.start_time_unix_nano, w_dur, total as int);
    let human = spec_gray(human_of((s.end_time_unix_nano - s.start_time_unix_nano) as u64));
    let left = if pos > w_dur / 2 {
        human + seq![' ']
    } else {
        Seq::<char>::empty()
    };
    let right = if pos > w_dur / 2 {
        Seq::<char>::empty()
    } else {
        seq![' '] + human
    };
    let fill = if width > 0 {
        char_run('\u{2593}', width)
    } else {
        char_run('\u{2592}', 1)
    };
    spec_pad_left(left, pos) + fill + right
}

/// The line for one span: the preorder marker, the error marker when the
/// span failed, the indented name truncated to the name column (narrowed
/// by the marker's three columns on failure), padding to the column edge,
/// the separator, and the bar.
pub open spec fn spec_span_line(
    s: SpanModel,
    indent: int,
    w_names: int,
    w_dur: int,
    min: u64,
    total: u64,
) -> Seq<char> {
    let w = if s.status is Error {
        w_names - 3
    } else {
        w_names
    };
    let marker: Seq<char> = if s.status is Error {
        "\x1b[1;38;5;160m\u{24D8}  \x1b[0m"@
    } else {
        Seq::<char>::empty()
    };
    let trimmed = spec_truncate(char_run(' ', indent) + s.name, w - 2);
    "> "@ + marker + trimmed + char_run(' ', w - trimmed.len()) + " \u{23D0} "@ + spec_bar(
        s,
        w_dur,
        min,
        total,
    )
}

/// The line for one event: no bar, only the event's name and its gray
/// offset from the owning span's start, aligned under the duration
/// column.
pub open spec fn spec_event_line(e: EventModel, start: u64, w_names: int) -> Seq<char> {
    "_ "@ + char_run(' ', w_names) + " \u{23D0} "@ + spec_gray(
        e.name + " (+"@ + human_of((e.time_unix_nano - start) as u64) + ")"@,
    )
}

/// The lines for a span's events, in order.
pub open spec fn spec_event_lines(events: Seq<EventModel>, start: u64, w_names: int) -> Seq<
    Seq<char>,
> {
    Seq::new(events.len(), |i: int| spec_event_line(events[i], start, w_names))
}

/// The lines for one node's tree, preorder: the span's line, its events'
/// lines, then the children's lines one level deeper.
pub open spec fn spec_node_lines(
    n: NodeModel,
    indent: int,
    w_names: int,
    w_dur: int,
    min: u64,
    total: u64,
) -> Seq<Seq<char>>
    decreases n,
{
    seq![spec_span_line(n.span, indent, w_names, w_dur, min, total)] + spec_event_lines(
        n.span.events,
        n.span.start_time_unix_nano,
        w_names,
    ) + spec_forest_lines(n.children, indent + 1, w_names, w_dur, min, total)
}

/// The lines for a forest, preorder, in forest order.
pub open spec fn spec_forest_lines(
    f: Seq<NodeModel>,
    indent: int,
    w_names: int,
    w_dur: int,
    min: u64,
    total: u64,
) -> Seq<Seq<char>>
    decreases f,
{
    if f.len() == 0 {
        Seq::empty()
    } else {
        spec_node_lines(f[0], indent, w_names, w_dur, min, total) + spec_forest_lines(
            f.drop_first(),
            indent,
            w_names,
            w_dur,
            min,
            total,
        )
    }
}

proof fn lemma_forest_lines_add(
    f1: Seq<NodeModel>,
    f2: Seq<NodeModel>,
    indent: int,
    w_names: int,
    w_dur: int,
    min: u64,
    total: u64,
)
    ensures
        spec_forest_lines(f1 + f2, indent, w_names, w_dur, min, total) == spec_forest_lines(
            f1,
            indent,
            w_names,
            w_dur,
            min,
            total,
        ) + spec_forest_lines(f2, indent, w_names, w_dur, min, total),
    decreases f1.len(),
{
    if f1.len() == 0 {
        assert(f1 + f2 =~= f2);
        assert(spec_forest_lines(f1, indent, w_names, w_dur, min, total) + spec_forest_lines(
            f2,
            indent,
            w_names,
            w_dur,
            min,
            total,
        ) =~= spec_forest_lines(f2, indent, w_names, w_dur, min, total));
    } else {
        lemma_forest_lines_add(f1.drop_first(), f2, indent, w_names, w_dur, min, total);
        assert((f1 + f2).drop_first() =~= f1.drop_first() + f2);
        assert((f1 + f2)[0] == f1[0]);
        assert(spec_forest_lines(f1 + f2, indent, w_names, w_dur, min, total)
            =~= spec_forest_lines(f1, indent, w_names, w_dur, min, total) + spec_forest_lines(
            f2,
            indent,
            w_names,
            w_dur,
            min,
            total,
        ));
    }
}

/// `s` padded on the left with spaces up to `w` characters.
fn pad_left(s: String, w: usize) -> (r: String)
    ensures
        r@ == spec_pad_left(s@, w as int),
{
    let len = s.as_str().unicode_len();
    if len >= w {
        s
    } else {
        let mut r = spaces(w - len);
        r.append(s.as_str());
        r
    }
}

impl Renderer {
    /// The horizontal bar for one span, with its gray duration label.
    fn bar(&self, span: &Span) -> (r: String)
        requires
            span_in_window(span@, self.min_start_time, self.total_duration),
        ensures
            r@ == spec_bar(span@, self.w_durations as int, self.min_start_time,
            self.total_duration),
    {
        let pos = self.scale(span.start_time_unix_nano - self.min_start_time);
        let width = self.scale(span.end_time_unix_nano - span.start_time_unix_nano);
        let human = gray(
            human_duration(span.end_time_unix_nano - span.start_time_unix_nano).as_str(),
        );
        let left_filled = pos > self.w_durations / 2;
        let mut left = String::new();
        let mut right = String::new();
        if left_filled {
            left.append(human.as_str());
            left.append(" ");
        } else {
            right.append(" ");
            right.append(human.as_str());
        }
        proof {
            reveal_strlit(" ");
            assert(" "@ =~= seq![' ']);
        }
        let mut bar = pad_left(left, pos);
        if width > 0 {
            append_solid_run(&mut bar, width);
        } else {
            bar.append("\u{2592}");
            proof {
                reveal_strlit("\u{2592}");
                assert("\u{2592}"@ =~= char_run('\u{2592}', 1));
            }
        }
        bar.append(right.as_str());
        proof {
            assert(bar@ =~= spec_bar(span@, self.w_durations as int, self.min_start_time,
            self.total_duration));
        }
        bar
    }

    /// The formatted line for one span at the given indentation level.
    fn span_line(&self, span: &Span, indent: usize) -> (r: String)
        requires
            self.wf(),
            span_in_window(span@, self.min_start_time, self.total_duration),
        ensures
            r@ == spec_span_line(span@, indent as int, self.w_names as int,
            self.w_durations as int, self.min_start_time, self.total_duration),
    {
        let is_err = match span.status {
            SpanStatus::Error => true,
            _ => false,
        };
        let w = if is_err {
            self.w_names - 3
        } else {
            self.w_names
        };
        let mut name_part = spaces(indent);
        name_part.append(span.name.as_str());
        let trimmed = truncate(name_part.as_str(), w - 2);
        let trimmed_len = trimmed.as_str().unicode_len();
        proof {
            crate::textfmt::lemma_truncate_bound(name_part@, w as int - 2);
        }
        let mut line = String::new();
        line.append("> ");
        if is_err {
            line.append("\x1b[1;38;5;160m\u{24D8}  \x1b[0m");
        }
        line.append(trimmed.as_str());
        let pad = spaces(w - trimmed_len);
        line.append(pad.as_str());
        line.append(" \u{23D0} ");
        let bar = self.bar(span);
        line.append(bar.as_str());
        proof {
            assert(line@ =~= spec_span_line(span@, indent as int, self.w_names as int,
            self.w_durations as int, self.min_start_time, self.total_duration));
        }
        line
    }

    /// The formatted line for one event of a span that starts at `start`.
    fn event_line(&self, event: &Event, start: u64) -> (r: String)
        requires
            start <= event.time_unix_nano,
        ensures
            r@ == spec_event_line(event@, start, self.w_names as int),
    {
        let mut msg = String::new();
        msg.append(event.name.as_str());
        msg.append(" (+");
        msg.append(human_duration(event.time_unix_nano - start).as_str());
        msg.append(")");
        let styled = gray(msg.as_str());
        let mut line = String::new();
        line.append("_ ");
        let pad = spaces(self.w_names);
        line.append(pad.as_str());
        line.append(" \u{23D0} ");
        line.append(styled.as_str());
        proof {
            assert(line@ =~= spec_event_line(event@, start, self.w_names as int));
        }
        line
    }

    /// Appends the lines for the forest, preorder, to `out`.
    fn render_into(&self, nodes: &Vec<Node>, indent: usize, out: &mut Vec<String>)
        requires
            self.wf(),
            forest_in_window(forest_model(nodes@), self.min_start_time, self.total_duration),
            indent + forest_height(forest_model(nodes@)) <= usize::MAX,
        ensures
            final(out).deep_view() == old(out).deep_view() + spec_forest_lines(
                forest_model(nodes@),
                indent as int,
                self.w_names as int,
                self.w_durations as int,
                self.min_start_time,
                self.total_duration,
            ),
        decreases nodes@,
    {
        let ghost fm = forest_model(nodes@);
        let ghost wn = self.w_names as int;
        let ghost wd = self.w_durations as int;
        let ghost mn = self.min_start_time;
        let ghost tt = self.total_duration;
        proof {
            lemma_forest_model_index(nodes@);
            lemma_forest_in_window_index(fm, mn, tt);
            lemma_forest_height_index(fm);
            assert(out.deep_view() + spec_forest_lines(fm.subrange(0, 0), indent as int, wn, wd,
            mn, tt) =~= out.deep_view());
        }
        let n = nodes.len();
        let mut i: usize = 0;
        while i < n
            invariant
                i <= n,
                n == nodes@.len(),
                self.wf(),
                fm == forest_model(nodes@),
                wn == self.w_names as int,
                wd == self.w_durations as int,
                mn == self.min_start_time,
                tt == self.total_duration,
                fm.len() == n,
                forall|k: int| 0 <= k < n ==> #[trigger] fm[k] == crate::tree::node_model(
                    nodes@[k],
                ),
                forall|k: int| 0 <= k < n ==> node_in_window(#[trigger] fm[k], mn, tt),
                forall|k: int| 0 <= k < n ==> node_height(#[trigger] fm[k]) <= forest_height(fm),
                indent + forest_height(fm) <= usize::MAX,
                out.deep_view() == old(out).deep_view() + spec_forest_lines(
                    fm.subrange(0, i as int),
                    indent as int,
                    wn,
                    wd,
                    mn,
                    tt,
                ),
            decreases n - i,
        {
            let ghost before = out.deep_view();
            let ghost node = fm[i as int];
            let line = self.span_line(&nodes[i].span, indent);
            out.push(line);
            proof {
                assert(nodes@[i as int].span@ == node.span);
                assert(out.deep_view() =~= before + seq![
                    spec_span_line(node.span, indent as int, wn, wd, mn, tt),
                ]);
            }
            let num_events = nodes[i].span.events.len();
            let mut e: usize = 0;
            proof {
                assert(spec_event_lines(node.span.events, node.span.start_time_unix_nano,
                wn).subrange(0, 0) =~= Seq::<Seq<char>>::empty());
                assert(before + seq![spec_span_line(node.span, indent as int, wn, wd, mn, tt)]
                    + spec_event_lines(node.span.events, node.span.start_time_unix_nano,
                wn).subrange(0, 0) =~= out.deep_view());
            }
            while e < num_events
                invariant
                    e <= num_events,
                    i < n,
                    n == nodes@.len(),
                    num_events == nodes@[i as int].span.events@.len(),
                    node == fm[i as int],
                    node == crate::tree::node_model(nodes@[i as int]),
                    node_in_window(node, mn, tt),
                    wn == self.w_names as int,
                    node.span.events.len() == num_events,
                    out.deep_view() == before + seq![
                        spec_span_line(node.span, indent as int, wn, wd, mn, tt),
                    ] + spec_event_lines(node.span.events, node.span.start_time_unix_nano,
                    wn).subrange(0, e as int),
                decreases num_events - e,
            {
                proof {
                    assert(span_in_window(node.span, mn, tt));
                    assert(node.span.events[e as int].time_unix_nano
                        >= node.span.start_time_unix_nano);
                    assert(nodes@[i as int].span.events@[e as int]@ == node.span.events[e as int]);
                    assert(nodes@[i as int].span.start_time_unix_nano
                        == node.span.start_time_unix_nano);
                }
                let ev = self.event_line(&nodes[i].span.events[e], nodes[i].span.start_time_unix_nano);
                let ghost prev_dv = out.deep_view();
                out.push(ev);
                proof {
                    assert(nodes@[i as int].span.events@[e as int]@ == node.span.events[e as int]);
                    assert(ev@ == spec_event_line(node.span.events[e as int],
                    node.span.start_time_unix_nano, wn));
                    assert(out.deep_view() =~= prev_dv.push(ev@));
                    assert(spec_event_lines(node.span.events, node.span.start_time_unix_nano,
                    wn)[e as int] == ev@);
                    assert(prev_dv.push(ev@) =~= before + seq![
                        spec_span_line(node.span, indent as int, wn, wd, mn, tt),
                    ] + spec_event_lines(node.span.events, node.span.start_time_unix_nano,
                    wn).subrange(0, e as int + 1));
                }
                e += 1;
            }
            proof {
                assert(spec_event_lines(node.span.events, node.span.start_time_unix_nano,
                wn).subrange(0, num_events as int) =~= spec_event_lines(node.span.events,
                node.span.start_time_unix_nano, wn));
                assert(decreases_to!(nodes@ => nodes@[i as int]));
                assert(decreases_to!(nodes@[i as int] => nodes@[i as int].children));
                assert(decreases_to!(nodes@[i as int].children => nodes@[i as int].children@));
                assert(decreases_to!(nodes@ => nodes@[i as int].children@));
                assert(forest_model(nodes@[i as int].children@) == node.children);
                assert(node_height(node) >= 1 + forest_height(node.children));
            }
            self.render_into(&nodes[i].children, indent + 1, out);
            proof {
                let node_lines = spec_node_lines(node, indent as int, wn, wd, mn, tt);
                assert(out.deep_view() =~= before + node_lines);
                assert(fm.subrange(0, i as int + 1) =~= fm.subrange(0, i as int) + seq![node]);
                lemma_forest_lines_add(fm.subrange(0, i as int), seq![node], indent as int, wn,
                wd, mn, tt);
                assert(seq![node].drop_first() =~= Seq::<NodeModel>::empty());
                assert(seq![node][0] == node);
                assert(spec_forest_lines(Seq::<NodeModel>::empty(), indent as int, wn, wd, mn, tt)
                    =~= Seq::<Seq<char>>::empty());
                assert(spec_forest_lines(seq![node], indent as int, wn, wd, mn, tt)
                    =~= node_lines);
                assert(out.deep_view() =~= old(out).deep_view() + spec_forest_lines(
                    fm.subrange(0, i as int + 1),
                    indent as int,
                    wn,
                    wd,
                    mn,
                    tt,
                ));
            }
            i += 1;
        }
        proof {
            assert(fm.subrange(0, n as int) =~= fm);
        }
    }

    /// Walks the forest depth-first, preorder, and emits one formatted
    /// line per span plus one per event; children are one indentation
    /// level deeper than their parent.
    pub fn render(&self, nodes: &Vec<Node>, indent: usize) -> (lines: Vec<String>)
        requires
            self.wf(),
            forest_in_window(forest_model(nodes@), self.min_start_time, self.total_duration),
            indent + forest_height(forest_model(nodes@)) <= usize::MAX,
        ensures
            lines.deep_view() == spec_forest_lines(
                forest_model(nodes@),
                indent as int,
                self.w_names as int,
                self.w_durations as int,
                self.min_start_time,
                self.total_duration,
            ),
    {
        let mut out: Vec<String> = Vec::new();
        proof {
            assert(out.deep_view() =~= Seq::<Seq<char>>::empty());
        }
        self.render_into(nodes, indent, &mut out);
        proof {
            assert(out.deep_view() =~= spec_forest_lines(
                forest_model(nodes@),
                indent as int,
                self.w_names as int,
                self.w_durations as int,
                self.min_start_time,
                self.total_duration,
            ));
        }
        out
    }
}

/// A span whose interval is ordered and whose event timestamps do not
/// precede its start: what every input span must satisfy before
/// rendering.
pub open spec fn span_times_ok(s: SpanModel) -> bool {
    &&& s.start_time_unix_nano <= s.end_time_unix_nano
    &&& forall|e: int|
        0 <= e < s.events.len() ==> s.start_time_unix_nano
            <= #[trigger] s.events[e].time_unix_nano
}

/// A well-timed span fits the window spanned by its own trace's bounds.
pub proof fn lemma_bounds_in_window(m: Seq<SpanModel>, k: int, min: u64, total: u64)
    requires
        0 <= k < m.len(),
        min == spec_min_start(m),
        min + total == spec_max_end(m),
        span_times_ok(m[k]),
    ensures
        span_in_window(m[k], min, total),
{
    lemma_bounds_cover(m);
}

proof fn lemma_forest_in_window_build(f: Seq<NodeModel>, min: u64, total: u64)
    requires
        forall|t: int| 0 <= t < f.len() ==> node_in_window(#[trigger] f[t], min, total),
    ensures
        forest_in_window(f, min, total),
    decreases f.len(),
{
    if f.len() > 0 {
        assert forall|t: int| 0 <= t < f.drop_first().len() implies node_in_window(
            #[trigger] f.drop_first()[t],
            min,
            total,
        ) by {
            assert(f.drop_first()[t] == f[t + 1]);
        }
        lemma_forest_in_window_build(f.drop_first(), min, total);
    }
}

proof fn lemma_forest_height_build(f: Seq<NodeModel>, h: nat)
    requires
        forall|t: int| 0 <= t < f.len() ==> node_height(#[trigger] f[t]) <= h,
    ensures
        forest_height(f) <= h,
    decreases f.len(),
{
    if f.len() > 0 {
        assert forall|t: int| 0 <= t < f.drop_first().len() implies node_height(
            #[trigger] f.drop_first()[t],
        ) <= h by {
            assert(f.drop_first()[t] == f[t + 1]);
        }
        lemma_forest_height_build(f.drop_first(), h);
    }
}

proof fn lemma_spec_node_in_window(m: Seq<SpanModel>, i: int, fuel: nat, min: u64, total: u64)
    requires
        0 <= i < m.len(),
        forall|k: int| 0 <= k < m.len() ==> span_in_window(#[trigger] m[k], min, total),
    ensures
        node_in_window(spec_node(m, i, fuel), min, total),
    decreases fuel,
{
    let n = spec_node(m, i, fuel);
    if fuel == 0 {
        assert(forest_in_window(n.children, min, total));
    } else {
        crate::tree::lemma_child_indices_upto_props(m, i, m.len() as int);
        let cs = crate::tree::child_indices(m, i);
        assert forall|t: int| 0 <= t < n.children.len() implies node_in_window(
            #[trigger] n.children[t],
            min,
            total,
        ) by {
            lemma_spec_node_in_window(m, cs[t], (fuel - 1) as nat, min, total);
        }
        lemma_forest_in_window_build(n.children, min, total);
    }
}

proof fn lemma_spec_node_height(m: Seq<SpanModel>, i: int, fuel: nat)
    requires
        0 <= i < m.len(),
    ensures
        node_height(spec_node(m, i, fuel)) <= fuel + 1,
    decreases fuel,
{
    let n = spec_node(m, i, fuel);
    if fuel == 0 {
        assert(forest_height(n.children) == 0);
    } else {
        crate::tree::lemma_child_indices_upto_props(m, i, m.len() as int);
        let cs = crate::tree::child_indices(m, i);
        assert forall|t: int| 0 <= t < n.children.len() implies node_height(
            #[trigger] n.children[t],
        ) <= fuel by {
            lemma_spec_node_height(m, cs[t], (fuel - 1) as nat);
        }
        lemma_forest_height_build(n.children, fuel);
    }
}

/// Every span of the forest a well-timed trace denotes fits the trace's
/// own window.
pub proof fn lemma_spec_forest_in_window(m: Seq<SpanModel>, min: u64, total: u64)
    requires
        forall|k: int| 0 <= k < m.len() ==> span_in_window(#[trigger] m[k], min, total),
    ensures
        forest_in_window(spec_forest(m), min, total),
{
    crate::tree::lemma_root_indices_props(m);
    let f = spec_forest(m);
    let rs = crate::tree::root_indices(m);
    assert forall|t: int| 0 <= t < f.len() implies node_in_window(#[trigger] f[t], min, total) by {
        lemma_spec_node_in_window(m, rs[t], m.len(), min, total);
    }
    lemma_forest_in_window_build(f, min, total);
}

/// The forest a trace denotes is at most one level deeper than the trace
/// is long.
pub proof fn lemma_spec_forest_height(m: Seq<SpanModel>)
    ensures
        forest_height(spec_forest(m)) <= m.len() + 1,
{
    crate::tree::lemma_root_indices_props(m);
    let f = spec_forest(m);
    let rs = crate::tree::root_indices(m);
    assert forall|t: int| 0 <= t < f.len() implies node_height(#[trigger] f[t]) <= m.len()
        + 1 by {
        lemma_spec_node_height(m, rs[t], m.len());
    }
    lemma_forest_height_build(f, (m.len() + 1) as nat);
}

/// Line count: a forest renders to exactly one line per span plus one
/// line per event.
pub proof fn lemma_forest_line_count(
    f: Seq<NodeModel>,
    indent: int,
    w_names: int,
    w_dur: int,
    min: u64,
    total: u64,
)
    ensures
        spec_forest_lines(f, indent, w_names, w_dur, min, total).len() == forest_span_count(f)
            + forest_event_count(f),
    decreases f, 0nat,
{
    if f.len() > 0 {
        lemma_node_line_count(f[0], indent, w_names, w_dur, min, total);
        lemma_forest_line_count(f.drop_first(), indent, w_names, w_dur, min, total);
    }
}

/// Line count for one node's tree.
pub proof fn lemma_node_line_count(
    n: NodeModel,
    indent: int,
    w_names: int,
    w_dur: int,
    min: u64,
    total: u64,
)
    ensures
        spec_node_lines(n, indent, w_names, w_dur, min, total).len() == node_span_count(n)
            + node_event_count(n),
    decreases n, 1nat,
{
    lemma_forest_line_count(n.children, indent + 1, w_names, w_dur, min, total);
}

} // verus!
