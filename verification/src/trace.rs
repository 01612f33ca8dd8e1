//! The canonical in-memory representation of a trace: spans with timing,
//! status and events, and the stable ordering of a trace by start time.

use vstd::prelude::*;

verus! {

/// Outcome recorded on a span.
#[derive(Debug, Copy, Clone, PartialEq, Eq, Structural)]
pub enum SpanStatus {
    Unset,
    Okay,
    Error,
}

/// A named, timestamped point that occurred during a span.
#[derive(Debug, PartialEq)]
pub struct Event {
    pub time_unix_nano: u64,
    pub name: String,
}

/// A single timed operation: a unique id, a parent reference, a display
/// name, a time interval in nanoseconds, a status, and its events.
#[derive(Debug, PartialEq)]
pub struct Span {
    pub span_id: Vec<u8>,
    pub parent_span_id: Vec<u8>,
    pub name: String,
    pub start_time_unix_nano: u64,
    pub end_time_unix_nano: u64,
    pub status: SpanStatus,
    pub events: Vec<Event>,
}

/// Mathematical image of an [`Event`]: the same data over `Seq`.
pub ghost struct EventModel {
    pub time_unix_nano: u64,
    pub name: Seq<char>,
}

/// Mathematical image of a [`Span`]: the same data over `Seq`.
pub ghost struct SpanModel {
    pub span_id: Seq<u8>,
    pub parent_span_id: Seq<u8>,
    pub name: Seq<char>,
    pub start_time_unix_nano: u64,
    pub end_time_unix_nano: u64,
    pub status: SpanStatus,
    pub events: Seq<EventModel>,
}

impl View for Event {
    type V = EventModel;

    open spec fn view(&self) -> EventModel {
        EventModel { time_unix_nano: self.time_unix_nano, name: self.name@ }
    }
}

impl View for Span {
    type V = SpanModel;

    open spec fn view(&self) -> SpanModel {
        SpanModel {
            span_id: self.span_id@,
            parent_span_id: self.parent_span_id@,
            name: self.name@,
            start_time_unix_nano: self.start_time_unix_nano,
            end_time_unix_nano: self.end_time_unix_nano,
            status: self.status,
            events: self.events.deep_view(),
        }
    }
}

impl DeepView for Event {
    type V = EventModel;

    open spec fn deep_view(&self) -> EventModel {
        self.view()
    }
}

impl DeepView for Span {
    type V = SpanModel;

    open spec fn deep_view(&self) -> SpanModel {
        self.view()
    }
}

/// The complete set of spans belonging to one logical request.
#[derive(Debug, PartialEq)]
pub struct Trace {
    pub spans: Vec<Span>,
}

impl View for Trace {
    type V = Seq<SpanModel>;

    open spec fn view(&self) -> Seq<SpanModel> {
        self.spans.deep_view()
    }
}

/// Are the spans ordered by ascending start time?
pub open spec fn sorted_by_start(spans: Seq<SpanModel>) -> bool {
    forall|i: int, j: int|
        0 <= i < j < spans.len() ==> #[trigger] spans[i].start_time_unix_nano
            <= #[trigger] spans[j].start_time_unix_nano
}

/// The subsequence of spans that start at `t`, in order.
pub open spec fn with_start(spans: Seq<SpanModel>, t: u64) -> Seq<SpanModel>
    decreases spans.len(),
{
    if spans.len() == 0 {
        Seq::empty()
    } else if spans[0].start_time_unix_nano == t {
        seq![spans[0]] + with_start(spans.drop_first(), t)
    } else {
        with_start(spans.drop_first(), t)
    }
}

/// `with_start` distributes over concatenation.
proof fn lemma_with_start_add(a: Seq<SpanModel>, b: Seq<SpanModel>, t: u64)
    ensures
        with_start(a + b, t) == with_start(a, t) + with_start(b, t),
    decreases a.len(),
{
    if a.len() == 0 {
        assert(a + b =~= b);
        assert(with_start(a, t) + with_start(b, t) =~= with_start(b, t));
    } else {
        lemma_with_start_add(a.drop_first(), b, t);
        assert((a + b).drop_first() =~= a.drop_first() + b);
        assert((a + b)[0] == a[0]);
        if a[0].start_time_unix_nano == t {
            assert(seq![a[0]] + (with_start(a.drop_first(), t) + with_start(b, t)) =~= (seq![a[0]]
                + with_start(a.drop_first(), t)) + with_start(b, t));
        }
    }
}

/// A sequence none of whose spans start at `t` contributes nothing.
proof fn lemma_with_start_none(a: Seq<SpanModel>, t: u64)
    requires
        forall|k: int| 0 <= k < a.len() ==> #[trigger] a[k].start_time_unix_nano != t,
    ensures
        with_start(a, t) == Seq::<SpanModel>::empty(),
    decreases a.len(),
{
    if a.len() > 0 {
        lemma_with_start_none(a.drop_first(), t);
    }
}

impl Trace {
    /// The same spans reordered by ascending start time.  The sort is
    /// stable: spans with equal start times keep their relative input
    /// order, which the second `ensures` clause states start time by
    /// start time.
    pub fn sorted(&self) -> (r: Self)
        ensures
            r@.len() == self@.len(),
            sorted_by_start(r@),
            forall|t: u64| with_start(r@, t) == with_start(self@, t),
    {
        let ghost input = self@;
        let n = self.spans.len();
        let mut out: Vec<Span> = Vec::new();
        let mut j: usize = 0;
        proof {
            assert(input.subrange(0, 0) =~= Seq::<SpanModel>::empty());
        }
        while j < n
            invariant
                j <= n,
                n == self.spans@.len(),
                input == self@,
                out@.len() == j,
                sorted_by_start(out.deep_view()),
                forall|t: u64| #[trigger] with_start(out.deep_view(), t) == with_start(
                    input.subrange(0, j as int),
                    t,
                ),
            decreases n - j,
        {
            let ghost old_dv = out.deep_view();
            let s = self.spans[j].clone();
            let start = s.start_time_unix_nano;
            let mut p = out.len();
            while p > 0 && out[p - 1].start_time_unix_nano > start
                invariant
                    p <= out@.len(),
                    out.deep_view() == old_dv,
                    sorted_by_start(old_dv),
                    forall|k: int|
                        p <= k < old_dv.len() ==> #[trigger] old_dv[k].start_time_unix_nano
                            > start,
                decreases p,
            {
                p -= 1;
            }
            proof {
                assert forall|k: int| 0 <= k < p implies #[trigger] old_dv[k].start_time_unix_nano
                    <= start by {
                    assert(old_dv[p as int - 1] == out@[p as int - 1]@);
                    assert(old_dv[p as int - 1].start_time_unix_nano <= start);
                    if k < p as int - 1 {
                        assert(old_dv[k].start_time_unix_nano <= old_dv[p as int
                            - 1].start_time_unix_nano);
                    }
                }
            }
            out.insert(p, s);
            proof {
                let new_dv = out.deep_view();
                let front = old_dv.subrange(0, p as int);
                let back = old_dv.subrange(p as int, old_dv.len() as int);
                assert(new_dv =~= (front + seq![input[j as int]]) + back);
                assert forall|t: u64| #[trigger]
                    with_start(new_dv, t) == with_start(input.subrange(0, j as int + 1), t) by {
                    lemma_with_start_add(front + seq![input[j as int]], back, t);
                    lemma_with_start_add(front, seq![input[j as int]], t);
                    lemma_with_start_add(front, back, t);
                    assert(old_dv =~= front + back);
                    let prefix = input.subrange(0, j as int);
                    lemma_with_start_add(prefix, seq![input[j as int]], t);
                    assert(input.subrange(0, j as int + 1) =~= prefix + seq![input[j as int]]);
                    assert(seq![input[j as int]].drop_first() =~= Seq::<SpanModel>::empty());
                    assert(seq![input[j as int]][0] == input[j as int]);
                    assert(with_start(Seq::<SpanModel>::empty(), t) == Seq::<
                        SpanModel,
                    >::empty());
                    reveal_with_fuel(with_start, 3);
                    if t == start {
                        lemma_with_start_none(back, t);
                        assert(with_start(seq![input[j as int]], t) =~= seq![input[j as int]]);
                    } else {
                        assert(with_start(seq![input[j as int]], t) =~= Seq::<
                            SpanModel,
                        >::empty());
                    }
                    assert(with_start(new_dv, t) =~= with_start(
                        input.subrange(0, j as int + 1),
                        t,
                    ));
                }
                assert forall|a: int, b: int| 0 <= a < b < new_dv.len() implies #[trigger] new_dv[a].start_time_unix_nano
                    <= #[trigger] new_dv[b].start_time_unix_nano by {
                    assert(new_dv[p as int] == input[j as int]);
                }
            }
            j += 1;
        }
        proof {
            assert(input.subrange(0, n as int) =~= input);
        }
        Trace { spans: out }
    }
}

impl Span {
    /// The span's unique identifier within its trace.
    pub fn id(&self) -> (r: Vec<u8>)
        ensures
            r@ == self@.span_id,
    {
        let r = self.span_id.clone();
        proof {
            assert(r@ =~= self.span_id@);
        }
        r
    }

    /// The identifier of the span this span names as its parent; empty
    /// when it names none.
    pub fn parent_id(&self) -> (r: Vec<u8>)
        ensures
            r@ == self@.parent_span_id,
    {
        let r = self.parent_span_id.clone();
        proof {
            assert(r@ =~= self.parent_span_id@);
        }
        r
    }
}

impl Clone for Event {
    fn clone(&self) -> (res: Self)
        ensures
            res@ == self@,
    {
        Event { time_unix_nano: self.time_unix_nano, name: self.name.clone() }
    }
}

impl Clone for Span {
    fn clone(&self) -> (res: Self)
        ensures
            res@ == self@,
    {
        let res = Span {
            span_id: self.span_id.clone(),
            parent_span_id: self.parent_span_id.clone(),
            name: self.name.clone(),
            start_time_unix_nano: self.start_time_unix_nano,
            end_time_unix_nano: self.end_time_unix_nano,
            status: self.status,
            events: self.events.clone(),
        };
        proof {
            assert(res.span_id@ =~= self.span_id@);
            assert(res.parent_span_id@ =~= self.parent_span_id@);
            assert(res.events.deep_view() =~= self.events.deep_view());
        }
        res
    }
}

impl Clone for Trace {
    fn clone(&self) -> (res: Self)
        ensures
            res@ == self@,
    {
        let res = Trace { spans: self.spans.clone() };
        proof {
            assert(res@ =~= self@);
        }
        res
    }
}

} // verus!
