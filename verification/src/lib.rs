//! Renders a distributed-trace dump (a flat collection of timed, causally
//! related spans) as a hierarchical timeline for a terminal.
//!
//! The crate reconstructs the parent/child call tree from a flat span list
//! whose only relationship is a parent-id reference, and proportionally lays
//! out each span's time interval onto a fixed-width terminal column.
//! Input decoding from a trace-dump file and all terminal I/O live outside
//! this library; the library works on plain `Trace` values.

pub mod jaeger;
pub mod render;
pub mod trace;
pub mod textfmt;
pub mod tree;

use vstd::prelude::*;

verus! {

/// Wire formats a trace dump can be read from.
#[derive(Debug, Copy, Clone, PartialEq, Eq, Structural)]
pub enum Format {
    Jaeger,
    OTEL,
}

impl Format {
    /// The format's name as it is written on the command line.
    pub fn name(&self) -> (r: String)
        ensures
            *self is Jaeger ==> r@ == "jaeger"@,
            *self is OTEL ==> r@ == "otel"@,
    {
        match self {
            Format::Jaeger => String::new().concat("jaeger"),
            Format::OTEL => String::new().concat("otel"),
        }
    }
}

/// Renders a whole trace: computes the trace's time window, builds the
/// forest, and lays it out for a terminal `columns` columns wide with a
/// name column of `w_names` characters.  An empty trace renders to no
/// lines; a terminal narrower than the name column plus separator is a
/// configuration error.  The spans are taken in the order given — sort
/// the trace first for a timeline ordered by start time.
pub fn render_trace(trace: &trace::Trace, w_names: usize, columns: usize) -> (r: Result<
    Vec<String>,
    render::ConfigError,
>)
    requires
        9 <= w_names,
        trace@.len() < usize::MAX,
        tree::acyclic(trace@),
        forall|i: int| 0 <= i < trace@.len() ==> render::span_times_ok(#[trigger] trace@[i]),
    ensures
        r is Ok <==> columns > w_names + 2,
        r matches Ok(lines) ==> (if trace@.len() == 0 {
            lines@.len() == 0
        } else {
            lines.deep_view() == render::spec_forest_lines(
                tree::spec_forest(trace@),
                0,
                w_names as int,
                columns - w_names - 2,
                render::spec_min_start(trace@),
                (render::spec_max_end(trace@) - render::spec_min_start(trace@)) as u64,
            )
        }),
        r matches Err(e) ==> e == render::ConfigError::WidthTooSmall,
{
    let ghost m = trace@;
    let bounds = render::trace_bounds(&trace.spans);
    match bounds {
        None => {
            if w_names <= usize::MAX - 2 && columns > w_names + 2 {
                Ok(Vec::new())
            } else {
                Err(render::ConfigError::WidthTooSmall)
            }
        },
        Some((min_start, total)) => {
            let renderer = match render::Renderer::new(w_names, columns, min_start, total) {
                Ok(rd) => rd,
                Err(e) => {
                    return Err(e);
                },
            };
            let forest = tree::build_tree(&trace.spans);
            proof {
                assert forall|k: int| 0 <= k < m.len() implies render::span_in_window(
                    #[trigger] m[k],
                    min_start,
                    total,
                ) by {
                    render::lemma_bounds_in_window(m, k, min_start, total);
                }
                render::lemma_spec_forest_in_window(m, min_start, total);
                render::lemma_spec_forest_height(m);
            }
            let lines = renderer.render(&forest, 0);
            Ok(lines)
        },
    }
}

} // verus!
