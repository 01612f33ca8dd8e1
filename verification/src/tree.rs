//! Reconstruction of the parent/child call tree from a flat span list.
//!
//! A span's only relationship to the rest of the trace is its
//! `parent_span_id`.  [`build_tree`] resolves that reference against the
//! other spans' ids and produces a forest of nodes with explicit
//! parent-to-children ownership.  A span whose parent id matches no span's
//! id (including the empty id) becomes a root; this is the policy for
//! dangling references, not an error.  When several spans share one id, the
//! last of them in input order wins the lookup.
//!
//! The builder assumes the parent relation is acyclic (a cycle could not be
//! represented in an ownership forest at all); that assumption is the
//! `requires` of [`build_tree`].

use vstd::multiset::Multiset;
use vstd::pervasive::VecAdditionalExecFns;
use vstd::prelude::*;
use vstd::std_specs::cmp::PartialEqSpec;

use crate::trace::{Span, SpanModel};

verus! {

/// A tree element: one span and the ordered children that named it as
/// their parent.
#[derive(Debug, PartialEq)]
pub struct Node {
    pub span: Span,
    pub children: Vec<Node>,
}

/// Mathematical image of a [`Node`]: the span model and the children's
/// models, in order.
pub ghost struct NodeModel {
    pub span: SpanModel,
    pub children: Seq<NodeModel>,
}

/// The model of one node: its span's model and its children's models.
pub open spec fn node_model(node: Node) -> NodeModel
    decreases node,
{
    proof {
        assert(decreases_to!(node => node.children));
        assert(decreases_to!(node.children => node.children@));
    }
    NodeModel { span: node.span@, children: forest_model(node.children@) }
}

/// The models of a sequence of nodes, in order.
pub open spec fn forest_model(nodes: Seq<Node>) -> Seq<NodeModel>
    decreases nodes,
{
    if nodes.len() == 0 {
        Seq::empty()
    } else {
        seq![node_model(nodes[0])] + forest_model(nodes.drop_first())
    }
}

/// `forest_model` is the pointwise image of `node_model`.
pub proof fn lemma_forest_model_index(nodes: Seq<Node>)
    ensures
        forest_model(nodes).len() == nodes.len(),
        forall|i: int| 0 <= i < nodes.len() ==> forest_model(nodes)[i] == node_model(nodes[i]),
    decreases nodes.len(),
{
    if nodes.len() > 0 {
        lemma_forest_model_index(nodes.drop_first());
    }
}

impl View for Node {
    type V = NodeModel;

    open spec fn view(&self) -> NodeModel {
        node_model(*self)
    }
}

impl DeepView for Node {
    type V = NodeModel;

    open spec fn deep_view(&self) -> NodeModel {
        self@
    }
}

/// The greatest index in `[0, upto)` whose span id equals `id`, if any.
pub open spec fn last_index_with_id(spans: Seq<SpanModel>, id: Seq<u8>, upto: int) -> Option<int>
    decreases upto,
{
    if upto <= 0 {
        None
    } else if spans[upto - 1].span_id == id {
        Some(upto - 1)
    } else {
        last_index_with_id(spans, id, upto - 1)
    }
}

/// The index of the span that resolves as `spans[j]`'s parent: the last
/// span whose id equals `spans[j].parent_span_id`, or `None` when no span
/// has that id (then `spans[j]` is a root).
pub open spec fn parent_index(spans: Seq<SpanModel>, j: int) -> Option<int> {
    last_index_with_id(spans, spans[j].parent_span_id, spans.len() as int)
}

/// The indices in `[0, upto)` whose parent resolves to `i`, ascending.
pub open spec fn child_indices_upto(spans: Seq<SpanModel>, i: int, upto: int) -> Seq<int>
    decreases upto,
{
    if upto <= 0 {
        Seq::empty()
    } else if parent_index(spans, upto - 1) == Some(i) {
        child_indices_upto(spans, i, upto - 1).push(upto - 1)
    } else {
        child_indices_upto(spans, i, upto - 1)
    }
}

/// The indices of the children of span `i`, in input order.
pub open spec fn child_indices(spans: Seq<SpanModel>, i: int) -> Seq<int> {
    child_indices_upto(spans, i, spans.len() as int)
}

/// The indices in `[0, upto)` whose parent resolves to no span, ascending.
pub open spec fn root_indices_upto(spans: Seq<SpanModel>, upto: int) -> Seq<int>
    decreases upto,
{
    if upto <= 0 {
        Seq::empty()
    } else if parent_index(spans, upto - 1) is None {
        root_indices_upto(spans, upto - 1).push(upto - 1)
    } else {
        root_indices_upto(spans, upto - 1)
    }
}

/// The indices of the root spans, in input order.
pub open spec fn root_indices(spans: Seq<SpanModel>) -> Seq<int> {
    root_indices_upto(spans, spans.len() as int)
}

/// `d` witnesses that the parent relation on `spans` is acyclic: every
/// span's depth is below `spans.len()`, and a child is strictly deeper
/// than its parent.
pub open spec fn depth_witness_ok(spans: Seq<SpanModel>, d: Map<int, int>) -> bool {
    forall|j: int|
        0 <= j < spans.len() ==> {
            &&& d.dom().contains(j)
            &&& 0 <= #[trigger] d[j] < spans.len()
            &&& (parent_index(spans, j) is Some ==> d[parent_index(spans, j)->0] < d[j])
        }
}

/// The parent relation on `spans` is acyclic: following parent links
/// never returns to a span.  Stated through a depth witness.
pub open spec fn acyclic(spans: Seq<SpanModel>) -> bool {
    exists|d: Map<int, int>| depth_witness_ok(spans, d)
}

/// The tree rooted at span `i`, unrolled `fuel` levels: the node owns
/// `spans[i]` and, in input order, the trees of the spans whose parent
/// resolves to `i`.  Any `fuel >= spans.len()` is enough to unroll an
/// acyclic trace completely.
pub open spec fn spec_node(spans: Seq<SpanModel>, i: int, fuel: nat) -> NodeModel
    decreases fuel,
{
    NodeModel {
        span: spans[i],
        children: if fuel == 0 {
            Seq::empty()
        } else {
            child_indices(spans, i).map_values(|j: int| spec_node(spans, j, (fuel - 1) as nat))
        },
    }
}

/// The forest a span sequence denotes: the tree of each root span, in
/// input order.
pub open spec fn spec_forest(spans: Seq<SpanModel>) -> Seq<NodeModel> {
    root_indices(spans).map_values(|j: int| spec_node(spans, j, spans.len()))
}

/// The integer images of a sequence of machine indices.
pub open spec fn idxs(s: Seq<usize>) -> Seq<int> {
    s.map_values(|x: usize| x as int)
}

/// The integer image of an optional machine index.
pub open spec fn opt_idx(o: Option<usize>) -> Option<int> {
    match o {
        Some(x) => Some(x as int),
        None => None,
    }
}

/// A `Some` result of `last_index_with_id` lies in `[0, upto)` and matches
/// `id`; a `None` result means no index in `[0, upto)` matches.
proof fn lemma_last_index_with_id(spans: Seq<SpanModel>, id: Seq<u8>, upto: int)
    ensures
        last_index_with_id(spans, id, upto) matches Some(k) ==> 0 <= k < upto
            && spans[k].span_id == id,
        last_index_with_id(spans, id, upto) is None ==> forall|j: int|
            0 <= j < upto ==> #[trigger] spans[j].span_id != id,
    decreases upto,
{
    if upto > 0 {
        lemma_last_index_with_id(spans, id, upto - 1);
    }
}

/// Every entry of `child_indices_upto` lies in `[0, upto)` and resolves
/// its parent to `i`.
pub(crate) proof fn lemma_child_indices_upto_props(spans: Seq<SpanModel>, i: int, upto: int)
    ensures
        forall|t: int|
            0 <= t < child_indices_upto(spans, i, upto).len() ==> {
                &&& 0 <= #[trigger] child_indices_upto(spans, i, upto)[t] < upto
                &&& parent_index(spans, child_indices_upto(spans, i, upto)[t]) == Some(i)
            },
    decreases upto,
{
    if upto > 0 {
        lemma_child_indices_upto_props(spans, i, upto - 1);
    }
}

/// Appending a node appends its model.
proof fn lemma_forest_model_push(nodes: Seq<Node>, x: Node)
    ensures
        forest_model(nodes.push(x)) == forest_model(nodes) + seq![node_model(x)],
    decreases nodes.len(),
{
    if nodes.len() == 0 {
        assert(nodes.push(x).len() == 1);
        assert(nodes.push(x)[0] == x);
        assert(nodes.push(x).drop_first() =~= Seq::<Node>::empty());
        assert(forest_model(nodes.push(x)) == seq![node_model(x)] + forest_model(
            nodes.push(x).drop_first(),
        ));
        assert(forest_model(nodes.push(x).drop_first()) == Seq::<NodeModel>::empty());
        assert(forest_model(nodes.push(x)) =~= forest_model(nodes) + seq![node_model(x)]);
    } else {
        lemma_forest_model_push(nodes.drop_first(), x);
        assert(nodes.push(x).drop_first() =~= nodes.drop_first().push(x));
        assert(nodes.push(x)[0] == nodes[0]);
        assert(forest_model(nodes.push(x)) == seq![node_model(nodes[0])] + forest_model(
            nodes.drop_first().push(x),
        ));
        assert(forest_model(nodes.push(x)) =~= forest_model(nodes) + seq![node_model(x)]);
    }
}

/// Above the depth of span `i`, the fuel given to `spec_node` does not
/// matter: the tree is already fully unrolled.
proof fn lemma_spec_node_fuel(
    spans: Seq<SpanModel>,
    d: Map<int, int>,
    i: int,
    f1: nat,
    f2: nat,
)
    requires
        depth_witness_ok(spans, d),
        0 <= i < spans.len(),
        f1 >= spans.len() - d[i],
        f2 >= spans.len() - d[i],
    ensures
        spec_node(spans, i, f1) == spec_node(spans, i, f2),
    decreases spans.len() - d[i],
{
    let cs = child_indices(spans, i);
    lemma_child_indices_upto_props(spans, i, spans.len() as int);
    let n1 = spec_node(spans, i, f1);
    let n2 = spec_node(spans, i, f2);
    assert(f1 >= 1 && f2 >= 1);
    assert forall|t: int| 0 <= t < cs.len() implies n1.children[t] == n2.children[t] by {
        assert(n1.children[t] == spec_node(spans, cs[t], (f1 - 1) as nat));
        assert(n2.children[t] == spec_node(spans, cs[t], (f2 - 1) as nat));
        lemma_spec_node_fuel(spans, d, cs[t], (f1 - 1) as nat, (f2 - 1) as nat);
    }
    assert(n1.children =~= n2.children);
}

/// Does `a` hold the same bytes as `b`?
fn bytes_eq(a: &Vec<u8>, b: &Vec<u8>) -> (r: bool)
    ensures
        r == (a@ == b@),
{
    let r = a == b;
    proof {
        if r {
            assert(a@ =~= b@);
        } else if a@ == b@ {
            assert(a.eq_spec(b)) by {
                assert(forall|t: int| 0 <= t < a@.len() ==> a@[t] == b@[t]);
            }
        }
    }
    r
}

/// The index of the span that resolves as `spans[j]`'s parent, scanning
/// from the back so that the last span with a matching id wins.
fn find_parent(spans: &Vec<Span>, j: usize) -> (r: Option<usize>)
    requires
        j < spans@.len(),
    ensures
        opt_idx(r) == parent_index(spans.deep_view(), j as int),
{
    let ghost m = spans.deep_view();
    let n = spans.len();
    let mut k = n;
    while k > 0
        invariant
            j < n,
            k <= n,
            n == spans@.len(),
            m == spans.deep_view(),
            last_index_with_id(m, m[j as int].parent_span_id, n as int) == last_index_with_id(
                m,
                m[j as int].parent_span_id,
                k as int,
            ),
        decreases k,
    {
        k = k - 1;
        if bytes_eq(&spans[k].span_id, &spans[j].parent_span_id) {
            return Some(k);
        }
    }
    None
}

/// Converts the flat span list into a forest of nodes linked by explicit
/// parent-to-children ownership.
///
/// A first pass resolves each span's parent reference; a second pass
/// groups child indices under their parents, keeping input order; a final
/// pass materializes each root's tree.  Spans whose parent id matches no
/// span's id become roots; that includes the empty parent id.  The input
/// is assumed acyclic — following parent references never returns to a
/// span — which the ownership forest could not represent otherwise.
pub fn build_tree(spans: &Vec<Span>) -> (forest: Vec<Node>)
    requires
        acyclic(spans.deep_view()),
    ensures
        forest_model(forest@) == spec_forest(spans.deep_view()),
{
    let ghost m = spans.deep_view();
    let ghost d = choose|d: Map<int, int>| depth_witness_ok(m, d);
    let n = spans.len();

    let mut parent: Vec<Option<usize>> = Vec::new();
    let mut j: usize = 0;
    while j < n
        invariant
            j <= n,
            n == spans@.len(),
            m == spans.deep_view(),
            parent@.len() == j,
            forall|jj: int| 0 <= jj < j ==> opt_idx(#[trigger] parent@[jj]) == parent_index(m, jj),
        decreases n - j,
    {
        parent.push(find_parent(spans, j));
        j += 1;
    }

    let mut kids: Vec<Vec<usize>> = Vec::new();
    let mut i: usize = 0;
    while i < n
        invariant
            i <= n,
            kids@.len() == i,
            forall|ii: int| 0 <= ii < i ==> idxs(#[trigger] kids@[ii]@) == Seq::<int>::empty(),
        decreases n - i,
    {
        let empty: Vec<usize> = Vec::new();
        proof {
            assert(idxs(empty@) =~= Seq::<int>::empty());
        }
        kids.push(empty);
        i += 1;
    }

    let mut roots_idx: Vec<usize> = Vec::new();
    let mut j: usize = 0;
    while j < n
        invariant
            j <= n,
            n == spans@.len(),
            m == spans.deep_view(),
            parent@.len() == n,
            forall|jj: int| 0 <= jj < n ==> opt_idx(#[trigger] parent@[jj]) == parent_index(m, jj),
            kids@.len() == n,
            forall|ii: int|
                0 <= ii < n ==> idxs(#[trigger] kids@[ii]@) == child_indices_upto(m, ii, j as int),
            idxs(roots_idx@) == root_indices_upto(m, j as int),
        decreases n - j,
    {
        proof {
            assert(child_indices_upto(m, 0, 0) == Seq::<int>::empty());
        }
        match parent[j] {
            Some(i) => {
                proof {
                    lemma_last_index_with_id(m, m[j as int].parent_span_id, n as int);
                }
                let ghost old_kids = kids@;
                let mut moved: Vec<usize> = Vec::new();
                kids.set_and_swap(i, &mut moved);
                moved.push(j);
                kids.set_and_swap(i, &mut moved);
                proof {
                    assert forall|ii: int| 0 <= ii < n implies idxs(#[trigger] kids@[ii]@)
                        == child_indices_upto(m, ii, j as int + 1) by {
                        if ii == i as int {
                            assert(kids@[ii]@ =~= old_kids[ii]@.push(j));
                            assert(idxs(old_kids[ii]@.push(j)) =~= idxs(old_kids[ii]@).push(
                                j as int,
                            ));
                        } else {
                            assert(kids@[ii]@ =~= old_kids[ii]@);
                        }
                    }
                }
            },
            None => {
                roots_idx.push(j);
                proof {
                    assert(idxs(roots_idx@) =~= root_indices_upto(m, j as int + 1));
                }
            },
        }
        j += 1;
    }

    let mut forest: Vec<Node> = Vec::new();
    let mut t: usize = 0;
    proof {
        lemma_root_indices_props(m);
    }
    while t < roots_idx.len()
        invariant
            t <= roots_idx@.len(),
            n == spans@.len(),
            m == spans.deep_view(),
            depth_witness_ok(m, d),
            kids@.len() == n,
            forall|ii: int| 0 <= ii < n ==> idxs(#[trigger] kids@[ii]@) == child_indices(m, ii),
            idxs(roots_idx@) == root_indices(m),
            forest_model(forest@) == spec_forest(m).subrange(0, t as int),
        decreases roots_idx@.len() - t,
    {
        let r = roots_idx[t];
        proof {
            lemma_root_indices_props(m);
            assert(idxs(roots_idx@)[t as int] == r as int);
        }
        let node = build_node(spans, &kids, r, Ghost(d));
        proof {
            lemma_forest_model_push(forest@, node);
            lemma_spec_node_fuel(m, d, r as int, (n - d[r as int]) as nat, m.len());
            assert(spec_forest(m)[t as int] == spec_node(m, r as int, m.len()));
            assert(forest_model(forest@.push(node)) =~= spec_forest(m).subrange(
                0,
                t as int + 1,
            ));
        }
        forest.push(node);
        t += 1;
    }
    proof {
        assert(spec_forest(m).subrange(0, spec_forest(m).len() as int) =~= spec_forest(m));
    }
    forest
}

/// Every entry of `root_indices` lies in `[0, spans.len())` and resolves
/// no parent.
proof fn lemma_root_indices_upto_props(spans: Seq<SpanModel>, upto: int)
    ensures
        forall|t: int|
            0 <= t < root_indices_upto(spans, upto).len() ==> {
                &&& 0 <= #[trigger] root_indices_upto(spans, upto)[t] < upto
                &&& parent_index(spans, root_indices_upto(spans, upto)[t]) is None
            },
    decreases upto,
{
    if upto > 0 {
        lemma_root_indices_upto_props(spans, upto - 1);
    }
}

pub(crate) proof fn lemma_root_indices_props(spans: Seq<SpanModel>)
    ensures
        forall|t: int|
            0 <= t < root_indices(spans).len() ==> {
                &&& 0 <= #[trigger] root_indices(spans)[t] < spans.len()
                &&& parent_index(spans, root_indices(spans)[t]) is None
            },
{
    lemma_root_indices_upto_props(spans, spans.len() as int);
}

proof fn lemma_child_indices_upto_membership(spans: Seq<SpanModel>, i: int, upto: int, j: int)
    ensures
        child_indices_upto(spans, i, upto).contains(j) <==> (0 <= j < upto && parent_index(
            spans,
            j,
        ) == Some(i)),
    decreases upto,
{
    if upto > 0 {
        lemma_child_indices_upto_membership(spans, i, upto - 1, j);
        lemma_child_indices_upto_props(spans, i, upto - 1);
        let prev = child_indices_upto(spans, i, upto - 1);
        if parent_index(spans, upto - 1) == Some(i) {
            vstd::seq_lib::lemma_seq_contains_after_push(prev, upto - 1, j);
        }
    }
}

proof fn lemma_root_indices_upto_membership(spans: Seq<SpanModel>, upto: int, j: int)
    ensures
        root_indices_upto(spans, upto).contains(j) <==> (0 <= j < upto && parent_index(spans, j)
            is None),
    decreases upto,
{
    if upto > 0 {
        lemma_root_indices_upto_membership(spans, upto - 1, j);
        lemma_root_indices_upto_props(spans, upto - 1);
        let prev = root_indices_upto(spans, upto - 1);
        if parent_index(spans, upto - 1) is None {
            vstd::seq_lib::lemma_seq_contains_after_push(prev, upto - 1, j);
        }
    }
}

proof fn lemma_child_indices_upto_ascending(spans: Seq<SpanModel>, i: int, upto: int)
    ensures
        forall|t1: int, t2: int|
            0 <= t1 < t2 < child_indices_upto(spans, i, upto).len()
                ==> #[trigger] child_indices_upto(spans, i, upto)[t1]
                < #[trigger] child_indices_upto(spans, i, upto)[t2],
    decreases upto,
{
    if upto > 0 {
        lemma_child_indices_upto_ascending(spans, i, upto - 1);
        lemma_child_indices_upto_props(spans, i, upto - 1);
    }
}

proof fn lemma_root_indices_upto_ascending(spans: Seq<SpanModel>, upto: int)
    ensures
        forall|t1: int, t2: int|
            0 <= t1 < t2 < root_indices_upto(spans, upto).len()
                ==> #[trigger] root_indices_upto(spans, upto)[t1]
                < #[trigger] root_indices_upto(spans, upto)[t2],
    decreases upto,
{
    if upto > 0 {
        lemma_root_indices_upto_ascending(spans, upto - 1);
        lemma_root_indices_upto_props(spans, upto - 1);
    }
}

/// Partition: each span lands in the forest exactly once.  A span whose
/// parent reference resolves to nothing appears in the root list and in no
/// node's children; any other span appears in the children of exactly the
/// one span its parent reference resolves to.  Within every such list it
/// appears at exactly one position, since the lists are strictly
/// ascending.
pub proof fn lemma_span_partition(spans: Seq<SpanModel>, j: int)
    requires
        0 <= j < spans.len(),
    ensures
        parent_index(spans, j) is None <==> root_indices(spans).contains(j),
        forall|i: int|
            #[trigger] child_indices(spans, i).contains(j) <==> parent_index(spans, j) == Some(i),
        forall|t1: int, t2: int|
            0 <= t1 < t2 < root_indices(spans).len() ==> #[trigger] root_indices(spans)[t1]
                < #[trigger] root_indices(spans)[t2],
        forall|i: int, t1: int, t2: int|
            0 <= t1 < t2 < child_indices(spans, i).len() ==> #[trigger] child_indices(
                spans,
                i,
            )[t1] < #[trigger] child_indices(spans, i)[t2],
{
    lemma_root_indices_upto_membership(spans, spans.len() as int, j);
    lemma_root_indices_upto_ascending(spans, spans.len() as int);
    assert forall|i: int| #[trigger]
        child_indices(spans, i).contains(j) <==> parent_index(spans, j) == Some(i) by {
        lemma_child_indices_upto_membership(spans, i, spans.len() as int, j);
    }
    assert forall|i: int, t1: int, t2: int|
        0 <= t1 < t2 < child_indices(spans, i).len() implies #[trigger] child_indices(
        spans,
        i,
    )[t1] < #[trigger] child_indices(spans, i)[t2] by {
        lemma_child_indices_upto_ascending(spans, i, spans.len() as int);
    }
}

/// Parent-correctness: every child node in the forest denoted by `spans`
/// carries a `parent_span_id` equal to the `span_id` of the node that owns
/// it.
pub proof fn lemma_parent_correct(spans: Seq<SpanModel>, i: int, fuel: nat, t: int)
    requires
        0 <= i < spans.len(),
        fuel > 0,
        0 <= t < spec_node(spans, i, fuel).children.len(),
    ensures
        spec_node(spans, i, fuel).children[t].span.parent_span_id == spec_node(
            spans,
            i,
            fuel,
        ).span.span_id,
{
    lemma_child_indices_upto_props(spans, i, spans.len() as int);
    let c = child_indices(spans, i)[t];
    assert(spec_node(spans, i, fuel).children[t] == spec_node(spans, c, (fuel - 1) as nat));
    lemma_last_index_with_id(spans, spans[c].parent_span_id, spans.len() as int);
}

/// The indices of the spans in the tree rooted at span `i`, unrolled
/// `fuel` levels: `i` itself and, below it, the indices in its
/// children's trees.  Mirrors `spec_node`, index for index.
pub open spec fn tree_indices(spans: Seq<SpanModel>, i: int, fuel: nat) -> Multiset<int>
    decreases fuel, 0int, 0int,
{
    if fuel == 0 {
        Multiset::singleton(i)
    } else {
        subforest_indices(spans, child_indices(spans, i), (fuel - 1) as nat).insert(i)
    }
}

/// The indices of the spans in the trees rooted at `idxs`.
pub open spec fn subforest_indices(spans: Seq<SpanModel>, idxs: Seq<int>, fuel: nat) -> Multiset<
    int,
>
    decreases fuel, 1int, idxs.len(),
{
    if idxs.len() == 0 {
        Multiset::empty()
    } else {
        tree_indices(spans, idxs[0], fuel).add(subforest_indices(spans, idxs.drop_first(), fuel))
    }
}

/// The indices of all the spans the forest holds.
pub open spec fn forest_indices(spans: Seq<SpanModel>) -> Multiset<int> {
    subforest_indices(spans, root_indices(spans), spans.len())
}

/// Can the parent chain from `j` reach `i` within `steps` steps?
pub open spec fn reaches_up(spans: Seq<SpanModel>, j: int, i: int, steps: nat) -> bool
    decreases steps,
{
    j == i || (steps > 0 && parent_index(spans, j) is Some && reaches_up(
        spans,
        parent_index(spans, j)->0,
        i,
        (steps - 1) as nat,
    ))
}

/// Is `i` on the parent chain from `j`, `j` itself included?  In an
/// acyclic trace every chain ends within `spans.len()` steps.
pub open spec fn reaches(spans: Seq<SpanModel>, j: int, i: int) -> bool {
    reaches_up(spans, j, i, spans.len() as nat)
}

proof fn lemma_reaches_up_mono(spans: Seq<SpanModel>, j: int, i: int, s1: nat, s2: nat)
    requires
        reaches_up(spans, j, i, s1),
        s1 <= s2,
    ensures
        reaches_up(spans, j, i, s2),
    decreases s1,
{
    if j != i {
        lemma_reaches_up_mono(
            spans,
            parent_index(spans, j)->0,
            i,
            (s1 - 1) as nat,
            (s2 - 1) as nat,
        );
    }
}

/// Whoever the chain from `j` reaches lies in range and no deeper than
/// `j`.
proof fn lemma_reaches_depth(spans: Seq<SpanModel>, d: Map<int, int>, j: int, i: int, s: nat)
    requires
        depth_witness_ok(spans, d),
        0 <= j < spans.len(),
        reaches_up(spans, j, i, s),
    ensures
        0 <= i < spans.len(),
        d[i] <= d[j],
    decreases s,
{
    if j != i {
        let k = parent_index(spans, j)->0;
        lemma_last_index_with_id(spans, spans[j].parent_span_id, spans.len() as int);
        lemma_reaches_depth(spans, d, k, i, (s - 1) as nat);
    }
}

proof fn lemma_reaches_up_trans(spans: Seq<SpanModel>, j: int, k: int, i: int, s1: nat, s2: nat)
    requires
        reaches_up(spans, j, k, s1),
        reaches_up(spans, k, i, s2),
    ensures
        reaches_up(spans, j, i, (s1 + s2) as nat),
    decreases s1,
{
    if j == k {
        lemma_reaches_up_mono(spans, k, i, s2, (s1 + s2) as nat);
    } else {
        lemma_reaches_up_trans(
            spans,
            parent_index(spans, j)->0,
            k,
            i,
            (s1 - 1) as nat,
            s2,
        );
    }
}

/// A chain that reaches `i` at all reaches it within `spans.len()`
/// steps: each step goes strictly up the depth witness.
proof fn lemma_reaches_compress(spans: Seq<SpanModel>, d: Map<int, int>, j: int, i: int, s: nat)
    requires
        depth_witness_ok(spans, d),
        0 <= j < spans.len(),
        reaches_up(spans, j, i, s),
    ensures
        reaches(spans, j, i),
        reaches_up(spans, j, i, (d[j] - d[i]) as nat),
    decreases s,
{
    if j == i {
        lemma_reaches_up_mono(spans, j, i, 0, spans.len() as nat);
    } else {
        let k = parent_index(spans, j)->0;
        lemma_last_index_with_id(spans, spans[j].parent_span_id, spans.len() as int);
        lemma_reaches_compress(spans, d, k, i, (s - 1) as nat);
        lemma_reaches_depth(spans, d, k, i, (s - 1) as nat);
        assert(reaches_up(spans, j, i, ((d[k] - d[i]) as nat + 1) as nat));
        lemma_reaches_up_mono(
            spans,
            j,
            i,
            ((d[k] - d[i]) as nat + 1) as nat,
            (d[j] - d[i]) as nat,
        );
        lemma_reaches_up_mono(spans, j, i, (d[j] - d[i]) as nat, spans.len() as nat);
    }
}

/// Two stations of one chain are chained themselves: the chain from `j`
/// is unique, so of any two it reaches, one reaches the other.
proof fn lemma_reaches_total(
    spans: Seq<SpanModel>,
    d: Map<int, int>,
    j: int,
    a: int,
    b: int,
    s: nat,
)
    requires
        depth_witness_ok(spans, d),
        0 <= j < spans.len(),
        reaches_up(spans, j, a, s),
        reaches(spans, j, b),
    ensures
        reaches(spans, a, b) || reaches(spans, b, a),
    decreases s,
{
    if j == a {
    } else if j == b {
        lemma_reaches_compress(spans, d, j, a, s);
    } else {
        let k = parent_index(spans, j)->0;
        lemma_last_index_with_id(spans, spans[j].parent_span_id, spans.len() as int);
        assert(reaches_up(spans, k, b, (spans.len() - 1) as nat));
        lemma_reaches_compress(spans, d, k, b, (spans.len() - 1) as nat);
        lemma_reaches_total(spans, d, k, a, b, (s - 1) as nat);
    }
}

/// A chain from `j` through `i` passes through a child of `i`.
proof fn lemma_chain_child(spans: Seq<SpanModel>, d: Map<int, int>, j: int, i: int, s: nat)
    requires
        depth_witness_ok(spans, d),
        0 <= j < spans.len(),
        j != i,
        reaches_up(spans, j, i, s),
    ensures
        exists|c: int|
            0 <= c < spans.len() && parent_index(spans, c) == Some(i) && #[trigger] reaches(
                spans,
                j,
                c,
            ),
    decreases s,
{
    let k = parent_index(spans, j)->0;
    lemma_last_index_with_id(spans, spans[j].parent_span_id, spans.len() as int);
    if k == i {
        lemma_reaches_up_mono(spans, j, j, 0, spans.len() as nat);
        assert(0 <= j < spans.len() && parent_index(spans, j) == Some(i) && reaches(spans, j, j));
    } else {
        lemma_chain_child(spans, d, k, i, (s - 1) as nat);
        let c = choose|c: int|
            0 <= c < spans.len() && parent_index(spans, c) == Some(i) && #[trigger] reaches(
                spans,
                k,
                c,
            );
        assert(reaches_up(spans, k, k, 0));
        assert(reaches_up(spans, j, k, 1));
        lemma_reaches_up_trans(spans, j, k, c, 1, spans.len() as nat);
        lemma_reaches_compress(spans, d, j, c, (1 + spans.len()) as nat);
        assert(0 <= c < spans.len() && parent_index(spans, c) == Some(i) && reaches(spans, j, c));
    }
}

/// Two distinct children of one span are not chained to each other.
proof fn lemma_children_unchained(
    spans: Seq<SpanModel>,
    d: Map<int, int>,
    i: int,
    a: int,
    b: int,
)
    requires
        depth_witness_ok(spans, d),
        0 <= a < spans.len(),
        0 <= b < spans.len(),
        0 <= i < spans.len(),
        a != b,
        parent_index(spans, a) == Some(i),
        parent_index(spans, b) == Some(i),
    ensures
        !reaches(spans, a, b),
{
    if reaches(spans, a, b) {
        assert(reaches_up(spans, i, b, (spans.len() - 1) as nat));
        lemma_reaches_compress(spans, d, i, b, (spans.len() - 1) as nat);
        lemma_reaches_depth(spans, d, i, b, (spans.len() - 1) as nat);
    }
}

proof fn lemma_subforest_count_none(
    spans: Seq<SpanModel>,
    d: Map<int, int>,
    idxs: Seq<int>,
    fuel: nat,
    j: int,
)
    requires
        depth_witness_ok(spans, d),
        0 <= j < spans.len(),
        forall|t: int|
            0 <= t < idxs.len() ==> {
                &&& 0 <= #[trigger] idxs[t] < spans.len()
                &&& fuel >= spans.len() - d[idxs[t]]
                &&& !reaches(spans, j, idxs[t])
            },
    ensures
        subforest_indices(spans, idxs, fuel).count(j) == 0,
    decreases fuel, 1int, idxs.len(),
{
    broadcast use vstd::multiset::group_multiset_axioms;

    if idxs.len() > 0 {
        lemma_tree_count(spans, d, idxs[0], fuel, j);
        assert forall|t: int| 0 <= t < idxs.drop_first().len() implies {
            &&& 0 <= #[trigger] idxs.drop_first()[t] < spans.len()
            &&& fuel >= spans.len() - d[idxs.drop_first()[t]]
            &&& !reaches(spans, j, idxs.drop_first()[t])
        } by {
            assert(idxs.drop_first()[t] == idxs[t + 1]);
        }
        lemma_subforest_count_none(spans, d, idxs.drop_first(), fuel, j);
    }
}

proof fn lemma_subforest_count_one(
    spans: Seq<SpanModel>,
    d: Map<int, int>,
    idxs: Seq<int>,
    fuel: nat,
    j: int,
    t0: int,
)
    requires
        depth_witness_ok(spans, d),
        0 <= j < spans.len(),
        0 <= t0 < idxs.len(),
        forall|t: int|
            0 <= t < idxs.len() ==> {
                &&& 0 <= #[trigger] idxs[t] < spans.len()
                &&& fuel >= spans.len() - d[idxs[t]]
                &&& (reaches(spans, j, idxs[t]) <==> t == t0)
            },
    ensures
        subforest_indices(spans, idxs, fuel).count(j) == 1,
    decreases fuel, 1int, idxs.len(),
{
    broadcast use vstd::multiset::group_multiset_axioms;

    lemma_tree_count(spans, d, idxs[0], fuel, j);
    if t0 == 0 {
        assert forall|t: int| 0 <= t < idxs.drop_first().len() implies {
            &&& 0 <= #[trigger] idxs.drop_first()[t] < spans.len()
            &&& fuel >= spans.len() - d[idxs.drop_first()[t]]
            &&& !reaches(spans, j, idxs.drop_first()[t])
        } by {
            assert(idxs.drop_first()[t] == idxs[t + 1]);
        }
        lemma_subforest_count_none(spans, d, idxs.drop_first(), fuel, j);
    } else {
        assert forall|t: int| 0 <= t < idxs.drop_first().len() implies {
            &&& 0 <= #[trigger] idxs.drop_first()[t] < spans.len()
            &&& fuel >= spans.len() - d[idxs.drop_first()[t]]
            &&& (reaches(spans, j, idxs.drop_first()[t]) <==> t == t0 - 1)
        } by {
            assert(idxs.drop_first()[t] == idxs[t + 1]);
        }
        lemma_subforest_count_one(spans, d, idxs.drop_first(), fuel, j, t0 - 1);
    }
}

/// Span `j` occurs in the tree of span `i` exactly when `i` lies on
/// `j`'s parent chain, and then exactly once.
proof fn lemma_tree_count(spans: Seq<SpanModel>, d: Map<int, int>, i: int, fuel: nat, j: int)
    requires
        depth_witness_ok(spans, d),
        0 <= i < spans.len(),
        0 <= j < spans.len(),
        fuel >= spans.len() - d[i],
    ensures
        tree_indices(spans, i, fuel).count(j) == (if reaches(spans, j, i) {
            1nat
        } else {
            0nat
        }),
    decreases fuel, 0int, 0int,
{
    broadcast use vstd::multiset::group_multiset_axioms;

    assert(fuel >= 1);
    let cs = child_indices(spans, i);
    lemma_child_indices_upto_props(spans, i, spans.len() as int);
    lemma_child_indices_upto_ascending(spans, i, spans.len() as int);
    let sub = (fuel - 1) as nat;
    assert forall|t: int| 0 <= t < cs.len() implies sub >= spans.len() - d[#[trigger] cs[t]] by {}
    if j == i {
        lemma_reaches_up_mono(spans, j, i, 0, spans.len() as nat);
        assert forall|t: int| 0 <= t < cs.len() implies !reaches(spans, j, #[trigger] cs[t]) by {
            if reaches(spans, j, cs[t]) {
                lemma_reaches_depth(spans, d, j, cs[t], spans.len() as nat);
            }
        }
        lemma_subforest_count_none(spans, d, cs, sub, j);
    } else if reaches(spans, j, i) {
        lemma_chain_child(spans, d, j, i, spans.len() as nat);
        let c = choose|c: int|
            0 <= c < spans.len() && parent_index(spans, c) == Some(i) && #[trigger] reaches(
                spans,
                j,
                c,
            );
        lemma_child_indices_upto_membership(spans, i, spans.len() as int, c);
        assert(cs.contains(c));
        let t0 = choose|t: int| 0 <= t < cs.len() && cs[t] == c;
        assert forall|t: int| 0 <= t < cs.len() implies (reaches(spans, j, #[trigger] cs[t]) <==> t
            == t0) by {
            if t != t0 && reaches(spans, j, cs[t]) {
                lemma_reaches_total(spans, d, j, cs[t], c, spans.len() as nat);
                lemma_children_unchained(spans, d, i, cs[t], c);
                lemma_children_unchained(spans, d, i, c, cs[t]);
            }
        }
        lemma_subforest_count_one(spans, d, cs, sub, j, t0);
    } else {
        assert forall|t: int| 0 <= t < cs.len() implies !reaches(spans, j, #[trigger] cs[t]) by {
            if reaches(spans, j, cs[t]) {
                assert(reaches_up(spans, i, i, 0));
                assert(reaches_up(spans, cs[t], i, 1));
                lemma_reaches_up_trans(spans, j, cs[t], i, spans.len() as nat, 1);
                lemma_reaches_compress(spans, d, j, i, (spans.len() + 1) as nat);
            }
        }
        lemma_subforest_count_none(spans, d, cs, sub, j);
    }
}

/// Every chain ends at exactly the one root it reaches.
proof fn lemma_root_reached(spans: Seq<SpanModel>, d: Map<int, int>, j: int)
    requires
        depth_witness_ok(spans, d),
        0 <= j < spans.len(),
    ensures
        exists|r: int|
            0 <= r < spans.len() && parent_index(spans, r) is None && #[trigger] reaches(
                spans,
                j,
                r,
            ),
    decreases d[j],
{
    if parent_index(spans, j) is None {
        lemma_reaches_up_mono(spans, j, j, 0, spans.len() as nat);
        assert(0 <= j < spans.len() && parent_index(spans, j) is None && reaches(spans, j, j));
    } else {
        let k = parent_index(spans, j)->0;
        lemma_last_index_with_id(spans, spans[j].parent_span_id, spans.len() as int);
        lemma_root_reached(spans, d, k);
        let r = choose|r: int|
            0 <= r < spans.len() && parent_index(spans, r) is None && #[trigger] reaches(
                spans,
                k,
                r,
            );
        assert(reaches_up(spans, k, k, 0));
        assert(reaches_up(spans, j, k, 1));
        lemma_reaches_up_trans(spans, j, k, r, 1, spans.len() as nat);
        lemma_reaches_compress(spans, d, j, r, (1 + spans.len()) as nat);
        assert(0 <= r < spans.len() && parent_index(spans, r) is None && reaches(spans, j, r));
    }
}

proof fn lemma_tree_indices_in_range(spans: Seq<SpanModel>, i: int, fuel: nat, x: int)
    requires
        0 <= i < spans.len(),
        !(0 <= x < spans.len()),
    ensures
        tree_indices(spans, i, fuel).count(x) == 0,
    decreases fuel, 0int, 0int,
{
    broadcast use vstd::multiset::group_multiset_axioms;

    if fuel > 0 {
        lemma_child_indices_upto_props(spans, i, spans.len() as int);
        lemma_subforest_indices_in_range(spans, child_indices(spans, i), (fuel - 1) as nat, x);
    }
}

proof fn lemma_subforest_indices_in_range(
    spans: Seq<SpanModel>,
    idxs: Seq<int>,
    fuel: nat,
    x: int,
)
    requires
        forall|t: int| 0 <= t < idxs.len() ==> 0 <= #[trigger] idxs[t] < spans.len(),
        !(0 <= x < spans.len()),
    ensures
        subforest_indices(spans, idxs, fuel).count(x) == 0,
    decreases fuel, 1int, idxs.len(),
{
    broadcast use vstd::multiset::group_multiset_axioms;

    if idxs.len() > 0 {
        lemma_tree_indices_in_range(spans, idxs[0], fuel, x);
        assert forall|t: int| 0 <= t < idxs.drop_first().len() implies 0 <= #[trigger] idxs.drop_first()[t]
            < spans.len() by {
            assert(idxs.drop_first()[t] == idxs[t + 1]);
        }
        lemma_subforest_indices_in_range(spans, idxs.drop_first(), fuel, x);
    }
}

/// Partition, counted: the forest of an acyclic trace holds every span
/// index exactly once, and nothing else.
pub proof fn lemma_forest_indices_exactly_once(spans: Seq<SpanModel>)
    requires
        acyclic(spans),
    ensures
        forall|j: int| 0 <= j < spans.len() ==> forest_indices(spans).count(j) == 1,
        forall|x: int| !(0 <= x < spans.len()) ==> forest_indices(spans).count(x) == 0,
{
    let d = choose|d: Map<int, int>| depth_witness_ok(spans, d);
    let rs = root_indices(spans);
    lemma_root_indices_props(spans);
    lemma_root_indices_upto_ascending(spans, spans.len() as int);
    assert forall|j: int| 0 <= j < spans.len() implies forest_indices(spans).count(j) == 1 by {
        lemma_root_reached(spans, d, j);
        let r = choose|r: int|
            0 <= r < spans.len() && parent_index(spans, r) is None && #[trigger] reaches(
                spans,
                j,
                r,
            );
        lemma_root_indices_upto_membership(spans, spans.len() as int, r);
        assert(rs.contains(r));
        let t0 = choose|t: int| 0 <= t < rs.len() && rs[t] == r;
        assert forall|t: int| 0 <= t < rs.len() implies (reaches(spans, j, #[trigger] rs[t]) <==> t
            == t0) by {
            if t != t0 && reaches(spans, j, rs[t]) {
                lemma_reaches_total(spans, d, j, rs[t], r, spans.len() as nat);
            }
        }
        lemma_subforest_count_one(spans, d, rs, spans.len() as nat, j, t0);
    }
    assert forall|x: int| !(0 <= x < spans.len()) implies forest_indices(spans).count(x) == 0 by {
        lemma_subforest_indices_in_range(spans, rs, spans.len() as nat, x);
    }
}

/// Order preservation for roots: the forest lists exactly the root
/// spans, and in the order they stand in the input.
pub proof fn lemma_roots_in_input_order(spans: Seq<SpanModel>)
    ensures
        spec_forest(spans).len() == root_indices(spans).len(),
        forall|t: int|
            0 <= t < spec_forest(spans).len() ==> (#[trigger] spec_forest(spans)[t]).span
                == spans[root_indices(spans)[t]],
        forall|t1: int, t2: int|
            0 <= t1 < t2 < root_indices(spans).len() ==> #[trigger] root_indices(spans)[t1]
                < #[trigger] root_indices(spans)[t2],
{
    lemma_root_indices_upto_ascending(spans, spans.len() as int);
    lemma_root_indices_props(spans);
}

/// Order preservation for children: a node's children are exactly the
/// spans that resolve their parent to it, in the order they stand in the
/// input.
pub proof fn lemma_children_in_input_order(spans: Seq<SpanModel>, i: int, fuel: nat)
    requires
        0 <= i < spans.len(),
        fuel > 0,
    ensures
        spec_node(spans, i, fuel).children.len() == child_indices(spans, i).len(),
        forall|t: int|
            0 <= t < child_indices(spans, i).len() ==> (#[trigger] spec_node(
                spans,
                i,
                fuel,
            ).children[t]).span == spans[child_indices(spans, i)[t]],
        forall|t1: int, t2: int|
            0 <= t1 < t2 < child_indices(spans, i).len() ==> #[trigger] child_indices(
                spans,
                i,
            )[t1] < #[trigger] child_indices(spans, i)[t2],
{
    lemma_child_indices_upto_ascending(spans, i, spans.len() as int);
    lemma_child_indices_upto_props(spans, i, spans.len() as int);
    let cs = child_indices(spans, i);
    assert forall|t: int| 0 <= t < cs.len() implies (#[trigger] spec_node(
        spans,
        i,
        fuel,
    ).children[t]).span == spans[cs[t]] by {
        assert(spec_node(spans, i, fuel).children[t] == spec_node(spans, cs[t], (fuel - 1) as nat));
    }
}

/// Determinism: any two forests whose models satisfy `build_tree`'s
/// contract on the same input sequence are structurally identical.
pub proof fn lemma_build_tree_deterministic(
    spans: Seq<SpanModel>,
    f1: Seq<Node>,
    f2: Seq<Node>,
)
    requires
        forest_model(f1) == spec_forest(spans),
        forest_model(f2) == spec_forest(spans),
    ensures
        forest_model(f1) == forest_model(f2),
{
}

/// Materializes the tree rooted at span `i`: the node owns a copy of the
/// span and, in input order, the trees of its children.
fn build_node(
    spans: &Vec<Span>,
    kids: &Vec<Vec<usize>>,
    i: usize,
    Ghost(d): Ghost<Map<int, int>>,
) -> (node: Node)
    requires
        i < spans@.len(),
        kids@.len() == spans@.len(),
        depth_witness_ok(spans.deep_view(), d),
        forall|ii: int|
            0 <= ii < spans@.len() ==> idxs(#[trigger] kids@[ii]@) == child_indices(
                spans.deep_view(),
                ii,
            ),
    ensures
        node_model(node) == spec_node(
            spans.deep_view(),
            i as int,
            (spans.deep_view().len() - d[i as int]) as nat,
        ),
    decreases spans.deep_view().len() - d[i as int],
{
    let ghost m = spans.deep_view();
    let ghost fuel = (m.len() - d[i as int]) as nat;
    proof {
        lemma_child_indices_upto_props(m, i as int, m.len() as int);
    }
    let ghost cs = child_indices(m, i as int);
    let ghost target = cs.map_values(|j: int| spec_node(m, j, (fuel - 1) as nat));
    let mut children: Vec<Node> = Vec::new();
    let num = kids[i].len();
    let mut t: usize = 0;
    while t < num
        invariant
            t <= num,
            i < spans@.len(),
            kids@.len() == spans@.len(),
            m == spans.deep_view(),
            depth_witness_ok(m, d),
            fuel == (m.len() - d[i as int]) as nat,
            cs == child_indices(m, i as int),
            target == cs.map_values(|j: int| spec_node(m, j, (fuel - 1) as nat)),
            num == kids@[i as int]@.len(),
            forall|ii: int|
                0 <= ii < spans@.len() ==> idxs(#[trigger] kids@[ii]@) == child_indices(m, ii),
            forest_model(children@) == target.subrange(0, t as int),
        decreases num - t,
    {
        let c = kids[i][t];
        proof {
            lemma_child_indices_upto_props(m, i as int, m.len() as int);
            assert(idxs(kids@[i as int]@)[t as int] == c as int);
            assert(parent_index(m, c as int) == Some(i as int));
        }
        let child = build_node(spans, kids, c, Ghost(d));
        proof {
            lemma_spec_node_fuel(
                m,
                d,
                c as int,
                (m.len() - d[c as int]) as nat,
                (fuel - 1) as nat,
            );
            lemma_forest_model_push(children@, child);
            assert(forest_model(children@.push(child)) =~= target.subrange(0, t as int + 1));
        }
        children.push(child);
        t += 1;
    }
    proof {
        assert(target.subrange(0, target.len() as int) =~= target);
    }
    let node = Node { span: spans[i].clone(), children };
    proof {
        assert(node_model(node) == spec_node(m, i as int, fuel)) by {
            assert(node.span@ == m[i as int]);
            assert(fuel > 0);
            assert(forest_model(node.children@) == target);
            let sn = spec_node(m, i as int, fuel);
            assert(sn.span == m[i as int]);
            assert(sn.children == child_indices(m, i as int).map_values(
                |j: int| spec_node(m, j, (fuel - 1) as nat),
            ));
            assert(sn.children =~= target);
        }
    }
    node
}

} // verus!
