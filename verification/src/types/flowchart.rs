//! Flowchart diagram: vertical single-column layout in topological order.

use crate::errors::{ParseError, Warning};
use crate::types::graph::{
    fed_from_rest, handled_before, kahn_order, kahn_split, last_in, lemma_last_in_is, lemma_last_in_max,
    lemma_link_count_le_pending, lemma_link_count_positive, lemma_link_count_prefix,
    lemma_link_count_rest, lemma_link_count_step, lemma_pending_positive, lemma_pending_prefix_step,
    lemma_pending_settle, lemma_pending_witness, lemma_position, lemma_released_extend,
    lemma_settled_count_bound, lemma_settled_count_none, lemma_settled_count_update, link_count,
    links_in_range, occurs, pending_in, position, released_before, settled_count,
};
use crate::types::shared::{
    accent_check, check_accent, density_warning, density_warnings, find_last_id, last_index_of,
    lemma_last_index_of,
};
use vstd::prelude::*;

verus! {

/// Soft cap above which a density warning is emitted.
pub const SOFT_CAP: usize = 15;

/// Stable type tag used in warnings.
pub const TYPE_TAG: &'static str = "flowchart";

/// Shape hint for a flowchart node.
#[derive(Debug, Clone, Copy, PartialEq, Eq)]
pub enum FlowShape {
    /// Rounded rectangle: step / action (default).
    Rect,
    /// Diamond: decision.
    Diamond,
    /// Pill: start & end.
    Oval,
}

/// One node in the flowchart.
#[derive(Debug, Clone)]
pub struct FlowNode {
    pub id: String,
    pub label: String,
    pub shape: FlowShape,
    /// Optional eyebrow tag rendered in the top-left corner.
    pub tag: Option<String>,
}

/// Semantic role for an edge; drives stroke + label color.
///
/// * `Default`: regular flow, muted stroke.
/// * `Primary`: load-bearing edge; accent hue.
/// * `External`: crosses a trust / system boundary; link hue.
#[derive(Debug, Clone, Copy, PartialEq, Eq)]
pub enum EdgeRole {
    Default,
    Primary,
    External,
}

/// One edge between two nodes. `from` / `to` reference node `id` strings.
#[derive(Debug, Clone)]
pub struct FlowEdge {
    pub from: String,
    pub to: String,
    pub label: Option<String>,
    pub role: EdgeRole,
}

/// `{"type":"flowchart","nodes":[...],"edges":[...],"accent_idx":optional}`.
#[derive(Debug, Clone)]
pub struct FlowchartSpec {
    pub nodes: Vec<FlowNode>,
    pub edges: Vec<FlowEdge>,
    pub accent_idx: Option<usize>,
}

impl FlowchartSpec {
    /// The accent index, when present, must name one of the nodes.
    pub fn validate(&self) -> (r: Result<(), ParseError>)
        ensures
            r == accent_check(self.accent_idx, self.nodes@.len() as int),
    {
        check_accent(self.accent_idx, self.nodes.len())
    }
}

/// Density warning when the node count exceeds [`SOFT_CAP`].
pub fn warnings(spec: &FlowchartSpec) -> (w: Vec<Warning>)
    ensures
        w@ == density_warnings(TYPE_TAG, spec.nodes@.len() as int, SOFT_CAP as int),
{
    density_warning(TYPE_TAG, spec.nodes.len(), SOFT_CAP)
}

// --- Ordering -------------------------------------------------------------

/// The node ids, in order.
pub open spec fn flow_ids(nodes: Seq<FlowNode>) -> Seq<Seq<char>> {
    nodes.map_values(|n: FlowNode| n.id@)
}

/// The links that edges `es` make between `ids`: an edge whose endpoints
/// both resolve (a duplicated id resolves to its last node) becomes a link,
/// a self-loop included; other edges are ignored.
pub open spec fn flow_links_of(ids: Seq<Seq<char>>, es: Seq<FlowEdge>) -> Seq<(usize, usize)>
    decreases es.len(),
{
    if es.len() == 0 {
        Seq::empty()
    } else {
        let prev = flow_links_of(ids, es.drop_last());
        let e = es.last();
        match (last_index_of(ids, e.from@), last_index_of(ids, e.to@)) {
            (Some(a), Some(b)) => prev.push((a as usize, b as usize)),
            _ => prev,
        }
    }
}

/// The links of a flowchart.
pub open spec fn flow_links(spec: FlowchartSpec) -> Seq<(usize, usize)> {
    flow_links_of(flow_ids(spec.nodes@), spec.edges@)
}

proof fn lemma_flow_edge_in(ids: Seq<Seq<char>>, es: Seq<FlowEdge>, k: int)
    requires
        0 <= k < es.len(),
        last_index_of(ids, es[k].from@) is Some,
        last_index_of(ids, es[k].to@) is Some,
    ensures
        exists|m: int|
            0 <= m < flow_links_of(ids, es).len() && #[trigger] flow_links_of(ids, es)[m] == (
                last_index_of(ids, es[k].from@).unwrap() as usize,
                last_index_of(ids, es[k].to@).unwrap() as usize,
            ),
    decreases es.len(),
{
    let prev = flow_links_of(ids, es.drop_last());
    let all = flow_links_of(ids, es);
    let pair = (
        last_index_of(ids, es[k].from@).unwrap() as usize,
        last_index_of(ids, es[k].to@).unwrap() as usize,
    );
    if k == es.len() - 1 {
        assert(all == prev.push(pair));
        assert(all[prev.len() as int] == pair);
    } else {
        assert(es.drop_last()[k] == es[k]);
        lemma_flow_edge_in(ids, es.drop_last(), k);
        let m = choose|m: int| 0 <= m < prev.len() && #[trigger] prev[m] == pair;
        assert(all[m] == pair);
    }
}

proof fn lemma_flow_link_from(ids: Seq<Seq<char>>, es: Seq<FlowEdge>, m: int)
    requires
        0 <= m < flow_links_of(ids, es).len(),
    ensures
        exists|k: int|
            0 <= k < es.len() && last_index_of(ids, (#[trigger] es[k]).from@) is Some && last_index_of(
                ids,
                es[k].to@,
            ) is Some && flow_links_of(ids, es)[m] == (
                last_index_of(ids, es[k].from@).unwrap() as usize,
                last_index_of(ids, es[k].to@).unwrap() as usize,
            ),
    decreases es.len(),
{
    let prev = flow_links_of(ids, es.drop_last());
    let all = flow_links_of(ids, es);
    if m < prev.len() {
        lemma_flow_link_from(ids, es.drop_last(), m);
        let k = choose|k: int|
            0 <= k < es.drop_last().len() && last_index_of(ids, (#[trigger] es.drop_last()[k]).from@)
                is Some && last_index_of(ids, es.drop_last()[k].to@) is Some && prev[m] == (
                last_index_of(ids, es.drop_last()[k].from@).unwrap() as usize,
                last_index_of(ids, es.drop_last()[k].to@).unwrap() as usize,
            );
        assert(es.drop_last()[k] == es[k]);
        assert(all[m] == prev[m]);
    } else {
        assert(es[es.len() - 1] == es.last());
    }
}

/// Every edge whose two endpoints resolve to nodes (a duplicated id to its
/// last node) is a link that orders the chart, whatever its role or label.
pub proof fn lemma_resolvable_edge_is_link(spec: FlowchartSpec, k: int)
    requires
        0 <= k < spec.edges@.len(),
        last_index_of(flow_ids(spec.nodes@), spec.edges@[k].from@) is Some,
        last_index_of(flow_ids(spec.nodes@), spec.edges@[k].to@) is Some,
    ensures
        exists|m: int|
            0 <= m < flow_links(spec).len() && #[trigger] flow_links(spec)[m] == (
                last_index_of(flow_ids(spec.nodes@), spec.edges@[k].from@).unwrap() as usize,
                last_index_of(flow_ids(spec.nodes@), spec.edges@[k].to@).unwrap() as usize,
            ),
{
    let ids = flow_ids(spec.nodes@);
    let es = spec.edges@;
    lemma_flow_edge_in(ids, es, k);
    let m = choose|m: int|
        0 <= m < flow_links_of(ids, es).len() && #[trigger] flow_links_of(ids, es)[m] == (
            last_index_of(ids, es[k].from@).unwrap() as usize,
            last_index_of(ids, es[k].to@).unwrap() as usize,
        );
    assert(flow_links(spec)[m] == flow_links_of(ids, es)[m]);
}

/// Every link that orders the chart is an edge whose two endpoints resolve.
pub proof fn lemma_link_is_resolvable_edge(spec: FlowchartSpec, m: int)
    requires
        0 <= m < flow_links(spec).len(),
    ensures
        exists|k: int|
            0 <= k < spec.edges@.len() && last_index_of(flow_ids(spec.nodes@), (#[trigger] spec.edges@[k]).from@)
                is Some && last_index_of(flow_ids(spec.nodes@), spec.edges@[k].to@) is Some
                && flow_links(spec)[m] == (
                last_index_of(flow_ids(spec.nodes@), spec.edges@[k].from@).unwrap() as usize,
                last_index_of(flow_ids(spec.nodes@), spec.edges@[k].to@).unwrap() as usize,
            ),
{
    lemma_flow_link_from(flow_ids(spec.nodes@), spec.edges@, m);
}

/// In a Kahn order of a chart, the source of every resolvable edge comes
/// before its target whenever the target is taken (in an acyclic chart
/// every node is).
pub proof fn lemma_edge_source_first(
    spec: FlowchartSpec,
    order: Seq<usize>,
    split: int,
    k: int,
    t: int,
)
    requires
        kahn_split(flow_links(spec), order, split),
        0 <= k < spec.edges@.len(),
        last_index_of(flow_ids(spec.nodes@), spec.edges@[k].from@) is Some,
        last_index_of(flow_ids(spec.nodes@), spec.edges@[k].to@) is Some,
        0 <= t < split,
        order[t] == last_index_of(flow_ids(spec.nodes@), spec.edges@[k].to@).unwrap() as usize,
    ensures
        exists|t2: int|
            0 <= t2 < t && order[t2] == last_index_of(flow_ids(spec.nodes@), spec.edges@[k].from@).unwrap() as usize,
{
    lemma_resolvable_edge_is_link(spec, k);
    let lk = flow_links(spec);
    let m = choose|m: int|
        0 <= m < lk.len() && #[trigger] lk[m] == (
            last_index_of(flow_ids(spec.nodes@), spec.edges@[k].from@).unwrap() as usize,
            last_index_of(flow_ids(spec.nodes@), spec.edges@[k].to@).unwrap() as usize,
        );
    assert(lk[m].1 == order[t]);
}

/// Resolve the edges of `spec` into links.
fn resolve_flow_links(spec: &FlowchartSpec) -> (links: Vec<(usize, usize)>)
    ensures
        links@ == flow_links(*spec),
        links_in_range(links@, spec.nodes@.len()),
{
    let mut ids: Vec<String> = Vec::new();
    let mut i: usize = 0;
    while i < spec.nodes.len()
        invariant
            i <= spec.nodes@.len(),
            ids@.map_values(|s: String| s@) == flow_ids(spec.nodes@).take(i as int),
        decreases spec.nodes@.len() - i,
    {
        let ghost old_ids = ids@;
        let id = spec.nodes[i].id.clone();
        ids.push(id);
        assert(ids@ == old_ids.push(id));
        assert(ids@.map_values(|s: String| s@) =~= old_ids.map_values(|s: String| s@).push(id@));
        assert(flow_ids(spec.nodes@).take(i + 1) =~= flow_ids(spec.nodes@).take(i as int).push(
            spec.nodes@[i as int].id@,
        ));
        i = i + 1;
    }
    assert(flow_ids(spec.nodes@).take(i as int) =~= flow_ids(spec.nodes@));
    let ghost ids_v = flow_ids(spec.nodes@);
    let mut links: Vec<(usize, usize)> = Vec::new();
    let mut k: usize = 0;
    assert(spec.edges@.take(0) =~= Seq::<FlowEdge>::empty());
    while k < spec.edges.len()
        invariant
            k <= spec.edges@.len(),
            ids@.map_values(|s: String| s@) == ids_v,
            ids_v == flow_ids(spec.nodes@),
            ids_v.len() == spec.nodes@.len(),
            links@ == flow_links_of(ids_v, spec.edges@.take(k as int)),
            links_in_range(links@, spec.nodes@.len()),
        decreases spec.edges@.len() - k,
    {
        let e = &spec.edges[k];
        assert(spec.edges@.take(k + 1).drop_last() =~= spec.edges@.take(k as int));
        assert(spec.edges@.take(k + 1).last() == *e);
        let a = find_last_id(&ids, &e.from);
        let b = find_last_id(&ids, &e.to);
        proof {
            lemma_last_index_of(ids_v, e.from@);
            lemma_last_index_of(ids_v, e.to@);
        }
        match (a, b) {
            (Some(a), Some(b)) => {
                links.push((a, b));
            },
            _ => {},
        }
        k = k + 1;
    }
    assert(spec.edges@.take(k as int) =~= spec.edges@);
    links
}

/// Queueing `b` when link `k` from `i` (the node being taken) releases it
/// keeps the queue in release order.
proof fn lemma_release_push(
    lk: Seq<(usize, usize)>,
    s0: Seq<bool>,
    settled: Seq<bool>,
    old_q: Seq<usize>,
    new_q: Seq<usize>,
    head: int,
    i: usize,
    k: int,
    b: usize,
)
    requires
        links_in_range(lk, s0.len()),
        settled == s0.update(i as int, true),
        i < s0.len(),
        !s0[i as int],
        1 <= head <= old_q.len(),
        old_q[head - 1] == i,
        forall|t: int| 0 <= t < old_q.len() ==> #[trigger] old_q[t] < s0.len(),
        old_q.no_duplicates(),
        forall|x: int|
            0 <= x < s0.len() ==> (settled[x] <==> exists|t: int| 0 <= t < head && old_q[t] == x),
        b < s0.len(),
        !exists|t: int| 0 <= t < old_q.len() && old_q[t] == b,
        new_q == old_q.push(b),
        0 <= k < lk.len(),
        lk[k] == (i, b),
        link_count(lk.take(k + 1), i, b) == pending_in(lk, s0, b),
        forall|t: int, k2: int|
            0 <= t < old_q.len() && 0 <= k2 < lk.len() && (#[trigger] lk[k2]).1 == #[trigger] old_q[t]
                ==> exists|t2: int| 0 <= t2 < head && t2 < t && old_q[t2] == lk[k2].0,
        forall|t: int|
            0 <= t < old_q.len() ==> (last_in(lk, old_q, #[trigger] old_q[t], lk.len() as int) matches Some(kt)
                ==> (position(old_q, lk[kt].0) < head - 1 || (lk[kt].0 == i && kt < k))),
        forall|t1: int, t2: int|
            0 <= t1 < t2 < old_q.len() ==> released_before(
                lk,
                old_q,
                #[trigger] old_q[t1],
                #[trigger] old_q[t2],
            ),
    ensures
        new_q.no_duplicates(),
        forall|t: int| 0 <= t < new_q.len() ==> #[trigger] new_q[t] < s0.len(),
        forall|t: int, k2: int|
            0 <= t < new_q.len() && 0 <= k2 < lk.len() && (#[trigger] lk[k2]).1 == #[trigger] new_q[t]
                ==> exists|t2: int| 0 <= t2 < head && t2 < t && new_q[t2] == lk[k2].0,
        forall|t: int|
            0 <= t < new_q.len() ==> (last_in(lk, new_q, #[trigger] new_q[t], lk.len() as int) matches Some(kt)
                ==> (position(new_q, lk[kt].0) < head - 1 || (lk[kt].0 == i && kt < k + 1))),
        forall|t1: int, t2: int|
            0 <= t1 < t2 < new_q.len() ==> released_before(
                lk,
                new_q,
                #[trigger] new_q[t1],
                #[trigger] new_q[t2],
            ),
{
    let m = lk.len() as int;
    let last = old_q.len() as int;
    assert(new_q[last] == b);
    assert forall|t: int| 0 <= t < last implies new_q[t] == old_q[t] by {}
    assert(new_q.no_duplicates()) by {
        assert forall|t1: int, t2: int|
            0 <= t1 < new_q.len() && 0 <= t2 < new_q.len() && t1 != t2 implies new_q[t1] != new_q[t2] by {
            if t1 < last && t2 < last {
                assert(old_q[t1] != old_q[t2]);
            } else if t1 < last {
                assert(old_q[t1] == new_q[t1]);
            } else if t2 < last {
                assert(old_q[t2] == new_q[t2]);
            }
        }
    }
    // Every link into `b` comes from a taken node, and no later link leaves
    // `i` for `b`.
    lemma_pending_settle(lk, s0, i, b);
    lemma_link_count_prefix(lk, k + 1, i, b);
    assert(pending_in(lk, settled, b) == 0);
    lemma_pending_witness(lk, settled, b);
    assert forall|k2: int| 0 <= k2 < lk.len() && (#[trigger] lk[k2]).1 == b implies exists|t2: int|
        0 <= t2 < head && old_q[t2] == lk[k2].0 by {
        assert(settled[lk[k2].0 as int]);
    }
    lemma_position(new_q, head - 1);
    assert forall|k2: int| 0 <= k2 < lk.len() && lk[k2].1 == b && k2 != k implies handled_before(
        lk,
        new_q,
        k2,
        k,
    ) by {
        let src = lk[k2].0;
        let t2 = choose|t2: int| 0 <= t2 < head && old_q[t2] == src;
        assert(new_q[t2] == src);
        lemma_position(new_q, t2);
        if src == i {
            assert(t2 == head - 1);
            if k2 > k {
                lemma_link_count_rest(lk, k + 1, i, b, k2);
            }
        } else {
            assert(t2 != head - 1);
        }
    }
    lemma_last_in_is(lk, new_q, b, k);
    // The nodes queued earlier keep their release order.
    assert forall|t1: int, t2: int| 0 <= t1 < last && 0 <= t2 < last implies last_in(lk, old_q, #[trigger] old_q[t1], m)
        == last_in(lk, new_q, old_q[t1], m) && released_before(lk, old_q, old_q[t1], #[trigger] old_q[t2])
        == released_before(lk, new_q, old_q[t1], old_q[t2]) by {
        assert forall|k2: int|
            0 <= k2 < lk.len() && ((#[trigger] lk[k2]).1 == old_q[t1] || lk[k2].1 == old_q[t2]) implies exists|t: int|
            0 <= t < old_q.len() && old_q[t] == lk[k2].0 by {
            if lk[k2].1 == old_q[t1] {
                let t3 = choose|t3: int| 0 <= t3 < head && t3 < t1 && old_q[t3] == lk[k2].0;
            } else {
                let t3 = choose|t3: int| 0 <= t3 < head && t3 < t2 && old_q[t3] == lk[k2].0;
            }
        }
        lemma_released_extend(lk, old_q, new_q, old_q[t1], old_q[t2]);
    }
    assert forall|t: int, k2: int|
        0 <= t < new_q.len() && 0 <= k2 < lk.len() && (#[trigger] lk[k2]).1 == #[trigger] new_q[t] implies exists|t2: int|
        0 <= t2 < head && t2 < t && new_q[t2] == lk[k2].0 by {
        if t < last {
            assert(old_q[t] == new_q[t]);
            let t2 = choose|t2: int| 0 <= t2 < head && t2 < t && old_q[t2] == lk[k2].0;
            assert(new_q[t2] == old_q[t2]);
        } else {
            let t2 = choose|t2: int| 0 <= t2 < head && old_q[t2] == lk[k2].0;
            assert(new_q[t2] == old_q[t2]);
        }
    }
    assert forall|t: int| 0 <= t < new_q.len() implies (last_in(lk, new_q, #[trigger] new_q[t], m) matches Some(kt)
        ==> (position(new_q, lk[kt].0) < head - 1 || (lk[kt].0 == i && kt < k + 1))) by {
        if t < last {
            let u = old_q[t];
            assert(new_q[t] == u);
            assert(last_in(lk, old_q, old_q[t], m) == last_in(lk, new_q, old_q[t], m));
            lemma_last_in_max(lk, old_q, u, m);
            if let Some(kt) = last_in(lk, old_q, u, m) {
                let t3 = choose|t3: int| 0 <= t3 < head && t3 < t && old_q[t3] == lk[kt].0;
                lemma_position(old_q, t3);
                assert(new_q[t3] == old_q[t3]);
                lemma_position(new_q, t3);
            }
        } else {
            assert(new_q[t] == b);
        }
    }
    assert forall|t1: int, t2: int| 0 <= t1 < t2 < new_q.len() implies released_before(
        lk,
        new_q,
        #[trigger] new_q[t1],
        #[trigger] new_q[t2],
    ) by {
        if t2 < last {
            assert(new_q[t1] == old_q[t1] && new_q[t2] == old_q[t2]);
            assert(released_before(lk, old_q, old_q[t1], old_q[t2]));
        } else {
            let u = old_q[t1];
            assert(new_q[t1] == u && new_q[t2] == b);
            assert(last_in(lk, old_q, old_q[t1], m) == last_in(lk, new_q, old_q[t1], m));
            lemma_last_in_max(lk, old_q, u, m);
            if let Some(ku) = last_in(lk, old_q, u, m) {
                let t3 = choose|t3: int| 0 <= t3 < head && t3 < t1 && old_q[t3] == lk[ku].0;
                lemma_position(old_q, t3);
                assert(new_q[t3] == old_q[t3]);
                lemma_position(new_q, t3);
                assert(handled_before(lk, new_q, ku, k));
            }
        }
    }
}

/// Kahn's topological sort with a first-in first-out queue seeded with the
/// nodes that have no incoming edge, in input order. Nodes on or below a
/// cycle are appended afterwards in input order, so every node is placed
/// exactly once and the call never fails.
#[verifier::rlimit(50)]
pub fn topo_order(spec: &FlowchartSpec) -> (order: Vec<usize>)
    ensures
        kahn_order(flow_links(*spec), spec.nodes@.len(), order@),
{
    let n = spec.nodes.len();
    let links = resolve_flow_links(spec);
    let ghost lk = links@;
    let ghost none = Seq::new(n as nat, |x: int| false);

    // In-degrees.
    let mut remaining: Vec<usize> = Vec::new();
    let mut j: usize = 0;
    while j < n
        invariant
            j <= n,
            remaining@ == Seq::new(j as nat, |x: int| 0usize),
        decreases n - j,
    {
        remaining.push(0);
        j = j + 1;
        assert(remaining@ =~= Seq::new(j as nat, |x: int| 0usize));
    }
    let mut k: usize = 0;
    assert forall|x: int| 0 <= x < n implies remaining@[x] == pending_in(lk.take(0), none, x as usize) by {
        assert(lk.take(0) =~= Seq::<(usize, usize)>::empty());
    }
    while k < links.len()
        invariant
            lk == links@,
            links_in_range(lk, n as nat),
            none == Seq::new(n as nat, |x: int| false),
            k <= lk.len(),
            remaining@.len() == n,
            forall|x: int| 0 <= x < n ==> remaining@[x] == pending_in(lk.take(k as int), none, x as usize),
            forall|x: int| 0 <= x < n ==> remaining@[x] <= k,
        decreases lk.len() - k,
    {
        let (_, b) = links[k];
        assert(lk[k as int].1 < n);
        proof {
            assert forall|x: int| 0 <= x < n implies #[trigger] pending_in(lk.take(k + 1), none, x as usize)
                == pending_in(lk.take(k as int), none, x as usize) + if lk[k as int].1 == x as usize {
                1nat
            } else {
                0nat
            } by {
                lemma_pending_prefix_step(lk, none, k as int, x as usize);
            }
        }
        remaining[b] = remaining[b] + 1;
        k = k + 1;
    }
    assert(lk.take(lk.len() as int) =~= lk);

    // Nodes without incoming links seed the queue, in node order.
    let mut queue: Vec<usize> = Vec::new();
    let mut j: usize = 0;
    while j < n
        invariant
            j <= n,
            remaining@.len() == n,
            forall|t: int| 0 <= t < queue@.len() ==> #[trigger] queue@[t] < j,
            forall|t1: int, t2: int| 0 <= t1 < t2 < queue@.len() ==> queue@[t1] < queue@[t2],
            forall|t: int| 0 <= t < queue@.len() ==> remaining@[#[trigger] queue@[t] as int] == 0,
            forall|x: int|
                0 <= x < n ==> ((remaining@[x] == 0 && x < j) <==> exists|t: int|
                    0 <= t < queue@.len() && queue@[t] == x),
        decreases n - j,
    {
        let ghost old_q = queue@;
        if remaining[j] == 0 {
            queue.push(j);
        }
        proof {
            assert forall|x: int| 0 <= x < n implies ((remaining@[x] == 0 && x < j + 1) <==> exists|t: int|
                0 <= t < queue@.len() && queue@[t] == x) by {
                if remaining@[x] == 0 && x < j + 1 {
                    if x == j {
                        assert(queue@[queue@.len() - 1] == x);
                    } else {
                        let t = choose|t: int| 0 <= t < old_q.len() && old_q[t] == x;
                        assert(queue@[t] == x);
                    }
                }
                if exists|t: int| 0 <= t < queue@.len() && queue@[t] == x {
                    let t = choose|t: int| 0 <= t < queue@.len() && queue@[t] == x;
                    if t < old_q.len() {
                        assert(old_q[t] == x);
                    }
                }
            }
        }
        j = j + 1;
    }
    proof {
        lemma_settled_count_none(n as nat);
        // A seed has no incoming link at all.
        assert forall|t: int, k: int|
            0 <= t < queue@.len() && 0 <= k < lk.len() implies (#[trigger] lk[k]).1 != #[trigger] queue@[t] by {
            let x = queue@[t];
            if lk[k].1 == x {
                assert(!none[lk[k].0 as int]);
                lemma_pending_positive(lk, none, k);
            }
        }
        assert forall|t: int| 0 <= t < queue@.len() implies last_in(lk, queue@, #[trigger] queue@[t], lk.len() as int) is None by {
            lemma_last_in_max(lk, queue@, queue@[t], lk.len() as int);
            assert forall|k: int| 0 <= k < lk.len() implies lk[k].1 != queue@[t] by {
                assert(lk[k].1 != queue@[t]);
            }
        }
        assert forall|t1: int, t2: int| 0 <= t1 < t2 < queue@.len() implies released_before(
            lk,
            queue@,
            #[trigger] queue@[t1],
            #[trigger] queue@[t2],
        ) by {
            assert(last_in(lk, queue@, queue@[t1], lk.len() as int) is None);
            assert(last_in(lk, queue@, queue@[t2], lk.len() as int) is None);
        }
    }

    let ghost mut settled = none;
    let mut head: usize = 0;
    while head < queue.len()
        invariant
            lk == links@,
            links_in_range(lk, n as nat),
            remaining@.len() == n,
            settled.len() == n,
            head <= queue@.len(),
            settled_count(settled) == head,
            forall|t: int| 0 <= t < queue@.len() ==> #[trigger] queue@[t] < n,
            queue@.no_duplicates(),
            forall|x: int|
                0 <= x < n ==> ((remaining@[x] == 0) <==> exists|t: int|
                    0 <= t < queue@.len() && queue@[t] == x),
            forall|x: int|
                0 <= x < n ==> (settled[x] <==> exists|t: int| 0 <= t < head && queue@[t] == x),
            forall|x: int| 0 <= x < n ==> remaining@[x] == pending_in(lk, settled, x as usize),
            forall|t: int, k: int|
                0 <= t < queue@.len() && 0 <= k < lk.len() && (#[trigger] lk[k]).1 == #[trigger] queue@[t]
                    ==> exists|t2: int| 0 <= t2 < head && t2 < t && queue@[t2] == lk[k].0,
            forall|t1: int, t2: int|
                0 <= t1 < t2 < queue@.len() ==> released_before(
                    lk,
                    queue@,
                    #[trigger] queue@[t1],
                    #[trigger] queue@[t2],
                ),
        decreases n - head,
    {
        let i = queue[head];
        let ghost s0 = settled;
        assert(!s0[i as int]) by {
            if s0[i as int] {
                let t = choose|t: int| 0 <= t < head && queue@[t] == i;
                assert(queue@[t] != queue@[head as int]);
            }
        }
        proof {
            lemma_settled_count_update(s0, i as int);
            lemma_settled_count_bound(s0);
            settled = s0.update(i as int, true);
        }
        head = head + 1;
        assert forall|x: int| 0 <= x < n implies (settled[x] <==> exists|t: int|
            0 <= t < head && queue@[t] == x) by {
            if settled[x] && x != i {
                let t = choose|t: int| 0 <= t < head - 1 && queue@[t] == x;
            }
        }
        let mut k: usize = 0;
        assert(lk.take(0) =~= Seq::<(usize, usize)>::empty());
        assert forall|x: int| 0 <= x < n && s0[x] implies pending_in(lk, s0, x as usize) == 0 by {
            let t = choose|t: int| 0 <= t < head - 1 && queue@[t] == x;
            assert(remaining@[x] == 0);
        }
        // Every link into a queued node comes from a node taken before `i`.
        assert forall|t: int| 0 <= t < queue@.len() implies (last_in(lk, queue@, #[trigger] queue@[t], lk.len() as int) matches Some(kt)
            ==> position(queue@, lk[kt].0) < head - 1) by {
            lemma_last_in_max(lk, queue@, queue@[t], lk.len() as int);
            if let Some(kt) = last_in(lk, queue@, queue@[t], lk.len() as int) {
                let t2 = choose|t2: int| 0 <= t2 < head - 1 && t2 < t && queue@[t2] == lk[kt].0;
                lemma_position(queue@, t2);
            }
        }
        while k < links.len()
            invariant
                lk == links@,
                links_in_range(lk, n as nat),
                i < n,
                !s0[i as int],
                s0.len() == n,
                settled == s0.update(i as int, true),
                settled_count(settled) == head,
                remaining@.len() == n,
                k <= lk.len(),
                1 <= head <= queue@.len(),
                queue@[head - 1] == i,
                forall|t: int| 0 <= t < queue@.len() ==> #[trigger] queue@[t] < n,
                queue@.no_duplicates(),
                forall|x: int|
                    0 <= x < n ==> ((remaining@[x] == 0) <==> exists|t: int|
                        0 <= t < queue@.len() && queue@[t] == x),
                forall|x: int|
                    0 <= x < n ==> (settled[x] <==> exists|t: int| 0 <= t < head && queue@[t] == x),
                forall|x: int|
                    0 <= x < n ==> remaining@[x] + link_count(lk.take(k as int), i, x as usize)
                        == pending_in(lk, s0, x as usize),
                forall|x: int| 0 <= x < n && s0[x] ==> pending_in(lk, s0, x as usize) == 0,
                forall|t: int, k: int|
                    0 <= t < queue@.len() && 0 <= k < lk.len() && (#[trigger] lk[k]).1 == #[trigger] queue@[t]
                        ==> exists|t2: int| 0 <= t2 < head && t2 < t && queue@[t2] == lk[k].0,
                forall|t: int|
                    0 <= t < queue@.len() ==> (last_in(lk, queue@, #[trigger] queue@[t], lk.len() as int) matches Some(kt)
                        ==> (position(queue@, lk[kt].0) < head - 1 || (lk[kt].0 == i && kt < k))),
                forall|t1: int, t2: int|
                    0 <= t1 < t2 < queue@.len() ==> released_before(
                        lk,
                        queue@,
                        #[trigger] queue@[t1],
                        #[trigger] queue@[t2],
                    ),
            decreases lk.len() - k,
        {
            let (a, b) = links[k];
            let ghost q0 = queue@;
            proof {
                assert forall|x: int| 0 <= x < n implies #[trigger] link_count(lk.take(k + 1), i, x as usize)
                    == link_count(lk.take(k as int), i, x as usize) + if lk[k as int] == (
                    i,
                    x as usize,
                ) {
                    1nat
                } else {
                    0nat
                } by {
                    lemma_link_count_step(lk, k as int, i, x as usize);
                }
            }
            if a == i {
                assert(b < n);
                proof {
                    lemma_link_count_positive(lk.take(k + 1), k as int);
                    assert(lk.take(k + 1)[k as int] == lk[k as int]);
                    lemma_link_count_le_pending(lk, s0, i, b);
                    lemma_link_count_prefix(lk, k + 1, i, b);
                }
                assert(remaining@[b as int] > 0);
                remaining[b] = remaining[b] - 1;
                if remaining[b] == 0 {
                    let ghost old_q = queue@;
                    assert(!exists|t: int| 0 <= t < old_q.len() && old_q[t] == b);
                    queue.push(b);
                    proof {
                        self::lemma_release_push(lk, s0, settled, old_q, queue@, head as int, i, k as int, b);
                    }
                }
            }
            proof {
                assert forall|x: int| 0 <= x < n implies ((remaining@[x] == 0) <==> exists|t: int|
                    0 <= t < queue@.len() && queue@[t] == x) by {
                    if remaining@[x] == 0 {
                        if queue@.len() > q0.len() && x == b {
                            assert(queue@[queue@.len() - 1] == x);
                        } else {
                            let t = choose|t: int| 0 <= t < q0.len() && q0[t] == x;
                            assert(queue@[t] == x);
                        }
                    }
                    if exists|t: int| 0 <= t < queue@.len() && queue@[t] == x {
                        let t = choose|t: int| 0 <= t < queue@.len() && queue@[t] == x;
                        if t < q0.len() {
                            assert(q0[t] == x);
                        }
                    }
                }
                assert forall|x: int| 0 <= x < n implies (settled[x] <==> exists|t: int|
                    0 <= t < head && queue@[t] == x) by {
                    if settled[x] {
                        let t = choose|t: int| 0 <= t < head && q0[t] == x;
                        assert(queue@[t] == x);
                    }
                    if exists|t: int| 0 <= t < head && queue@[t] == x {
                        let t = choose|t: int| 0 <= t < head && queue@[t] == x;
                        assert(q0[t] == x);
                    }
                }
            }
            k = k + 1;
        }
        assert(lk.take(lk.len() as int) =~= lk);
        proof {
            assert forall|x: int| 0 <= x < n implies remaining@[x] == pending_in(
                lk,
                settled,
                x as usize,
            ) by {
                lemma_pending_settle(lk, s0, i, x as usize);
            }
        }
    }

    // What the queue never reached follows, in node order.
    let ghost q = queue@;
    let mut order = queue;
    let mut x: usize = 0;
    assert(settled.take(0) =~= Seq::<bool>::empty());
    while x < n
        invariant
            lk == links@,
            links_in_range(lk, n as nat),
            x <= n,
            remaining@.len() == n,
            settled.len() == n,
            head == q.len(),
            settled_count(settled) == head,
            forall|t: int| 0 <= t < q.len() ==> #[trigger] q[t] < n,
            q.no_duplicates(),
            forall|y: int|
                0 <= y < n ==> ((remaining@[y] == 0) <==> exists|t: int| 0 <= t < q.len() && q[t] == y),
            forall|y: int| 0 <= y < n ==> (settled[y] <==> exists|t: int| 0 <= t < head && q[t] == y),
            order@.len() == head + x - settled_count(settled.take(x as int)),
            q.len() <= order@.len(),
            forall|t: int| 0 <= t < q.len() ==> order@[t] == q[t],
            forall|t: int| q.len() <= t < order@.len() ==> #[trigger] order@[t] < x && !settled[order@[t] as int],
            forall|t1: int, t2: int|
                q.len() <= t1 < t2 < order@.len() ==> #[trigger] order@[t1] < #[trigger] order@[t2],
            forall|y: int|
                0 <= y < x && !settled[y] ==> exists|t: int| q.len() <= t < order@.len() && order@[t] == y,
        decreases n - x,
    {
        let ghost old_o = order@;
        assert(settled.take(x + 1).drop_last() =~= settled.take(x as int));
        assert(settled.take(x + 1).last() == settled[x as int]);
        if remaining[x] != 0 {
            assert(!settled[x as int]);
            order.push(x);
            proof {
                assert forall|y: int| 0 <= y < x + 1 && !settled[y] implies exists|t: int|
                    q.len() <= t < order@.len() && order@[t] == y by {
                    if y < x {
                        let t = choose|t: int| q.len() <= t < old_o.len() && old_o[t] == y;
                        assert(order@[t] == y);
                    } else {
                        assert(order@[order@.len() - 1] == y);
                    }
                }
            }
        } else {
            assert(settled[x as int]) by {
                let t = choose|t: int| 0 <= t < q.len() && q[t] == x;
            }
        }
        x = x + 1;
    }
    assert(settled.take(n as int) =~= settled);
    proof {
        let o = order@;
        let split = head as int;
        assert forall|t: int| 0 <= t < o.len() implies #[trigger] o[t] < n by {
            if t < q.len() {
                assert(o[t] == q[t]);
            }
        }
        assert(o.no_duplicates()) by {
            assert forall|t1: int, t2: int| 0 <= t1 < o.len() && 0 <= t2 < o.len() && t1 != t2 implies o[t1]
                != o[t2] by {
                if t1 < split && t2 < split {
                    assert(o[t1] == q[t1] && o[t2] == q[t2]);
                } else if t1 < split {
                    assert(o[t1] == q[t1]);
                    assert(settled[q[t1] as int]);
                } else if t2 < split {
                    assert(o[t2] == q[t2]);
                    assert(settled[q[t2] as int]);
                } else if t1 < t2 {
                    assert(o[t1] < o[t2]);
                } else {
                    assert(o[t2] < o[t1]);
                }
            }
        }
        assert forall|t: int, k: int|
            #![trigger o[t], lk[k]]
            0 <= t < split && 0 <= k < lk.len() && lk[k].1 == o[t] implies exists|t2: int|
            0 <= t2 < t && o[t2] == lk[k].0 by {
            assert(o[t] == q[t]);
            let t2 = choose|t2: int| 0 <= t2 < head && t2 < t && q[t2] == lk[k].0;
            assert(o[t2] == q[t2]);
        }
        assert forall|t: int| split <= t < o.len() implies #[trigger] fed_from_rest(lk, o, split, o[t]) by {
            let y = o[t];
            assert(!settled[y as int]);
            assert(remaining@[y as int] != 0) by {
                if remaining@[y as int] == 0 {
                    let t3 = choose|t3: int| 0 <= t3 < q.len() && q[t3] == y;
                }
            }
            lemma_pending_witness(lk, settled, y);
            let k = choose|k: int| 0 <= k < lk.len() && lk[k].1 == y && !settled[lk[k].0 as int];
            let src = lk[k].0;
            let t2 = choose|t2: int| q.len() <= t2 < o.len() && o[t2] == src;
            assert(lk[k].1 == y && split <= t2 < o.len() && o[t2] == lk[k].0);
        }
        assert forall|t1: int, t2: int| 0 <= t1 < t2 < split implies released_before(
            lk,
            o,
            #[trigger] o[t1],
            #[trigger] o[t2],
        ) by {
            assert(o[t1] == q[t1] && o[t2] == q[t2]);
            assert forall|k: int|
                0 <= k < lk.len() && ((#[trigger] lk[k]).1 == q[t1] || lk[k].1 == q[t2]) implies exists|t: int|
                0 <= t < q.len() && q[t] == lk[k].0 by {
                if lk[k].1 == q[t1] {
                    let t3 = choose|t3: int| 0 <= t3 < head && t3 < t1 && q[t3] == lk[k].0;
                } else {
                    let t3 = choose|t3: int| 0 <= t3 < head && t3 < t2 && q[t3] == lk[k].0;
                }
            }
            assert(released_before(lk, q, q[t1], q[t2]));
            lemma_released_extend(lk, q, o, q[t1], q[t2]);
        }
        assert forall|x: usize| x < n implies #[trigger] occurs(o, x) by {
            if settled[x as int] {
                let t = choose|t: int| 0 <= t < head && q[t] == x;
                assert(o[t] == x);
            } else {
                let t = choose|t: int| q.len() <= t < o.len() && o[t] == x;
            }
        }
        assert(kahn_split(lk, o, split));
    }
    order
}

} // verus!
