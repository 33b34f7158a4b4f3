//! Architecture diagram: 2D layered layout for system / data-flow diagrams,
//! with role-tagged boxes and semantically colored edges.

use crate::errors::{ParseError, Warning};
use crate::theme::{Color, Palette};
use crate::types::flowchart::EdgeRole;
use crate::types::graph::{
    lemma_link_count_positive, lemma_link_count_step, lemma_pending_positive,
    lemma_pending_prefix_step, lemma_pending_settle, lemma_pending_witness,
    lemma_settled_count_bound, lemma_settled_count_none, lemma_settled_count_update, link_count,
    links_in_range, pending_in, settled_count,
};
use crate::types::shared::{density_warning, density_warnings, find_last_id, last_index_of};
use vstd::prelude::*;

verus! {

/// Soft cap above which a density warning is emitted.
pub const SOFT_CAP: usize = 12;

/// Stable type tag used in warnings.
pub const TYPE_TAG: &'static str = "architecture";

/// Semantic role for an architecture node; drives fill + stroke.
#[derive(Debug, Clone, Copy, PartialEq, Eq)]
pub enum NodeRole {
    /// Backend service or compute surface (the default box treatment).
    Backend,
    /// The load-bearing component.
    Focal,
    /// Data store / bundle / artifact.
    Store,
    /// External system (browser, third-party API).
    External,
    /// User / batch input.
    Input,
    /// Optional surface.
    Optional,
    /// Security / trust-boundary node.
    Security,
}

/// One node in the architecture diagram.
#[derive(Debug, Clone)]
pub struct ArchNode {
    /// Unique ID referenced by edges. Not rendered.
    pub id: String,
    /// Primary label.
    pub label: String,
    /// Eyebrow tag rendered top-left ("EDGE", "ORIG", ...).
    pub tag: Option<String>,
    /// Second line under the label.
    pub sublabel: Option<String>,
    /// Role: fill/stroke treatment.
    pub role: NodeRole,
}

/// One directed edge between two nodes, by node `id`.
#[derive(Debug, Clone)]
pub struct ArchEdge {
    pub from: String,
    pub to: String,
    pub label: Option<String>,
    pub role: EdgeRole,
}

/// Which axis the primary flow runs along.
#[derive(Debug, Clone, Copy, PartialEq, Eq)]
pub enum Orientation {
    /// Left to right (the default).
    Lr,
    /// Top to bottom.
    Tb,
}

/// `{"type":"architecture","orientation":..,"nodes":[...],"edges":[...]}`.
#[derive(Debug, Clone)]
pub struct ArchitectureSpec {
    pub nodes: Vec<ArchNode>,
    pub edges: Vec<ArchEdge>,
    pub orientation: Orientation,
}

impl ArchitectureSpec {
    /// Role drives the accent, so there is no index to cross-check; edges
    /// naming unknown ids are tolerated (the layout skips them).
    pub fn validate(&self) -> (r: Result<(), ParseError>)
        ensures
            r == Ok::<(), ParseError>(()),
    {
        Ok(())
    }
}

/// Density warning when the node count exceeds [`SOFT_CAP`].
pub fn warnings(spec: &ArchitectureSpec) -> (w: Vec<Warning>)
    ensures
        w@ == density_warnings(TYPE_TAG, spec.nodes@.len() as int, SOFT_CAP as int),
{
    density_warning(TYPE_TAG, spec.nodes.len(), SOFT_CAP)
}

/// The (fill, stroke) treatment of each node role.
pub open spec fn role_treatment(role: NodeRole, p: Palette) -> (Color, Color) {
    match role {
        NodeRole::Focal => (p.accent_tint, p.accent),
        NodeRole::Backend => (p.paper, p.ink),
        NodeRole::Store => (p.leaf_tint, p.muted),
        NodeRole::External => (p.leaf_tint, p.rule),
        NodeRole::Input => (p.leaf_tint, p.soft),
        NodeRole::Optional => (p.leaf_tint, p.rule),
        NodeRole::Security => (p.accent_tint, p.accent),
    }
}

/// Map a [`NodeRole`] to its (fill, stroke) pair under the given palette.
pub fn role_colors(role: NodeRole, palette: &Palette) -> (c: (Color, Color))
    ensures
        c == role_treatment(role, *palette),
{
    match role {
        NodeRole::Focal => (palette.accent_tint, palette.accent),
        NodeRole::Backend => (palette.paper, palette.ink),
        NodeRole::Store => (palette.leaf_tint, palette.muted),
        NodeRole::External => (palette.leaf_tint, palette.rule),
        NodeRole::Input => (palette.leaf_tint, palette.soft),
        NodeRole::Optional => (palette.leaf_tint, palette.rule),
        NodeRole::Security => (palette.accent_tint, palette.accent),
    }
}

/// Does this role promote its eyebrow tag and label to the accent hue?
/// Only `Focal` does.
pub fn role_is_accent(role: NodeRole) -> (b: bool)
    ensures
        b == (role == NodeRole::Focal),
{
    matches!(role, NodeRole::Focal)
}

// --- Rank assignment ------------------------------------------------------

/// The node ids, in order.
pub open spec fn node_ids(nodes: Seq<ArchNode>) -> Seq<Seq<char>> {
    nodes.map_values(|n: ArchNode| n.id@)
}

/// The links that edges `es` make between `ids`: an edge whose endpoints
/// both resolve (a duplicated id resolves to its last node) to two
/// different nodes becomes a link; other edges are ignored.
pub open spec fn links_of(ids: Seq<Seq<char>>, es: Seq<ArchEdge>) -> Seq<(usize, usize)>
    decreases es.len(),
{
    if es.len() == 0 {
        Seq::empty()
    } else {
        let prev = links_of(ids, es.drop_last());
        let e = es.last();
        match (last_index_of(ids, e.from@), last_index_of(ids, e.to@)) {
            (Some(a), Some(b)) if a != b => prev.push((a as usize, b as usize)),
            _ => prev,
        }
    }
}

/// The links of an architecture spec.
pub open spec fn arch_links(spec: ArchitectureSpec) -> Seq<(usize, usize)> {
    links_of(node_ids(spec.nodes@), spec.edges@)
}

/// One more than the highest rank among settled sources of links into `j`;
/// 0 when there is none.
pub open spec fn pred_rank(
    links: Seq<(usize, usize)>,
    settled: Seq<bool>,
    rank: Seq<usize>,
    j: int,
) -> nat
    decreases links.len(),
{
    if links.len() == 0 {
        0
    } else {
        let prev = pred_rank(links.drop_last(), settled, rank, j);
        let (a, b) = links.last();
        if b as int == j && settled[a as int] && prev < rank[a as int] + 1 {
            (rank[a as int] + 1) as nat
        } else {
            prev
        }
    }
}

/// `rank` is the layering of the `n` nodes under `links`, with `settled`
/// the nodes that no cycle reaches:
/// * a link into a settled node comes from a settled node of lower rank;
/// * an unsettled node has a link from an unsettled node (it lies on or
///   below a cycle);
/// * every rank is one more than the highest rank among the settled nodes
///   linking into it, or 0 when there is none.
///
/// For settled nodes this is the length of the longest path that ends at
/// the node. At most one `(settled, rank)` pair meets this
/// ([`lemma_rank_assignment_unique`]).
pub open spec fn rank_assignment(
    links: Seq<(usize, usize)>,
    n: nat,
    settled: Seq<bool>,
    rank: Seq<usize>,
) -> bool {
    &&& settled.len() == n
    &&& rank.len() == n
    &&& forall|k: int|
        0 <= k < links.len() && settled[(#[trigger] links[k]).1 as int] ==> settled[links[k].0 as int]
            && rank[links[k].0 as int] < rank[links[k].1 as int]
    &&& forall|j: int|
        0 <= j < n && !#[trigger] settled[j] ==> exists|k: int|
            0 <= k < links.len() && links[k].1 == j && !settled[links[k].0 as int]
    &&& forall|j: int| 0 <= j < n ==> #[trigger] rank[j] == pred_rank(links, settled, rank, j)
}

proof fn lemma_pred_rank_bound(
    links: Seq<(usize, usize)>,
    settled: Seq<bool>,
    rank: Seq<usize>,
    j: int,
    k: int,
)
    requires
        0 <= k < links.len(),
        links[k].1 as int == j,
        settled[links[k].0 as int],
    ensures
        pred_rank(links, settled, rank, j) >= rank[links[k].0 as int] + 1,
    decreases links.len(),
{
    if k < links.len() - 1 {
        lemma_pred_rank_bound(links.drop_last(), settled, rank, j, k);
        assert(links.drop_last()[k] == links[k]);
    }
}

/// Only the ranks of settled sources of links into `j` matter.
proof fn lemma_pred_rank_frame(
    links: Seq<(usize, usize)>,
    settled: Seq<bool>,
    r1: Seq<usize>,
    r2: Seq<usize>,
    j: int,
)
    requires
        forall|k: int|
            0 <= k < links.len() && (#[trigger] links[k]).1 as int == j && settled[links[k].0 as int]
                ==> r1[links[k].0 as int] == r2[links[k].0 as int],
    ensures
        pred_rank(links, settled, r1, j) == pred_rank(links, settled, r2, j),
    decreases links.len(),
{
    if links.len() > 0 {
        assert forall|k: int|
            0 <= k < links.drop_last().len() && (#[trigger] links.drop_last()[k]).1 as int == j
                && settled[links.drop_last()[k].0 as int] implies r1[links.drop_last()[k].0 as int]
            == r2[links.drop_last()[k].0 as int] by {
            assert(links.drop_last()[k] == links[k]);
        }
        lemma_pred_rank_frame(links.drop_last(), settled, r1, r2, j);
        assert(links.last() == links[links.len() - 1]);
    }
}

/// Settling `i` adds `rank[i] + 1` to the candidates for every node that
/// `i` links into.
proof fn lemma_pred_rank_settle(
    links: Seq<(usize, usize)>,
    settled: Seq<bool>,
    rank: Seq<usize>,
    i: usize,
    j: usize,
)
    requires
        i < settled.len(),
        !settled[i as int],
        links_in_range(links, settled.len()),
    ensures
        pred_rank(links, settled.update(i as int, true), rank, j as int) == if link_count(links, i, j)
            > 0 && pred_rank(links, settled, rank, j as int) < rank[i as int] + 1 {
            (rank[i as int] + 1) as nat
        } else {
            pred_rank(links, settled, rank, j as int)
        },
    decreases links.len(),
{
    if links.len() > 0 {
        assert(links_in_range(links.drop_last(), settled.len())) by {
            assert forall|k: int| 0 <= k < links.drop_last().len() implies (
            #[trigger] links.drop_last()[k]).0 < settled.len() && links.drop_last()[k].1
                < settled.len() by {
                assert(links.drop_last()[k] == links[k]);
            }
        }
        lemma_pred_rank_settle(links.drop_last(), settled, rank, i, j);
        assert(links.last() == links[links.len() - 1]);
    }
}

/// With nothing settled, every candidate set is empty.
proof fn lemma_pred_rank_none(links: Seq<(usize, usize)>, n: nat, rank: Seq<usize>, j: int)
    requires
        links_in_range(links, n),
    ensures
        pred_rank(links, Seq::new(n, |x: int| false), rank, j) == 0,
    decreases links.len(),
{
    if links.len() > 0 {
        assert(links_in_range(links.drop_last(), n)) by {
            assert forall|k: int| 0 <= k < links.drop_last().len() implies (
            #[trigger] links.drop_last()[k]).0 < n && links.drop_last()[k].1 < n by {
                assert(links.drop_last()[k] == links[k]);
            }
        }
        lemma_pred_rank_none(links.drop_last(), n, rank, j);
        assert(links.last() == links[links.len() - 1]);
    }
}

/// Two layerings of the same links agree on the settled nodes.
proof fn lemma_settled_included(
    links: Seq<(usize, usize)>,
    n: nat,
    s1: Seq<bool>,
    r1: Seq<usize>,
    s2: Seq<bool>,
    r2: Seq<usize>,
    j: int,
)
    requires
        links_in_range(links, n),
        rank_assignment(links, n, s1, r1),
        rank_assignment(links, n, s2, r2),
        0 <= j < n,
        s1[j],
    ensures
        s2[j],
    decreases r1[j],
{
    if !s2[j] {
        assert(exists|k: int| 0 <= k < links.len() && links[k].1 == j && !s2[links[k].0 as int]);
        let k = choose|k: int| 0 <= k < links.len() && links[k].1 == j && !s2[links[k].0 as int];
        let src = links[k].0 as int;
        assert(links[k].1 as int == j);
        assert(s1[src] && r1[src] < r1[j]);
        lemma_settled_included(links, n, s1, r1, s2, r2, src);
    }
}

proof fn lemma_settled_rank_equal(
    links: Seq<(usize, usize)>,
    n: nat,
    s: Seq<bool>,
    r1: Seq<usize>,
    r2: Seq<usize>,
    j: int,
)
    requires
        links_in_range(links, n),
        rank_assignment(links, n, s, r1),
        rank_assignment(links, n, s, r2),
        0 <= j < n,
        s[j],
    ensures
        r1[j] == r2[j],
    decreases r1[j],
{
    assert forall|k: int|
        0 <= k < links.len() && (#[trigger] links[k]).1 as int == j && s[links[k].0 as int]
            implies r1[links[k].0 as int] == r2[links[k].0 as int] by {
        let src = links[k].0 as int;
        assert(links[k].1 as int == j);
        assert(r1[src] < r1[j]);
        lemma_settled_rank_equal(links, n, s, r1, r2, src);
    }
    lemma_pred_rank_frame(links, s, r1, r2, j);
    assert(r1[j] == pred_rank(links, s, r1, j));
    assert(r2[j] == pred_rank(links, s, r2, j));
}

/// A layering is unique: the settled nodes and every rank are determined by
/// the links alone.
pub proof fn lemma_rank_assignment_unique(
    links: Seq<(usize, usize)>,
    n: nat,
    s1: Seq<bool>,
    r1: Seq<usize>,
    s2: Seq<bool>,
    r2: Seq<usize>,
)
    requires
        links_in_range(links, n),
        rank_assignment(links, n, s1, r1),
        rank_assignment(links, n, s2, r2),
    ensures
        s1 == s2,
        r1 == r2,
{
    assert forall|j: int| 0 <= j < n implies s1[j] == s2[j] by {
        if s1[j] {
            lemma_settled_included(links, n, s1, r1, s2, r2, j);
        }
        if s2[j] {
            lemma_settled_included(links, n, s2, r2, s1, r1, j);
        }
    }
    assert(s1 =~= s2);
    assert forall|j: int| 0 <= j < n implies r1[j] == r2[j] by {
        if s1[j] {
            lemma_settled_rank_equal(links, n, s1, r1, r2, j);
        } else {
            assert forall|k: int|
                0 <= k < links.len() && (#[trigger] links[k]).1 as int == j && s1[links[k].0 as int]
                    implies r1[links[k].0 as int] == r2[links[k].0 as int] by {
                lemma_settled_rank_equal(links, n, s1, r1, r2, links[k].0 as int);
            }
            lemma_pred_rank_frame(links, s1, r1, r2, j);
            assert(r1[j] == pred_rank(links, s1, r1, j));
            assert(r2[j] == pred_rank(links, s1, r2, j));
        }
    }
    assert(r1 =~= r2);
}

proof fn lemma_arch_edge_in(ids: Seq<Seq<char>>, es: Seq<ArchEdge>, k: int)
    requires
        0 <= k < es.len(),
        last_index_of(ids, es[k].from@) is Some,
        last_index_of(ids, es[k].to@) is Some,
        last_index_of(ids, es[k].from@) != last_index_of(ids, es[k].to@),
    ensures
        exists|m: int|
            0 <= m < links_of(ids, es).len() && #[trigger] links_of(ids, es)[m] == (
                last_index_of(ids, es[k].from@).unwrap() as usize,
                last_index_of(ids, es[k].to@).unwrap() as usize,
            ),
    decreases es.len(),
{
    let prev = links_of(ids, es.drop_last());
    let all = links_of(ids, es);
    let pair = (
        last_index_of(ids, es[k].from@).unwrap() as usize,
        last_index_of(ids, es[k].to@).unwrap() as usize,
    );
    if k == es.len() - 1 {
        assert(all == prev.push(pair));
        assert(all[prev.len() as int] == pair);
    } else {
        assert(es.drop_last()[k] == es[k]);
        lemma_arch_edge_in(ids, es.drop_last(), k);
        let m = choose|m: int| 0 <= m < prev.len() && #[trigger] prev[m] == pair;
        assert(all[m] == pair);
    }
}

proof fn lemma_arch_link_from(ids: Seq<Seq<char>>, es: Seq<ArchEdge>, m: int)
    requires
        0 <= m < links_of(ids, es).len(),
    ensures
        exists|k: int|
            0 <= k < es.len() && last_index_of(ids, (#[trigger] es[k]).from@) is Some && last_index_of(
                ids,
                es[k].to@,
            ) is Some && last_index_of(ids, es[k].from@) != last_index_of(ids, es[k].to@)
                && links_of(ids, es)[m] == (
                last_index_of(ids, es[k].from@).unwrap() as usize,
                last_index_of(ids, es[k].to@).unwrap() as usize,
            ),
    decreases es.len(),
{
    let prev = links_of(ids, es.drop_last());
    let all = links_of(ids, es);
    if m < prev.len() {
        lemma_arch_link_from(ids, es.drop_last(), m);
        let k = choose|k: int|
            0 <= k < es.drop_last().len() && last_index_of(ids, (#[trigger] es.drop_last()[k]).from@)
                is Some && last_index_of(ids, es.drop_last()[k].to@) is Some && last_index_of(
                ids,
                es.drop_last()[k].from@,
            ) != last_index_of(ids, es.drop_last()[k].to@) && prev[m] == (
                last_index_of(ids, es.drop_last()[k].from@).unwrap() as usize,
                last_index_of(ids, es.drop_last()[k].to@).unwrap() as usize,
            );
        assert(es.drop_last()[k] == es[k]);
        assert(all[m] == prev[m]);
    } else {
        assert(es[es.len() - 1] == es.last());
    }
}

/// Every edge between two different nodes that its endpoints resolve to (a
/// duplicated id to its last node) is a link of the layering, labeled or
/// not and whatever its role.
pub proof fn lemma_edge_is_link(spec: ArchitectureSpec, k: int)
    requires
        0 <= k < spec.edges@.len(),
        last_index_of(node_ids(spec.nodes@), spec.edges@[k].from@) is Some,
        last_index_of(node_ids(spec.nodes@), spec.edges@[k].to@) is Some,
        last_index_of(node_ids(spec.nodes@), spec.edges@[k].from@) != last_index_of(
            node_ids(spec.nodes@),
            spec.edges@[k].to@,
        ),
    ensures
        exists|m: int|
            0 <= m < arch_links(spec).len() && #[trigger] arch_links(spec)[m] == (
                last_index_of(node_ids(spec.nodes@), spec.edges@[k].from@).unwrap() as usize,
                last_index_of(node_ids(spec.nodes@), spec.edges@[k].to@).unwrap() as usize,
            ),
{
    let ids = node_ids(spec.nodes@);
    let es = spec.edges@;
    lemma_arch_edge_in(ids, es, k);
    let m = choose|m: int|
        0 <= m < links_of(ids, es).len() && #[trigger] links_of(ids, es)[m] == (
            last_index_of(ids, es[k].from@).unwrap() as usize,
            last_index_of(ids, es[k].to@).unwrap() as usize,
        );
    assert(arch_links(spec)[m] == links_of(ids, es)[m]);
}

/// Every link of the layering is an edge between two different nodes that
/// its endpoints resolve to.
pub proof fn lemma_link_is_edge(spec: ArchitectureSpec, m: int)
    requires
        0 <= m < arch_links(spec).len(),
    ensures
        exists|k: int|
            0 <= k < spec.edges@.len() && last_index_of(node_ids(spec.nodes@), (#[trigger] spec.edges@[k]).from@)
                is Some && last_index_of(node_ids(spec.nodes@), spec.edges@[k].to@) is Some
                && last_index_of(node_ids(spec.nodes@), spec.edges@[k].from@) != last_index_of(
                node_ids(spec.nodes@),
                spec.edges@[k].to@,
            ) && arch_links(spec)[m] == (
                last_index_of(node_ids(spec.nodes@), spec.edges@[k].from@).unwrap() as usize,
                last_index_of(node_ids(spec.nodes@), spec.edges@[k].to@).unwrap() as usize,
            ),
{
    lemma_arch_link_from(node_ids(spec.nodes@), spec.edges@, m);
}

/// In the layering of an architecture, every edge between two different
/// resolvable nodes climbs, labeled or not: when its target is settled (no
/// cycle reaches it), so is its source, with a lower rank.
pub proof fn lemma_edge_climbs(
    spec: ArchitectureSpec,
    settled: Seq<bool>,
    rank: Seq<usize>,
    k: int,
)
    requires
        spec.nodes@.len() <= usize::MAX,
        rank_assignment(arch_links(spec), spec.nodes@.len(), settled, rank),
        0 <= k < spec.edges@.len(),
        last_index_of(node_ids(spec.nodes@), spec.edges@[k].from@) is Some,
        last_index_of(node_ids(spec.nodes@), spec.edges@[k].to@) is Some,
        last_index_of(node_ids(spec.nodes@), spec.edges@[k].from@) != last_index_of(
            node_ids(spec.nodes@),
            spec.edges@[k].to@,
        ),
        settled[last_index_of(node_ids(spec.nodes@), spec.edges@[k].to@).unwrap()],
    ensures
        ({
            let a = last_index_of(node_ids(spec.nodes@), spec.edges@[k].from@).unwrap();
            let b = last_index_of(node_ids(spec.nodes@), spec.edges@[k].to@).unwrap();
            settled[a] && rank[a] < rank[b]
        }),
{
    let ids = node_ids(spec.nodes@);
    crate::types::shared::lemma_last_index_of(ids, spec.edges@[k].from@);
    crate::types::shared::lemma_last_index_of(ids, spec.edges@[k].to@);
    lemma_edge_is_link(spec, k);
    let lk = arch_links(spec);
    let m = choose|m: int|
        0 <= m < lk.len() && #[trigger] lk[m] == (
            last_index_of(ids, spec.edges@[k].from@).unwrap() as usize,
            last_index_of(ids, spec.edges@[k].to@).unwrap() as usize,
        );
    assert(ids.len() == spec.nodes@.len());
    let a = last_index_of(ids, spec.edges@[k].from@).unwrap();
    let b = last_index_of(ids, spec.edges@[k].to@).unwrap();
    assert(lk[m].0 as int == a && lk[m].1 as int == b);
}

/// Resolve the edges of `spec` into links.
#[verifier::spinoff_prover]
fn resolve_links(spec: &ArchitectureSpec) -> (links: Vec<(usize, usize)>)
    ensures
        links@ == arch_links(*spec),
        links_in_range(links@, spec.nodes@.len()),
        forall|k: int| 0 <= k < links@.len() ==> (#[trigger] links@[k]).0 != links@[k].1,
{
    let mut ids: Vec<String> = Vec::new();
    let mut i: usize = 0;
    while i < spec.nodes.len()
        invariant
            i <= spec.nodes@.len(),
            ids@.map_values(|s: String| s@) == node_ids(spec.nodes@).take(i as int),
        decreases spec.nodes@.len() - i,
    {
        let ghost old_ids = ids@;
        let id = spec.nodes[i].id.clone();
        ids.push(id);
        assert(ids@ == old_ids.push(id));
        assert(ids@.map_values(|s: String| s@) =~= old_ids.map_values(|s: String| s@).push(id@));
        assert(node_ids(spec.nodes@).take(i + 1) =~= node_ids(spec.nodes@).take(i as int).push(
            spec.nodes@[i as int].id@,
        ));
        i = i + 1;
    }
    assert(node_ids(spec.nodes@).take(i as int) =~= node_ids(spec.nodes@));
    let ghost ids_v = node_ids(spec.nodes@);
    let mut links: Vec<(usize, usize)> = Vec::new();
    let mut k: usize = 0;
    assert(spec.edges@.take(0) =~= Seq::<ArchEdge>::empty());
    while k < spec.edges.len()
        invariant
            k <= spec.edges@.len(),
            ids@.map_values(|s: String| s@) == ids_v,
            ids_v == node_ids(spec.nodes@),
            ids_v.len() == spec.nodes@.len(),
            links@ == links_of(ids_v, spec.edges@.take(k as int)),
            links_in_range(links@, spec.nodes@.len()),
            forall|m: int| 0 <= m < links@.len() ==> (#[trigger] links@[m]).0 != links@[m].1,
        decreases spec.edges@.len() - k,
    {
        let e = &spec.edges[k];
        assert(spec.edges@.take(k + 1).drop_last() =~= spec.edges@.take(k as int));
        assert(spec.edges@.take(k + 1).last() == *e);
        let a = find_last_id(&ids, &e.from);
        let b = find_last_id(&ids, &e.to);
        proof {
            crate::types::shared::lemma_last_index_of(ids_v, e.from@);
            crate::types::shared::lemma_last_index_of(ids_v, e.to@);
        }
        let ghost es = spec.edges@.take(k + 1);
        let ghost prev = links@;
        assert(links_of(ids_v, es) == (match (last_index_of(ids_v, e.from@), last_index_of(ids_v, e.to@)) {
            (Some(x), Some(y)) if x != y => prev.push((x as usize, y as usize)),
            _ => prev,
        }));
        match (a, b) {
            (Some(a), Some(b)) => {
                if a != b {
                    links.push((a, b));
                }
            },
            _ => {},
        }
        k = k + 1;
    }
    assert(spec.edges@.take(k as int) =~= spec.edges@);
    links
}

/// Assign each node a rank such that every link climbs in rank: sources
/// (no incoming link) get rank 0 and every other node one more than its
/// highest-ranked predecessor, the longest-path layering. Nodes on or below
/// a cycle keep the rank their settled predecessors give them.
pub fn assign_ranks(spec: &ArchitectureSpec) -> (ranks: Vec<usize>)
    ensures
        ranks@.len() == spec.nodes@.len(),
        exists|settled: Seq<bool>|
            rank_assignment(arch_links(*spec), spec.nodes@.len(), settled, ranks@),
        forall|j: int| 0 <= j < ranks@.len() ==> ranks@[j] < spec.nodes@.len(),
{
    let n = spec.nodes.len();
    let links = resolve_links(spec);
    let ghost lk = links@;
    let ghost none = Seq::new(n as nat, |x: int| false);

    // In-degrees.
    let mut remaining: Vec<usize> = Vec::new();
    let mut j: usize = 0;
    while j < n
        invariant
            j <= n,
            remaining@ == Seq::new(j as nat, |x: int| 0usize),
        decreases n - j,
    {
        remaining.push(0);
        j = j + 1;
        assert(remaining@ =~= Seq::new(j as nat, |x: int| 0usize));
    }
    let mut k: usize = 0;
    assert forall|x: int| 0 <= x < n implies remaining@[x] == pending_in(lk.take(0), none, x as usize) by {
        assert(lk.take(0) =~= Seq::<(usize, usize)>::empty());
    }
    while k < links.len()
        invariant
            lk == links@,
            links_in_range(lk, n as nat),
            none == Seq::new(n as nat, |x: int| false),
            k <= lk.len(),
            remaining@.len() == n,
            forall|x: int| 0 <= x < n ==> remaining@[x] == pending_in(lk.take(k as int), none, x as usize),
            forall|x: int| 0 <= x < n ==> remaining@[x] <= k,
        decreases lk.len() - k,
    {
        let (_, b) = links[k];
        assert(lk[k as int].1 < n);
        proof {
            assert forall|x: int| 0 <= x < n implies #[trigger] pending_in(lk.take(k + 1), none, x as usize)
                == pending_in(lk.take(k as int), none, x as usize) + if lk[k as int].1 == x as usize {
                1nat
            } else {
                0nat
            } by {
                lemma_pending_prefix_step(lk, none, k as int, x as usize);
            }
        }
        remaining[b] = remaining[b] + 1;
        k = k + 1;
    }
    assert(lk.take(lk.len() as int) =~= lk);

    // Sources seed the queue, in node order.
    let mut queue: Vec<usize> = Vec::new();
    let mut j: usize = 0;
    while j < n
        invariant
            j <= n,
            remaining@.len() == n,
            forall|t: int| 0 <= t < queue@.len() ==> #[trigger] queue@[t] < j,
            forall|t1: int, t2: int| 0 <= t1 < t2 < queue@.len() ==> queue@[t1] < queue@[t2],
            forall|x: int|
                0 <= x < n ==> ((remaining@[x] == 0 && x < j) <==> exists|t: int|
                    0 <= t < queue@.len() && queue@[t] == x),
        decreases n - j,
    {
        let ghost old_q = queue@;
        if remaining[j] == 0 {
            queue.push(j);
        }
        proof {
            assert forall|x: int| 0 <= x < n implies ((remaining@[x] == 0 && x < j + 1) <==> exists|t: int|
                0 <= t < queue@.len() && queue@[t] == x) by {
                if remaining@[x] == 0 && x < j + 1 {
                    if x == j {
                        assert(queue@[queue@.len() - 1] == x);
                    } else {
                        let t = choose|t: int| 0 <= t < old_q.len() && old_q[t] == x;
                        assert(queue@[t] == x);
                    }
                }
                if exists|t: int| 0 <= t < queue@.len() && queue@[t] == x {
                    let t = choose|t: int| 0 <= t < queue@.len() && queue@[t] == x;
                    if t < old_q.len() {
                        assert(old_q[t] == x);
                    }
                }
            }
        }
        j = j + 1;
    }

    let mut rank: Vec<usize> = Vec::new();
    let mut j: usize = 0;
    while j < n
        invariant
            j <= n,
            rank@ == Seq::new(j as nat, |x: int| 0usize),
        decreases n - j,
    {
        rank.push(0);
        j = j + 1;
        assert(rank@ =~= Seq::new(j as nat, |x: int| 0usize));
    }
    proof {
        lemma_settled_count_none(n as nat);
        assert forall|x: int| 0 <= x < n implies rank@[x] == pred_rank(lk, none, rank@, x) by {
            lemma_pred_rank_none(lk, n as nat, rank@, x);
        }
    }

    let ghost mut settled = none;
    let mut head: usize = 0;
    while head < queue.len()
        invariant
            lk == links@,
            links_in_range(lk, n as nat),
            forall|m: int| 0 <= m < lk.len() ==> (#[trigger] lk[m]).0 != lk[m].1,
            remaining@.len() == n,
            rank@.len() == n,
            settled.len() == n,
            head <= queue@.len(),
            settled_count(settled) == head,
            forall|t: int| 0 <= t < queue@.len() ==> #[trigger] queue@[t] < n,
            forall|t1: int, t2: int| 0 <= t1 < t2 < queue@.len() ==> queue@[t1] != queue@[t2],
            forall|x: int|
                0 <= x < n ==> ((remaining@[x] == 0) <==> exists|t: int|
                    0 <= t < queue@.len() && queue@[t] == x),
            forall|x: int|
                0 <= x < n ==> (settled[x] <==> exists|t: int| 0 <= t < head && queue@[t] == x),
            forall|x: int| 0 <= x < n ==> remaining@[x] == pending_in(lk, settled, x as usize),
            forall|x: int| 0 <= x < n ==> rank@[x] == pred_rank(lk, settled, rank@, x),
            forall|x: int| 0 <= x < n ==> rank@[x] <= head,
            forall|x: int| 0 <= x < n && settled[x] ==> rank@[x] < head,
        decreases n - head,
    {
        let i = queue[head];
        let ghost s0 = settled;
        let ghost rank0 = rank@;
        assert(!s0[i as int]) by {
            if s0[i as int] {
                let t = choose|t: int| 0 <= t < head && queue@[t] == i;
                assert(queue@[t] != queue@[head as int]);
            }
        }
        assert(rank0[i as int] <= head);
        proof {
            lemma_settled_count_update(s0, i as int);
            lemma_settled_count_bound(s0);
        }
        proof {
            settled = s0.update(i as int, true);
        }
        head = head + 1;
        assert forall|x: int| 0 <= x < n implies (settled[x] <==> exists|t: int|
            0 <= t < head && queue@[t] == x) by {
            if settled[x] && x != i {
                let t = choose|t: int| 0 <= t < head - 1 && queue@[t] == x;
            }
        }
        let mut k: usize = 0;
        assert(lk.take(0) =~= Seq::<(usize, usize)>::empty());
        assert forall|x: int| 0 <= x < n && s0[x] implies pending_in(lk, s0, x as usize) == 0 by {
            let t = choose|t: int| 0 <= t < head - 1 && queue@[t] == x;
            assert(remaining@[x] == 0);
        }
        while k < links.len()
            invariant
                lk == links@,
                links_in_range(lk, n as nat),
                forall|m: int| 0 <= m < lk.len() ==> (#[trigger] lk[m]).0 != lk[m].1,
                i < n,
                !s0[i as int],
                s0.len() == n,
                settled == s0.update(i as int, true),
                remaining@.len() == n,
                rank@.len() == n,
                rank0.len() == n,
                k <= lk.len(),
                head <= queue@.len(),
                rank0[i as int] + 1 <= head,
                rank@[i as int] == rank0[i as int],
                forall|t: int| 0 <= t < queue@.len() ==> #[trigger] queue@[t] < n,
                forall|t1: int, t2: int| 0 <= t1 < t2 < queue@.len() ==> queue@[t1] != queue@[t2],
                forall|x: int|
                    0 <= x < n ==> ((remaining@[x] == 0) <==> exists|t: int|
                        0 <= t < queue@.len() && queue@[t] == x),
                forall|x: int|
                    0 <= x < n ==> (settled[x] <==> exists|t: int| 0 <= t < head && queue@[t] == x),
                forall|x: int|
                    0 <= x < n ==> remaining@[x] + link_count(lk.take(k as int), i, x as usize)
                        == pending_in(lk, s0, x as usize),
                forall|x: int|
                    0 <= x < n ==> rank@[x] == if link_count(lk.take(k as int), i, x as usize) > 0
                        && pred_rank(lk, s0, rank0, x) < rank0[i as int] + 1 {
                        (rank0[i as int] + 1) as nat
                    } else {
                        pred_rank(lk, s0, rank0, x)
                    },
                forall|x: int| 0 <= x < n && settled[x] ==> rank@[x] == rank0[x],
                forall|x: int| 0 <= x < n && s0[x] ==> pending_in(lk, s0, x as usize) == 0,
                forall|x: int| 0 <= x < n ==> rank@[x] <= head,
                forall|x: int| 0 <= x < n && s0[x] ==> rank@[x] < head - 1,
            decreases lk.len() - k,
        {
            let (a, b) = links[k];
            proof {
                assert forall|x: int| 0 <= x < n implies #[trigger] link_count(lk.take(k + 1), i, x as usize)
                    == link_count(lk.take(k as int), i, x as usize) + if lk[k as int] == (
                    i,
                    x as usize,
                ) {
                    1nat
                } else {
                    0nat
                } by {
                    lemma_link_count_step(lk, k as int, i, x as usize);
                }
            }
            let ghost old_q = queue@;
            if a == i {
                assert(b < n);
                assert(b != i);
                // `b` is not settled: the link from `i` keeps it pending.
                proof {
                    lemma_pending_positive(lk, s0, k as int);
                    lemma_link_count_positive(lk.take(k + 1), k as int);
                    assert(lk.take(k + 1)[k as int] == lk[k as int]);
                }
                assert(!s0[b as int]);
                proof {
                    crate::types::graph::lemma_link_count_le_pending(lk, s0, i, b);
                    crate::types::graph::lemma_link_count_prefix(lk, k + 1, i, b);
                }
                assert(remaining@[b as int] > 0);
                let ri = rank[i];
                if rank[b] < ri + 1 {
                    rank[b] = ri + 1;
                }
                remaining[b] = remaining[b] - 1;
                if remaining[b] == 0 {
                    assert(!exists|t: int| 0 <= t < queue@.len() && queue@[t] == b);
                    queue.push(b);
                }
            }
            proof {
                assert forall|x: int| 0 <= x < n implies ((remaining@[x] == 0) <==> exists|t: int|
                    0 <= t < queue@.len() && queue@[t] == x) by {
                    if remaining@[x] == 0 {
                        if queue@.len() > old_q.len() && x == b {
                            assert(queue@[queue@.len() - 1] == x);
                        } else {
                            let t = choose|t: int| 0 <= t < old_q.len() && old_q[t] == x;
                            assert(queue@[t] == x);
                        }
                    }
                    if exists|t: int| 0 <= t < queue@.len() && queue@[t] == x {
                        let t = choose|t: int| 0 <= t < queue@.len() && queue@[t] == x;
                        if t < old_q.len() {
                            assert(old_q[t] == x);
                        }
                    }
                }
                assert forall|x: int| 0 <= x < n implies (settled[x] <==> exists|t: int|
                    0 <= t < head && queue@[t] == x) by {
                    if settled[x] {
                        let t = choose|t: int| 0 <= t < head && old_q[t] == x;
                        assert(queue@[t] == x);
                    }
                    if exists|t: int| 0 <= t < head && queue@[t] == x {
                        let t = choose|t: int| 0 <= t < head && queue@[t] == x;
                        assert(old_q[t] == x);
                    }
                }
            }
            k = k + 1;
        }
        assert(lk.take(lk.len() as int) =~= lk);
        proof {
            assert forall|x: int| 0 <= x < n implies remaining@[x] == pending_in(
                lk,
                settled,
                x as usize,
            ) by {
                lemma_pending_settle(lk, s0, i, x as usize);
            }
            assert forall|x: int| 0 <= x < n implies rank@[x] == pred_rank(
                lk,
                settled,
                rank@,
                x,
            ) by {
                lemma_pred_rank_settle(lk, s0, rank0, i, x as usize);
                assert forall|m: int|
                    0 <= m < lk.len() && (#[trigger] lk[m]).1 as int == x && settled[lk[m].0 as int]
                        implies rank0[lk[m].0 as int] == rank@[lk[m].0 as int] by {}
                lemma_pred_rank_frame(lk, settled, rank0, rank@, x);
            }
        }
    }

    // Every node that never reached the queue still has a pending link.
    proof {
        let s = settled;
        assert forall|k: int|
            0 <= k < lk.len() && s[(#[trigger] lk[k]).1 as int] implies s[lk[k].0 as int]
            && rank@[lk[k].0 as int] < rank@[lk[k].1 as int] by {
            let b = lk[k].1;
            assert(remaining@[b as int] == 0) by {
                let t = choose|t: int| 0 <= t < head && queue@[t] == b;
            }
            if !s[lk[k].0 as int] {
                lemma_pending_positive(lk, s, k);
            }
            lemma_pred_rank_bound(lk, s, rank@, b as int, k);
        }
        assert forall|x: int| 0 <= x < n && !#[trigger] s[x] implies exists|k: int|
            0 <= k < lk.len() && lk[k].1 == x && !s[lk[k].0 as int] by {
            assert(remaining@[x] != 0) by {
                if remaining@[x] == 0 {
                    let t = choose|t: int| 0 <= t < queue@.len() && queue@[t] == x;
                }
            }
            lemma_pending_witness(lk, s, x as usize);
        }
        assert(rank_assignment(lk, n as nat, s, rank@));
        lemma_settled_count_bound(s);
        assert forall|x: int| 0 <= x < rank@.len() implies rank@[x] < n by {
            if !s[x] {
                assert(settled_count(s) < s.len());
            }
        }
    }
    rank
}

/// Group node indices by rank, preserving node order within each rank.
pub open spec fn rank_group(ranks: Seq<usize>, r: usize) -> Seq<usize>
    decreases ranks.len(),
{
    if ranks.len() == 0 {
        Seq::empty()
    } else if ranks.last() == r {
        rank_group(ranks.drop_last(), r).push((ranks.len() - 1) as usize)
    } else {
        rank_group(ranks.drop_last(), r)
    }
}

/// The highest rank, 0 for no nodes.
pub open spec fn max_rank(ranks: Seq<usize>) -> nat
    decreases ranks.len(),
{
    if ranks.len() == 0 {
        0
    } else {
        let m = max_rank(ranks.drop_last());
        if ranks.last() > m {
            ranks.last() as nat
        } else {
            m
        }
    }
}

proof fn lemma_max_rank_ge(ranks: Seq<usize>)
    ensures
        forall|i: int| 0 <= i < ranks.len() ==> ranks[i] <= max_rank(ranks),
    decreases ranks.len(),
{
    if ranks.len() > 0 {
        lemma_max_rank_ge(ranks.drop_last());
        assert forall|i: int| 0 <= i < ranks.len() - 1 implies ranks[i] == ranks.drop_last()[i] by {}
    }
}

proof fn lemma_max_rank_bound(ranks: Seq<usize>, b: nat)
    requires
        forall|i: int| 0 <= i < ranks.len() ==> ranks[i] < b,
        b > 0,
    ensures
        max_rank(ranks) < b,
    decreases ranks.len(),
{
    if ranks.len() > 0 {
        lemma_max_rank_bound(ranks.drop_last(), b);
    }
}

/// Group node indices by rank: `groups[r]` lists, in node order, the nodes
/// of rank `r`, for every rank up to the highest.
pub fn group_by_rank(ranks: &Vec<usize>) -> (groups: Vec<Vec<usize>>)
    requires
        forall|i: int| 0 <= i < ranks@.len() ==> ranks@[i] < usize::MAX,
    ensures
        groups@.len() == max_rank(ranks@) + 1,
        forall|r: int| 0 <= r < groups@.len() ==> (#[trigger] groups@[r])@ == rank_group(ranks@, r as usize),
{
    let mut max: usize = 0;
    let mut i: usize = 0;
    while i < ranks.len()
        invariant
            i <= ranks@.len(),
            max == max_rank(ranks@.take(i as int)),
        decreases ranks@.len() - i,
    {
        assert(ranks@.take(i + 1).drop_last() =~= ranks@.take(i as int));
        if ranks[i] > max {
            max = ranks[i];
        }
        i = i + 1;
    }
    assert(ranks@.take(i as int) =~= ranks@);
    proof {
        if ranks@.len() > 0 {
            lemma_max_rank_bound(ranks@, usize::MAX as nat);
        }
        lemma_max_rank_ge(ranks@);
    }
    let mut groups: Vec<Vec<usize>> = Vec::new();
    let mut r: usize = 0;
    while r <= max
        invariant
            r <= max + 1,
            max < usize::MAX,
            groups@.len() == r,
            forall|q: int| 0 <= q < r ==> (#[trigger] groups@[q])@ == Seq::<usize>::empty(),
        decreases max + 1 - r,
    {
        groups.push(Vec::new());
        r = r + 1;
    }
    let mut i: usize = 0;
    while i < ranks.len()
        invariant
            i <= ranks@.len(),
            groups@.len() == max + 1,
            max == max_rank(ranks@),
            forall|q: int| 0 <= q < ranks@.len() ==> ranks@[q] <= max,
            forall|q: int|
                0 <= q < groups@.len() ==> (#[trigger] groups@[q])@ == rank_group(
                    ranks@.take(i as int),
                    q as usize,
                ),
        decreases ranks@.len() - i,
    {
        let r = ranks[i];
        groups[r].push(i);
        proof {
            assert forall|q: int| 0 <= q < groups@.len() implies (#[trigger] groups@[q])@
                == rank_group(ranks@.take(i + 1), q as usize) by {
                assert(ranks@.take(i + 1).drop_last() =~= ranks@.take(i as int));
            }
        }
        i = i + 1;
    }
    assert(ranks@.take(i as int) =~= ranks@);
    groups
}

} // verus!
