//! Directed links between the nodes of a diagram, and the counting facts
//! that the layering algorithms (flowchart ordering, architecture ranks)
//! rest on. A link is a pair of node indices `(from, to)`.

use vstd::prelude::*;

verus! {

/// Every link names two of the `n` nodes.
pub open spec fn links_in_range(links: Seq<(usize, usize)>, n: nat) -> bool {
    forall|k: int| 0 <= k < links.len() ==> (#[trigger] links[k]).0 < n && links[k].1 < n
}

/// Number of links into `j` whose source is not yet settled.
pub open spec fn pending_in(links: Seq<(usize, usize)>, settled: Seq<bool>, j: usize) -> nat
    decreases links.len(),
{
    if links.len() == 0 {
        0
    } else {
        let prev = pending_in(links.drop_last(), settled, j);
        let (a, b) = links.last();
        if b == j && !settled[a as int] {
            prev + 1
        } else {
            prev
        }
    }
}

/// Number of links from `i` to `j`.
pub open spec fn link_count(links: Seq<(usize, usize)>, i: usize, j: usize) -> nat
    decreases links.len(),
{
    if links.len() == 0 {
        0
    } else {
        let prev = link_count(links.drop_last(), i, j);
        if links.last() == (i, j) {
            prev + 1
        } else {
            prev
        }
    }
}

/// Number of settled nodes.
pub open spec fn settled_count(settled: Seq<bool>) -> nat
    decreases settled.len(),
{
    if settled.len() == 0 {
        0
    } else {
        settled_count(settled.drop_last()) + if settled.last() {
            1nat
        } else {
            0nat
        }
    }
}

pub proof fn lemma_settled_count_update(settled: Seq<bool>, i: int)
    requires
        0 <= i < settled.len(),
        !settled[i],
    ensures
        settled_count(settled.update(i, true)) == settled_count(settled) + 1,
    decreases settled.len(),
{
    let u = settled.update(i, true);
    if i < settled.len() - 1 {
        assert(u.drop_last() =~= settled.drop_last().update(i, true));
        lemma_settled_count_update(settled.drop_last(), i);
    } else {
        assert(u.drop_last() =~= settled.drop_last());
    }
}

pub proof fn lemma_settled_count_bound(settled: Seq<bool>)
    ensures
        settled_count(settled) <= settled.len(),
        (exists|j: int| 0 <= j < settled.len() && !settled[j]) ==> settled_count(settled) < settled.len(),
    decreases settled.len(),
{
    if settled.len() > 0 {
        lemma_settled_count_bound(settled.drop_last());
        if exists|j: int| 0 <= j < settled.len() && !settled[j] {
            let j = choose|j: int| 0 <= j < settled.len() && !settled[j];
            if j < settled.len() - 1 {
                assert(!settled.drop_last()[j]);
            }
        }
    }
}

pub proof fn lemma_settled_count_none(n: nat)
    ensures
        settled_count(Seq::new(n, |j: int| false)) == 0,
    decreases n,
{
    if n > 0 {
        assert(Seq::new(n, |j: int| false).drop_last() =~= Seq::new((n - 1) as nat, |j: int| false));
        lemma_settled_count_none((n - 1) as nat);
    }
}

/// Settling an unsettled `i` removes its links from every pending count.
pub proof fn lemma_pending_settle(links: Seq<(usize, usize)>, settled: Seq<bool>, i: usize, j: usize)
    requires
        links_in_range(links, settled.len()),
        i < settled.len(),
        !settled[i as int],
    ensures
        pending_in(links, settled.update(i as int, true), j) + link_count(links, i, j)
            == pending_in(links, settled, j),
    decreases links.len(),
{
    if links.len() > 0 {
        assert(links_in_range(links.drop_last(), settled.len())) by {
            assert forall|k: int| 0 <= k < links.drop_last().len() implies (
            #[trigger] links.drop_last()[k]).0 < settled.len() && links.drop_last()[k].1
                < settled.len() by {
                assert(links.drop_last()[k] == links[k]);
            }
        }
        lemma_pending_settle(links.drop_last(), settled, i, j);
        assert(links.last() == links[links.len() - 1]);
    }
}

/// A pending count is positive exactly when some link into `j` comes from
/// an unsettled node.
pub proof fn lemma_pending_witness(links: Seq<(usize, usize)>, settled: Seq<bool>, j: usize)
    ensures
        pending_in(links, settled, j) > 0 <==> exists|k: int|
            0 <= k < links.len() && links[k].1 == j && !settled[links[k].0 as int],
    decreases links.len(),
{
    if links.len() > 0 {
        lemma_pending_witness(links.drop_last(), settled, j);
        let last = links.len() - 1;
        if pending_in(links, settled, j) > 0 {
            if links[last].1 == j && !settled[links[last].0 as int] {
            } else {
                let k = choose|k: int|
                    0 <= k < links.drop_last().len() && links.drop_last()[k].1 == j
                        && !settled[links.drop_last()[k].0 as int];
                assert(links[k] == links.drop_last()[k]);
            }
        } else {
            assert forall|k: int| 0 <= k < links.len() implies !(links[k].1 == j
                && !settled[links[k].0 as int]) by {
                if k < last {
                    assert(links[k] == links.drop_last()[k]);
                }
            }
        }
    }
}

/// Counting links from `i` to `j` over a growing prefix.
pub proof fn lemma_link_count_step(links: Seq<(usize, usize)>, k: int, i: usize, j: usize)
    requires
        0 <= k < links.len(),
    ensures
        link_count(links.take(k + 1), i, j) == link_count(links.take(k), i, j) + if links[k] == (i, j) {
            1nat
        } else {
            0nat
        },
{
    assert(links.take(k + 1).drop_last() =~= links.take(k));
}

/// A link from `i` to `j` makes the count positive.
pub proof fn lemma_link_count_positive(links: Seq<(usize, usize)>, k: int)
    requires
        0 <= k < links.len(),
    ensures
        link_count(links, links[k].0, links[k].1) > 0,
    decreases links.len(),
{
    if k < links.len() - 1 {
        lemma_link_count_positive(links.drop_last(), k);
        assert(links.drop_last()[k] == links[k]);
    }
}

/// A link from an unsettled node into `j` keeps `j` pending.
pub proof fn lemma_pending_positive(links: Seq<(usize, usize)>, settled: Seq<bool>, k: int)
    requires
        0 <= k < links.len(),
        !settled[links[k].0 as int],
    ensures
        pending_in(links, settled, links[k].1) > 0,
{
    lemma_pending_witness(links, settled, links[k].1);
}

/// With nothing settled, the pending count of `j` is its in-degree.
pub proof fn lemma_pending_prefix_step(
    links: Seq<(usize, usize)>,
    settled: Seq<bool>,
    k: int,
    j: usize,
)
    requires
        0 <= k < links.len(),
    ensures
        pending_in(links.take(k + 1), settled, j) == pending_in(links.take(k), settled, j) + if links[k].1
            == j && !settled[links[k].0 as int] {
            1nat
        } else {
            0nat
        },
{
    assert(links.take(k + 1).drop_last() =~= links.take(k));
}

/// The links from an unsettled `i` into `j` are all pending.
pub proof fn lemma_link_count_le_pending(
    links: Seq<(usize, usize)>,
    settled: Seq<bool>,
    i: usize,
    j: usize,
)
    requires
        !settled[i as int],
    ensures
        link_count(links, i, j) <= pending_in(links, settled, j),
    decreases links.len(),
{
    if links.len() > 0 {
        lemma_link_count_le_pending(links.drop_last(), settled, i, j);
    }
}

/// A prefix has no more links from `i` to `j` than the whole.
pub proof fn lemma_link_count_prefix(links: Seq<(usize, usize)>, m: int, i: usize, j: usize)
    requires
        0 <= m <= links.len(),
    ensures
        link_count(links.take(m), i, j) <= link_count(links, i, j),
    decreases links.len(),
{
    if m < links.len() {
        assert(links.drop_last().take(m) =~= links.take(m));
        lemma_link_count_prefix(links.drop_last(), m, i, j);
    } else {
        assert(links.take(m) =~= links);
    }
}

// --- First-in first-out topological order ----------------------------------

/// The position of `x` in `order`; meaningful when `x` occurs there exactly
/// once.
pub open spec fn position(order: Seq<usize>, x: usize) -> int {
    choose|t: int| 0 <= t < order.len() && order[t] == x
}

/// Links are handled source by source, in the order the sources are taken,
/// and the links of one source in list order: link `k1` is handled before
/// link `k2`.
pub open spec fn handled_before(links: Seq<(usize, usize)>, order: Seq<usize>, k1: int, k2: int) -> bool {
    let p1 = position(order, links[k1].0);
    let p2 = position(order, links[k2].0);
    p1 < p2 || (p1 == p2 && k1 < k2)
}

/// Among the first `m` links, the last link into `j` to be handled.
pub open spec fn last_in(links: Seq<(usize, usize)>, order: Seq<usize>, j: usize, m: int) -> Option<int>
    decreases m,
{
    if m <= 0 {
        None
    } else {
        let prev = last_in(links, order, j, m - 1);
        if links[m - 1].1 == j {
            match prev {
                Some(k) if !handled_before(links, order, k, m - 1) => Some(k),
                _ => Some(m - 1),
            }
        } else {
            prev
        }
    }
}

/// A node is released (its last incoming link handled) before another:
/// nodes without incoming links come first, in node order; the others in
/// the order their last incoming links are handled.
pub open spec fn released_before(links: Seq<(usize, usize)>, order: Seq<usize>, a: usize, b: usize) -> bool {
    match (last_in(links, order, a, links.len() as int), last_in(links, order, b, links.len() as int)) {
        (None, None) => a < b,
        (None, Some(_)) => true,
        (Some(_), None) => false,
        (Some(k1), Some(k2)) => handled_before(links, order, k1, k2),
    }
}

/// Some link into `x` comes from a node at or after `split` in `order`.
pub open spec fn fed_from_rest(links: Seq<(usize, usize)>, order: Seq<usize>, split: int, x: usize) -> bool {
    exists|k: int, t: int|
        #![trigger links[k], order[t]]
        0 <= k < links.len() && links[k].1 == x && split <= t < order.len() && order[t] == links[k].0
}

/// `order` splits at `split` into the nodes Kahn's algorithm takes, with a
/// first-in first-out queue seeded in node order, and the nodes it never
/// reaches:
/// * every link into a taken node comes from a node taken before it;
/// * every node never reached has a link from another node never reached
///   (it lies on or below a cycle);
/// * the nodes never reached follow in node order;
/// * the taken nodes come in the order they are released.
pub open spec fn kahn_split(links: Seq<(usize, usize)>, order: Seq<usize>, split: int) -> bool {
    &&& 0 <= split <= order.len()
    &&& forall|t: int, k: int|
        #![trigger order[t], links[k]]
        0 <= t < split && 0 <= k < links.len() && links[k].1 == order[t] ==> exists|t2: int|
            0 <= t2 < t && order[t2] == links[k].0
    &&& forall|t: int| split <= t < order.len() ==> #[trigger] fed_from_rest(links, order, split, order[t])
    &&& forall|t1: int, t2: int|
        split <= t1 < t2 < order.len() ==> #[trigger] order[t1] < #[trigger] order[t2]
    &&& forall|t1: int, t2: int|
        0 <= t1 < t2 < split ==> released_before(links, order, #[trigger] order[t1], #[trigger] order[t2])
}

/// `order` is a permutation of the `n` nodes in Kahn order (see
/// [`kahn_split`]).
pub open spec fn kahn_order(links: Seq<(usize, usize)>, n: nat, order: Seq<usize>) -> bool {
    &&& order.len() == n
    &&& forall|t: int| 0 <= t < order.len() ==> #[trigger] order[t] < n
    &&& order.no_duplicates()
    &&& forall|x: usize| x < n ==> #[trigger] occurs(order, x)
    &&& exists|split: int| kahn_split(links, order, split)
}

/// `x` occurs in `order`.
pub open spec fn occurs(order: Seq<usize>, x: usize) -> bool {
    exists|t: int| 0 <= t < order.len() && order[t] == x
}

/// A node taken by one Kahn order is taken by any other of the same links.
proof fn lemma_kahn_taken_included(
    links: Seq<(usize, usize)>,
    o1: Seq<usize>,
    s1: int,
    o2: Seq<usize>,
    s2: int,
    t: int,
)
    requires
        kahn_split(links, o1, s1),
        kahn_split(links, o2, s2),
        o2.no_duplicates(),
        forall|u: int| 0 <= u < o1.len() ==> occurs(o2, #[trigger] o1[u]),
        0 <= t < s1,
    ensures
        exists|t2: int| 0 <= t2 < s2 && o2[t2] == o1[t],
    decreases t,
{
    let x = o1[t];
    assert(occurs(o2, o1[t]));
    let t2 = choose|t2: int| 0 <= t2 < o2.len() && o2[t2] == x;
    if t2 >= s2 {
        assert(fed_from_rest(links, o2, s2, o2[t2]));
        let (k, tt) = choose|k: int, tt: int|
            #![trigger links[k], o2[tt]]
            0 <= k < links.len() && links[k].1 == x && s2 <= tt < o2.len() && o2[tt] == links[k].0;
        assert(links[k].1 == o1[t]);
        let t3 = choose|t3: int| 0 <= t3 < t && o1[t3] == links[k].0;
        lemma_kahn_taken_included(links, o1, s1, o2, s2, t3);
        let p = choose|p: int| 0 <= p < s2 && o2[p] == o1[t3];
        assert(o2[p] == o2[tt]);
    }
}

/// Two Kahn orders of the same links over the same nodes are one order:
/// the contract of a Kahn order pins it down.
pub proof fn lemma_kahn_order_unique(links: Seq<(usize, usize)>, n: nat, o1: Seq<usize>, o2: Seq<usize>)
    requires
        kahn_order(links, n, o1),
        kahn_order(links, n, o2),
    ensures
        o1 == o2,
{
    let s1 = choose|s: int| kahn_split(links, o1, s);
    let s2 = choose|s: int| kahn_split(links, o2, s);
    assert forall|u: int| 0 <= u < o1.len() implies occurs(o2, #[trigger] o1[u]) by {
        assert(o1[u] < n);
    }
    assert forall|u: int| 0 <= u < o2.len() implies occurs(o1, #[trigger] o2[u]) by {
        assert(o2[u] < n);
    }
    let m = if s1 < s2 { s1 } else { s2 };
    // The taken prefixes agree.
    assert forall|t: int| 0 <= t < m implies o1[t] == o2[t] by {
        lemma_kahn_prefix_agree(links, o1, s1, o2, s2, t);
    }
    // ... and have the same length.
    if s1 < s2 {
        lemma_kahn_taken_included(links, o2, s2, o1, s1, s1);
        let p = choose|p: int| 0 <= p < s1 && o1[p] == o2[s1];
        assert(o1[p] == o2[p]);
        assert(false);
    }
    if s2 < s1 {
        lemma_kahn_taken_included(links, o1, s1, o2, s2, s2);
        let p = choose|p: int| 0 <= p < s2 && o2[p] == o1[s2];
        assert(o1[p] == o2[p]);
        assert(false);
    }
    // The rest is the remaining nodes in increasing order, in both.
    assert forall|t: int| 0 <= t < o1.len() implies o1[t] == o2[t] by {
        if t >= m {
            lemma_kahn_rest_agree(o1, o2, m, t);
        }
    }
    assert(o1 =~= o2);
}

proof fn lemma_kahn_prefix_agree(
    links: Seq<(usize, usize)>,
    o1: Seq<usize>,
    s1: int,
    o2: Seq<usize>,
    s2: int,
    t: int,
)
    requires
        kahn_split(links, o1, s1),
        kahn_split(links, o2, s2),
        o1.no_duplicates(),
        o2.no_duplicates(),
        forall|u: int| 0 <= u < o1.len() ==> occurs(o2, #[trigger] o1[u]),
        forall|u: int| 0 <= u < o2.len() ==> occurs(o1, #[trigger] o2[u]),
        0 <= t < s1,
        t < s2,
    ensures
        o1[t] == o2[t],
    decreases t,
{
    assert forall|i: int| 0 <= i < t implies o1[i] == o2[i] by {
        lemma_kahn_prefix_agree(links, o1, s1, o2, s2, i);
    }
    let u = o1[t];
    let w = o2[t];
    if u != w {
        lemma_kahn_taken_included(links, o1, s1, o2, s2, t);
        lemma_kahn_taken_included(links, o2, s2, o1, s1, t);
        let tu = choose|p: int| 0 <= p < s2 && o2[p] == o1[t];
        let tw = choose|p: int| 0 <= p < s1 && o1[p] == o2[t];
        if tu < t {
            assert(o1[tu] == o2[tu]);
        }
        if tw < t {
            assert(o1[tw] == o2[tw]);
        }
        assert(tu > t && tw > t);
        assert(released_before(links, o1, o1[t], o1[tw]));
        assert(released_before(links, o2, o2[t], o2[tu]));
        // Every link into `u` or `w` comes from the common prefix.
        assert forall|k: int|
            0 <= k < links.len() && ((#[trigger] links[k]).1 == u || links[k].1 == w) implies exists|p: int|
            0 <= p < t && o1[p] == links[k].0 by {
            if links[k].1 == u {
                let p = choose|p: int| 0 <= p < t && o1[p] == links[k].0;
            } else {
                let p = choose|p: int| 0 <= p < t && o2[p] == links[k].0;
                assert(o1[p] == o2[p]);
            }
        }
        let pre = o1.take(t);
        assert forall|k: int|
            0 <= k < links.len() && ((#[trigger] links[k]).1 == u || links[k].1 == w) implies exists|p: int|
            0 <= p < pre.len() && pre[p] == links[k].0 by {
            let p = choose|p: int| 0 <= p < t && o1[p] == links[k].0;
            assert(pre[p] == o1[p]);
        }
        assert forall|p: int| 0 <= p < pre.len() implies pre[p] == o2[p] by {
            assert(o1[p] == o2[p]);
        }
        lemma_released_extend(links, pre, o1, u, w);
        lemma_released_extend(links, pre, o2, u, w);
        lemma_released_extend(links, pre, o1, w, u);
        lemma_released_extend(links, pre, o2, w, u);
        lemma_last_in_max(links, o2, u, links.len() as int);
        lemma_last_in_max(links, o2, w, links.len() as int);
        assert(released_before(links, o2, u, w));
        assert(released_before(links, o2, w, u));
    }
}

/// Past the common prefix, both orders list the remaining nodes in
/// increasing order, so they agree there too.
proof fn lemma_kahn_rest_agree(o1: Seq<usize>, o2: Seq<usize>, m: int, t: int)
    requires
        o1.len() == o2.len(),
        0 <= m <= t < o1.len(),
        o1.no_duplicates(),
        o2.no_duplicates(),
        forall|i: int| 0 <= i < m ==> o1[i] == o2[i],
        forall|u: int| 0 <= u < o1.len() ==> occurs(o2, #[trigger] o1[u]),
        forall|u: int| 0 <= u < o2.len() ==> occurs(o1, #[trigger] o2[u]),
        forall|t1: int, t2: int| m <= t1 < t2 < o1.len() ==> #[trigger] o1[t1] < #[trigger] o1[t2],
        forall|t1: int, t2: int| m <= t1 < t2 < o2.len() ==> #[trigger] o2[t1] < #[trigger] o2[t2],
    ensures
        o1[t] == o2[t],
    decreases t - m,
{
    assert forall|i: int| m <= i < t implies o1[i] == o2[i] by {
        lemma_kahn_rest_agree(o1, o2, m, i);
    }
    if o1[t] != o2[t] {
        assert(occurs(o2, o1[t]));
        assert(occurs(o1, o2[t]));
        let p = choose|p: int| 0 <= p < o2.len() && o2[p] == o1[t];
        let q = choose|q: int| 0 <= q < o1.len() && o1[q] == o2[t];
        if p < t {
            assert(o1[p] == o2[p]);
        }
        if q < t {
            assert(o1[q] == o2[q]);
        }
        assert(p > t && q > t);
        assert(o2[t] < o2[p]);
        assert(o1[t] < o1[q]);
    }
}

pub proof fn lemma_position(order: Seq<usize>, t: int)
    requires
        order.no_duplicates(),
        0 <= t < order.len(),
    ensures
        position(order, order[t]) == t,
{
    let x = order[t];
    assert(0 <= t < order.len() && order[t] == x);
    let p = position(order, x);
    assert(0 <= p < order.len() && order[p] == x);
}

/// `last_in` picks the link into `j` that is handled last.
pub proof fn lemma_last_in_max(links: Seq<(usize, usize)>, order: Seq<usize>, j: usize, m: int)
    requires
        0 <= m <= links.len(),
    ensures
        last_in(links, order, j, m) is None <==> forall|k: int| 0 <= k < m ==> links[k].1 != j,
        last_in(links, order, j, m) matches Some(k) ==> {
            &&& 0 <= k < m
            &&& links[k].1 == j
            &&& forall|k2: int|
                0 <= k2 < m && links[k2].1 == j && k2 != k ==> handled_before(links, order, k2, k)
        },
    decreases m,
{
    if m > 0 {
        lemma_last_in_max(links, order, j, m - 1);
        let prev = last_in(links, order, j, m - 1);
        if links[m - 1].1 == j {
            if let Some(kp) = prev {
                if handled_before(links, order, kp, m - 1) {
                    assert forall|k2: int|
                        0 <= k2 < m && links[k2].1 == j && k2 != m - 1 implies handled_before(
                        links,
                        order,
                        k2,
                        m - 1,
                    ) by {
                        if k2 != kp {
                            assert(handled_before(links, order, k2, kp));
                        }
                    }
                } else {
                    assert(handled_before(links, order, m - 1, kp));
                }
            }
        }
    }
}

/// When link `k` into `j` is handled after every other link into `j`, it is
/// the last one.
pub proof fn lemma_last_in_is(links: Seq<(usize, usize)>, order: Seq<usize>, j: usize, k: int)
    requires
        0 <= k < links.len(),
        links[k].1 == j,
        forall|k2: int|
            0 <= k2 < links.len() && links[k2].1 == j && k2 != k ==> handled_before(links, order, k2, k),
    ensures
        last_in(links, order, j, links.len() as int) == Some(k),
{
    lemma_last_in_max(links, order, j, links.len() as int);
    if let Some(k2) = last_in(links, order, j, links.len() as int) {
        if k2 != k {
            assert(handled_before(links, order, k, k2));
            assert(handled_before(links, order, k2, k));
        }
    }
}

/// Only the positions of the sources of links into `j` matter.
pub proof fn lemma_last_in_frame(
    links: Seq<(usize, usize)>,
    o1: Seq<usize>,
    o2: Seq<usize>,
    j: usize,
    m: int,
)
    requires
        0 <= m <= links.len(),
        forall|k: int|
            0 <= k < m && (#[trigger] links[k]).1 == j ==> position(o1, links[k].0) == position(
                o2,
                links[k].0,
            ),
    ensures
        last_in(links, o1, j, m) == last_in(links, o2, j, m),
    decreases m,
{
    if m > 0 {
        lemma_last_in_frame(links, o1, o2, j, m - 1);
        lemma_last_in_max(links, o1, j, m - 1);
    }
}

/// Extending a duplicate-free order keeps the release order of nodes whose
/// incoming links all come from the shorter order.
pub proof fn lemma_released_extend(
    links: Seq<(usize, usize)>,
    o1: Seq<usize>,
    o2: Seq<usize>,
    a: usize,
    b: usize,
)
    requires
        o1.len() <= o2.len(),
        o2.no_duplicates(),
        forall|t: int| 0 <= t < o1.len() ==> o1[t] == o2[t],
        forall|k: int|
            0 <= k < links.len() && ((#[trigger] links[k]).1 == a || links[k].1 == b) ==> exists|t: int|
                0 <= t < o1.len() && o1[t] == links[k].0,
    ensures
        last_in(links, o1, a, links.len() as int) == last_in(links, o2, a, links.len() as int),
        last_in(links, o1, b, links.len() as int) == last_in(links, o2, b, links.len() as int),
        released_before(links, o1, a, b) == released_before(links, o2, a, b),
{
    assert(o1.no_duplicates()) by {
        assert forall|t1: int, t2: int| 0 <= t1 < o1.len() && 0 <= t2 < o1.len() && t1 != t2 implies o1[t1]
            != o1[t2] by {
            assert(o1[t1] == o2[t1] && o1[t2] == o2[t2]);
        }
    }
    assert forall|k: int|
        0 <= k < links.len() && ((#[trigger] links[k]).1 == a || links[k].1 == b) implies position(
        o1,
        links[k].0,
    ) == position(o2, links[k].0) by {
        let t = choose|t: int| 0 <= t < o1.len() && o1[t] == links[k].0;
        lemma_position(o1, t);
        assert(o2[t] == o1[t]);
        lemma_position(o2, t);
    }
    let m = links.len() as int;
    lemma_last_in_frame(links, o1, o2, a, m);
    lemma_last_in_frame(links, o1, o2, b, m);
    lemma_last_in_max(links, o1, a, m);
    lemma_last_in_max(links, o1, b, m);
}

/// When a prefix has all the links from `i` to `j`, none come after it.
pub proof fn lemma_link_count_rest(links: Seq<(usize, usize)>, m: int, i: usize, j: usize, k: int)
    requires
        0 <= m <= k < links.len(),
        link_count(links.take(m), i, j) == link_count(links, i, j),
    ensures
        links[k] != (i, j),
    decreases links.len(),
{
    if k < links.len() - 1 {
        assert(links.drop_last().take(m) =~= links.take(m));
        lemma_link_count_prefix(links.drop_last(), m, i, j);
        lemma_link_count_rest(links.drop_last(), m, i, j, k);
        assert(links.drop_last()[k] == links[k]);
    } else {
        assert(links.drop_last().take(m) =~= links.take(m));
        lemma_link_count_prefix(links.drop_last(), m, i, j);
    }
}

} // verus!
