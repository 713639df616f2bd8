//! Kruskal's spanning forest over the edges of a triangulation.
use crate::geom::{distance_sq, dist_sq};
use crate::point::Point;
use crate::union_find::DisjointSet;
use vstd::prelude::*;

verus! {

/// An accepted edge with its weight, the squared length: the same order as
/// the Euclidean length, computed exactly.
#[derive(Clone, Copy, Debug)]
pub struct Edge {
    pub start: Point,
    pub end: Point,
    pub weight_sq: i128,
}

/// The points that each accepted edge joins.
pub open spec fn edge_pairs(edges: Seq<Edge>) -> Seq<(Point, Point)> {
    edges.map_values(|e: Edge| (e.start, e.end))
}

/// The identities an edge joins.
pub open spec fn link_of(e: (Point, Point)) -> (u64, u64) {
    (e.0.id, e.1.id)
}

pub open spec fn links_of(edges: Seq<(Point, Point)>) -> Seq<(u64, u64)> {
    edges.map_values(|e: (Point, Point)| link_of(e))
}

/// The representative of `z` after merging, in order, the two sides of every
/// link whose ends were still apart: the set of `a` goes under the
/// representative of `b`.
pub open spec fn rep_after(links: Seq<(u64, u64)>, z: u64) -> u64
    decreases links.len(),
{
    if links.len() == 0 {
        z
    } else {
        let prev = links.drop_last();
        let (a, b) = links.last();
        if rep_after(prev, z) == rep_after(prev, a) {
            rep_after(prev, b)
        } else {
            rep_after(prev, z)
        }
    }
}

/// Link `k` joins two sets that the links before it left apart.
pub open spec fn joins_apart(links: Seq<(u64, u64)>, k: int) -> bool {
    rep_after(links.take(k), links[k].0) != rep_after(links.take(k), links[k].1)
}

/// The edges among the first `n` of `edges` that Kruskal's rule keeps.
pub open spec fn kept(edges: Seq<(Point, Point)>, n: nat) -> Seq<(Point, Point)>
    decreases n,
{
    if n == 0 {
        Seq::empty()
    } else if joins_apart(links_of(edges), n - 1) {
        kept(edges, (n - 1) as nat).push(edges[n - 1])
    } else {
        kept(edges, (n - 1) as nat)
    }
}

/// Edge `a` sorts before edge `b`: shorter, or as long and earlier in the
/// input.
pub open spec fn sorts_before(w: Seq<int>, a: int, b: int) -> bool {
    w[a] < w[b] || (w[a] == w[b] && a < b)
}

/// `order` lists every index of `w` once, by ascending weight, ties in input
/// order.
pub open spec fn is_stable_order(w: Seq<int>, order: Seq<int>) -> bool {
    &&& order.len() == w.len()
    &&& forall|i: int| 0 <= i < order.len() ==> 0 <= #[trigger] order[i] < w.len()
    &&& forall|i: int, j: int|
        0 <= i < j < order.len() ==> sorts_before(w, #[trigger] order[i], #[trigger] order[j])
}

pub open spec fn weights_of(edges: Seq<(Point, Point)>) -> Seq<int> {
    edges.map_values(|e: (Point, Point)| dist_sq(e.0.pos, e.1.pos))
}

pub open spec fn permuted(edges: Seq<(Point, Point)>, order: Seq<int>) -> Seq<(Point, Point)> {
    order.map_values(|i: int| edges[i])
}

/// `mst` is what Kruskal's rule keeps from `edges`: the edges taken in
/// stable order of length, each kept when it joins two classes still apart.
pub open spec fn is_kruskal_forest(edges: Seq<(Point, Point)>, mst: Seq<Edge>) -> bool {
    exists|order: Seq<int>|
        is_stable_order(weights_of(edges), order) && edge_pairs(mst) == kept(permuted(edges, order), edges.len())
}

/// The indices `0..n` in stable weight order.
fn stable_order(w: &Vec<i128>) -> (order: Vec<usize>)
    ensures
        is_stable_order(w@.map_values(|x: i128| x as int), order@.map_values(|i: usize| i as int)),
{
    let ghost wi = w@.map_values(|x: i128| x as int);
    let mut order: Vec<usize> = Vec::new();
    let mut i: usize = 0;
    while i < w.len()
        invariant
            i <= w.len(),
            wi == w@.map_values(|x: i128| x as int),
            order.len() == i,
            forall|k: int| 0 <= k < order.len() ==> 0 <= #[trigger] order@[k] < i,
            forall|a: int, b: int|
                0 <= a < b < order.len() ==> sorts_before(
                    wi,
                    #[trigger] order@[a] as int,
                    #[trigger] order@[b] as int,
                ),
        decreases w.len() - i,
    {
        let mut p: usize = 0;
        while p < order.len() && w[order[p]] <= w[i]
            invariant
                i < w.len(),
                p <= order.len(),
                wi == w@.map_values(|x: i128| x as int),
                forall|k: int| 0 <= k < order.len() ==> 0 <= #[trigger] order@[k] < i,
                forall|k: int| 0 <= k < p ==> wi[#[trigger] order@[k] as int] <= wi[i as int],
            decreases order.len() - p,
        {
            p = p + 1;
        }
        let ghost before = order@;
        order.insert(p, i);
        proof {
            assert forall|a: int, b: int| 0 <= a < b < order.len() implies sorts_before(
                wi,
                #[trigger] order@[a] as int,
                #[trigger] order@[b] as int,
            ) by {
                if b < p {
                    assert(order@[a] == before[a] && order@[b] == before[b]);
                } else if b == p {
                    assert(order@[a] == before[a]);
                } else if a == p {
                    assert(order@[b] == before[b - 1]);
                    assert(sorts_before(wi, before[p as int] as int, before[b - 1] as int) || b - 1 == p);
                } else if a < p {
                    assert(order@[a] == before[a] && order@[b] == before[b - 1]);
                } else {
                    assert(order@[a] == before[a - 1] && order@[b] == before[b - 1]);
                }
            }
            assert forall|k: int| 0 <= k < order.len() implies 0 <= #[trigger] order@[k] < i + 1 by {
                if k < p {
                    assert(order@[k] == before[k]);
                } else if k > p {
                    assert(order@[k] == before[k - 1]);
                }
            }
        }
        i = i + 1;
    }
    order
}

/// Kruskal's minimum spanning forest. The edges are taken by ascending
/// length (a stable sort: input order breaks ties); an edge is kept exactly
/// when its ends are still in different sets, which it then merges. Each
/// kept edge carries its squared length as `weight_sq`, exactly.
pub fn kruskals_mst(edges: Vec<(Point, Point)>) -> (mst: Vec<Edge>)
    ensures
        is_kruskal_forest(edges@, mst@),
        forall|i: int|
            0 <= i < mst.len() ==> #[trigger] mst@[i].weight_sq == dist_sq(
                mst@[i].start.pos,
                mst@[i].end.pos,
            ),
{
    let n = edges.len();
    let mut weights: Vec<i128> = Vec::new();
    let mut k: usize = 0;
    while k < n
        invariant
            n == edges.len(),
            k <= n,
            weights.len() == k,
            forall|j: int|
                0 <= j < k ==> #[trigger] weights@[j] == dist_sq(edges@[j].0.pos, edges@[j].1.pos),
        decreases n - k,
    {
        weights.push(distance_sq(edges[k].0.pos, edges[k].1.pos));
        k = k + 1;
    }
    let order = stable_order(&weights);
    let ghost ord = order@.map_values(|i: usize| i as int);
    let ghost sorted = permuted(edges@, ord);
    proof {
        assert(weights@.map_values(|x: i128| x as int) =~= weights_of(edges@));
    }
    let mut forest = DisjointSet::new(n);
    let mut mst: Vec<Edge> = Vec::new();
    let mut k: usize = 0;
    while k < n
        invariant
            n == edges.len(),
            order.len() == n,
            weights.len() == n,
            forall|j: int|
                0 <= j < n ==> #[trigger] weights@[j] == dist_sq(edges@[j].0.pos, edges@[j].1.pos),
            k <= n,
            ord == order@.map_values(|i: usize| i as int),
            sorted == permuted(edges@, ord),
            forall|i: int| 0 <= i < n ==> 0 <= #[trigger] ord[i] < n,
            forest.wf(),
            forall|z: u64| #[trigger] forest.rep(z) == rep_after(links_of(sorted).take(k as int), z),
            edge_pairs(mst@) == kept(sorted, k as nat),
            forall|i: int|
                0 <= i < mst.len() ==> #[trigger] mst@[i].weight_sq == dist_sq(
                    mst@[i].start.pos,
                    mst@[i].end.pos,
                ),
        decreases n - k,
    {
        let idx = order[k];
        proof {
            assert(ord[k as int] == idx);
        }
        let start = edges[idx].0;
        let end = edges[idx].1;
        let ghost links = links_of(sorted);
        proof {
            assert(sorted[k as int] == edges@[idx as int]);
            assert(links[k as int] == (start.id, end.id));
            assert(links.take(k as int + 1).drop_last() =~= links.take(k as int));
            assert(links.take(k as int + 1).last() == (start.id, end.id));
        }
        let ghost before = edge_pairs(mst@);
        if forest.find(start.id) != forest.find(end.id) {
            forest.union(start.id, end.id);
            mst.push(Edge { start, end, weight_sq: weights[idx] });
            proof {
                assert(edge_pairs(mst@) =~= before.push(sorted[k as int]));
            }
        }
        k = k + 1;
    }
    proof {
        assert(sorted.len() == n);
    }
    mst
}

/// Every end of every link, in order.
pub open spec fn link_ends(links: Seq<(u64, u64)>) -> Seq<u64> {
    Seq::new(
        2 * links.len(),
        |i: int|
            if i % 2 == 0 {
                links[i / 2].0
            } else {
                links[i / 2].1
            },
    )
}

/// The distinct points that the links touch.
pub open spec fn vertices(links: Seq<(u64, u64)>) -> Set<u64> {
    link_ends(links).to_set()
}

/// The representatives of the points after the first `n` links: one per
/// connected class.
pub open spec fn classes(links: Seq<(u64, u64)>, n: int) -> Set<u64> {
    vertices(links).map(|z: u64| rep_after(links.take(n), z))
}

proof fn lemma_ends_are_vertices(links: Seq<(u64, u64)>, k: int)
    requires
        0 <= k < links.len(),
    ensures
        vertices(links).contains(links[k].0),
        vertices(links).contains(links[k].1),
{
    let e = link_ends(links);
    assert(e[2 * k] == links[k].0);
    assert(e[2 * k + 1] == links[k].1);
}

/// One more link: the representatives change only when its ends were apart.
proof fn lemma_rep_step(links: Seq<(u64, u64)>, n: int, z: u64)
    requires
        0 <= n < links.len(),
    ensures
        rep_after(links.take(n + 1), z) == if rep_after(links.take(n), z) == rep_after(
            links.take(n),
            links[n].0,
        ) && joins_apart(links, n) {
            rep_after(links.take(n), links[n].1)
        } else {
            rep_after(links.take(n), z)
        },
{
    assert(links.take(n + 1).drop_last() =~= links.take(n));
    assert(links.take(n + 1).last() == links[n]);
}

proof fn lemma_classes_count(links: Seq<(u64, u64)>, edges: Seq<(Point, Point)>, n: nat)
    requires
        links == links_of(edges),
        n <= links.len(),
    ensures
        classes(links, n as int).finite(),
        kept(edges, n).len() + classes(links, n as int).len() == vertices(links).len(),
    decreases n,
{
    broadcast use vstd::seq_lib::seq_to_set_is_finite;

    let v = vertices(links);
    if n == 0 {
        assert forall|z: u64| #[trigger] rep_after(links.take(0), z) == z by {
            assert(links.take(0).len() == 0);
        }
        assert(classes(links, 0) =~= v);
    } else {
        let m = (n - 1) as int;
        lemma_classes_count(links, edges, (n - 1) as nat);
        lemma_ends_are_vertices(links, m);
        let (a, b) = links[m];
        let before = classes(links, m);
        let after = classes(links, n as int);
        v.lemma_map_finite(|z: u64| rep_after(links.take(n as int), z));
        assert forall|z: u64| #[trigger] rep_after(links.take(n as int), z) == if rep_after(
            links.take(m),
            z,
        ) == rep_after(links.take(m), a) && joins_apart(links, m) {
            rep_after(links.take(m), b)
        } else {
            rep_after(links.take(m), z)
        } by {
            lemma_rep_step(links, m, z);
        }
        if joins_apart(links, m) {
            let x = rep_after(links.take(m), a);
            assert(before.contains(x));
            assert forall|y: u64| after.contains(y) <==> before.remove(x).contains(y) by {
                if after.contains(y) {
                    let z = choose|z: u64| v.contains(z) && rep_after(links.take(n as int), z) == y;
                    if rep_after(links.take(m), z) == x {
                        assert(before.contains(rep_after(links.take(m), b)));
                    } else {
                        assert(before.contains(rep_after(links.take(m), z)));
                    }
                }
                if before.remove(x).contains(y) {
                    let z = choose|z: u64| v.contains(z) && rep_after(links.take(m), z) == y;
                    assert(rep_after(links.take(n as int), z) == y);
                }
            }
            assert(after =~= before.remove(x));
        } else {
            assert forall|y: u64| after.contains(y) <==> before.contains(y) by {
                if after.contains(y) {
                    let z = choose|z: u64| v.contains(z) && rep_after(links.take(n as int), z) == y;
                    assert(rep_after(links.take(m), z) == y);
                }
                if before.contains(y) {
                    let z = choose|z: u64| v.contains(z) && rep_after(links.take(m), z) == y;
                    assert(rep_after(links.take(n as int), z) == y);
                }
            }
            assert(after =~= before);
        }
    }
}

/// A spanning forest has one edge fewer than points in each class: the
/// edges that Kruskal's rule keeps number the distinct points minus the
/// connected classes of all the edges.
pub proof fn lemma_forest_size(edges: Seq<(Point, Point)>)
    ensures
        classes(links_of(edges), edges.len() as int).finite(),
        kept(edges, edges.len()).len() == vertices(links_of(edges)).len() - classes(
            links_of(edges),
            edges.len() as int,
        ).len(),
{
    let links = links_of(edges);
    assert(links.len() == edges.len());
    lemma_classes_count(links, edges, edges.len());
}

/// Merging along the kept edges alone gives the same classes as merging
/// along every edge seen so far.
proof fn lemma_kept_same_classes(edges: Seq<(Point, Point)>, n: nat, z: u64)
    requires
        n <= edges.len(),
    ensures
        rep_after(links_of(kept(edges, n)), z) == rep_after(links_of(edges).take(n as int), z),
    decreases n,
{
    let links = links_of(edges);
    if n == 0 {
        assert(links_of(kept(edges, 0)).len() == 0);
        assert(links.take(0).len() == 0);
    } else {
        let m = (n - 1) as int;
        let k = links_of(kept(edges, (n - 1) as nat));
        lemma_rep_step(links, m, z);
        assert(links[m] == link_of(edges[m]));
        lemma_kept_same_classes(edges, (n - 1) as nat, z);
        lemma_kept_same_classes(edges, (n - 1) as nat, links[m].0);
        lemma_kept_same_classes(edges, (n - 1) as nat, links[m].1);
        if joins_apart(links, m) {
            let k2 = links_of(kept(edges, n));
            assert(k2 =~= k.push(links[m]));
            assert(k2.drop_last() =~= k);
        }
    }
}

/// The kept edges form a forest: each joins two classes that the kept edges
/// before it left apart, so none closes a cycle.
pub proof fn lemma_forest_acyclic(edges: Seq<(Point, Point)>, n: nat)
    requires
        n <= edges.len(),
    ensures
        forall|i: int|
            0 <= i < kept(edges, n).len() ==> #[trigger] joins_apart(links_of(kept(edges, n)), i),
    decreases n,
{
    if n > 0 {
        let m = (n - 1) as int;
        lemma_forest_acyclic(edges, (n - 1) as nat);
        let before = kept(edges, (n - 1) as nat);
        let after = kept(edges, n);
        if joins_apart(links_of(edges), m) {
            let lb = links_of(before);
            let la = links_of(after);
            assert(la =~= lb.push(link_of(edges[m])));
            assert forall|i: int| 0 <= i < after.len() implies #[trigger] joins_apart(la, i) by {
                assert(la.take(i) =~= lb.take(i) || i == lb.len());
                if i < lb.len() {
                    assert(la.take(i) =~= lb.take(i));
                    assert(la[i] == lb[i]);
                    assert(joins_apart(lb, i));
                } else {
                    assert(la.take(i) =~= lb);
                    lemma_kept_same_classes(edges, (n - 1) as nat, edges[m].0.id);
                    lemma_kept_same_classes(edges, (n - 1) as nat, edges[m].1.id);
                    assert(links_of(edges)[m] == link_of(edges[m]));
                }
            }
        }
    }
}

/// A stable order lists every index.
proof fn lemma_order_covers(w: Seq<int>, order: Seq<int>, x: int)
    requires
        is_stable_order(w, order),
        0 <= x < w.len(),
    ensures
        order.contains(x),
{
    broadcast use vstd::seq_lib::seq_to_set_is_finite;

    assert(order.no_duplicates()) by {
        assert forall|i: int, j: int| 0 <= i < order.len() && 0 <= j < order.len() && i != j implies order[i]
            != order[j] by {
            if i < j {
                assert(sorts_before(w, order[i], order[j]));
            } else {
                assert(sorts_before(w, order[j], order[i]));
            }
        }
    }
    order.unique_seq_to_set();
    let range = vstd::set_lib::set_int_range(0, w.len() as int);
    vstd::set_lib::lemma_int_range(0, w.len() as int);
    assert(order.to_set().subset_of(range));
    vstd::set_lib::lemma_subset_equality(order.to_set(), range);
    assert(range.contains(x));
}

proof fn lemma_orders_agree_upto(w: Seq<int>, o1: Seq<int>, o2: Seq<int>, i: int)
    requires
        is_stable_order(w, o1),
        is_stable_order(w, o2),
        0 <= i <= w.len(),
    ensures
        forall|k: int| 0 <= k < i ==> #[trigger] o1[k] == o2[k],
    decreases i,
{
    if i > 0 {
        let m = i - 1;
        lemma_orders_agree_upto(w, o1, o2, m);
        let (x, y) = (o1[m], o2[m]);
        if x != y {
            if sorts_before(w, x, y) {
                lemma_order_covers(w, o2, x);
                let j = choose|j: int| 0 <= j < o2.len() && o2[j] == x;
                if j < m {
                    assert(o1[j] == x);
                    assert(sorts_before(w, o1[j], o1[m]));
                } else {
                    assert(sorts_before(w, o2[m], o2[j]));
                }
            } else {
                assert(sorts_before(w, y, x));
                lemma_order_covers(w, o1, y);
                let j = choose|j: int| 0 <= j < o1.len() && o1[j] == y;
                if j < m {
                    assert(o2[j] == y);
                    assert(sorts_before(w, o2[j], o2[m]));
                } else {
                    assert(sorts_before(w, o1[m], o1[j]));
                }
            }
        }
    }
}

/// There is one stable order of a list of weights.
pub proof fn lemma_stable_order_unique(w: Seq<int>, o1: Seq<int>, o2: Seq<int>)
    requires
        is_stable_order(w, o1),
        is_stable_order(w, o2),
    ensures
        o1 == o2,
{
    lemma_orders_agree_upto(w, o1, o2, w.len() as int);
    assert(o1 =~= o2);
}

/// Kruskal's result depends on the edges alone: two results that meet its
/// contract for one input are equal.
pub proof fn lemma_mst_deterministic(edges: Seq<(Point, Point)>, m1: Seq<Edge>, m2: Seq<Edge>)
    requires
        is_kruskal_forest(edges, m1),
        is_kruskal_forest(edges, m2),
        forall|i: int|
            0 <= i < m1.len() ==> #[trigger] m1[i].weight_sq == dist_sq(m1[i].start.pos, m1[i].end.pos),
        forall|i: int|
            0 <= i < m2.len() ==> #[trigger] m2[i].weight_sq == dist_sq(m2[i].start.pos, m2[i].end.pos),
    ensures
        m1 == m2,
{
    let o1 = choose|order: Seq<int>|
        {
            &&& is_stable_order(weights_of(edges), order)
            &&& edge_pairs(m1) == kept(permuted(edges, order), edges.len())
        };
    let o2 = choose|order: Seq<int>|
        {
            &&& is_stable_order(weights_of(edges), order)
            &&& edge_pairs(m2) == kept(permuted(edges, order), edges.len())
        };
    lemma_stable_order_unique(weights_of(edges), o1, o2);
    let ends_a = edge_pairs(m1);
    let ends_b = edge_pairs(m2);
    assert(ends_a == ends_b);
    assert(m1.len() == ends_a.len() && m2.len() == ends_b.len());
    assert forall|i: int| 0 <= i < m1.len() implies m1[i] == m2[i] by {
        assert(ends_a[i] == ends_b[i]);
        assert(ends_a[i] == (m1[i].start, m1[i].end));
        assert(ends_b[i] == (m2[i].start, m2[i].end));
        assert(m1[i].weight_sq == dist_sq(m1[i].start.pos, m1[i].end.pos));
        assert(m2[i].weight_sq == dist_sq(m2[i].start.pos, m2[i].end.pos));
    }
    assert(m1 =~= m2);
}

proof fn lemma_vertex_of_link(links: Seq<(u64, u64)>, z: u64)
    requires
        vertices(links).contains(z),
    ensures
        exists|k: int| 0 <= k < links.len() && (#[trigger] links[k].0 == z || links[k].1 == z),
{
    let e = link_ends(links);
    let i = choose|i: int| 0 <= i < e.len() && e[i] == z;
    assert(links[i / 2].0 == z || links[i / 2].1 == z);
}

/// Sorting the edges keeps the points they touch.
proof fn lemma_sorted_same_vertices(edges: Seq<(Point, Point)>, order: Seq<int>)
    requires
        is_stable_order(weights_of(edges), order),
    ensures
        vertices(links_of(permuted(edges, order))) == vertices(links_of(edges)),
{
    let a = links_of(permuted(edges, order));
    let b = links_of(edges);
    assert forall|z: u64| vertices(a).contains(z) <==> vertices(b).contains(z) by {
        if vertices(a).contains(z) {
            lemma_vertex_of_link(a, z);
            let k = choose|k: int| 0 <= k < a.len() && (#[trigger] a[k].0 == z || a[k].1 == z);
            assert(a[k] == b[order[k]]);
            lemma_ends_are_vertices(b, order[k]);
        }
        if vertices(b).contains(z) {
            lemma_vertex_of_link(b, z);
            let k = choose|k: int| 0 <= k < b.len() && (#[trigger] b[k].0 == z || b[k].1 == z);
            lemma_order_covers(weights_of(edges), order, k);
            let j = choose|j: int| 0 <= j < order.len() && order[j] == k;
            assert(a[j] == b[k]);
            lemma_ends_are_vertices(a, j);
        }
    }
    assert(vertices(a) =~= vertices(b));
}

/// The spanning forest that `kruskals_mst` returns has one edge fewer than
/// points in each class: its length is the number of distinct points that
/// the input edges touch, minus the number of classes they connect.
pub proof fn lemma_mst_edge_count(edges: Seq<(Point, Point)>, mst: Seq<Edge>)
    requires
        is_kruskal_forest(edges, mst),
    ensures
        classes(links_of(edges), edges.len() as int).finite(),
        mst.len() == vertices(links_of(edges)).len() - classes(
            links_of(edges),
            edges.len() as int,
        ).len(),
{
    let order = choose|order: Seq<int>|
        is_stable_order(weights_of(edges), order) && edge_pairs(mst) == kept(permuted(edges, order), edges.len());
    let sorted = permuted(edges, order);
    assert(sorted.len() == edges.len());
    lemma_forest_size(sorted);
    lemma_sorted_same_vertices(edges, order);
    lemma_sorted_same_class_count(edges, order);
    assert(mst.len() == edge_pairs(mst).len());
}

/// The edges that `kruskals_mst` returns close no cycle: each joins two
/// classes that the returned edges before it left apart.
pub proof fn lemma_mst_acyclic(edges: Seq<(Point, Point)>, mst: Seq<Edge>)
    requires
        is_kruskal_forest(edges, mst),
    ensures
        forall|i: int|
            0 <= i < mst.len() ==> #[trigger] joins_apart(
                links_of(edge_pairs(mst)),
                i,
            ),
{
    let order = choose|order: Seq<int>|
        {
            &&& is_stable_order(weights_of(edges), order)
            &&& edge_pairs(mst) == kept(permuted(edges, order), edges.len())
        };
    let sorted = permuted(edges, order);
    assert(sorted.len() == edges.len());
    lemma_forest_acyclic(sorted, edges.len());
    assert(mst.len() == edge_pairs(mst).len());
}

/// `x` and `y` are in one class after the first `n` links.
pub open spec fn same_class(links: Seq<(u64, u64)>, n: int, x: u64, y: u64) -> bool {
    rep_after(links.take(n), x) == rep_after(links.take(n), y)
}

proof fn lemma_rep_take_step(links: Seq<(u64, u64)>, n: int, z: u64)
    requires
        0 <= n < links.len(),
    ensures
        rep_after(links.take(n + 1), z) == if rep_after(links.take(n), z) == rep_after(
            links.take(n),
            links[n].0,
        ) {
            rep_after(links.take(n), links[n].1)
        } else {
            rep_after(links.take(n), z)
        },
{
    assert(links.take(n + 1).drop_last() =~= links.take(n));
    assert(links.take(n + 1).last() == links[n]);
}

/// Once together, always together.
proof fn lemma_same_class_grows(links: Seq<(u64, u64)>, n: int, m: int, x: u64, y: u64)
    requires
        0 <= n <= m <= links.len(),
        same_class(links, n, x, y),
    ensures
        same_class(links, m, x, y),
    decreases m - n,
{
    if n < m {
        lemma_rep_take_step(links, n, x);
        lemma_rep_take_step(links, n, y);
        lemma_same_class_grows(links, n + 1, m, x, y);
    }
}

/// Every link ends with its two ends in one class.
proof fn lemma_link_joins(links: Seq<(u64, u64)>, k: int)
    requires
        0 <= k < links.len(),
    ensures
        same_class(links, links.len() as int, links[k].0, links[k].1),
{
    lemma_rep_take_step(links, k, links[k].0);
    lemma_rep_take_step(links, k, links[k].1);
    lemma_same_class_grows(links, k + 1, links.len() as int, links[k].0, links[k].1);
}

/// When every link of `l1` is also a link of `l2`, whatever `l1` puts in
/// one class, `l2` does too.
proof fn lemma_classes_included(l1: Seq<(u64, u64)>, l2: Seq<(u64, u64)>, n: int, x: u64, y: u64)
    requires
        0 <= n <= l1.len(),
        forall|k: int| 0 <= k < l1.len() ==> l2.contains(#[trigger] l1[k]),
        same_class(l1, n, x, y),
    ensures
        same_class(l2, l2.len() as int, x, y),
    decreases n,
{
    let full = l2.len() as int;
    if n == 0 {
        assert(l1.take(0).len() == 0);
        assert(l2.take(full) =~= l2);
    } else {
        let m = n - 1;
        let (a, b) = l1[m];
        lemma_rep_take_step(l1, m, x);
        lemma_rep_take_step(l1, m, y);
        if same_class(l1, m, x, y) {
            lemma_classes_included(l1, l2, m, x, y);
        } else {
            assert(l2.contains(l1[m]));
            let j = choose|j: int| 0 <= j < l2.len() && l2[j] == l1[m];
            lemma_link_joins(l2, j);
            if same_class(l1, m, x, a) {
                assert(same_class(l1, m, y, b));
                lemma_classes_included(l1, l2, m, x, a);
                lemma_classes_included(l1, l2, m, y, b);
            } else {
                assert(same_class(l1, m, x, b));
                assert(same_class(l1, m, y, a));
                lemma_classes_included(l1, l2, m, x, b);
                lemma_classes_included(l1, l2, m, y, a);
            }
        }
    }
}

/// Two maps that split `v` into the same classes make as many classes.
proof fn lemma_class_count_equal(v: Set<u64>, f1: spec_fn(u64) -> u64, f2: spec_fn(u64) -> u64)
    requires
        v.finite(),
        forall|x: u64, y: u64| v.contains(x) && v.contains(y) ==> (f1(x) == f1(y) <==> f2(x) == f2(y)),
    ensures
        v.map(f1).finite(),
        v.map(f1).len() == v.map(f2).len(),
{
    v.lemma_map_finite(f1);
    let c1 = v.map(f1);
    let g = |c: u64| f2(choose|x: u64| v.contains(x) && f1(x) == c);
    assert(vstd::relations::injective_on(g, c1)) by {
        assert forall|c: u64, d: u64| c1.contains(c) && c1.contains(d) && #[trigger] g(c) == #[trigger] g(d) implies c == d by {
            let x = choose|x: u64| v.contains(x) && f1(x) == c;
            let y = choose|y: u64| v.contains(y) && f1(y) == d;
        }
    }
    assert(c1.map(g) =~= v.map(f2)) by {
        assert forall|e: u64| c1.map(g).contains(e) <==> v.map(f2).contains(e) by {
            if c1.map(g).contains(e) {
                let c = choose|c: u64| c1.contains(c) && g(c) == e;
                let x = choose|x: u64| v.contains(x) && f1(x) == c;
                assert(v.contains(x) && f2(x) == e);
            }
            if v.map(f2).contains(e) {
                let y = choose|y: u64| v.contains(y) && f2(y) == e;
                let c = f1(y);
                assert(c1.contains(c));
                let x = choose|x: u64| v.contains(x) && f1(x) == c;
                assert(g(c) == f2(x));
                assert(f2(x) == f2(y));
            }
        }
    }
    vstd::set_lib::lemma_map_size(c1, v.map(f2), g);
}

/// The number of classes that a list of edges connects does not depend on
/// the order of the edges: merging along the sorted edges gives as many
/// classes as along the edges as given.
proof fn lemma_sorted_same_class_count(edges: Seq<(Point, Point)>, order: Seq<int>)
    requires
        is_stable_order(weights_of(edges), order),
    ensures
        classes(links_of(permuted(edges, order)), edges.len() as int).len() == classes(
            links_of(edges),
            edges.len() as int,
        ).len(),
        classes(links_of(edges), edges.len() as int).finite(),
{
    broadcast use vstd::seq_lib::seq_to_set_is_finite;

    let ls = links_of(permuted(edges, order));
    let li = links_of(edges);
    let n = edges.len() as int;
    assert forall|k: int| 0 <= k < ls.len() implies li.contains(#[trigger] ls[k]) by {
        assert(li[order[k]] == ls[k]);
    }
    assert forall|k: int| 0 <= k < li.len() implies ls.contains(#[trigger] li[k]) by {
        lemma_order_covers(weights_of(edges), order, k);
        let j = choose|j: int| 0 <= j < order.len() && order[j] == k;
        assert(ls[j] == li[k]);
    }
    lemma_sorted_same_vertices(edges, order);
    let v = vertices(li);
    let f1 = |z: u64| rep_after(ls.take(n), z);
    let f2 = |z: u64| rep_after(li.take(n), z);
    assert forall|x: u64, y: u64| v.contains(x) && v.contains(y) implies (f1(x) == f1(y) <==> f2(x) == f2(y)) by {
        if f1(x) == f1(y) {
            lemma_classes_included(ls, li, n, x, y);
        }
        if f2(x) == f2(y) {
            lemma_classes_included(li, ls, n, x, y);
        }
    }
    lemma_class_count_equal(v, f1, f2);
    v.lemma_map_finite(f2);
    assert(classes(ls, n) == v.map(f1));
    assert(classes(li, n) == v.map(f2));
}

} // verus!
