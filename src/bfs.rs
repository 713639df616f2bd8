//! Breadth-first tree and per-point hop distances over an edge list.
use crate::point::Point;
use std::collections::HashMap;
use vstd::prelude::*;

verus! {

broadcast use vstd::std_specs::hash::group_hash_axioms;

/// The identity at end `side` (0 or 1) of edge `k`.
pub open spec fn end_id(edges: Seq<(Point, Point)>, k: int, side: int) -> u64 {
    if side == 0 {
        edges[k].0.id
    } else {
        edges[k].1.id
    }
}

/// Some edge joins the points `a` and `b`, in either direction.
pub open spec fn has_link(edges: Seq<(Point, Point)>, a: u64, b: u64) -> bool {
    exists|k: int|
        0 <= k < edges.len() && ((#[trigger] edges[k].0.id == a && edges[k].1.id == b) || (
        edges[k].0.id == b && edges[k].1.id == a))
}

/// Point `id` is reached in `dist`, within `bound` hops of the root.
pub open spec fn reached_within(dist: Seq<(Point, usize)>, id: u64, bound: int) -> bool {
    exists|m: int| 0 <= m < dist.len() && #[trigger] dist[m].0.id == id && dist[m].1 <= bound
}

/// Every end of an edge, in order.
spec fn ends_of(edges: Seq<(Point, Point)>) -> Seq<u64> {
    Seq::new(2 * edges.len(), |i: int| end_id(edges, i / 2, i % 2))
}

/// Point `id` is already listed.
pub open spec fn listed(dist: Seq<(Point, usize)>, id: u64) -> bool {
    exists|m: int| 0 <= m < dist.len() && #[trigger] dist[m].0.id == id
}

/// The lists after meeting point `p` from `cur`, which is `d` hops from
/// the root: `p` is added one hop further unless it is already listed.
pub open spec fn visit(
    dist: Seq<(Point, usize)>,
    tree: Seq<(Point, Point)>,
    cur: Point,
    d: usize,
    p: Point,
) -> (Seq<(Point, usize)>, Seq<(Point, Point)>) {
    if listed(dist, p.id) {
        (dist, tree)
    } else {
        (dist.push((p, (d + 1) as usize)), tree.push((cur, p)))
    }
}

/// The lists after the first `k` edges have been looked at from the point
/// at `head`: an edge leaving it by its first end meets its second end,
/// then one leaving it by its second end meets its first.
pub open spec fn scan_upto(
    edges: Seq<(Point, Point)>,
    dist: Seq<(Point, usize)>,
    tree: Seq<(Point, Point)>,
    head: int,
    k: nat,
) -> (Seq<(Point, usize)>, Seq<(Point, Point)>)
    decreases k,
{
    if k == 0 {
        (dist, tree)
    } else {
        let (d0, t0) = scan_upto(edges, dist, tree, head, (k - 1) as nat);
        let (cur, d) = d0[head];
        let (a, b) = edges[k - 1];
        let (d1, t1) = if a.id == cur.id {
            visit(d0, t0, cur, d, b)
        } else {
            (d0, t0)
        };
        if b.id == cur.id {
            visit(d1, t1, cur, d, a)
        } else {
            (d1, t1)
        }
    }
}

/// The lists once the points from `head` on have been taken in turn, at
/// most `fuel` of them.
pub open spec fn run_from(
    edges: Seq<(Point, Point)>,
    dist: Seq<(Point, usize)>,
    tree: Seq<(Point, Point)>,
    head: int,
    fuel: nat,
) -> (Seq<(Point, usize)>, Seq<(Point, Point)>)
    decreases fuel,
{
    if fuel == 0 || head >= dist.len() {
        (dist, tree)
    } else {
        let (d1, t1) = scan_upto(edges, dist, tree, head, edges.len());
        run_from(edges, d1, t1, head + 1, (fuel - 1) as nat)
    }
}

/// The breadth-first lists of `edges`, from the first end of the first
/// edge. No more than `2 * edges.len()` points can be listed, so that much
/// fuel takes every one of them.
pub open spec fn bfs_lists(edges: Seq<(Point, Point)>) -> (Seq<(Point, usize)>, Seq<(Point, Point)>) {
    if edges.len() == 0 {
        (Seq::empty(), Seq::empty())
    } else {
        run_from(edges, seq![(edges[0].0, 0usize)], Seq::empty(), 0, 2 * edges.len() + 1)
    }
}

/// A witness of reaching stays one when the list grows.
proof fn lemma_reached_grows(before: Seq<(Point, usize)>, after: Seq<(Point, usize)>)
    requires
        before.len() <= after.len(),
        forall|i: int| 0 <= i < before.len() ==> after[i] == before[i],
    ensures
        forall|id: u64, bound: int|
            reached_within(before, id, bound) ==> #[trigger] reached_within(after, id, bound),
{
    assert forall|id: u64, bound: int| reached_within(before, id, bound) implies #[trigger] reached_within(
        after,
        id,
        bound,
    ) by {
        let m = choose|m: int| 0 <= m < before.len() && #[trigger] before[m].0.id == id && before[m].1 <= bound;
        assert(after[m] == before[m]);
    }
}

/// A list without repeats, drawn from `pool`, is no longer than `pool`.
proof fn lemma_distinct_within(ids: Seq<u64>, pool: Seq<u64>)
    requires
        ids.no_duplicates(),
        forall|i: int| 0 <= i < ids.len() ==> pool.contains(#[trigger] ids[i]),
    ensures
        ids.len() <= pool.len(),
{
    broadcast use vstd::seq_lib::seq_to_set_is_finite;

    ids.unique_seq_to_set();
    pool.lemma_cardinality_of_set();
    assert(ids.to_set().subset_of(pool.to_set()));
    vstd::set_lib::lemma_len_subset(ids.to_set(), pool.to_set());
}

/// The breadth-first tree from the first end of the first edge.
///
/// Returns the tree edges in discovery order and each reached point with
/// its hop distance, also in discovery order. A point is recorded once, on
/// first discovery, one hop further than the point it was found from;
/// points that the root cannot reach are left out.
pub fn bfs(edges: Vec<(Point, Point)>) -> (r: (Vec<(Point, Point)>, Vec<(Point, usize)>))
    ensures
        (r.1@, r.0@) == bfs_lists(edges@),
        edges.len() == 0 ==> r.0.len() == 0 && r.1.len() == 0,
        edges.len() > 0 ==> r.1.len() == r.0.len() + 1 && r.1@[0] == (edges@[0].0, 0usize),
        // each point is listed once
        forall|i: int, j: int|
            0 <= i < j < r.1.len() ==> #[trigger] r.1@[i].0.id != #[trigger] r.1@[j].0.id,
        // distances never fall along the discovery order
        forall|i: int, j: int| 0 <= i <= j < r.1.len() ==> #[trigger] r.1@[i].1 <= #[trigger] r.1@[j].1,
        // tree edge `i` discovers point `i + 1` from an earlier point, one hop nearer
        forall|i: int|
            0 <= i < r.0.len() ==> {
                &&& (#[trigger] r.0@[i]).1 == r.1@[i + 1].0
                &&& has_link(edges@, r.0@[i].0.id, r.0@[i].1.id)
                &&& exists|j: int|
                    0 <= j <= i && r.0@[i].0 == #[trigger] r.1@[j].0 && r.1@[i + 1].1 == r.1@[j].1
                        + 1
            },
        // nothing reachable is left out, and no edge spans more than one hop
        forall|k: int, j: int|
            0 <= k < edges.len() && 0 <= j < r.1.len() && #[trigger] edges@[k].0.id
                == #[trigger] r.1@[j].0.id ==> reached_within(r.1@, edges@[k].1.id, r.1@[j].1 + 1),
        forall|k: int, j: int|
            0 <= k < edges.len() && 0 <= j < r.1.len() && #[trigger] edges@[k].1.id
                == #[trigger] r.1@[j].0.id ==> reached_within(r.1@, edges@[k].0.id, r.1@[j].1 + 1),
{
    let mut tree: Vec<(Point, Point)> = Vec::new();
    let mut dist: Vec<(Point, usize)> = Vec::new();
    let mut index: HashMap<u64, usize> = HashMap::new();
    let n = edges.len();
    let ghost ends = ends_of(edges@);
    if n > 0 {
        let root = edges[0].0;
        dist.push((root, 0));
        index.insert(root.id, 0);
        proof {
            assert(ends[0] == root.id);
        }
    }
    proof {
        assert forall|id: u64|
            #[trigger] index@.contains_key(id) <==> exists|m: int|
                0 <= m < dist.len() && #[trigger] dist@[m].0.id == id by {
            if index@.contains_key(id) {
                assert(dist@[0].0.id == id);
            }
        }
        if n > 0 {
            assert(dist@ =~= seq![(edges@[0].0, 0usize)]);
            assert(tree@ =~= Seq::<(Point, Point)>::empty());
        }
    }
    let mut head: usize = 0;
    while head < dist.len()
        invariant
            n == edges.len(),
            ends == ends_of(edges@),
            n == 0 ==> dist.len() == 0,
            n > 0 ==> dist.len() == tree.len() + 1 && dist@[0] == (edges@[0].0, 0usize),
            n == 0 ==> tree.len() == 0,
            head <= dist.len(),
            dist.len() <= 2 * n,
            n > 0 ==> bfs_lists(edges@) == run_from(
                edges@,
                dist@,
                tree@,
                head as int,
                (2 * n + 1 - head) as nat,
            ),
            forall|i: int| 0 <= i < dist.len() ==> ends.contains(#[trigger] dist@[i].0.id),
            forall|i: int, j: int|
                0 <= i < j < dist.len() ==> #[trigger] dist@[i].0.id != #[trigger] dist@[j].0.id,
            forall|id: u64|
                #[trigger] index@.contains_key(id) <==> exists|m: int|
                    0 <= m < dist.len() && #[trigger] dist@[m].0.id == id,
            forall|m: int| 0 <= m < dist.len() ==> index@[#[trigger] dist@[m].0.id] == m,
            forall|i: int| 0 <= i < dist.len() ==> #[trigger] dist@[i].1 <= i,
            forall|i: int, j: int|
                0 <= i <= j < dist.len() ==> #[trigger] dist@[i].1 <= #[trigger] dist@[j].1,
            head < dist.len() ==> forall|j: int|
                head <= j < dist.len() ==> #[trigger] dist@[j].1 <= dist@[head as int].1 + 1,
            forall|i: int|
                0 <= i < tree.len() ==> {
                    &&& (#[trigger] tree@[i]).1 == dist@[i + 1].0
                    &&& has_link(edges@, tree@[i].0.id, tree@[i].1.id)
                    &&& exists|j: int|
                        0 <= j <= i && tree@[i].0 == #[trigger] dist@[j].0 && dist@[i + 1].1
                            == dist@[j].1 + 1
                },
            forall|k: int, j: int|
                0 <= k < n && 0 <= j < head && #[trigger] edges@[k].0.id == #[trigger] dist@[j].0.id
                    ==> reached_within(dist@, edges@[k].1.id, dist@[j].1 + 1),
            forall|k: int, j: int|
                0 <= k < n && 0 <= j < head && #[trigger] edges@[k].1.id == #[trigger] dist@[j].0.id
                    ==> reached_within(dist@, edges@[k].0.id, dist@[j].1 + 1),
        decreases 2 * n - head,
    {
        proof {
            lemma_distinct_within(dist@.map_values(|e: (Point, usize)| e.0.id), ends);
        }
        let current = dist[head].0;
        let d = dist[head].1;
        let ghost dist_h = dist@;
        let ghost tree_h = tree@;
        let mut k: usize = 0;
        while k < n
            invariant
                n == edges.len(),
                (dist@, tree@) == scan_upto(edges@, dist_h, tree_h, head as int, k as nat),
                ends == ends_of(edges@),
                head < dist.len(),
                current == dist@[head as int].0,
                d == dist@[head as int].1,
                d <= head,
                n > 0 ==> dist.len() == tree.len() + 1 && dist@[0] == (edges@[0].0, 0usize),
                forall|i: int| 0 <= i < dist.len() ==> ends.contains(#[trigger] dist@[i].0.id),
                forall|i: int, j: int|
                    0 <= i < j < dist.len() ==> #[trigger] dist@[i].0.id != #[trigger] dist@[j].0.id,
                forall|id: u64|
                    #[trigger] index@.contains_key(id) <==> exists|m: int|
                        0 <= m < dist.len() && #[trigger] dist@[m].0.id == id,
                forall|m: int| 0 <= m < dist.len() ==> index@[#[trigger] dist@[m].0.id] == m,
                forall|i: int| 0 <= i < dist.len() ==> #[trigger] dist@[i].1 <= i,
                forall|i: int, j: int|
                    0 <= i <= j < dist.len() ==> #[trigger] dist@[i].1 <= #[trigger] dist@[j].1,
                forall|j: int| head <= j < dist.len() ==> #[trigger] dist@[j].1 <= d + 1,
                forall|i: int|
                    0 <= i < tree.len() ==> {
                        &&& (#[trigger] tree@[i]).1 == dist@[i + 1].0
                        &&& has_link(edges@, tree@[i].0.id, tree@[i].1.id)
                        &&& exists|j: int|
                            0 <= j <= i && tree@[i].0 == #[trigger] dist@[j].0 && dist@[i + 1].1
                                == dist@[j].1 + 1
                    },
                forall|kk: int, j: int|
                    0 <= kk < n && 0 <= j < head && #[trigger] edges@[kk].0.id
                        == #[trigger] dist@[j].0.id ==> reached_within(
                        dist@,
                        edges@[kk].1.id,
                        dist@[j].1 + 1,
                    ),
                forall|kk: int, j: int|
                    0 <= kk < n && 0 <= j < head && #[trigger] edges@[kk].1.id
                        == #[trigger] dist@[j].0.id ==> reached_within(
                        dist@,
                        edges@[kk].0.id,
                        dist@[j].1 + 1,
                    ),
                forall|kk: int|
                    0 <= kk < k && #[trigger] edges@[kk].0.id == current.id ==> reached_within(
                        dist@,
                        edges@[kk].1.id,
                        d + 1,
                    ),
                forall|kk: int|
                    0 <= kk < k && #[trigger] edges@[kk].1.id == current.id ==> reached_within(
                        dist@,
                        edges@[kk].0.id,
                        d + 1,
                    ),
                k <= n,
            decreases n - k,
        {
            let (a, b) = edges[k];
            let ghost before = (dist@, tree@);
            proof {
                assert(ends[2 * k as int] == a.id);
                assert(ends[2 * k as int + 1] == b.id);
                assert(edges@[k as int] == (a, b));
                assert(before.0[head as int] == (current, d));
            }
            let ghost mid = if a.id == current.id {
                visit(before.0, before.1, current, d, b)
            } else {
                before
            };
            if a.id == current.id && !index.contains_key(&b.id) {
                let ghost old_dist = dist@;
                let ghost old_tree = tree@;
                let pos = dist.len();
                tree.push((current, b));
                dist.push((b, d + 1));
                index.insert(b.id, pos);
                proof {
                    lemma_reached_grows(old_dist, dist@);
                    assert(dist@[pos as int].0.id == b.id);
                    assert(has_link(edges@, current.id, b.id) || has_link(edges@, b.id, current.id));
                    assert(edges@[k as int].0.id == a.id && edges@[k as int].1.id == b.id);
                    assert forall|id: u64|
                        #[trigger] index@.contains_key(id) <==> exists|m: int|
                            0 <= m < dist.len() && #[trigger] dist@[m].0.id == id by {
                        if index@.contains_key(id) && id != b.id {
                            let m = choose|m: int| 0 <= m < old_dist.len() && #[trigger] old_dist[m].0.id == id;
                            assert(dist@[m].0.id == id);
                        }
                        if exists|m: int| 0 <= m < dist.len() && #[trigger] dist@[m].0.id == id {
                            let m = choose|m: int| 0 <= m < dist.len() && #[trigger] dist@[m].0.id == id;
                            if m < pos {
                                assert(old_dist[m].0.id == id);
                            }
                        }
                    }
                    assert forall|i: int|
                        0 <= i < tree.len() implies {
                            &&& (#[trigger] tree@[i]).1 == dist@[i + 1].0
                            &&& has_link(edges@, tree@[i].0.id, tree@[i].1.id)
                            &&& exists|j: int|
                                0 <= j <= i && tree@[i].0 == #[trigger] dist@[j].0 && dist@[i + 1].1
                                    == dist@[j].1 + 1
                        } by {
                        if i < old_tree.len() {
                            assert(tree@[i] == old_tree[i]);
                            let j = choose|j: int|
                                0 <= j <= i && old_tree[i].0 == #[trigger] old_dist[j].0 && old_dist[i + 1].1
                                    == old_dist[j].1 + 1;
                            assert(dist@[j] == old_dist[j]);
                        } else {
                            assert(dist@[head as int] == old_dist[head as int]);
                        }
                    }
                }
            }
            if b.id == current.id && !index.contains_key(&a.id) {
                let ghost old_dist = dist@;
                let ghost old_tree = tree@;
                let pos = dist.len();
                tree.push((current, a));
                dist.push((a, d + 1));
                index.insert(a.id, pos);
                proof {
                    lemma_reached_grows(old_dist, dist@);
                    assert(dist@[pos as int].0.id == a.id);
                    assert(has_link(edges@, current.id, a.id) || has_link(edges@, a.id, current.id));
                    assert(edges@[k as int].0.id == a.id && edges@[k as int].1.id == b.id);
                    assert forall|id: u64|
                        #[trigger] index@.contains_key(id) <==> exists|m: int|
                            0 <= m < dist.len() && #[trigger] dist@[m].0.id == id by {
                        if index@.contains_key(id) && id != a.id {
                            let m = choose|m: int| 0 <= m < old_dist.len() && #[trigger] old_dist[m].0.id == id;
                            assert(dist@[m].0.id == id);
                        }
                        if exists|m: int| 0 <= m < dist.len() && #[trigger] dist@[m].0.id == id {
                            let m = choose|m: int| 0 <= m < dist.len() && #[trigger] dist@[m].0.id == id;
                            if m < pos {
                                assert(old_dist[m].0.id == id);
                            }
                        }
                    }
                    assert forall|i: int|
                        0 <= i < tree.len() implies {
                            &&& (#[trigger] tree@[i]).1 == dist@[i + 1].0
                            &&& has_link(edges@, tree@[i].0.id, tree@[i].1.id)
                            &&& exists|j: int|
                                0 <= j <= i && tree@[i].0 == #[trigger] dist@[j].0 && dist@[i + 1].1
                                    == dist@[j].1 + 1
                        } by {
                        if i < old_tree.len() {
                            assert(tree@[i] == old_tree[i]);
                            let j = choose|j: int|
                                0 <= j <= i && old_tree[i].0 == #[trigger] old_dist[j].0 && old_dist[i + 1].1
                                    == old_dist[j].1 + 1;
                            assert(dist@[j] == old_dist[j]);
                        } else {
                            assert(dist@[head as int] == old_dist[head as int]);
                        }
                    }
                }
            }
            proof {
                assert((dist@, tree@) == (if b.id == current.id {
                    visit(mid.0, mid.1, current, d, a)
                } else {
                    mid
                }));
                if a.id == current.id {
                    let m = index@[b.id] as int;
                    assert(dist@[m].0.id == b.id);
                }
                if b.id == current.id {
                    let m = index@[a.id] as int;
                    assert(dist@[m].0.id == a.id);
                }
            }
            k = k + 1;
        }
        proof {
            lemma_distinct_within(dist@.map_values(|e: (Point, usize)| e.0.id), ends);
        }
        head = head + 1;
    }
    (tree, dist)
}

/// The breadth-first lists depend on the edges alone: two results that meet
/// the contract of `bfs` for one input are equal.
pub proof fn lemma_bfs_deterministic(
    edges: Seq<(Point, Point)>,
    r1: (Seq<(Point, usize)>, Seq<(Point, Point)>),
    r2: (Seq<(Point, usize)>, Seq<(Point, Point)>),
)
    requires
        r1 == bfs_lists(edges),
        r2 == bfs_lists(edges),
    ensures
        r1 == r2,
{
}

} // verus!
