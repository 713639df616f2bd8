use geo_field::bfs::bfs;
use geo_field::geom::Vec2i;
use geo_field::kruskals::{kruskals_mst, Edge};
use geo_field::point::{Colour, Point};
use geo_field::triangulation::triangle_edges;
use geo_field::union_find::DisjointSet;

fn pt(id: u64, x: i32, y: i32) -> Point {
    Point::new(id, Vec2i::new(x, y), Colour { red: 1, green: 2, blue: 3 })
}

fn ids(edges: &[Edge]) -> Vec<(u64, u64)> {
    edges.iter().map(|e| (e.start.id, e.end.id)).collect()
}

fn square() -> [Point; 4] {
    [pt(0, 0, 0), pt(1, 10, 0), pt(2, 10, 10), pt(3, 0, 10)]
}

#[test]
fn union_then_find_agrees() {
    let mut s = DisjointSet::new(4);
    s.union(1, 2);
    assert_eq!(s.find(1), s.find(2));
    assert_ne!(s.find(1), s.find(3));
    // the root of the first argument goes under the root of the second
    assert_eq!(s.find(1), 2);
}

#[test]
fn find_is_idempotent() {
    let mut s = DisjointSet::new(0);
    s.union(5, 6);
    s.union(6, 7);
    let r = s.find(5);
    assert_eq!(s.find(r), r);
    assert_eq!(s.find(42), 42);
}

#[test]
fn chained_unions_share_one_root() {
    let mut s = DisjointSet::new(16);
    let n: u64 = 50;
    for k in 0..n - 1 {
        s.union(k, k + 1);
    }
    let root = s.find(0);
    assert_eq!(root, n - 1);
    for k in 0..n {
        assert_eq!(s.find(k), root);
    }
}

#[test]
fn mst_of_square_keeps_three_sides() {
    let [a, b, c, d] = square();
    let edges = vec![(a, b), (a, c), (a, d), (b, c), (b, d), (c, d)];
    let mst = kruskals_mst(edges);
    assert_eq!(mst.len(), 3);
    assert_eq!(ids(&mst), vec![(0, 1), (0, 3), (1, 2)]);
    for e in &mst {
        assert_eq!(e.weight_sq, 100);
    }
    let total: f64 = mst.iter().map(|e| (e.weight_sq as f64).sqrt()).sum();
    assert_eq!(total, 30.0);
    // neither diagonal is kept
    assert!(!ids(&mst).contains(&(0, 2)));
    assert!(!ids(&mst).contains(&(1, 3)));
}

#[test]
fn mst_of_empty_input_is_empty() {
    assert!(kruskals_mst(vec![]).is_empty());
}

#[test]
fn mst_spans_each_component() {
    // two triangles apart: 6 points, 2 components, 4 edges
    let p: Vec<Point> = (0..6).map(|i| pt(i, (i as i32) * 3, (i as i32 % 2) * 5)).collect();
    let edges = vec![(p[0], p[1]), (p[1], p[2]), (p[2], p[0]), (p[3], p[4]), (p[4], p[5]), (p[5], p[3])];
    let mst = kruskals_mst(edges);
    assert_eq!(mst.len(), 6 - 2);
}

#[test]
fn mst_ties_keep_input_order() {
    let [a, b, c, d] = square();
    // a-b and b-c have equal length; the first given is taken first
    let mst = kruskals_mst(vec![(b, c), (a, b), (c, a), (c, d)]);
    assert_eq!(ids(&mst), vec![(1, 2), (0, 1), (2, 3)]);
}

#[test]
fn mst_skips_duplicates_and_loops() {
    let [a, b, _, _] = square();
    let mst = kruskals_mst(vec![(a, a), (a, b), (b, a), (a, b)]);
    assert_eq!(ids(&mst), vec![(0, 1)]);
    assert_eq!(mst[0].weight_sq, 100);
}

#[test]
fn mst_is_deterministic() {
    let [a, b, c, d] = square();
    let edges = vec![(a, b), (a, c), (a, d), (b, c), (b, d), (c, d)];
    assert_eq!(ids(&kruskals_mst(edges.clone())), ids(&kruskals_mst(edges)));
}

#[test]
fn bfs_of_empty_input_is_empty() {
    let (tree, dist) = bfs(vec![]);
    assert!(tree.is_empty());
    assert!(dist.is_empty());
}

#[test]
fn bfs_distances_on_square() {
    let [a, b, c, d] = square();
    let (tree, dist) = bfs(vec![(a, b), (b, c), (c, d), (d, a)]);
    let d_ids: Vec<(u64, usize)> = dist.iter().map(|(p, k)| (p.id, *k)).collect();
    assert_eq!(d_ids, vec![(0, 0), (1, 1), (3, 1), (2, 2)]);
    let t_ids: Vec<(u64, u64)> = tree.iter().map(|(p, q)| (p.id, q.id)).collect();
    assert_eq!(t_ids, vec![(0, 1), (0, 3), (1, 2)]);
}

#[test]
fn bfs_tree_edges_step_one_hop() {
    let p: Vec<Point> = (0..7).map(|i| pt(i, i as i32, 0)).collect();
    let edges = vec![(p[0], p[1]), (p[1], p[2]), (p[2], p[3]), (p[0], p[4]), (p[4], p[3]), (p[3], p[5]), (p[5], p[6])];
    let (tree, dist) = bfs(edges);
    let find = |id: u64| dist.iter().find(|(q, _)| q.id == id).unwrap().1;
    assert_eq!(dist[0].1, 0);
    assert_eq!(dist[0].0.id, 0);
    assert_eq!(tree.len() + 1, dist.len());
    for (s, e) in &tree {
        assert_eq!(find(e.id), find(s.id) + 1);
    }
    let mut seen: Vec<u64> = dist.iter().map(|(q, _)| q.id).collect();
    seen.sort();
    assert_eq!(seen, vec![0, 1, 2, 3, 4, 5, 6]);
    assert_eq!(find(6), 4);
}

#[test]
fn bfs_leaves_out_unreachable_points() {
    let p: Vec<Point> = (0..4).map(|i| pt(i, i as i32, 0)).collect();
    let (tree, dist) = bfs(vec![(p[0], p[1]), (p[2], p[3])]);
    let d_ids: Vec<u64> = dist.iter().map(|(q, _)| q.id).collect();
    assert_eq!(d_ids, vec![0, 1]);
    assert_eq!(tree.len(), 1);
}

#[test]
fn bfs_is_deterministic() {
    let [a, b, c, d] = square();
    let edges = vec![(a, c), (c, b), (b, d), (d, a), (a, b)];
    let (t1, d1) = bfs(edges.clone());
    let (t2, d2) = bfs(edges);
    let key = |t: &Vec<(Point, Point)>| t.iter().map(|(p, q)| (p.id, q.id)).collect::<Vec<_>>();
    assert_eq!(key(&t1), key(&t2));
    assert_eq!(d1.iter().map(|(p, k)| (p.id, *k)).collect::<Vec<_>>(), d2.iter().map(|(p, k)| (p.id, *k)).collect::<Vec<_>>());
}

#[test]
fn mst_of_triangulated_grid_uses_only_sides() {
    let n: i32 = 4;
    let p = |i: i32, j: i32| pt((i * n + j) as u64, i * 10, j * 10);
    let mut edges = vec![];
    for i in 0..n {
        for j in 0..n {
            if i + 1 < n {
                edges.push((p(i, j), p(i + 1, j)));
            }
            if j + 1 < n {
                edges.push((p(i, j), p(i, j + 1)));
            }
            if i + 1 < n && j + 1 < n {
                edges.push((p(i, j), p(i + 1, j + 1)));
            }
        }
    }
    let mst = kruskals_mst(edges.clone());
    assert_eq!(mst.len(), (n * n - 1) as usize);
    assert!(mst.iter().all(|e| e.weight_sq == 100));
    let (tree, dist) = bfs(edges);
    assert_eq!(dist.len(), (n * n) as usize);
    assert_eq!(tree.len(), (n * n - 1) as usize);
    // the far corner is three diagonal hops away
    assert_eq!(dist.iter().find(|(q, _)| q.id == 15).unwrap().1, 3);
}

#[test]
fn triangles_give_their_three_sides() {
    let [a, b, c, d] = square();
    let edges = triangle_edges(&vec![(a, b, c), (a, c, d)]);
    let got: Vec<(u64, u64)> = edges.iter().map(|(p, q)| (p.id, q.id)).collect();
    assert_eq!(got, vec![(0, 1), (1, 2), (2, 0), (0, 2), (2, 3), (3, 0)]);
    let mst = kruskals_mst(edges);
    assert_eq!(ids(&mst), vec![(0, 1), (1, 2), (2, 3)]);
    assert!(triangle_edges(&vec![]).is_empty());
}

#[test]
fn find_after_long_chain_compresses_and_agrees() {
    let mut s = DisjointSet::new(0);
    for k in 0..20u64 {
        s.union(k, k + 1);
    }
    assert_eq!(s.find(0), 20);
    assert_eq!(s.find(0), 20);
    assert_eq!(s.find(7), 20);
    // two sets built by the same calls agree everywhere
    let mut t = DisjointSet::new(0);
    for k in 0..20u64 {
        t.union(k, k + 1);
    }
    for k in 0..25u64 {
        assert_eq!(s.find(k), t.find(k));
    }
}
