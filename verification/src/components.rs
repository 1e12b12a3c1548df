//! Connected components of a graph on the vertices `0..n`, counted with a
//! union-find forest.
use vstd::prelude::*;

verus! {

/// Merge the class of `a` into the class of `b`: every vertex labelled like
/// `a` takes the label of `b`.
pub open spec fn relabel(lab: Seq<int>, a: int, b: int) -> Seq<int> {
    Seq::new(lab.len(), |v: int| if lab[v] == lab[a] { lab[b] } else { lab[v] })
}

/// Component labels after adding the edges one by one: at first every
/// vertex is its own component; each edge merges the classes of its ends.
pub open spec fn labels(n: nat, edges: Seq<(int, int)>) -> Seq<int>
    decreases edges.len(),
{
    if edges.len() == 0 {
        Seq::new(n, |v: int| v)
    } else {
        relabel(labels(n, edges.drop_last()), edges.last().0, edges.last().1)
    }
}

/// Number of connected components: the number of distinct labels.
pub open spec fn num_components(n: nat, edges: Seq<(int, int)>) -> nat {
    labels(n, edges).to_set().len()
}

/// Every edge joins two vertices below `n`.
pub open spec fn edges_in_range(n: nat, edges: Seq<(int, int)>) -> bool {
    forall|k: int|
        0 <= k < edges.len() ==> 0 <= (#[trigger] edges[k]).0 < n && 0 <= edges[k].1 < n
}

/// Labels are vertices, and there is one label per vertex.
pub proof fn lemma_labels_range(n: nat, edges: Seq<(int, int)>)
    requires
        edges_in_range(n, edges),
    ensures
        labels(n, edges).len() == n,
        forall|v: int| 0 <= v < n ==> 0 <= #[trigger] labels(n, edges)[v] < n,
    decreases edges.len(),
{
    if edges.len() > 0 {
        let d = edges.drop_last();
        assert(edges_in_range(n, d)) by {
            assert forall|k: int| 0 <= k < d.len() implies 0 <= (#[trigger] d[k]).0 < n && 0 <= d[k].1 < n by {
                assert(d[k] == edges[k]);
            }
        }
        lemma_labels_range(n, d);
        assert(edges[edges.len() - 1] == edges.last());
    }
}

/// The union-find forest: `root[x]` is the root reached from `x` by
/// following parents, and ranks strictly grow along parent links.
pub open spec fn uf_inv(p: Seq<usize>, rank: Seq<nat>, root: Seq<int>, bound: nat) -> bool {
    &&& rank.len() == p.len()
    &&& root.len() == p.len()
    &&& forall|x: int| 0 <= x < p.len() ==> (#[trigger] p[x]) < p.len()
    &&& forall|x: int| 0 <= x < p.len() ==> 0 <= #[trigger] root[x] < p.len()
    &&& forall|x: int| 0 <= x < p.len() ==> #[trigger] rank[x] <= bound
    &&& forall|x: int| 0 <= x < p.len() ==> p[#[trigger] root[x]] == root[x]
    &&& forall|x: int| 0 <= x < p.len() ==> root[#[trigger] p[x] as int] == root[x]
    &&& forall|x: int| 0 <= x < p.len() && #[trigger] p[x] != x ==> rank[x] < rank[p[x] as int]
    &&& forall|x: int| 0 <= x < p.len() && #[trigger] root[x] != x ==> rank[x] < rank[root[x]]
    &&& forall|x: int| 0 <= x < p.len() && #[trigger] p[x] == x ==> root[x] == x
}

/// Find the root of `x`, compressing the path on the way back.
fn find(
    parent: &mut Vec<usize>,
    x: usize,
    Ghost(rank): Ghost<Seq<nat>>,
    Ghost(root): Ghost<Seq<int>>,
    Ghost(bound): Ghost<nat>,
) -> (r: usize)
    requires
        uf_inv(old(parent)@, rank, root, bound),
        x < old(parent)@.len(),
    ensures
        uf_inv(final(parent)@, rank, root, bound),
        final(parent)@.len() == old(parent)@.len(),
        r == root[x as int],
    decreases bound - rank[x as int],
{
    let px = parent[x];
    if px != x {
        assert(rank[x as int] < rank[px as int]);
        let r = find(parent, px, Ghost(rank), Ghost(root), Ghost(bound));
        proof {
            let p = parent@;
            assert(root[x as int] != x) by {
                if root[x as int] == x {
                    assert(old(parent)@[root[x as int]] == root[x as int]);
                }
            }
            assert(p[r as int] == r);
        }
        parent.set(x, r);
        proof {
            let p = parent@;
            assert forall|y: int| 0 <= y < p.len() implies p[#[trigger] root[y]] == root[y] by {
                if root[y] == x {
                    assert(p[root[y]] == root[y]);
                }
            }
        }
        r
    } else {
        x
    }
}

/// The number of connected components of the graph on `0..n` with the
/// given edges.
pub fn count_components(n: usize, edges: &Vec<(usize, usize)>) -> (c: usize)
    requires
        forall|k: int| 0 <= k < edges.len() ==> (#[trigger] edges[k]).0 < n && edges[k].1 < n,
    ensures
        c == num_components(n as nat, edge_seq(edges@)),
        c <= n,
{
    let mut parent: Vec<usize> = Vec::new();
    let mut i: usize = 0;
    while i < n
        invariant
            i <= n,
            parent@.len() == i,
            forall|v: int| 0 <= v < i ==> #[trigger] parent@[v] == v,
        decreases n - i,
    {
        parent.push(i);
        i = i + 1;
    }
    let ghost mut rank: Seq<nat> = Seq::new(n as nat, |v: int| 0nat);
    let ghost mut root: Seq<int> = Seq::new(n as nat, |v: int| v);
    let ghost mut bound: nat = 0;
    let ghost es = edge_seq(edges@);
    proof {
        assert(labels(n as nat, es.take(0)) =~= root) by {
            assert(es.take(0).len() == 0);
        }
    }
    let mut k: usize = 0;
    while k < edges.len()
        invariant
            k <= edges.len(),
            es == edge_seq(edges@),
            parent@.len() == n,
            uf_inv(parent@, rank, root, bound),
            root == labels(n as nat, es.take(k as int)),
            forall|j: int| 0 <= j < edges.len() ==> (#[trigger] edges[j]).0 < n && edges[j].1 < n,
        decreases edges.len() - k,
    {
        let (a, b) = edges[k];
        let ra = find(&mut parent, a, Ghost(rank), Ghost(root), Ghost(bound));
        let rb = find(&mut parent, b, Ghost(rank), Ghost(root), Ghost(bound));
        let ghost new_root = relabel(root, a as int, b as int);
        proof {
            assert(es.take(k as int + 1).drop_last() =~= es.take(k as int));
            assert(es.take(k as int + 1).last() == (a as int, b as int));
            assert(labels(n as nat, es.take(k as int + 1)) == new_root);
        }
        if ra != rb {
            let ghost p0 = parent@;
            parent.set(ra, rb);
            proof {
                let p = parent@;
                let new_rank = rank.update(rb as int, if rank[rb as int] > rank[ra as int] + 1 {
                    rank[rb as int]
                } else {
                    rank[ra as int] + 1
                });
                assert(root[ra as int] == ra) by {
                    assert(p0[root[a as int]] == root[a as int]);
                }
                assert(root[rb as int] == rb) by {
                    assert(p0[root[b as int]] == root[b as int]);
                }
                assert forall|x: int| 0 <= x < n implies #[trigger] new_root[x] == if root[x] == ra {
                    rb as int
                } else {
                    root[x]
                } by {}
                assert(uf_inv(p, new_rank, new_root, bound + 1)) by {
                    assert forall|x: int| 0 <= x < p.len() implies 0 <= #[trigger] new_root[x] < p.len() by {}
                    assert forall|x: int| 0 <= x < p.len() implies #[trigger] new_rank[x] <= bound + 1 by {}
                    assert forall|x: int| 0 <= x < p.len() implies p[#[trigger] new_root[x]] == new_root[x] by {
                        if root[x] == ra {
                        } else {
                            assert(p0[root[x]] == root[x]);
                        }
                    }
                    assert forall|x: int| 0 <= x < p.len() implies new_root[#[trigger] p[x] as int] == new_root[x] by {
                        if x == ra {
                            assert(p[x] == rb);
                        } else {
                            assert(root[p0[x] as int] == root[x]);
                        }
                    }
                    assert forall|x: int| 0 <= x < p.len() && #[trigger] p[x] != x implies new_rank[x] < new_rank[p[x] as int] by {
                        if x == ra {
                        } else {
                            assert(p0[x] != x);
                            assert(rank[x] < rank[p0[x] as int]);
                            if x == rb {
                                assert(p0[rb as int] == rb);
                            }
                        }
                    }
                    assert forall|x: int| 0 <= x < p.len() && #[trigger] new_root[x] != x implies new_rank[x] < new_rank[new_root[x]] by {
                        if root[x] == ra {
                            if x != ra {
                                assert(rank[x] < rank[root[x]]);
                            }
                            if x == rb {
                                assert(root[rb as int] == rb);
                            }
                        } else {
                            if x == rb {
                                assert(root[rb as int] == rb);
                            }
                            assert(rank[x] < rank[root[x]]);
                        }
                    }
                    assert forall|x: int| 0 <= x < p.len() && #[trigger] p[x] == x implies new_root[x] == x by {
                        assert(p0[x] == x);
                        assert(root[x] == x);
                    }
                }
                rank = new_rank;
                bound = bound + 1;
                root = new_root;
            }
        } else {
            proof {
                assert(new_root =~= root);
            }
        }
        k = k + 1;
    }
    proof {
        assert(es.take(edges.len() as int) =~= es);
    }
    // Count the distinct roots.
    let mut seen: Vec<bool> = Vec::new();
    let mut v: usize = 0;
    while v < n
        invariant
            v <= n,
            seen@.len() == v,
            forall|w: int| 0 <= w < v ==> !#[trigger] seen@[w],
        decreases n - v,
    {
        seen.push(false);
        v = v + 1;
    }
    let mut count: usize = 0;
    let mut i: usize = 0;
    proof {
        assert(root.take(0).to_set() =~= Set::<int>::empty());
    }
    while i < n
        invariant
            i <= n,
            parent@.len() == n,
            seen@.len() == n,
            uf_inv(parent@, rank, root, bound),
            forall|w: int| 0 <= w < n ==> (#[trigger] seen@[w] <==> root.take(i as int).to_set().contains(w)),
            count == root.take(i as int).to_set().len(),
            root.take(i as int).to_set().finite(),
            count <= i,
        decreases n - i,
    {
        let r = find(&mut parent, i, Ghost(rank), Ghost(root), Ghost(bound));
        proof {
            assert(root.take(i as int + 1) =~= root.take(i as int).push(root[i as int]));
            root.take(i as int).lemma_push_to_set_commute(root[i as int]);
        }
        if !seen[r] {
            seen.set(r, true);
            count = count + 1;
        }
        i = i + 1;
    }
    proof {
        assert(root.take(n as int) =~= root);
    }
    count
}

/// The edges of an executable edge list as integer pairs.
pub open spec fn edge_seq(edges: Seq<(usize, usize)>) -> Seq<(int, int)> {
    Seq::new(edges.len(), |k: int| (edges[k].0 as int, edges[k].1 as int))
}


/// Some edge joins `u` and `v` (in either direction).
pub open spec fn joined(edges: Seq<(int, int)>, u: int, v: int) -> bool {
    exists|k: int|
        0 <= k < edges.len() && ((#[trigger] edges[k] == (u, v)) || edges[k] == (v, u))
}

/// A walk: consecutive vertices are joined by an edge.
pub open spec fn is_walk(edges: Seq<(int, int)>, w: Seq<int>) -> bool {
    &&& w.len() > 0
    &&& forall|k: int| 0 <= k < w.len() - 1 ==> joined(edges, #[trigger] w[k], w[k + 1])
}

/// `x` and `y` are connected: some walk leads from `x` to `y`.
pub open spec fn connected(edges: Seq<(int, int)>, x: int, y: int) -> bool {
    exists|w: Seq<int>| #[trigger] is_walk(edges, w) && w[0] == x && w.last() == y
}

proof fn lemma_walk_single(edges: Seq<(int, int)>, x: int)
    ensures
        connected(edges, x, x),
{
    let w = seq![x];
    assert(is_walk(edges, w));
}

proof fn lemma_walk_concat(edges: Seq<(int, int)>, w1: Seq<int>, w2: Seq<int>)
    requires
        is_walk(edges, w1),
        is_walk(edges, w2),
        joined(edges, w1.last(), w2[0]),
    ensures
        is_walk(edges, w1 + w2),
        (w1 + w2)[0] == w1[0],
        (w1 + w2).last() == w2.last(),
{
    let w = w1 + w2;
    assert forall|k: int| 0 <= k < w.len() - 1 implies joined(edges, #[trigger] w[k], w[k + 1]) by {
        if k < w1.len() - 1 {
            assert(w[k] == w1[k] && w[k + 1] == w1[k + 1]);
        } else if k == w1.len() - 1 {
            assert(w[k] == w1.last() && w[k + 1] == w2[0]);
        } else {
            assert(w[k] == w2[k - w1.len()] && w[k + 1] == w2[k + 1 - w1.len()]);
        }
    }
}

/// Walks along some of the edges are walks along all of them.
proof fn lemma_connected_push(edges: Seq<(int, int)>, e: (int, int), x: int, y: int)
    requires
        connected(edges, x, y),
    ensures
        connected(edges.push(e), x, y),
{
    let w = choose|w: Seq<int>| #[trigger] is_walk(edges, w) && w[0] == x && w.last() == y;
    let es = edges.push(e);
    assert forall|k: int| 0 <= k < w.len() - 1 implies joined(es, #[trigger] w[k], w[k + 1]) by {
        assert(joined(edges, w[k], w[k + 1]));
        let j = choose|j: int|
            0 <= j < edges.len() && ((#[trigger] edges[j] == (w[k], w[k + 1])) || edges[j] == (w[k + 1], w[k]));
        assert(es[j] == edges[j]);
    }
    assert(is_walk(es, w));
}

proof fn lemma_walk_reverse(edges: Seq<(int, int)>, x: int, y: int)
    requires
        connected(edges, x, y),
    ensures
        connected(edges, y, x),
{
    let w = choose|w: Seq<int>| #[trigger] is_walk(edges, w) && w[0] == x && w.last() == y;
    let r = w.reverse();
    assert forall|k: int| 0 <= k < r.len() - 1 implies joined(edges, #[trigger] r[k], r[k + 1]) by {
        let i = w.len() - 2 - k;
        assert(r[k] == w[i + 1] && r[k + 1] == w[i]);
        assert(joined(edges, w[i], w[i + 1]));
        let j = choose|j: int|
            0 <= j < edges.len() && ((#[trigger] edges[j] == (w[i], w[i + 1])) || edges[j] == (w[i + 1], w[i]));
    }
    assert(is_walk(edges, r));
    assert(r[0] == y && r.last() == x);
}

/// Vertices with the same label are connected.
proof fn lemma_same_label_connected(n: nat, edges: Seq<(int, int)>, x: int, y: int)
    requires
        edges_in_range(n, edges),
        0 <= x < n,
        0 <= y < n,
        labels(n, edges)[x] == labels(n, edges)[y],
    ensures
        connected(edges, x, y),
    decreases edges.len(),
{
    if edges.len() == 0 {
        lemma_walk_single(edges, x);
    } else {
        let d = edges.drop_last();
        let (a, b) = edges.last();
        assert(edges_in_range(n, d)) by {
            assert forall|k: int| 0 <= k < d.len() implies 0 <= (#[trigger] d[k]).0 < n && 0 <= d[k].1 < n by {
                assert(d[k] == edges[k]);
            }
        }
        assert(edges[edges.len() - 1] == edges.last());
        assert(edges =~= d.push((a, b)));
        lemma_labels_range(n, d);
        let l = labels(n, d);
        let la = l[a];
        let lb = l[b];
        assert(joined(edges, a, b)) by {
            assert(edges[edges.len() - 1] == (a, b));
        }
        if l[x] == l[y] {
            lemma_same_label_connected(n, d, x, y);
            lemma_connected_push(d, (a, b), x, y);
        } else if l[x] == la {
            // y was in the class of b
            assert(l[y] == lb);
            lemma_same_label_connected(n, d, x, a);
            lemma_same_label_connected(n, d, b, y);
            lemma_connected_push(d, (a, b), x, a);
            lemma_connected_push(d, (a, b), b, y);
            let w1 = choose|w: Seq<int>| #[trigger] is_walk(edges, w) && w[0] == x && w.last() == a;
            let w2 = choose|w: Seq<int>| #[trigger] is_walk(edges, w) && w[0] == b && w.last() == y;
            lemma_walk_concat(edges, w1, w2);
        } else {
            assert(l[y] == la);
            assert(l[x] == lb);
            lemma_same_label_connected(n, d, y, a);
            lemma_same_label_connected(n, d, b, x);
            lemma_connected_push(d, (a, b), y, a);
            lemma_connected_push(d, (a, b), b, x);
            let w1 = choose|w: Seq<int>| #[trigger] is_walk(edges, w) && w[0] == y && w.last() == a;
            let w2 = choose|w: Seq<int>| #[trigger] is_walk(edges, w) && w[0] == b && w.last() == x;
            lemma_walk_concat(edges, w1, w2);
            lemma_walk_reverse(edges, y, x);
        }
    }
}

/// The two ends of every edge end up with the same label.
proof fn lemma_edge_same_label(n: nat, edges: Seq<(int, int)>, k: int)
    requires
        edges_in_range(n, edges),
        0 <= k < edges.len(),
    ensures
        labels(n, edges)[edges[k].0] == labels(n, edges)[edges[k].1],
    decreases edges.len(),
{
    let d = edges.drop_last();
    assert(edges_in_range(n, d)) by {
        assert forall|j: int| 0 <= j < d.len() implies 0 <= (#[trigger] d[j]).0 < n && 0 <= d[j].1 < n by {
            assert(d[j] == edges[j]);
        }
    }
    lemma_labels_range(n, d);
    assert(edges[edges.len() - 1] == edges.last());
    if k < edges.len() - 1 {
        lemma_edge_same_label(n, d, k);
        assert(d[k] == edges[k]);
    }
}

/// Connected vertices have the same label.
proof fn lemma_walk_same_label(n: nat, edges: Seq<(int, int)>, w: Seq<int>)
    requires
        edges_in_range(n, edges),
        is_walk(edges, w),
        0 <= w[0] < n,
    ensures
        labels(n, edges)[w[0]] == labels(n, edges)[w.last()],
    decreases w.len(),
{
    if w.len() > 1 {
        let d = w.drop_last();
        assert(is_walk(edges, d)) by {
            assert forall|k: int| 0 <= k < d.len() - 1 implies joined(edges, #[trigger] d[k], d[k + 1]) by {
                assert(joined(edges, w[k], w[k + 1]));
            }
        }
        lemma_walk_same_label(n, edges, d);
        let i = w.len() - 2;
        assert(joined(edges, w[i], w[i + 1]));
        let j = choose|j: int|
            0 <= j < edges.len() && ((#[trigger] edges[j] == (w[i], w[i + 1])) || edges[j] == (w[i + 1], w[i]));
        lemma_edge_same_label(n, edges, j);
    }
}

/// Component labels capture connectivity exactly: two vertices share a
/// label if and only if a walk along the edges joins them. So
/// `num_components` counts the connected components.
pub proof fn lemma_labels_are_components(n: nat, edges: Seq<(int, int)>, x: int, y: int)
    requires
        edges_in_range(n, edges),
        0 <= x < n,
        0 <= y < n,
    ensures
        labels(n, edges)[x] == labels(n, edges)[y] <==> connected(edges, x, y),
{
    if labels(n, edges)[x] == labels(n, edges)[y] {
        lemma_same_label_connected(n, edges, x, y);
    }
    if connected(edges, x, y) {
        let w = choose|w: Seq<int>| #[trigger] is_walk(edges, w) && w[0] == x && w.last() == y;
        lemma_walk_same_label(n, edges, w);
    }
}

} // verus!
