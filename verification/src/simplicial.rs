//! Simplicial complex construction from code coverage features.
//!
//! Coverage features are points in a six-dimensional code-feature space:
//!
//! - Dimension 0: branch coverage (0 = no branches, 1 = partial, 2 = full)
//! - Dimension 1: loop nests (0 = none, 1 = single, 2 = nested)
//! - Dimension 2: match arm count (0 = none, 1 = 1-3 arms, 2 = 4+ arms)
//! - Dimension 3: generic parameters (0 = none, 1 = single, 2 = several)
//! - Dimension 4: async presence (0 = sync, 1 = async)
//! - Dimension 5: unsafe presence (0 = safe, 1 = unsafe)
//!
//! The Vietoris-Rips complex joins features whose squared Euclidean distance
//! is within a limit; its Betti numbers (β₀, β₁, β₂) count connected
//! components, holes (untested feature transitions) and voids.
use vstd::prelude::*;
use crate::components::{
    connected, count_components, edge_seq, edges_in_range, is_walk, joined, labels,
    lemma_labels_are_components, lemma_labels_range, num_components,
};
use crate::gf2::{col_sets, gf2_column_rank, gf2_rank, lemma_rank_le_len, strictly_sorted};
use crate::parse::FunctionCoverage;
use crate::text::{
    append_chars, append_str, chars_of, contains_char, contains_seq, contains_str, decimal,
    push_decimal, string_from_chars,
};

verus! {

/// A code feature as a point in feature space.
#[derive(Debug, Clone, Hash, PartialEq, Eq)]
pub struct CoverageFeature {
    /// File and approximate line.
    pub location: String,
    /// Feature vector (six dimensions).
    pub vector: [u8; 6],
    /// Whether this feature's region was covered by tests.
    pub covered: bool,
}

/// Betti numbers: β₀ (components), β₁ (holes/cycles), β₂ (voids).
#[derive(Debug, Clone)]
pub struct BettiNumbers {
    pub beta_0: usize,
    pub beta_1: usize,
    pub beta_2: usize,
}

pub open spec fn sq(d: int) -> int {
    d * d
}

/// Squared Euclidean distance between two feature vectors.
pub open spec fn dist_sq(a: Seq<u8>, b: Seq<u8>) -> int {
    sq(a[0] - b[0]) + sq(a[1] - b[1]) + sq(a[2] - b[2]) + sq(a[3] - b[3]) + sq(a[4] - b[4]) + sq(
        a[5] - b[5],
    )
}

fn sq_diff(x: u8, y: u8) -> (r: u32)
    ensures
        r == sq(x - y),
        r <= 65025,
{
    let d: u32 = if x > y {
        (x - y) as u32
    } else {
        (y - x) as u32
    };
    assert(d * d <= 65025) by (nonlinear_arith)
        requires
            d <= 255,
    ;
    assert(d * d == (x - y) * (x - y)) by (nonlinear_arith)
        requires
            d == x - y || d == y - x,
    ;
    d * d
}

/// Squared Euclidean distance between two feature vectors.
pub fn euclidean_sq(a: &[u8; 6], b: &[u8; 6]) -> (r: u32)
    ensures
        r == dist_sq(a@, b@),
{
    sq_diff(a[0], b[0]) + sq_diff(a[1], b[1]) + sq_diff(a[2], b[2]) + sq_diff(a[3], b[3]) + sq_diff(
        a[4],
        b[4],
    ) + sq_diff(a[5], b[5])
}

pub open spec fn min2(x: u8) -> u8 {
    if x < 2 {
        x
    } else {
        2
    }
}

/// The feature vector that `classify_feature` assigns.
pub open spec fn feature_vector(
    has_branches: bool,
    has_loops: bool,
    has_match: bool,
    has_generics: bool,
    is_async: bool,
    is_unsafe: bool,
    depth: u8,
) -> Seq<u8> {
    seq![
        if has_branches { min2(depth) } else { 0 },
        if has_loops { min2(depth) } else { 0 },
        if has_match { min2(depth / 2) } else { 0 },
        if has_generics { min2(depth) } else { 0 },
        if is_async { 1 } else { 0 },
        if is_unsafe { 1 } else { 0 },
    ]
}

/// Classify a code construct into a feature vector; `depth` is its nesting
/// depth, capped at 2 in each graded dimension (halved for match arms).
pub fn classify_feature(
    location: String,
    has_branches: bool,
    has_loops: bool,
    has_match: bool,
    has_generics: bool,
    is_async: bool,
    is_unsafe: bool,
    depth: u8,
    covered: bool,
) -> (f: CoverageFeature)
    ensures
        f.location == location,
        f.covered == covered,
        f.vector@ == feature_vector(
            has_branches,
            has_loops,
            has_match,
            has_generics,
            is_async,
            is_unsafe,
            depth,
        ),
{
    let d = if depth < 2 {
        depth
    } else {
        2
    };
    let half = if depth / 2 < 2 {
        depth / 2
    } else {
        2
    };
    let vector: [u8; 6] = [
        if has_branches {
            d
        } else {
            0
        },
        if has_loops {
            d
        } else {
            0
        },
        if has_match {
            half
        } else {
            0
        },
        if has_generics {
            d
        } else {
            0
        },
        if is_async {
            1
        } else {
            0
        },
        if is_unsafe {
            1
        } else {
            0
        },
    ];
    assert(vector@ =~= feature_vector(
        has_branches,
        has_loops,
        has_match,
        has_generics,
        is_async,
        is_unsafe,
        depth,
    ));
    CoverageFeature { location, vector, covered }
}


/// `a - b`, or zero when `b` exceeds `a`.
pub open spec fn sat_sub(a: int, b: int) -> nat {
    if a > b {
        (a - b) as nat
    } else {
        0
    }
}

/// Row key of the edge between two vertices: the smaller vertex in the high
/// 64 bits, the larger in the low 64 bits.
pub open spec fn edge_key(a: usize, b: usize) -> u128 {
    if a < b {
        (a as int * 0x1_0000_0000_0000_0000 + b as int) as u128
    } else {
        (b as int * 0x1_0000_0000_0000_0000 + a as int) as u128
    }
}

/// The boundary of a triangle: its three edges.
pub open spec fn boundary(t: Seq<usize>) -> Set<u128> {
    set![edge_key(t[0], t[1]), edge_key(t[1], t[2]), edge_key(t[2], t[0])]
}

/// The columns of the boundary matrix from triangles to edges.
pub open spec fn boundary_cols(tris: Seq<Seq<usize>>) -> Seq<Set<u128>> {
    Seq::new(tris.len(), |i: int| boundary(tris[i]))
}

/// The contents of a sequence of executable simplices.
pub open spec fn simplex_views(s: Seq<Vec<usize>>) -> Seq<Seq<usize>> {
    Seq::new(s.len(), |i: int| s[i]@)
}

/// The 1-simplices (two vertices) of a list of simplices, in order.
pub open spec fn dim1_edges(s: Seq<Seq<usize>>) -> Seq<(int, int)>
    decreases s.len(),
{
    if s.len() == 0 {
        Seq::empty()
    } else {
        let rest = dim1_edges(s.drop_last());
        if s.last().len() == 2 {
            rest.push((s.last()[0] as int, s.last()[1] as int))
        } else {
            rest
        }
    }
}

/// The 2-simplices (three vertices) of a list of simplices, in order.
pub open spec fn dim2_faces(s: Seq<Seq<usize>>) -> Seq<Seq<usize>>
    decreases s.len(),
{
    if s.len() == 0 {
        Seq::empty()
    } else {
        let rest = dim2_faces(s.drop_last());
        if s.last().len() == 3 {
            rest.push(s.last())
        } else {
            rest
        }
    }
}

/// Rank over GF(2) of the boundary map from 2-simplices to 1-simplices.
pub open spec fn rank_d2(s: Seq<Seq<usize>>) -> nat {
    gf2_rank(boundary_cols(dim2_faces(s)))
}

/// β₀: the number of connected components of the 1-skeleton on `n` vertices.
pub open spec fn spec_beta_0(s: Seq<Seq<usize>>, n: nat) -> nat {
    num_components(n, dim1_edges(s))
}

/// β₁ = dim ker ∂₁ − rank ∂₂, where dim ker ∂₁ = #edges − (n − β₀);
/// both differences are cut off at zero.
pub open spec fn spec_beta_1(s: Seq<Seq<usize>>, n: nat) -> nat {
    sat_sub(sat_sub(dim1_edges(s).len() as int, n - spec_beta_0(s, n)) as int, rank_d2(s) as int)
}

/// β₂ = #triangles − rank ∂₂ (there are no 3-simplices).
pub open spec fn spec_beta_2(s: Seq<Seq<usize>>, n: nat) -> nat {
    sat_sub(dim2_faces(s).len() as int, rank_d2(s) as int)
}

/// β₀ of a complex on `n` vertices lies between 1 and `n` when there is a
/// vertex (0 when there is none), and a complex without edges has every
/// vertex as a component of its own.
pub proof fn lemma_beta_0_bounds(s: Seq<Seq<usize>>, n: nat)
    requires
        edges_in_range(n, dim1_edges(s)),
    ensures
        spec_beta_0(s, n) <= n,
        n > 0 <==> spec_beta_0(s, n) >= 1,
        dim1_edges(s).len() == 0 ==> spec_beta_0(s, n) == n,
{
    let l = labels(n, dim1_edges(s));
    lemma_labels_range(n, dim1_edges(s));
    l.lemma_cardinality_of_set();
    l.lemma_cardinality_of_empty_set_is_0();
    if dim1_edges(s).len() == 0 {
        assert(l =~= Seq::new(n, |v: int| v));
        assert(l.no_duplicates());
        l.unique_seq_to_set();
    }
}

/// β₂ is exactly the number of triangles less the rank of ∂₂: the rank
/// never exceeds the number of triangles, so nothing is cut off.
pub proof fn lemma_beta_2_exact(s: Seq<Seq<usize>>, n: nat)
    ensures
        spec_beta_2(s, n) + rank_d2(s) == dim2_faces(s).len(),
{
    lemma_rank_le_len(boundary_cols(dim2_faces(s)));
}

proof fn lemma_dim1_edges_member(s: Seq<Seq<usize>>, k: int)
    requires
        0 <= k < s.len(),
        s[k].len() == 2,
    ensures
        dim1_edges(s).contains((s[k][0] as int, s[k][1] as int)),
    decreases s.len(),
{
    let rest = dim1_edges(s.drop_last());
    if k == s.len() - 1 {
        assert(dim1_edges(s) == rest.push((s[k][0] as int, s[k][1] as int)));
        assert(dim1_edges(s)[rest.len() as int] == (s[k][0] as int, s[k][1] as int));
    } else {
        lemma_dim1_edges_member(s.drop_last(), k);
        let m = choose|m: int| 0 <= m < rest.len() && rest[m] == (s[k][0] as int, s[k][1] as int);
        assert(dim1_edges(s)[m] == rest[m]);
    }
}

proof fn lemma_dim1_edges_in_range(s: Seq<Seq<usize>>, n: nat)
    requires
        forall|k: int| 0 <= k < s.len() && #[trigger] s[k].len() == 2 ==> s[k][0] < n && s[k][1] < n,
    ensures
        edges_in_range(n, dim1_edges(s)),
    decreases s.len(),
{
    if s.len() > 0 {
        lemma_dim1_edges_in_range(s.drop_last(), n);
        let rest = dim1_edges(s.drop_last());
        assert forall|m: int| 0 <= m < dim1_edges(s).len() implies 0 <= (
        #[trigger] dim1_edges(s)[m]).0 < n && 0 <= dim1_edges(s)[m].1 < n by {
            if m < rest.len() {
                assert(dim1_edges(s)[m] == rest[m]);
            } else {
                assert(s[s.len() - 1].len() == 2);
            }
        }
    }
}

proof fn lemma_complex_edges_in_range(s: Seq<Seq<usize>>, f: Seq<CoverageFeature>, limit: Option<u64>)
    requires
        is_feature_complex(s, f, limit),
    ensures
        edges_in_range(f.len(), dim1_edges(s)),
{
    let n = f.len();
    assert forall|k: int| 0 <= k < s.len() && #[trigger] s[k].len() == 2 implies s[k][0] < n
        && s[k][1] < n by {
        if k < n {
            assert(s[k] == seq![k as usize]);
        } else {
            assert(valid_edge(f, limit, s[k]) || valid_triangle(f, limit, s[k]));
        }
    }
    lemma_dim1_edges_in_range(s, n);
}

proof fn lemma_pair_edge(s: Seq<Seq<usize>>, i: int, j: int, k: int)
    requires
        0 <= k < s.len(),
        0 <= i,
        0 <= j,
        i <= usize::MAX,
        j <= usize::MAX,
        s[k] == seq![i as usize, j as usize],
    ensures
        joined(dim1_edges(s), i, j),
{
    lemma_dim1_edges_member(s, k);
    let edges = dim1_edges(s);
    let m = choose|m: int| 0 <= m < edges.len() && edges[m] == (s[k][0] as int, s[k][1] as int);
    assert(edges[m] == (i, j));
}

proof fn lemma_joined_connected(edges: Seq<(int, int)>, i: int, j: int)
    requires
        joined(edges, i, j),
    ensures
        connected(edges, i, j),
{
    let w = seq![i, j];
    assert(is_walk(edges, w));
}

/// In the complex of `build_feature_complex`, two features within the
/// distance limit of each other always lie in the same connected component,
/// so β₀ never counts them apart.
pub proof fn lemma_close_features_share_component(
    s: Seq<Seq<usize>>,
    f: Seq<CoverageFeature>,
    limit: Option<u64>,
    i: int,
    j: int,
)
    requires
        is_feature_complex(s, f, limit),
        f.len() <= usize::MAX,
        0 <= i < j < f.len(),
        close_pair(f, limit, i, j),
    ensures
        labels(f.len(), dim1_edges(s))[i] == labels(f.len(), dim1_edges(s))[j],
{
    let n = f.len() as int;
    lemma_complex_edges_in_range(s, f, limit);
    let k = choose|k: int| n <= k < s.len() && #[trigger] s[k] == seq![i as usize, j as usize];
    lemma_pair_edge(s, i, j, k);
    lemma_joined_connected(dim1_edges(s), i, j);
    lemma_labels_are_components(f.len(), dim1_edges(s), i, j);
}

fn edge_key_exec(a: usize, b: usize) -> (k: u128)
    ensures
        k == edge_key(a, b),
{
    if a < b {
        (a as u128) * 0x1_0000_0000_0000_0000u128 + (b as u128)
    } else {
        (b as u128) * 0x1_0000_0000_0000_0000u128 + (a as u128)
    }
}

/// The three keys as a strictly increasing column without repeats.
fn sorted_column3(x: u128, y: u128, z: u128) -> (v: Vec<u128>)
    ensures
        strictly_sorted(v@),
        v@.to_set() == set![x, y, z],
{
    let (a, b, c) = if x <= y {
        if y <= z {
            (x, y, z)
        } else if x <= z {
            (x, z, y)
        } else {
            (z, x, y)
        }
    } else {
        if x <= z {
            (y, x, z)
        } else if y <= z {
            (y, z, x)
        } else {
            (z, y, x)
        }
    };
    assert(set![a, b, c] =~= set![x, y, z]);
    let mut v: Vec<u128> = Vec::new();
    v.push(a);
    if b != a {
        v.push(b);
    }
    if c != b {
        v.push(c);
    }
    proof {
        if b != a && c != b {
            assert(v@ =~= seq![a, b, c]);
            assert(v@.to_set() =~= set![a, b, c]) by {
                assert(v@.contains(a) && v@.contains(b) && v@.contains(c)) by {
                    assert(v@[0] == a && v@[1] == b && v@[2] == c);
                }
            }
        } else if b != a {
            assert(v@ =~= seq![a, b]);
            assert(v@.to_set() =~= set![a, b, c]) by {
                assert(v@[0] == a && v@[1] == b);
            }
        } else if c != b {
            assert(v@ =~= seq![a, c]);
            assert(v@.to_set() =~= set![a, b, c]) by {
                assert(v@[0] == a && v@[1] == c);
            }
        } else {
            assert(v@ =~= seq![a]);
            assert(v@.to_set() =~= set![a, b, c]) by {
                assert(v@[0] == a);
            }
        }
    }
    v
}

/// Rank over GF(2) of the boundary map ∂₂ from the given triangles to their
/// edges: the number of linearly independent boundary chains.
pub fn compute_rank_d2(triangles: &Vec<Vec<usize>>) -> (r: usize)
    requires
        forall|i: int| 0 <= i < triangles.len() ==> #[trigger] triangles[i]@.len() == 3,
    ensures
        r == gf2_rank(boundary_cols(simplex_views(triangles@))),
{
    let mut cols: Vec<Vec<u128>> = Vec::new();
    let mut k: usize = 0;
    while k < triangles.len()
        invariant
            k <= triangles.len(),
            forall|i: int| 0 <= i < triangles.len() ==> #[trigger] triangles[i]@.len() == 3,
            cols.len() == k,
            forall|i: int| 0 <= i < cols.len() ==> strictly_sorted(#[trigger] cols[i]@),
            forall|i: int| 0 <= i < cols.len() ==> #[trigger] cols[i]@.to_set() == boundary(triangles[i]@),
        decreases triangles.len() - k,
    {
        let t = &triangles[k];
        let k01 = edge_key_exec(t[0], t[1]);
        let k12 = edge_key_exec(t[1], t[2]);
        let k20 = edge_key_exec(t[2], t[0]);
        let col = sorted_column3(k01, k12, k20);
        cols.push(col);
        k = k + 1;
    }
    proof {
        assert(col_sets(cols@) =~= boundary_cols(simplex_views(triangles@)));
    }
    gf2_column_rank(&cols)
}

fn copy_simplex(v: &Vec<usize>) -> (r: Vec<usize>)
    ensures
        r@ == v@,
{
    let mut r: Vec<usize> = Vec::new();
    let mut i: usize = 0;
    while i < v.len()
        invariant
            i <= v.len(),
            r@ == v@.take(i as int),
        decreases v.len() - i,
    {
        r.push(v[i]);
        i = i + 1;
        assert(r@ =~= v@.take(i as int));
    }
    assert(v@.take(v.len() as int) =~= v@);
    r
}

/// Betti numbers of a simplicial complex given by its simplices on the
/// vertices `0..n_vertices`: β₀ from the connected components of the edges,
/// β₁ and β₂ from the ranks of the boundary maps over GF(2).
pub fn compute_betti(simplices: &Vec<Vec<usize>>, n_vertices: usize) -> (b: BettiNumbers)
    requires
        forall|i: int|
            0 <= i < simplices.len() && #[trigger] simplices[i]@.len() == 2 ==> simplices[i]@[0]
                < n_vertices && simplices[i]@[1] < n_vertices,
    ensures
        b.beta_0 == spec_beta_0(simplex_views(simplices@), n_vertices as nat),
        b.beta_1 == spec_beta_1(simplex_views(simplices@), n_vertices as nat),
        b.beta_2 == spec_beta_2(simplex_views(simplices@), n_vertices as nat),
        b.beta_0 <= n_vertices,
{
    let ghost sv = simplex_views(simplices@);
    let mut edges: Vec<(usize, usize)> = Vec::new();
    let mut tris: Vec<Vec<usize>> = Vec::new();
    let mut k: usize = 0;
    proof {
        assert(sv.take(0) =~= Seq::<Seq<usize>>::empty());
        assert(edge_seq(edges@) =~= Seq::<(int, int)>::empty());
        assert(simplex_views(tris@) =~= Seq::<Seq<usize>>::empty());
    }
    while k < simplices.len()
        invariant
            k <= simplices.len(),
            sv == simplex_views(simplices@),
            forall|i: int|
                0 <= i < simplices.len() && #[trigger] simplices[i]@.len() == 2 ==> simplices[i]@[0]
                    < n_vertices && simplices[i]@[1] < n_vertices,
            edge_seq(edges@) == dim1_edges(sv.take(k as int)),
            simplex_views(tris@) == dim2_faces(sv.take(k as int)),
            forall|j: int| 0 <= j < edges.len() ==> (#[trigger] edges[j]).0 < n_vertices && edges[j].1 < n_vertices,
            forall|j: int| 0 <= j < tris.len() ==> #[trigger] tris[j]@.len() == 3,
            edges.len() <= k,
            tris.len() <= k,
        decreases simplices.len() - k,
    {
        let s = &simplices[k];
        proof {
            assert(sv.take(k as int + 1).drop_last() =~= sv.take(k as int));
            assert(sv.take(k as int + 1).last() == s@);
        }
        if s.len() == 2 {
            let ghost old_edges = edges@;
            edges.push((s[0], s[1]));
            proof {
                assert(edge_seq(edges@) =~= edge_seq(old_edges).push((s@[0] as int, s@[1] as int)));
            }
        } else if s.len() == 3 {
            let ghost old_tris = tris@;
            tris.push(copy_simplex(s));
            proof {
                assert(simplex_views(tris@) =~= simplex_views(old_tris).push(s@));
            }
        }
        k = k + 1;
    }
    proof {
        assert(sv.take(simplices.len() as int) =~= sv);
    }
    let beta_0 = count_components(n_vertices, &edges);
    let e = edges.len();
    let rank_d1 = n_vertices - beta_0;
    let dim_ker_d1 = if e > rank_d1 {
        e - rank_d1
    } else {
        0
    };
    let rank_d2 = compute_rank_d2(&tris);
    let beta_1 = if dim_ker_d1 > rank_d2 {
        dim_ker_d1 - rank_d2
    } else {
        0
    };
    let t = tris.len();
    let beta_2 = if t > rank_d2 {
        t - rank_d2
    } else {
        0
    };
    BettiNumbers { beta_0, beta_1, beta_2 }
}


/// Two features are joined when their squared distance is within the limit;
/// with no limit (an undefined threshold) nothing is joined.
pub open spec fn close_pair(f: Seq<CoverageFeature>, limit: Option<u64>, i: int, j: int) -> bool {
    match limit {
        Some(m) => dist_sq(f[i].vector@, f[j].vector@) <= m,
        None => false,
    }
}

pub open spec fn pair_lt(a: Seq<usize>, b: Seq<usize>) -> bool {
    a[0] < b[0] || (a[0] == b[0] && a[1] < b[1])
}

pub open spec fn triple_lt(a: Seq<usize>, b: Seq<usize>) -> bool {
    a[0] < b[0] || (a[0] == b[0] && (a[1] < b[1] || (a[1] == b[1] && a[2] < b[2])))
}

/// An edge `[i, j]` with `i < j` between two joined features.
pub open spec fn valid_edge(f: Seq<CoverageFeature>, limit: Option<u64>, e: Seq<usize>) -> bool {
    &&& e.len() == 2
    &&& e[0] < e[1] < f.len()
    &&& close_pair(f, limit, e[0] as int, e[1] as int)
}

/// A triangle `[i, j, k]` with `i < j < k` whose vertices are pairwise joined.
pub open spec fn valid_triangle(f: Seq<CoverageFeature>, limit: Option<u64>, t: Seq<usize>) -> bool {
    &&& t.len() == 3
    &&& t[0] < t[1] < t[2] < f.len()
    &&& close_pair(f, limit, t[0] as int, t[1] as int)
    &&& close_pair(f, limit, t[0] as int, t[2] as int)
    &&& close_pair(f, limit, t[1] as int, t[2] as int)
}

/// The Vietoris-Rips complex (up to dimension 2) of the features, as a list:
/// first every vertex `[i]` in order, then every edge of joined features in
/// increasing order, then every triangle of pairwise joined features in
/// increasing order.
pub open spec fn is_feature_complex(
    s: Seq<Seq<usize>>,
    f: Seq<CoverageFeature>,
    limit: Option<u64>,
) -> bool {
    let n = f.len() as int;
    &&& s.len() >= n
    &&& forall|k: int| 0 <= k < n ==> #[trigger] s[k] == seq![k as usize]
    &&& forall|k: int| n <= k < s.len() ==> valid_edge(f, limit, #[trigger] s[k]) || valid_triangle(f, limit, s[k])
    &&& forall|k: int, l: int|
        n <= k < l < s.len() ==> #[trigger] s[k].len() <= #[trigger] s[l].len()
    &&& forall|k: int, l: int|
        n <= k < l < s.len() && #[trigger] s[k].len() == 2 && #[trigger] s[l].len() == 2 ==> pair_lt(s[k], s[l])
    &&& forall|k: int, l: int|
        n <= k < l < s.len() && #[trigger] s[k].len() == 3 && #[trigger] s[l].len() == 3 ==> triple_lt(s[k], s[l])
    &&& forall|i: int, j: int|
        0 <= i < j < n && #[trigger] close_pair(f, limit, i, j) ==> exists|k: int|
            n <= k < s.len() && #[trigger] s[k] == seq![i as usize, j as usize]
    &&& forall|i: int, j: int, m: int|
        0 <= i < j < m < n && #[trigger] close_pair(f, limit, i, j) && #[trigger] close_pair(f, limit, i, m)
            && #[trigger] close_pair(f, limit, j, m) ==> exists|k: int|
            n <= k < s.len() && #[trigger] s[k] == seq![i as usize, j as usize, m as usize]
}

fn is_close(a: &[u8; 6], b: &[u8; 6], limit: Option<u64>) -> (r: bool)
    ensures
        r == match limit {
            Some(m) => dist_sq(a@, b@) <= m,
            None => false,
        },
{
    match limit {
        Some(m) => (euclidean_sq(a, b) as u64) <= m,
        None => false,
    }
}

/// The joined-features matrix.
fn adjacency(features: &[CoverageFeature], limit: Option<u64>) -> (adj: Vec<Vec<bool>>)
    ensures
        adj.len() == features.len(),
        forall|i: int| 0 <= i < adj.len() ==> #[trigger] adj[i]@.len() == features.len(),
        forall|i: int, j: int|
            0 <= i < features.len() && 0 <= j < features.len() ==> #[trigger] adj[i]@[j]
                == close_pair(features@, limit, i, j),
{
    let n = features.len();
    let mut adj: Vec<Vec<bool>> = Vec::new();
    let mut i: usize = 0;
    while i < n
        invariant
            i <= n,
            n == features.len(),
            adj.len() == i,
            forall|a: int| 0 <= a < adj.len() ==> #[trigger] adj[a]@.len() == n,
            forall|a: int, b: int|
                0 <= a < i && 0 <= b < n ==> #[trigger] adj[a]@[b] == close_pair(features@, limit, a, b),
        decreases n - i,
    {
        let mut row: Vec<bool> = Vec::new();
        let mut j: usize = 0;
        while j < n
            invariant
                j <= n,
                i < n,
                n == features.len(),
                row.len() == j,
                forall|b: int| 0 <= b < j ==> #[trigger] row@[b] == close_pair(features@, limit, i as int, b),
            decreases n - j,
        {
            row.push(is_close(&features[i].vector, &features[j].vector, limit));
            j = j + 1;
        }
        adj.push(row);
        i = i + 1;
    }
    adj
}


/// Build the Vietoris-Rips complex of the features and its Betti numbers.
///
/// Two features are joined when their squared Euclidean distance is at most
/// `max_dist_sq` (`None`: nothing is joined). The simplices are the vertices,
/// the joined pairs and the pairwise joined triples.
pub fn build_feature_complex(features: &[CoverageFeature], max_dist_sq: Option<u64>) -> (res: (
    Vec<Vec<usize>>,
    BettiNumbers,
))
    ensures
        is_feature_complex(simplex_views(res.0@), features@, max_dist_sq),
        res.1.beta_0 == spec_beta_0(simplex_views(res.0@), features@.len() as nat),
        res.1.beta_1 == spec_beta_1(simplex_views(res.0@), features@.len() as nat),
        res.1.beta_2 == spec_beta_2(simplex_views(res.0@), features@.len() as nat),
{
    let n = features.len();
    let ghost f = features@;
    let limit = max_dist_sq;
    if n == 0 {
        let simplices: Vec<Vec<usize>> = Vec::new();
        proof {
            let v = simplex_views(simplices@);
            assert(v =~= Seq::<Seq<usize>>::empty());
            assert(dim1_edges(v) =~= Seq::<(int, int)>::empty());
            assert(dim2_faces(v) =~= Seq::<Seq<usize>>::empty());
            assert(crate::components::labels(0, dim1_edges(v)).to_set() =~= Set::<int>::empty());
            assert(boundary_cols(dim2_faces(v)) =~= Seq::<Set<u128>>::empty());
        }
        return (simplices, BettiNumbers { beta_0: 0, beta_1: 0, beta_2: 0 });
    }
    let adj = adjacency(features, limit);
    let mut simplices: Vec<Vec<usize>> = Vec::new();
    // 0-simplices: every feature.
    let mut i: usize = 0;
    while i < n
        invariant
            i <= n,
            simplices.len() == i,
            forall|k: int| 0 <= k < i ==> #[trigger] simplices[k]@ == seq![k as usize],
        decreases n - i,
    {
        let v = vec![i];
        proof {
            assert(v@ =~= seq![i]);
        }
        simplices.push(v);
        i = i + 1;
    }
    // 1-simplices: joined pairs in increasing order.
    let mut i: usize = 0;
    while i < n
        invariant
            i <= n,
            n == f.len(),
            f == features@,
            adj.len() == n,
            forall|a: int| 0 <= a < adj.len() ==> #[trigger] adj[a]@.len() == n,
            forall|a: int, b: int|
                0 <= a < n && 0 <= b < n ==> #[trigger] adj[a]@[b] == close_pair(f, limit, a, b),
            simplices.len() >= n,
            forall|k: int| 0 <= k < n ==> #[trigger] simplices[k]@ == seq![k as usize],
            forall|k: int| n <= k < simplices.len() ==> valid_edge(f, limit, #[trigger] simplices[k]@),
            forall|k: int| n <= k < simplices.len() ==> (#[trigger] simplices[k]@)[0] < i,
            forall|k: int, l: int|
                n <= k < l < simplices.len() ==> pair_lt(#[trigger] simplices[k]@, #[trigger] simplices[l]@),
            forall|a: int, b: int|
                0 <= a < b < n && a < i && #[trigger] close_pair(f, limit, a, b) ==> exists|k: int|
                    n <= k < simplices.len() && #[trigger] simplices[k]@ == seq![a as usize, b as usize],
        decreases n - i,
    {
        let mut j: usize = i + 1;
        while j < n
            invariant
                i < n,
                i + 1 <= j <= n,
                n == f.len(),
                f == features@,
                adj.len() == n,
                forall|a: int| 0 <= a < adj.len() ==> #[trigger] adj[a]@.len() == n,
                forall|a: int, b: int|
                    0 <= a < n && 0 <= b < n ==> #[trigger] adj[a]@[b] == close_pair(f, limit, a, b),
                simplices.len() >= n,
                forall|k: int| 0 <= k < n ==> #[trigger] simplices[k]@ == seq![k as usize],
                forall|k: int| n <= k < simplices.len() ==> valid_edge(f, limit, #[trigger] simplices[k]@),
                forall|k: int|
                    n <= k < simplices.len() ==> (#[trigger] simplices[k]@)[0] < i || (simplices[k]@[0] == i
                        && simplices[k]@[1] < j),
                forall|k: int, l: int|
                    n <= k < l < simplices.len() ==> pair_lt(#[trigger] simplices[k]@, #[trigger] simplices[l]@),
                forall|a: int, b: int|
                    0 <= a < b < n && (a < i || (a == i && b < j)) && #[trigger] close_pair(f, limit, a, b)
                        ==> exists|k: int|
                        n <= k < simplices.len() && #[trigger] simplices[k]@ == seq![a as usize, b as usize],
            decreases n - j,
        {
            if adj[i][j] {
                let e = vec![i, j];
                let ghost old_s = simplices@;
                proof {
                    assert(e@ =~= seq![i, j]);
                }
                simplices.push(e);
                proof {
                    assert forall|a: int, b: int|
                        0 <= a < b < n && (a < i || (a == i && b < j + 1)) && #[trigger] close_pair(f, limit, a, b)
                            implies exists|k: int|
                            n <= k < simplices.len() && #[trigger] simplices[k]@ == seq![a as usize, b as usize] by {
                        if a == i && b == j {
                            assert(simplices[old_s.len() as int]@ == seq![a as usize, b as usize]);
                        } else {
                            let k = choose|k: int| n <= k < old_s.len() && #[trigger] old_s[k]@ == seq![a as usize, b as usize];
                            assert(simplices[k]@ == seq![a as usize, b as usize]);
                        }
                    }
                }
            }
            j = j + 1;
        }
        i = i + 1;
    }
    let ne = simplices.len();
    let ghost es = simplices@;
    // 2-simplices: pairwise joined triples in increasing order.
    let mut i: usize = 0;
    while i < n
        invariant
            i <= n,
            n == f.len(),
            f == features@,
            adj.len() == n,
            forall|a: int| 0 <= a < adj.len() ==> #[trigger] adj[a]@.len() == n,
            forall|a: int, b: int|
                0 <= a < n && 0 <= b < n ==> #[trigger] adj[a]@[b] == close_pair(f, limit, a, b),
            n <= ne <= simplices.len(),
            es.len() == ne,
            forall|k: int| 0 <= k < ne ==> #[trigger] simplices[k] == es[k],
            forall|k: int| ne <= k < simplices.len() ==> valid_triangle(f, limit, #[trigger] simplices[k]@),
            forall|k: int| ne <= k < simplices.len() ==> (#[trigger] simplices[k]@)[0] < i,
            forall|k: int, l: int|
                ne <= k < l < simplices.len() ==> triple_lt(#[trigger] simplices[k]@, #[trigger] simplices[l]@),
            forall|a: int, b: int, c: int|
                0 <= a < b < c < n && a < i && #[trigger] close_pair(f, limit, a, b)
                    && #[trigger] close_pair(f, limit, a, c) && #[trigger] close_pair(f, limit, b, c)
                    ==> exists|k: int|
                    ne <= k < simplices.len() && #[trigger] simplices[k]@ == seq![
                        a as usize,
                        b as usize,
                        c as usize,
                    ],
        decreases n - i,
    {
        let mut j: usize = i + 1;
        while j < n
            invariant
                i < n,
                i + 1 <= j <= n,
                n == f.len(),
                f == features@,
                adj.len() == n,
                forall|a: int| 0 <= a < adj.len() ==> #[trigger] adj[a]@.len() == n,
                forall|a: int, b: int|
                    0 <= a < n && 0 <= b < n ==> #[trigger] adj[a]@[b] == close_pair(f, limit, a, b),
                n <= ne <= simplices.len(),
                es.len() == ne,
                forall|k: int| 0 <= k < ne ==> #[trigger] simplices[k] == es[k],
                forall|k: int| ne <= k < simplices.len() ==> valid_triangle(f, limit, #[trigger] simplices[k]@),
                forall|k: int|
                    ne <= k < simplices.len() ==> (#[trigger] simplices[k]@)[0] < i || (simplices[k]@[0] == i
                        && simplices[k]@[1] < j),
                forall|k: int, l: int|
                    ne <= k < l < simplices.len() ==> triple_lt(#[trigger] simplices[k]@, #[trigger] simplices[l]@),
                forall|a: int, b: int, c: int|
                    0 <= a < b < c < n && (a < i || (a == i && b < j)) && #[trigger] close_pair(f, limit, a, b)
                        && #[trigger] close_pair(f, limit, a, c) && #[trigger] close_pair(f, limit, b, c)
                        ==> exists|k: int|
                        ne <= k < simplices.len() && #[trigger] simplices[k]@ == seq![
                            a as usize,
                            b as usize,
                            c as usize,
                        ],
            decreases n - j,
        {
            if adj[i][j] {
                let mut m: usize = j + 1;
                while m < n
                    invariant
                        i < j < n,
                        j + 1 <= m <= n,
                        n == f.len(),
                        f == features@,
                        adj.len() == n,
                        close_pair(f, limit, i as int, j as int),
                        forall|a: int| 0 <= a < adj.len() ==> #[trigger] adj[a]@.len() == n,
                        forall|a: int, b: int|
                            0 <= a < n && 0 <= b < n ==> #[trigger] adj[a]@[b] == close_pair(f, limit, a, b),
                        n <= ne <= simplices.len(),
                        es.len() == ne,
                        forall|k: int| 0 <= k < ne ==> #[trigger] simplices[k] == es[k],
                        forall|k: int|
                            ne <= k < simplices.len() ==> valid_triangle(f, limit, #[trigger] simplices[k]@),
                        forall|k: int|
                            ne <= k < simplices.len() ==> (#[trigger] simplices[k]@)[0] < i || (
                            simplices[k]@[0] == i && simplices[k]@[1] < j) || (simplices[k]@[0] == i
                                && simplices[k]@[1] == j && simplices[k]@[2] < m),
                        forall|k: int, l: int|
                            ne <= k < l < simplices.len() ==> triple_lt(
                                #[trigger] simplices[k]@,
                                #[trigger] simplices[l]@,
                            ),
                        forall|a: int, b: int, c: int|
                            0 <= a < b < c < n && (a < i || (a == i && b < j) || (a == i && b == j && c < m))
                                && #[trigger] close_pair(f, limit, a, b) && #[trigger] close_pair(f, limit, a, c)
                                && #[trigger] close_pair(f, limit, b, c) ==> exists|k: int|
                                ne <= k < simplices.len() && #[trigger] simplices[k]@ == seq![
                                    a as usize,
                                    b as usize,
                                    c as usize,
                                ],
                    decreases n - m,
                {
                    if adj[i][m] && adj[j][m] {
                        let t = vec![i, j, m];
                        let ghost old_s = simplices@;
                        proof {
                            assert(t@ =~= seq![i, j, m]);
                        }
                        simplices.push(t);
                        proof {
                            assert forall|a: int, b: int, c: int|
                                0 <= a < b < c < n && (a < i || (a == i && b < j) || (a == i && b == j && c
                                    < m + 1)) && #[trigger] close_pair(f, limit, a, b)
                                    && #[trigger] close_pair(f, limit, a, c) && #[trigger] close_pair(
                                    f,
                                    limit,
                                    b,
                                    c,
                                ) implies exists|k: int|
                                ne <= k < simplices.len() && #[trigger] simplices[k]@ == seq![
                                    a as usize,
                                    b as usize,
                                    c as usize,
                                ] by {
                                if a == i && b == j && c == m {
                                    assert(simplices[old_s.len() as int]@ == seq![
                                        a as usize,
                                        b as usize,
                                        c as usize,
                                    ]);
                                } else {
                                    let k = choose|k: int|
                                        ne <= k < old_s.len() && #[trigger] old_s[k]@ == seq![
                                            a as usize,
                                            b as usize,
                                            c as usize,
                                        ];
                                    assert(simplices[k]@ == seq![a as usize, b as usize, c as usize]);
                                }
                            }
                        }
                    }
                    m = m + 1;
                }
            }
            j = j + 1;
        }
        i = i + 1;
    }
    proof {
        let v = simplex_views(simplices@);
        assert forall|k: int| 0 <= k < n implies #[trigger] v[k] == seq![k as usize] by {
            assert(simplices[k] == es[k]);
        }
        assert forall|k: int| n <= k < v.len() implies valid_edge(f, limit, #[trigger] v[k]) || valid_triangle(f, limit, v[k]) by {
            if k < ne {
                assert(simplices[k] == es[k]);
            }
        }
        assert forall|k: int, l: int| n <= k < l < v.len() implies #[trigger] v[k].len() <= #[trigger] v[l].len() by {
            if k < ne {
                assert(simplices[k] == es[k]);
            }
            if l < ne {
                assert(simplices[l] == es[l]);
            }
        }
        assert forall|k: int, l: int| n <= k < l < v.len() && #[trigger] v[k].len() == 2 && #[trigger] v[l].len() == 2 implies pair_lt(v[k], v[l]) by {
            if l >= ne {
                assert(valid_triangle(f, limit, v[l]));
            }
            assert(simplices[k] == es[k]);
            assert(simplices[l] == es[l]);
        }
        assert forall|k: int, l: int| n <= k < l < v.len() && #[trigger] v[k].len() == 3 && #[trigger] v[l].len() == 3 implies triple_lt(v[k], v[l]) by {
            if k < ne {
                assert(simplices[k] == es[k]);
            }
        }
        assert forall|a: int, b: int| 0 <= a < b < n && #[trigger] close_pair(f, limit, a, b) implies exists|k: int|
            n <= k < v.len() && #[trigger] v[k] == seq![a as usize, b as usize] by {
            let k = choose|k: int| n <= k < es.len() && #[trigger] es[k]@ == seq![a as usize, b as usize];
            assert(simplices[k] == es[k]);
            assert(v[k] == seq![a as usize, b as usize]);
        }
        assert forall|a: int, b: int, c: int|
            0 <= a < b < c < n && #[trigger] close_pair(f, limit, a, b) && #[trigger] close_pair(f, limit, a, c)
                && #[trigger] close_pair(f, limit, b, c) implies exists|k: int|
            n <= k < v.len() && #[trigger] v[k] == seq![a as usize, b as usize, c as usize] by {
            let k = choose|k: int| ne <= k < simplices.len() && #[trigger] simplices[k]@ == seq![a as usize, b as usize, c as usize];
            assert(v[k] == seq![a as usize, b as usize, c as usize]);
        }
        assert forall|k: int| 0 <= k < simplices.len() && #[trigger] simplices[k]@.len() == 2 implies simplices[k]@[0]
            < n && simplices[k]@[1] < n by {
            if k < n {
                assert(v[k] == seq![k as usize]);
            } else {
                assert(valid_edge(f, limit, v[k]) || valid_triangle(f, limit, v[k]));
            }
        }
    }
    let betti = compute_betti(&simplices, n);
    (simplices, betti)
}


/// The content of a feature: location, vector, covered.
pub open spec fn feature_view(f: CoverageFeature) -> (Seq<char>, Seq<u8>, bool) {
    (f.location@, f.vector@, f.covered)
}

pub open spec fn features_view(fs: Seq<CoverageFeature>) -> Seq<(Seq<char>, Seq<u8>, bool)> {
    Seq::new(fs.len(), |i: int| feature_view(fs[i]))
}

/// Nesting depth estimated from a function's length in lines.
pub open spec fn span_depth(f: FunctionCoverage) -> u8 {
    let d = (f.line_end - f.line_start) / 10;
    if d < 2 {
        d as u8
    } else {
        2
    }
}

/// The feature vector estimated for a function, at the given depth.
pub open spec fn function_vector(f: FunctionCoverage, depth: u8) -> Seq<u8> {
    feature_vector(
        f.line_end - f.line_start > 5,
        false,
        false,
        f.name@.contains('<'),
        contains_seq(f.name@, "async"@),
        contains_seq(f.name@, "unsafe"@),
        depth,
    )
}

/// The features of a list of functions: one per function located at
/// `file:line_start`, followed, for an unexecuted function after the first,
/// by a gap feature located at `gap:file:prev_end-line_start` one level
/// deeper and uncovered.
pub open spec fn functions_features(fns: Seq<FunctionCoverage>) -> Seq<(Seq<char>, Seq<u8>, bool)>
    decreases fns.len(),
{
    if fns.len() == 0 {
        Seq::empty()
    } else {
        let f = fns.last();
        let rest = functions_features(fns.drop_last());
        let main = (
            f.file@ + ":"@ + decimal(f.line_start as nat),
            function_vector(f, span_depth(f)),
            f.executed,
        );
        if !f.executed && fns.len() > 1 {
            let prev = fns[fns.len() - 2];
            rest.push(main).push(
                (
                    "gap:"@ + f.file@ + ":"@ + decimal(prev.line_end as nat) + "-"@ + decimal(
                        f.line_start as nat,
                    ),
                    function_vector(f, (span_depth(f) + 1) as u8),
                    false,
                ),
            )
        } else {
            rest.push(main)
        }
    }
}

/// How many of the functions at positions `1..i` were not executed (each of
/// them is followed by a gap feature).
pub open spec fn skipped_before(fns: Seq<FunctionCoverage>, i: int) -> nat
    decreases i,
{
    if i <= 1 {
        0
    } else {
        skipped_before(fns, i - 1) + if !fns[i - 1].executed {
            1nat
        } else {
            0nat
        }
    }
}

proof fn lemma_skipped_prefix(fns: Seq<FunctionCoverage>, m: int, i: int)
    requires
        0 <= i <= m <= fns.len(),
    ensures
        skipped_before(fns.take(m), i) == skipped_before(fns, i),
    decreases i,
{
    if i > 1 {
        lemma_skipped_prefix(fns, m, i - 1);
    }
}

proof fn lemma_skipped_mono(fns: Seq<FunctionCoverage>, i: int, j: int)
    requires
        0 <= i <= j,
    ensures
        skipped_before(fns, i) <= skipped_before(fns, j),
    decreases j,
{
    if i < j {
        lemma_skipped_mono(fns, i, j - 1);
    }
}

/// Function `i` of `fns` has its feature, and its gap feature when it gets
/// one, in place in `ff` (see `lemma_features_per_function`).
pub open spec fn placed(fns: Seq<FunctionCoverage>, ff: Seq<(Seq<char>, Seq<u8>, bool)>, i: int) -> bool {
    let p = i + skipped_before(fns, i);
    let f = fns[i];
    &&& ff[p].0 == f.file@ + ":"@ + decimal(f.line_start as nat)
    &&& ff[p].2 == f.executed
    &&& (!f.executed && i > 0) ==> ff[p + 1].0 == "gap:"@ + f.file@ + ":"@ + decimal(
        fns[i - 1].line_end as nat,
    ) + "-"@ + decimal(f.line_start as nat) && !ff[p + 1].2
}

proof fn lemma_features_len(fns: Seq<FunctionCoverage>)
    ensures
        functions_features(fns).len() == fns.len() + skipped_before(fns, fns.len() as int),
    decreases fns.len(),
{
    let n = fns.len() as int;
    if n > 0 {
        let d = fns.drop_last();
        lemma_features_len(d);
        assert(d =~= fns.take(n - 1));
        lemma_skipped_prefix(fns, n - 1, n - 1);
    }
}

proof fn lemma_feature_at(fns: Seq<FunctionCoverage>, i: int)
    requires
        0 <= i < fns.len(),
    ensures
        placed(fns, functions_features(fns), i),
    decreases fns.len(),
{
    let n = fns.len() as int;
    let d = fns.drop_last();
    let ff = functions_features(fns);
    let fd = functions_features(d);
    assert(d =~= fns.take(n - 1));
    lemma_features_len(d);
    lemma_skipped_prefix(fns, n - 1, n - 1);
    assert(fd.len() == n - 1 + skipped_before(fns, n - 1));
    assert(forall|q: int| 0 <= q < fd.len() ==> #[trigger] ff[q] == fd[q]);
    if i < n - 1 {
        lemma_feature_at(d, i);
        lemma_skipped_prefix(fns, n - 1, i);
        lemma_skipped_prefix(fns, n - 1, i + 1);
        lemma_skipped_mono(fns, i + 1, n - 1);
        assert(d[i] == fns[i]);
        let p = i + skipped_before(fns, i);
        assert(p < fd.len());
        assert(ff[p] == fd[p]);
        if !fns[i].executed && i > 0 {
            assert(d[i - 1] == fns[i - 1]);
            assert(p + 1 < fd.len());
            assert(ff[p + 1] == fd[p + 1]);
        }
    } else {
        assert(i + skipped_before(fns, i) == fd.len());
    }
}

/// The feature list of a list of functions: function `i` gives the feature
/// at position `i + skipped_before(fns, i)`, located at `file:line_start`
/// and covered exactly when the function was executed; an unexecuted
/// function after the first is followed by one uncovered feature located at
/// `gap:file:previous line_end-line_start`, and an executed one (or the
/// first) by nothing else.
pub proof fn lemma_features_per_function(fns: Seq<FunctionCoverage>)
    ensures
        functions_features(fns).len() == fns.len() + skipped_before(fns, fns.len() as int),
        forall|i: int| 0 <= i < fns.len() ==> #[trigger] placed(fns, functions_features(fns), i),
{
    lemma_features_len(fns);
    assert forall|i: int| 0 <= i < fns.len() implies #[trigger] placed(fns, functions_features(fns), i) by {
        lemma_feature_at(fns, i);
    }
}

/// Extract features from function coverage: a heuristic mapping from each
/// function (and each gap before an unexecuted function) to a feature point.
pub fn extract_features_from_coverage(functions: &[FunctionCoverage]) -> (features: Vec<
    CoverageFeature,
>)
    requires
        forall|i: int| 0 <= i < functions.len() ==> #[trigger] functions[i].line_start <= functions[i].line_end,
    ensures
        features_view(features@) == functions_features(functions@),
{
    let mut features: Vec<CoverageFeature> = Vec::new();
    let mut i: usize = 0;
    proof {
        assert(features_view(features@) =~= functions_features(functions@.take(0)));
    }
    while i < functions.len()
        invariant
            i <= functions.len(),
            forall|k: int| 0 <= k < functions.len() ==> #[trigger] functions[k].line_start <= functions[k].line_end,
            features_view(features@) == functions_features(functions@.take(i as int)),
        decreases functions.len() - i,
    {
        let fn_cov = &functions[i];
        let span = fn_cov.line_end - fn_cov.line_start;
        let has_branches = span > 5;
        let has_loops = false;
        let has_match = false;
        let name = chars_of(fn_cov.name.as_str());
        let has_generics = contains_char(&name, '<');
        let is_async = contains_str(&name, "async");
        let is_unsafe = contains_str(&name, "unsafe");
        let depth: u8 = if span / 10 < 2 {
            (span / 10) as u8
        } else {
            2
        };
        let file = chars_of(fn_cov.file.as_str());
        let mut loc: Vec<char> = Vec::new();
        append_chars(&mut loc, &file);
        append_str(&mut loc, ":");
        push_decimal(&mut loc, fn_cov.line_start);
        let ghost before = features_view(features@);
        let feat = classify_feature(
            string_from_chars(&loc),
            has_branches,
            has_loops,
            has_match,
            has_generics,
            is_async,
            is_unsafe,
            depth,
            fn_cov.executed,
        );
        features.push(feat);
        proof {
            assert(features_view(features@) =~= before.push(feature_view(feat)));
        }
        if !fn_cov.executed && i > 0 {
            let prev = &functions[i - 1];
            let mut gap: Vec<char> = Vec::new();
            append_str(&mut gap, "gap:");
            append_chars(&mut gap, &file);
            append_str(&mut gap, ":");
            push_decimal(&mut gap, prev.line_end);
            append_str(&mut gap, "-");
            push_decimal(&mut gap, fn_cov.line_start);
            let gap_depth: u8 = if depth < 255 {
                depth + 1
            } else {
                255
            };
            let ghost mid = features_view(features@);
            let gf = classify_feature(
                string_from_chars(&gap),
                has_branches,
                has_loops,
                has_match,
                has_generics,
                is_async,
                is_unsafe,
                gap_depth,
                false,
            );
            features.push(gf);
            proof {
                assert(features_view(features@) =~= mid.push(feature_view(gf)));
                assert(gap@ =~= "gap:"@ + fn_cov.file@ + ":"@ + decimal(prev.line_end as nat) + "-"@
                    + decimal(fn_cov.line_start as nat));
            }
        }
        proof {
            let fs = functions@.take(i as int + 1);
            assert(fs.drop_last() =~= functions@.take(i as int));
            assert(fs.last() == *fn_cov);
            assert(loc@ =~= fn_cov.file@ + ":"@ + decimal(fn_cov.line_start as nat));
            if i > 0 {
                assert(fs[fs.len() - 2] == functions[i - 1]);
            }
        }
        i = i + 1;
    }
    proof {
        assert(functions@.take(functions.len() as int) =~= functions@);
    }
    features
}


/// The squared distances from feature `i` to the features after it, below `m`.
pub open spec fn distance_row(f: Seq<CoverageFeature>, m: int, i: int) -> Seq<u32> {
    Seq::new(
        (m - i - 1) as nat,
        |t: int| dist_sq(f[i].vector@, f[i + 1 + t].vector@) as u32,
    )
}

/// The squared distances between all pairs of the first `m` features, row by
/// row, taking the rows `0..i`.
pub open spec fn distance_rows(f: Seq<CoverageFeature>, m: int, i: int) -> Seq<u32>
    decreases i,
{
    if i <= 0 {
        Seq::empty()
    } else {
        distance_rows(f, m, i - 1) + distance_row(f, m, i - 1)
    }
}

pub open spec fn u32_leq() -> spec_fn(u32, u32) -> bool {
    |a: u32, b: u32| a <= b
}

/// At most this many features are sampled for the adaptive threshold.
pub const THRESHOLD_SAMPLE: usize = 50;

/// The median squared distance used for the adaptive threshold: over all
/// pairs of the first (at most 50) features, the element at index `len / 2`
/// of the sorted distances. `None` when there are fewer than two features.
pub open spec fn spec_median_dist_sq(f: Seq<CoverageFeature>) -> Option<u32> {
    let m = if f.len() < 50 {
        f.len() as int
    } else {
        50
    };
    let d = distance_rows(f, m, m);
    if f.len() < 2 || d.len() == 0 {
        None
    } else {
        Some(d.sort_by(u32_leq())[(d.len() / 2) as int])
    }
}

proof fn lemma_insert_multiset(s: Seq<u32>, pos: int, x: u32)
    requires
        0 <= pos <= s.len(),
    ensures
        s.insert(pos, x).to_multiset() =~= s.to_multiset().insert(x),
{
    broadcast use vstd::seq_lib::group_to_multiset_ensures;
    broadcast use vstd::multiset::group_multiset_axioms;

    let t = s.insert(pos, x);
    assert(t.remove(pos) =~= s);
    assert(t[pos] == x);
    assert(t.contains(x));
    assert(t.to_multiset().count(x) > 0);
}

/// Sort into nondecreasing order.
fn sort_u32(v: &Vec<u32>) -> (r: Vec<u32>)
    ensures
        r@ == v@.sort_by(u32_leq()),
{
    broadcast use vstd::seq_lib::group_to_multiset_ensures;

    let mut r: Vec<u32> = Vec::new();
    let mut i: usize = 0;
    proof {
        assert(v@.take(0) =~= Seq::<u32>::empty());
    }
    while i < v.len()
        invariant
            i <= v.len(),
            vstd::relations::sorted_by(r@, u32_leq()),
            r@.to_multiset() == v@.take(i as int).to_multiset(),
        decreases v.len() - i,
    {
        let x = v[i];
        let mut p: usize = 0;
        while p < r.len() && r[p] <= x
            invariant
                p <= r.len(),
                forall|k: int| 0 <= k < p ==> r@[k] <= x,
            decreases r.len() - p,
        {
            p = p + 1;
        }
        let ghost old_r = r@;
        r.insert(p, x);
        proof {
            assert(r@ =~= old_r.insert(p as int, x));
            lemma_insert_multiset(old_r, p as int, x);
            assert(v@.take(i as int + 1) =~= v@.take(i as int).push(x));
            v@.take(i as int).to_multiset_ensures();
            assert forall|a: int, b: int| 0 <= a < b < r@.len() implies #[trigger] u32_leq()(r@[a], r@[b]) by {
                if b < p {
                    assert(u32_leq()(old_r[a], old_r[b]));
                } else if b == p {
                } else if a < p {
                    assert(u32_leq()(old_r[a], old_r[b - 1]));
                } else if a == p {
                    assert(x < old_r[p as int]);
                    if b - 1 > p {
                        assert(u32_leq()(old_r[p as int], old_r[b - 1]));
                    }
                } else {
                    assert(u32_leq()(old_r[a - 1], old_r[b - 1]));
                }
            }
        }
        i = i + 1;
    }
    proof {
        assert(v@.take(v.len() as int) =~= v@);
        v@.lemma_sort_by_ensures(u32_leq());
        assert(vstd::relations::total_ordering(u32_leq()));
        vstd::seq_lib::lemma_sorted_unique(r@, v@.sort_by(u32_leq()), u32_leq());
    }
    r
}

/// The median squared distance between the first (at most 50) features,
/// from which the adaptive threshold is derived; `None` with fewer than two
/// features.
pub fn median_dist_sq(features: &[CoverageFeature]) -> (r: Option<u32>)
    ensures
        r == spec_median_dist_sq(features@),
{
    let n = features.len();
    if n < 2 {
        return None;
    }
    let m = if n < THRESHOLD_SAMPLE {
        n
    } else {
        THRESHOLD_SAMPLE
    };
    let ghost f = features@;
    let mut distances: Vec<u32> = Vec::new();
    let mut i: usize = 0;
    proof {
        assert(distances@ =~= distance_rows(f, m as int, 0));
    }
    while i < m
        invariant
            i <= m <= n,
            m <= 50,
            n == f.len(),
            f == features@,
            distances@ == distance_rows(f, m as int, i as int),
        decreases m - i,
    {
        let ghost start = distances@;
        let mut j: usize = i + 1;
        while j < m
            invariant
                i < m <= n,
                i + 1 <= j <= m,
                n == f.len(),
                f == features@,
                distances@ == start + distance_row(f, m as int, i as int).take(j - i - 1),
            decreases m - j,
        {
            let d = euclidean_sq(&features[i].vector, &features[j].vector);
            let ghost before = distances@;
            distances.push(d);
            proof {
                let row = distance_row(f, m as int, i as int);
                assert(row[j - i - 1] == d);
                assert(row.take(j - i) =~= row.take(j - i - 1).push(d));
                assert(distances@ =~= start + row.take(j - i));
            }
            j = j + 1;
        }
        proof {
            let row = distance_row(f, m as int, i as int);
            assert(row.take(m - i - 1) =~= row);
        }
        i = i + 1;
    }
    if distances.len() == 0 {
        return None;
    }
    let sorted = sort_u32(&distances);
    proof {
        v_len_eq(distances@);
    }
    Some(sorted[distances.len() / 2])
}

proof fn v_len_eq(d: Seq<u32>)
    ensures
        d.sort_by(u32_leq()).len() == d.len(),
{
    broadcast use vstd::seq_lib::group_to_multiset_ensures;

    d.lemma_sort_by_ensures(u32_leq());
    assert(d.to_multiset().len() == d.len());
    assert(d.sort_by(u32_leq()).to_multiset().len() == d.sort_by(u32_leq()).len());
}

} // verus!
