//! Column rank of a 0/1 matrix over the two-element field.
//!
//! A column is the set of row keys where it holds a 1, and adding two
//! columns is their symmetric difference.  The rank is defined the way a
//! basis is built greedily: walking the columns in order, a column adds one
//! to the rank exactly when it is not a sum of some of the columns before it.
use vstd::prelude::*;

verus! {

/// Sum of two columns over GF(2): the symmetric difference of their row sets.
pub open spec fn sym_diff(a: Set<u128>, b: Set<u128>) -> Set<u128> {
    a.difference(b).union(b.difference(a))
}

/// The sum of the columns whose indices lie in `pick`.
pub open spec fn combo(cols: Seq<Set<u128>>, pick: Set<int>) -> Set<u128>
    decreases cols.len(),
{
    if cols.len() == 0 {
        Set::empty()
    } else {
        let rest = combo(cols.drop_last(), pick);
        if pick.contains(cols.len() - 1) {
            sym_diff(rest, cols.last())
        } else {
            rest
        }
    }
}

/// `x` is a sum of some of the columns.
pub open spec fn in_span(cols: Seq<Set<u128>>, x: Set<u128>) -> bool {
    exists|pick: Set<int>| #[trigger] combo(cols, pick) == x
}

/// Rank over GF(2): the number of columns that are not a sum of earlier columns.
pub open spec fn gf2_rank(cols: Seq<Set<u128>>) -> nat
    decreases cols.len(),
{
    if cols.len() == 0 {
        0
    } else {
        gf2_rank(cols.drop_last()) + if in_span(cols.drop_last(), cols.last()) {
            0nat
        } else {
            1nat
        }
    }
}

/// The rank never exceeds the number of columns.
pub proof fn lemma_rank_le_len(cols: Seq<Set<u128>>)
    ensures
        gf2_rank(cols) <= cols.len(),
    decreases cols.len(),
{
    if cols.len() > 0 {
        lemma_rank_le_len(cols.drop_last());
    }
}

proof fn lemma_sym_diff_assoc(a: Set<u128>, b: Set<u128>, c: Set<u128>)
    ensures
        sym_diff(sym_diff(a, b), c) == sym_diff(a, sym_diff(b, c)),
{
    assert(sym_diff(sym_diff(a, b), c) =~= sym_diff(a, sym_diff(b, c)));
}

proof fn lemma_sym_diff_comm(a: Set<u128>, b: Set<u128>)
    ensures
        sym_diff(a, b) == sym_diff(b, a),
{
    assert(sym_diff(a, b) =~= sym_diff(b, a));
}

proof fn lemma_sym_diff_self(a: Set<u128>, b: Set<u128>)
    ensures
        sym_diff(sym_diff(a, b), b) == a,
        sym_diff(a, Set::<u128>::empty()) == a,
        sym_diff(Set::<u128>::empty(), a) == a,
        sym_diff(a, a) == Set::<u128>::empty(),
{
    assert(sym_diff(sym_diff(a, b), b) =~= a);
    assert(sym_diff(a, Set::<u128>::empty()) =~= a);
    assert(sym_diff(Set::<u128>::empty(), a) =~= a);
    assert(sym_diff(a, a) =~= Set::<u128>::empty());
}

/// Only the picked indices below the number of columns matter.
proof fn lemma_combo_same_picks(cols: Seq<Set<u128>>, p1: Set<int>, p2: Set<int>)
    requires
        forall|i: int| 0 <= i < cols.len() ==> (p1.contains(i) <==> p2.contains(i)),
    ensures
        combo(cols, p1) == combo(cols, p2),
    decreases cols.len(),
{
    if cols.len() > 0 {
        lemma_combo_same_picks(cols.drop_last(), p1, p2);
    }
}

/// Sums distribute: adding two sums of columns gives the sum over the
/// symmetric difference of the picks.
proof fn lemma_combo_add(cols: Seq<Set<u128>>, p1: Set<int>, p2: Set<int>)
    ensures
        sym_diff(combo(cols, p1), combo(cols, p2)) == combo(cols, p1.difference(p2).union(p2.difference(p1))),
    decreases cols.len(),
{
    let p = p1.difference(p2).union(p2.difference(p1));
    if cols.len() == 0 {
        lemma_sym_diff_self(Set::<u128>::empty(), Set::<u128>::empty());
    } else {
        let d = cols.drop_last();
        let y = cols.last();
        lemma_combo_add(d, p1, p2);
        let a = combo(d, p1);
        let b = combo(d, p2);
        let k = cols.len() - 1;
        if p1.contains(k) && p2.contains(k) {
            assert(sym_diff(sym_diff(a, y), sym_diff(b, y)) =~= sym_diff(a, b));
        } else if p1.contains(k) {
            assert(sym_diff(sym_diff(a, y), b) =~= sym_diff(sym_diff(a, b), y));
        } else if p2.contains(k) {
            assert(sym_diff(a, sym_diff(b, y)) =~= sym_diff(sym_diff(a, b), y));
        }
    }
}

/// Appending a column: the sum over the longer sequence.
proof fn lemma_combo_push(cols: Seq<Set<u128>>, y: Set<u128>, pick: Set<int>)
    ensures
        combo(cols.push(y), pick) == if pick.contains(cols.len() as int) {
            sym_diff(combo(cols, pick), y)
        } else {
            combo(cols, pick)
        },
{
    assert(cols.push(y).drop_last() =~= cols);
}

/// The empty set is the empty sum.
pub proof fn lemma_span_empty(cols: Seq<Set<u128>>)
    ensures
        in_span(cols, Set::<u128>::empty()),
{
    lemma_combo_none(cols);
    assert(combo(cols, Set::<int>::empty()) == Set::<u128>::empty());
}

proof fn lemma_combo_none(cols: Seq<Set<u128>>)
    ensures
        combo(cols, Set::<int>::empty()) == Set::<u128>::empty(),
    decreases cols.len(),
{
    if cols.len() > 0 {
        lemma_combo_none(cols.drop_last());
    }
}

/// A single column lies in the span.
pub proof fn lemma_span_column(cols: Seq<Set<u128>>, i: int)
    requires
        0 <= i < cols.len(),
    ensures
        in_span(cols, cols[i]),
    decreases cols.len(),
{
    let d = cols.drop_last();
    if i == cols.len() - 1 {
        lemma_combo_none(d);
        lemma_combo_same_picks(d, Set::<int>::empty().insert(i), Set::<int>::empty());
        lemma_sym_diff_self(cols[i], cols[i]);
        assert(combo(cols, Set::<int>::empty().insert(i)) == cols[i]);
    } else {
        lemma_span_column(d, i);
        let p = choose|p: Set<int>| #[trigger] combo(d, p) == d[i];
        let q = p.remove(cols.len() - 1);
        lemma_combo_same_picks(d, p, q);
        assert(combo(cols, q) == cols[i]);
    }
}

/// The span is closed under sums.
pub proof fn lemma_span_closed(cols: Seq<Set<u128>>, a: Set<u128>, b: Set<u128>)
    requires
        in_span(cols, a),
        in_span(cols, b),
    ensures
        in_span(cols, sym_diff(a, b)),
{
    let p1 = choose|p: Set<int>| #[trigger] combo(cols, p) == a;
    let p2 = choose|p: Set<int>| #[trigger] combo(cols, p) == b;
    lemma_combo_add(cols, p1, p2);
    assert(combo(cols, p1.difference(p2).union(p2.difference(p1))) == sym_diff(a, b));
}

/// The span after appending `y` holds `x` exactly when `x` or `x + y` was
/// in the span before.
pub proof fn lemma_span_push(cols: Seq<Set<u128>>, y: Set<u128>, x: Set<u128>)
    ensures
        in_span(cols.push(y), x) <==> (in_span(cols, x) || in_span(cols, sym_diff(x, y))),
{
    let n = cols.len() as int;
    if in_span(cols.push(y), x) {
        let p = choose|p: Set<int>| #[trigger] combo(cols.push(y), p) == x;
        lemma_combo_push(cols, y, p);
        if p.contains(n) {
            lemma_sym_diff_self(combo(cols, p), y);
            assert(combo(cols, p) == sym_diff(x, y));
        } else {
            assert(combo(cols, p) == x);
        }
    }
    if in_span(cols, x) {
        let p = choose|p: Set<int>| #[trigger] combo(cols, p) == x;
        let q = p.remove(n);
        lemma_combo_same_picks(cols, p, q);
        lemma_combo_push(cols, y, q);
        assert(combo(cols.push(y), q) == x);
    }
    if in_span(cols, sym_diff(x, y)) {
        let p = choose|p: Set<int>| #[trigger] combo(cols, p) == sym_diff(x, y);
        let q = p.insert(n);
        lemma_combo_same_picks(cols, p, q);
        lemma_combo_push(cols, y, q);
        lemma_sym_diff_self(x, y);
        assert(combo(cols.push(y), q) == x);
    }
}

/// Columns in echelon form: every column is nonempty, its largest key is its
/// pivot, and no two columns share a pivot.
pub open spec fn echelon(cols: Seq<Set<u128>>, piv: Seq<u128>) -> bool {
    &&& piv.len() == cols.len()
    &&& forall|i: int| 0 <= i < cols.len() ==> #[trigger] cols[i].contains(piv[i])
    &&& forall|i: int, x: u128| 0 <= i < cols.len() && #[trigger] cols[i].contains(x) ==> x <= piv[i]
    &&& forall|i: int, j: int| 0 <= i < j < cols.len() ==> piv[i] != piv[j]
}

/// A nonzero sum of echelon columns has some pivot as its largest key.
proof fn lemma_combo_echelon(cols: Seq<Set<u128>>, piv: Seq<u128>, pick: Set<int>)
    requires
        echelon(cols, piv),
    ensures
        combo(cols, pick) == Set::<u128>::empty() || exists|i: int|
            0 <= i < cols.len() && combo(cols, pick).contains(#[trigger] piv[i]) && forall|x: u128|
                combo(cols, pick).contains(x) ==> x <= piv[i],
    decreases cols.len(),
{
    if cols.len() > 0 {
        let d = cols.drop_last();
        let dp = piv.drop_last();
        let k = cols.len() - 1;
        assert(echelon(d, dp)) by {
            assert forall|i: int| 0 <= i < d.len() implies #[trigger] d[i].contains(dp[i]) by {
                assert(cols[i].contains(piv[i]));
            }
            assert forall|i: int, x: u128| 0 <= i < d.len() && #[trigger] d[i].contains(x) implies x <= dp[i] by {
                assert(cols[i].contains(x));
            }
        }
        lemma_combo_echelon(d, dp, pick);
        let r = combo(d, pick);
        let y = cols.last();
        let q = piv[k];
        assert(y.contains(q));
        if pick.contains(k) {
            let s = sym_diff(r, y);
            if r == Set::<u128>::empty() {
                assert(s.contains(q));
                assert forall|x: u128| s.contains(x) implies x <= q by {
                    assert(y.contains(x));
                }
            } else {
                let i = choose|i: int|
                    0 <= i < d.len() && r.contains(#[trigger] dp[i]) && forall|x: u128|
                        r.contains(x) ==> x <= dp[i];
                let p = dp[i];
                assert(p == piv[i]);
                assert(p != q);
                if q > p {
                    assert(!r.contains(q));
                    assert(s.contains(q));
                    assert forall|x: u128| s.contains(x) implies x <= q by {
                        if r.contains(x) {
                        } else {
                            assert(y.contains(x));
                        }
                    }
                } else {
                    assert(!y.contains(p));
                    assert(s.contains(p));
                    assert(s.contains(piv[i]));
                    assert forall|x: u128| s.contains(x) implies x <= p by {
                        if r.contains(x) {
                        } else {
                            assert(y.contains(x));
                        }
                    }
                }
            }
        } else {
            if r != Set::<u128>::empty() {
                let i = choose|i: int|
                    0 <= i < d.len() && r.contains(#[trigger] dp[i]) && forall|x: u128|
                        r.contains(x) ==> x <= dp[i];
                assert(r.contains(piv[i]));
            }
        }
    }
}

/// A nonempty set in the span of echelon columns has a pivot as its largest key.
pub proof fn lemma_span_echelon_max(cols: Seq<Set<u128>>, piv: Seq<u128>, x: Set<u128>, m: u128)
    requires
        echelon(cols, piv),
        in_span(cols, x),
        x.contains(m),
        forall|y: u128| x.contains(y) ==> y <= m,
    ensures
        exists|i: int| 0 <= i < piv.len() && piv[i] == m,
{
    let p = choose|p: Set<int>| #[trigger] combo(cols, p) == x;
    lemma_combo_echelon(cols, piv, p);
    assert(x != Set::<u128>::empty());
    let i = choose|i: int|
        0 <= i < cols.len() && x.contains(#[trigger] piv[i]) && forall|y: u128|
            x.contains(y) ==> y <= piv[i];
    assert(piv[i] == m);
}


// ---------------------------------------------------------------------------
// Executable columns: strictly increasing vectors of row keys.

pub open spec fn strictly_sorted(s: Seq<u128>) -> bool {
    forall|i: int, j: int| 0 <= i < j < s.len() ==> s[i] < s[j]
}

/// The row sets of a sequence of executable columns.
pub open spec fn col_sets(cols: Seq<Vec<u128>>) -> Seq<Set<u128>> {
    Seq::new(cols.len(), |i: int| cols[i]@.to_set())
}

/// The largest key of each column of a basis.
pub open spec fn pivots(cols: Seq<Vec<u128>>) -> Seq<u128> {
    Seq::new(cols.len(), |i: int| cols[i]@.last())
}

proof fn lemma_take_push_set(s: Seq<u128>, i: int)
    requires
        0 <= i < s.len(),
    ensures
        s.take(i + 1).to_set() == s.take(i).to_set().insert(s[i]),
{
    assert(s.take(i + 1) =~= s.take(i).push(s[i]));
    s.take(i).lemma_push_to_set_commute(s[i]);
}

proof fn lemma_sorted_take_below(s: Seq<u128>, i: int, bound: u128)
    requires
        strictly_sorted(s),
        0 <= i <= s.len(),
        i > 0 ==> s[i - 1] < bound,
    ensures
        forall|x: u128| s.take(i).to_set().contains(x) ==> x < bound,
{
    assert forall|x: u128| s.take(i).to_set().contains(x) implies x < bound by {
        let k = choose|k: int| 0 <= k < s.take(i).len() && s.take(i)[k] == x;
        assert(s[k] == x);
        if k < i - 1 {
            assert(s[k] < s[i - 1]);
        }
    }
}

/// Sum of two sorted columns, by merging.
fn xor_columns(a: &Vec<u128>, b: &Vec<u128>) -> (r: Vec<u128>)
    requires
        strictly_sorted(a@),
        strictly_sorted(b@),
    ensures
        strictly_sorted(r@),
        r@.to_set() == sym_diff(a@.to_set(), b@.to_set()),
{
    let mut r: Vec<u128> = Vec::new();
    let mut i: usize = 0;
    let mut j: usize = 0;
    assert(a@.take(0).to_set() =~= Set::<u128>::empty());
    assert(b@.take(0).to_set() =~= Set::<u128>::empty());
    assert(r@.to_set() =~= Set::<u128>::empty());
    proof {
        lemma_sym_diff_self(Set::<u128>::empty(), Set::<u128>::empty());
    }
    while i < a.len() || j < b.len()
        invariant
            0 <= i <= a.len(),
            0 <= j <= b.len(),
            strictly_sorted(a@),
            strictly_sorted(b@),
            strictly_sorted(r@),
            r@.to_set() == sym_diff(a@.take(i as int).to_set(), b@.take(j as int).to_set()),
            forall|k: int|
                0 <= k < r.len() ==> (i < a.len() ==> r[k] < a[i as int]) && (j < b.len() ==> r[k]
                    < b[j as int]),
            i > 0 && j < b.len() ==> a[i - 1] < b[j as int],
            j > 0 && i < a.len() ==> b[j - 1] < a[i as int],
        decreases a.len() + b.len() - i - j,
    {
        let ghost ta = a@.take(i as int).to_set();
        let ghost tb = b@.take(j as int).to_set();
        let ghost old_r = r@;
        if j == b.len() || (i < a.len() && a[i] < b[j]) {
            let x = a[i];
            proof {
                lemma_take_push_set(a@, i as int);
                lemma_sorted_take_below(a@, i as int, x);
                lemma_sorted_take_below(b@, j as int, x);
                assert(!ta.contains(x));
                assert(!tb.contains(x));
            }
            r.push(x);
            proof {
                assert(r@.to_set() =~= old_r.to_set().insert(x)) by {
                    assert(r@ =~= old_r.push(x));
                    old_r.lemma_push_to_set_commute(x);
                }
                assert(sym_diff(ta.insert(x), tb) =~= sym_diff(ta, tb).insert(x));
            }
            i = i + 1;
        } else if i == a.len() || b[j] < a[i] {
            let x = b[j];
            proof {
                lemma_take_push_set(b@, j as int);
                lemma_sorted_take_below(a@, i as int, x);
                lemma_sorted_take_below(b@, j as int, x);
                assert(!ta.contains(x));
                assert(!tb.contains(x));
            }
            r.push(x);
            proof {
                assert(r@.to_set() =~= old_r.to_set().insert(x)) by {
                    assert(r@ =~= old_r.push(x));
                    old_r.lemma_push_to_set_commute(x);
                }
                assert(sym_diff(ta, tb.insert(x)) =~= sym_diff(ta, tb).insert(x));
            }
            j = j + 1;
        } else {
            let x = a[i];
            proof {
                lemma_take_push_set(a@, i as int);
                lemma_take_push_set(b@, j as int);
                lemma_sorted_take_below(a@, i as int, x);
                lemma_sorted_take_below(b@, j as int, x);
                assert(sym_diff(ta.insert(x), tb.insert(x)) =~= sym_diff(ta, tb));
            }
            i = i + 1;
            j = j + 1;
        }
    }
    proof {
        assert(a@.take(a.len() as int) =~= a@);
        assert(b@.take(b.len() as int) =~= b@);
    }
    r
}

/// Facts about the largest key of a sorted column.
proof fn lemma_sorted_last_max(s: Seq<u128>)
    requires
        strictly_sorted(s),
        s.len() > 0,
    ensures
        s.to_set().contains(s.last()),
        forall|x: u128| s.to_set().contains(x) ==> x <= s.last(),
{
    assert(s.contains(s.last()) ) by { assert(s[s.len() - 1] == s.last()); }
    assert forall|x: u128| s.to_set().contains(x) implies x <= s.last() by {
        let k = choose|k: int| 0 <= k < s.len() && s[k] == x;
        if k < s.len() - 1 {
            assert(s[k] < s[s.len() - 1]);
        }
    }
}

/// Index of the basis column whose pivot is `p`, if there is one.
fn find_pivot(basis: &Vec<Vec<u128>>, p: u128) -> (r: Option<usize>)
    requires
        forall|i: int| 0 <= i < basis.len() ==> #[trigger] basis[i]@.len() > 0,
    ensures
        match r {
            Some(k) => k < basis.len() && basis[k as int]@.last() == p,
            None => forall|i: int| 0 <= i < basis.len() ==> #[trigger] basis[i]@.last() != p,
        },
{
    let mut k: usize = 0;
    while k < basis.len()
        invariant
            k <= basis.len(),
            forall|i: int| 0 <= i < basis.len() ==> #[trigger] basis[i]@.len() > 0,
            forall|i: int| 0 <= i < k ==> #[trigger] basis[i]@.last() != p,
        decreases basis.len() - k,
    {
        let col = &basis[k];
        if col[col.len() - 1] == p {
            return Some(k);
        }
        k = k + 1;
    }
    None
}

fn copy_column(v: &Vec<u128>) -> (r: Vec<u128>)
    ensures
        r@ == v@,
{
    let mut r: Vec<u128> = Vec::new();
    let mut i: usize = 0;
    while i < v.len()
        invariant
            i <= v.len(),
            r@ == v@.take(i as int),
        decreases v.len() - i,
    {
        r.push(v[i]);
        i = i + 1;
        assert(r@ =~= v@.take(i as int));
    }
    assert(v@.take(v.len() as int) =~= v@);
    r
}

spec fn key_measure(v: Seq<u128>) -> int {
    if v.len() == 0 {
        0
    } else {
        v.last() as int + 1
    }
}

/// The rank over GF(2) of the matrix whose columns are the given sorted
/// columns.
pub fn gf2_column_rank(cols: &Vec<Vec<u128>>) -> (r: usize)
    requires
        forall|i: int| 0 <= i < cols.len() ==> strictly_sorted(#[trigger] cols[i]@),
    ensures
        r == gf2_rank(col_sets(cols@)),
{
    let ghost o = col_sets(cols@);
    let mut basis: Vec<Vec<u128>> = Vec::new();
    let mut c: usize = 0;
    proof {
        assert(o.take(0) =~= Seq::<Set<u128>>::empty());
        assert(col_sets(basis@) =~= Seq::<Set<u128>>::empty());
        assert(echelon(col_sets(basis@), pivots(basis@)));
    }
    while c < cols.len()
        invariant
            c <= cols.len(),
            o == col_sets(cols@),
            forall|i: int| 0 <= i < cols.len() ==> strictly_sorted(#[trigger] cols[i]@),
            forall|i: int| 0 <= i < basis.len() ==> strictly_sorted(#[trigger] basis[i]@),
            forall|i: int| 0 <= i < basis.len() ==> #[trigger] basis[i]@.len() > 0,
            echelon(col_sets(basis@), pivots(basis@)),
            forall|x: Set<u128>| #[trigger] in_span(col_sets(basis@), x) == in_span(o.take(c as int), x),
            basis.len() == gf2_rank(o.take(c as int)),
        decreases cols.len() - c,
    {
        let ghost bs = col_sets(basis@);
        let ghost oc = o[c as int];
        let mut v = copy_column(&cols[c]);
        proof {
            assert(v@.to_set() == oc);
            lemma_sym_diff_self(oc, oc);
            lemma_span_empty(bs);
        }
        loop
            invariant
                bs == col_sets(basis@),
                oc == o[c as int],
                forall|i: int| 0 <= i < basis.len() ==> strictly_sorted(#[trigger] basis[i]@),
                forall|i: int| 0 <= i < basis.len() ==> #[trigger] basis[i]@.len() > 0,
                strictly_sorted(v@),
                in_span(bs, sym_diff(v@.to_set(), oc)),
            ensures
                strictly_sorted(v@),
                in_span(bs, sym_diff(v@.to_set(), oc)),
                v@.len() > 0 ==> forall|i: int| 0 <= i < basis.len() ==> #[trigger] basis[i]@.last() != v@.last(),
            decreases key_measure(v@),
        {
            if v.len() == 0 {
                break;
            }
            let p = v[v.len() - 1];
            match find_pivot(&basis, p) {
                None => {
                    break;
                },
                Some(k) => {
                    let ghost old_v = v@;
                    let ghost bk = basis[k as int]@;
                    v = xor_columns(&v, &basis[k]);
                    proof {
                        let vs = old_v.to_set();
                        let bset = bk.to_set();
                        assert(bs[k as int] == bset);
                        lemma_span_column(bs, k as int);
                        lemma_span_closed(bs, sym_diff(vs, oc), bset);
                        lemma_sym_diff_assoc(vs, oc, bset);
                        lemma_sym_diff_comm(oc, bset);
                        lemma_sym_diff_assoc(vs, bset, oc);
                        // the new largest key is below p
                        lemma_sorted_last_max(old_v);
                        lemma_sorted_last_max(bk);
                        if v@.len() > 0 {
                            lemma_sorted_last_max(v@);
                            let m = v@.last();
                            assert(v@.to_set().contains(m));
                            assert(m != p);
                            assert(m <= p);
                        }
                    }
                },
            }
        }
        let ghost vs = v@.to_set();
        proof {
            assert(o.take(c as int + 1) =~= o.take(c as int).push(oc));
            let ot = o.take(c as int);
            assert forall|x: Set<u128>| #[trigger] in_span(ot, x) implies in_span(bs, x) by {}
            assert forall|x: Set<u128>| #[trigger] in_span(bs, x) implies in_span(ot, x) by {}
        }
        if v.len() > 0 {
            proof {
                let ot = o.take(c as int);
                let m = v@.last();
                lemma_sorted_last_max(v@);
                // the column is not a sum of earlier ones
                if in_span(ot, oc) {
                    assert(in_span(bs, oc));
                    lemma_span_closed(bs, sym_diff(vs, oc), oc);
                    lemma_sym_diff_self(vs, oc);
                    assert(in_span(bs, vs));
                    lemma_span_echelon_max(bs, pivots(basis@), vs, m);
                    let i = choose|i: int| 0 <= i < pivots(basis@).len() && pivots(basis@)[i] == m;
                    assert(basis[i]@.last() == m);
                    assert(false);
                }
                assert(o.take(c as int + 1).drop_last() =~= ot);
                assert(o.take(c as int + 1).last() == oc);
            }
            let ghost old_basis = basis@;
            basis.push(v);
            proof {
                let ot = o.take(c as int);
                let ot1 = o.take(c as int + 1);
                let nb = col_sets(basis@);
                assert(nb =~= bs.push(vs));
                assert(pivots(basis@) =~= pivots(old_basis).push(v@.last()));
                assert(echelon(nb, pivots(basis@))) by {
                    lemma_sorted_last_max(v@);
                    assert forall|i: int| 0 <= i < nb.len() implies #[trigger] nb[i].contains(pivots(basis@)[i]) by {
                        lemma_sorted_last_max(basis[i]@);
                    }
                    assert forall|i: int, x: u128| 0 <= i < nb.len() && #[trigger] nb[i].contains(x) implies x <= pivots(basis@)[i] by {
                        lemma_sorted_last_max(basis[i]@);
                    }
                }
                assert forall|x: Set<u128>| #[trigger] in_span(nb, x) == in_span(ot1, x) by {
                    lemma_span_push(bs, vs, x);
                    lemma_span_push(ot, oc, x);
                    // (x + v) and (x + oc) differ by v + oc, which lies in the span
                    if in_span(bs, sym_diff(x, vs)) {
                        lemma_span_closed(bs, sym_diff(x, vs), sym_diff(vs, oc));
                        assert(sym_diff(sym_diff(x, vs), sym_diff(vs, oc)) =~= sym_diff(x, oc));
                    }
                    if in_span(bs, sym_diff(x, oc)) {
                        lemma_span_closed(bs, sym_diff(x, oc), sym_diff(vs, oc));
                        assert(sym_diff(sym_diff(x, oc), sym_diff(vs, oc)) =~= sym_diff(x, vs));
                    }
                }
            }
        } else {
            proof {
                let ot = o.take(c as int);
                let ot1 = o.take(c as int + 1);
                assert(vs =~= Set::<u128>::empty());
                lemma_sym_diff_self(oc, oc);
                assert(sym_diff(vs, oc) =~= oc);
                assert(in_span(ot, oc));
                assert(ot1.drop_last() =~= ot);
                assert(ot1.last() == oc);
                assert forall|x: Set<u128>| #[trigger] in_span(bs, x) == in_span(ot1, x) by {
                    lemma_span_push(ot, oc, x);
                    if in_span(ot, sym_diff(x, oc)) {
                        lemma_span_closed(ot, sym_diff(x, oc), oc);
                        lemma_sym_diff_self(x, oc);
                    }
                }
            }
        }
        c = c + 1;
    }
    proof {
        assert(o.take(cols.len() as int) =~= o);
    }
    basis.len()
}

} // verus!
