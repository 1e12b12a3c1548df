//! Coverage gap report: prioritized topological blind spots.
use vstd::prelude::*;
use crate::simplicial::{BettiNumbers, CoverageFeature};
use crate::text::{append_str, chars_of, append_chars, decimal, push_decimal, string_from_chars};

verus! {

/// Priority ranking for a coverage gap.
#[derive(Debug, Clone, Copy, PartialEq, Eq, Structural, PartialOrd, Ord, Hash)]
pub enum Priority {
    /// Critical: untested unsafe or high-churn code.
    Critical,
    /// High: untested async or generic-heavy code.
    High,
    /// Medium: branches/loops without tests.
    Medium,
    /// Low: minor or edge-case gaps.
    Low,
}

/// Rank of a priority: 0 for the most urgent.
pub open spec fn priority_rank(p: Priority) -> nat {
    match p {
        Priority::Critical => 0,
        Priority::High => 1,
        Priority::Medium => 2,
        Priority::Low => 3,
    }
}

/// How a priority is shown.
pub open spec fn priority_label(p: Priority) -> Seq<char> {
    match p {
        Priority::Critical => "🔴 Critical"@,
        Priority::High => "🟠 High"@,
        Priority::Medium => "🟡 Medium"@,
        Priority::Low => "🟢 Low"@,
    }
}

impl Priority {
    /// The priority as shown in reports.
    pub fn label(&self) -> (s: String)
        ensures
            s@ == priority_label(*self),
    {
        match self {
            Priority::Critical => String::from_str("🔴 Critical"),
            Priority::High => String::from_str("🟠 High"),
            Priority::Medium => String::from_str("🟡 Medium"),
            Priority::Low => String::from_str("🟢 Low"),
        }
    }

    /// Rank of the priority: 0 for the most urgent.
    pub fn rank(&self) -> (r: u8)
        ensures
            r == priority_rank(*self),
    {
        match self {
            Priority::Critical => 0,
            Priority::High => 1,
            Priority::Medium => 2,
            Priority::Low => 3,
        }
    }
}

/// Individual gap entry in the report.
pub struct GapEntry {
    /// Feature location (file:line).
    pub location: String,
    /// What kind of feature.
    pub feature_type: String,
    /// Why it's uncovered.
    pub reason: String,
    /// How many Betti dimensions this contributes to.
    pub betti_contribution: usize,
    /// Priority ranking.
    pub priority: Priority,
}

/// The content of a gap entry.
pub open spec fn gap_view(g: GapEntry) -> (Seq<char>, Seq<char>, Seq<char>, usize, Priority) {
    (g.location@, g.feature_type@, g.reason@, g.betti_contribution, g.priority)
}

pub open spec fn gaps_view(gs: Seq<GapEntry>) -> Seq<(Seq<char>, Seq<char>, Seq<char>, usize, Priority)> {
    Seq::new(gs.len(), |i: int| gap_view(gs[i]))
}

/// What kind of code an uncovered feature vector stands for.
#[derive(PartialEq, Eq, Structural, Clone, Copy)]
pub enum FeatureKind {
    PlainCode,
    Branches,
    Loops,
    MatchArms,
    Generics,
    Async,
    Unsafe,
    Complex,
}

/// The kind of a feature vector, the first matching rule winning: all zero
/// is plain code; only branches, only loops, only match arms, only
/// generics; async (and not unsafe); unsafe; anything else is complex.
pub open spec fn feature_kind(v: Seq<u8>) -> FeatureKind {
    if v[0] == 0 && v[1] == 0 && v[2] == 0 && v[3] == 0 && v[4] == 0 && v[5] == 0 {
        FeatureKind::PlainCode
    } else if v[1] == 0 && v[2] == 0 && v[3] == 0 && v[4] == 0 && v[5] == 0 {
        FeatureKind::Branches
    } else if v[0] == 0 && v[2] == 0 && v[3] == 0 && v[4] == 0 && v[5] == 0 {
        FeatureKind::Loops
    } else if v[0] == 0 && v[1] == 0 && v[3] == 0 && v[4] == 0 && v[5] == 0 {
        FeatureKind::MatchArms
    } else if v[0] == 0 && v[1] == 0 && v[2] == 0 && v[4] == 0 && v[5] == 0 {
        FeatureKind::Generics
    } else if v[4] == 1 && v[5] == 0 {
        FeatureKind::Async
    } else if v[5] == 1 {
        FeatureKind::Unsafe
    } else {
        FeatureKind::Complex
    }
}

pub open spec fn kind_name(k: FeatureKind) -> Seq<char> {
    match k {
        FeatureKind::PlainCode => "plain code"@,
        FeatureKind::Branches => "branches"@,
        FeatureKind::Loops => "loops"@,
        FeatureKind::MatchArms => "match arms"@,
        FeatureKind::Generics => "generics"@,
        FeatureKind::Async => "async"@,
        FeatureKind::Unsafe => "unsafe"@,
        FeatureKind::Complex => "complex feature"@,
    }
}

pub open spec fn kind_reason(k: FeatureKind) -> Seq<char> {
    match k {
        FeatureKind::Unsafe => "🔴 Unsafe block without test coverage — undefined behavior risk"@,
        FeatureKind::Async => "🟠 Async code uncovered — potential silent failure in error paths"@,
        FeatureKind::Generics => "🟡 Generic code untested — may have type-level bugs"@,
        FeatureKind::Branches => "🟡 Branch coverage missing — untested code paths"@,
        FeatureKind::Loops => "🟡 Loop uncovered — edge cases in iteration"@,
        FeatureKind::MatchArms => "🟡 Match arms not fully covered — missed patterns"@,
        _ => "Code region not covered by any test"@,
    }
}

/// Unsafe gaps are critical and weigh at least one Betti dimension (β₁ when
/// larger); async and generic gaps are high with weight one; the rest are
/// medium with weight zero.
pub open spec fn kind_priority(k: FeatureKind, beta_1: usize) -> (Priority, usize) {
    match k {
        FeatureKind::Unsafe => (Priority::Critical, if beta_1 > 1 {
            beta_1
        } else {
            1
        }),
        FeatureKind::Async => (Priority::High, 1),
        FeatureKind::Generics => (Priority::High, 1),
        _ => (Priority::Medium, 0),
    }
}

/// The gap entry for an uncovered feature.
pub open spec fn gap_for(f: CoverageFeature, beta_1: usize) -> (Seq<char>, Seq<char>, Seq<char>, usize, Priority) {
    let k = feature_kind(f.vector@);
    let (p, b) = kind_priority(k, beta_1);
    (f.location@, kind_name(k), kind_reason(k), b, p)
}

/// One gap entry per uncovered feature, in order.
pub open spec fn gaps_for(fs: Seq<CoverageFeature>, beta_1: usize) -> Seq<(Seq<char>, Seq<char>, Seq<char>, usize, Priority)>
    decreases fs.len(),
{
    if fs.len() == 0 {
        Seq::empty()
    } else {
        let rest = gaps_for(fs.drop_last(), beta_1);
        if fs.last().covered {
            rest
        } else {
            rest.push(gap_for(fs.last(), beta_1))
        }
    }
}

fn kind_of(v: &[u8; 6]) -> (k: FeatureKind)
    ensures
        k == feature_kind(v@),
{
    let (a, b, c, d, e, f) = (v[0], v[1], v[2], v[3], v[4], v[5]);
    if a == 0 && b == 0 && c == 0 && d == 0 && e == 0 && f == 0 {
        FeatureKind::PlainCode
    } else if b == 0 && c == 0 && d == 0 && e == 0 && f == 0 {
        FeatureKind::Branches
    } else if a == 0 && c == 0 && d == 0 && e == 0 && f == 0 {
        FeatureKind::Loops
    } else if a == 0 && b == 0 && d == 0 && e == 0 && f == 0 {
        FeatureKind::MatchArms
    } else if a == 0 && b == 0 && c == 0 && e == 0 && f == 0 {
        FeatureKind::Generics
    } else if e == 1 && f == 0 {
        FeatureKind::Async
    } else if f == 1 {
        FeatureKind::Unsafe
    } else {
        FeatureKind::Complex
    }
}

fn kind_name_exec(k: FeatureKind) -> (s: String)
    ensures
        s@ == kind_name(k),
{
    match k {
        FeatureKind::PlainCode => String::from_str("plain code"),
        FeatureKind::Branches => String::from_str("branches"),
        FeatureKind::Loops => String::from_str("loops"),
        FeatureKind::MatchArms => String::from_str("match arms"),
        FeatureKind::Generics => String::from_str("generics"),
        FeatureKind::Async => String::from_str("async"),
        FeatureKind::Unsafe => String::from_str("unsafe"),
        FeatureKind::Complex => String::from_str("complex feature"),
    }
}

fn kind_reason_exec(k: FeatureKind) -> (s: String)
    ensures
        s@ == kind_reason(k),
{
    match k {
        FeatureKind::Unsafe => String::from_str(
            "🔴 Unsafe block without test coverage — undefined behavior risk",
        ),
        FeatureKind::Async => String::from_str(
            "🟠 Async code uncovered — potential silent failure in error paths",
        ),
        FeatureKind::Generics => String::from_str("🟡 Generic code untested — may have type-level bugs"),
        FeatureKind::Branches => String::from_str("🟡 Branch coverage missing — untested code paths"),
        FeatureKind::Loops => String::from_str("🟡 Loop uncovered — edge cases in iteration"),
        FeatureKind::MatchArms => String::from_str("🟡 Match arms not fully covered — missed patterns"),
        _ => String::from_str("Code region not covered by any test"),
    }
}

/// Create gap entries from the uncovered features, with Betti-aware priority.
pub fn build_gap_entries(features: &[CoverageFeature], betti: &BettiNumbers) -> (gaps: Vec<GapEntry>)
    ensures
        gaps_view(gaps@) == gaps_for(features@, betti.beta_1),
{
    let mut gaps: Vec<GapEntry> = Vec::new();
    let mut i: usize = 0;
    proof {
        assert(gaps_view(gaps@) =~= gaps_for(features@.take(0), betti.beta_1));
    }
    while i < features.len()
        invariant
            i <= features.len(),
            gaps_view(gaps@) == gaps_for(features@.take(i as int), betti.beta_1),
        decreases features.len() - i,
    {
        let feat = &features[i];
        proof {
            assert(features@.take(i as int + 1).drop_last() =~= features@.take(i as int));
            assert(features@.take(i as int + 1).last() == *feat);
        }
        if !feat.covered {
            let k = kind_of(&feat.vector);
            let (priority, betti_dims) = match k {
                FeatureKind::Unsafe => (Priority::Critical, if betti.beta_1 > 1 {
                    betti.beta_1
                } else {
                    1
                }),
                FeatureKind::Async => (Priority::High, 1),
                FeatureKind::Generics => (Priority::High, 1),
                _ => (Priority::Medium, 0),
            };
            let entry = GapEntry {
                location: feat.location.clone(),
                feature_type: kind_name_exec(k),
                reason: kind_reason_exec(k),
                betti_contribution: betti_dims,
                priority,
            };
            let ghost before = gaps_view(gaps@);
            gaps.push(entry);
            proof {
                assert(gaps_view(gaps@) =~= before.push(gap_view(entry)));
            }
        }
        i = i + 1;
    }
    proof {
        assert(features@.take(features.len() as int) =~= features@);
    }
    gaps
}


/// Full coverage gap analysis report (the topological part; the line,
/// function and branch percentages are kept beside it by the caller).
pub struct CoverageGapReport {
    /// Betti numbers from topological analysis.
    pub betti: BettiNumbers,
    /// Number of features analyzed.
    pub total_features: usize,
    /// Number of covered features.
    pub covered_features: usize,
    /// Number of uncovered features.
    pub uncovered_features: usize,
    /// Individual gaps.
    pub gaps: Vec<GapEntry>,
}

/// Number of covered features.
pub open spec fn count_covered(fs: Seq<CoverageFeature>) -> nat
    decreases fs.len(),
{
    if fs.len() == 0 {
        0
    } else {
        count_covered(fs.drop_last()) + if fs.last().covered {
            1nat
        } else {
            0nat
        }
    }
}

proof fn lemma_count_covered_le(fs: Seq<CoverageFeature>)
    ensures
        count_covered(fs) <= fs.len(),
    decreases fs.len(),
{
    if fs.len() > 0 {
        lemma_count_covered_le(fs.drop_last());
    }
}

/// Gaps are listed by priority (most urgent first), then by Betti
/// contribution (largest first), then in the order they were given.
pub open spec fn gap_before(gs: Seq<GapEntry>, a: int, b: int) -> bool {
    let ra = priority_rank(gs[a].priority);
    let rb = priority_rank(gs[b].priority);
    ra < rb || (ra == rb && (gs[a].betti_contribution > gs[b].betti_contribution || (
    gs[a].betti_contribution == gs[b].betti_contribution && a <= b)))
}

pub open spec fn gap_leq(gs: Seq<GapEntry>) -> spec_fn(int, int) -> bool {
    |a: int, b: int| gap_before(gs, a, b)
}

/// The indices of the gaps in display order.
pub open spec fn gap_order(gs: Seq<GapEntry>) -> Seq<int> {
    Seq::new(gs.len(), |i: int| i).sort_by(gap_leq(gs))
}

/// One rendered gap: its position (from 1), priority, location, kind and reason.
pub open spec fn gap_line(k: nat, g: GapEntry) -> Seq<char> {
    "   "@ + decimal(k + 1) + ". "@ + priority_label(g.priority) + " | "@ + g.location@ + " — "@
        + g.feature_type@ + "\n      "@ + g.reason@ + "\n"@
}

/// The first `k` gaps in display order, rendered.
pub open spec fn gap_lines(gs: Seq<GapEntry>, order: Seq<int>, k: nat) -> Seq<char>
    decreases k,
{
    if k == 0 {
        Seq::empty()
    } else {
        gap_lines(gs, order, (k - 1) as nat) + gap_line((k - 1) as nat, gs[order[k - 1]])
    }
}

/// The rendered list of the top `max_gaps` gaps.
pub open spec fn rendered_gaps(gs: Seq<GapEntry>, max_gaps: usize) -> Seq<char> {
    if gs.len() == 0 {
        "   ✅ No significant coverage gaps detected!\n"@
    } else {
        gap_lines(gs, gap_order(gs), if max_gaps < gs.len() {
            max_gaps as nat
        } else {
            gs.len()
        })
    }
}

proof fn lemma_gap_leq_total(gs: Seq<GapEntry>)
    ensures
        vstd::relations::total_ordering(gap_leq(gs)),
{
}

/// An uncovered feature with the unsafe dimension set always gives an
/// `unsafe` gap: critical, with the reason for unsafe code, weighing β₁ (at
/// least one); an `async` gap never has the unsafe dimension set, and is
/// high priority with weight one.
pub proof fn lemma_unsafe_gaps_are_critical(f: CoverageFeature, beta_1: usize)
    ensures
        f.vector@[5] == 1 ==> {
            let g = gap_for(f, beta_1);
            &&& g.1 == "unsafe"@
            &&& g.2 == "🔴 Unsafe block without test coverage — undefined behavior risk"@
            &&& g.3 == (if beta_1 > 1 { beta_1 } else { 1 })
            &&& g.4 == Priority::Critical
        },
        gap_for(f, beta_1).1 == "async"@ ==> f.vector@[5] == 0 && gap_for(f, beta_1).4 == Priority::High
            && gap_for(f, beta_1).3 == 1,
{
    let k = feature_kind(f.vector@);
    if gap_for(f, beta_1).1 == "async"@ {
        if k != FeatureKind::Async {
            reveal_strlit("async");
            reveal_strlit("unsafe");
            reveal_strlit("plain code");
            reveal_strlit("branches");
            reveal_strlit("loops");
            reveal_strlit("match arms");
            reveal_strlit("generics");
            reveal_strlit("complex feature");
            if k == FeatureKind::Loops {
                assert(kind_name(k)[0] != "async"@[0]);
            } else {
                assert(kind_name(k).len() != "async"@.len());
            }
        }
    }
}

/// Every uncovered feature, and no covered one, gives one gap entry: the
/// gap count and the covered count add up to the number of features.
pub proof fn lemma_one_gap_per_uncovered(fs: Seq<CoverageFeature>, beta_1: usize)
    ensures
        gaps_for(fs, beta_1).len() + count_covered(fs) == fs.len(),
    decreases fs.len(),
{
    if fs.len() > 0 {
        lemma_one_gap_per_uncovered(fs.drop_last(), beta_1);
    }
}

/// The display order lists every gap exactly once, most urgent priority
/// first; within a priority, larger Betti contributions come first.
pub proof fn lemma_gaps_in_priority_order(gs: Seq<GapEntry>)
    ensures
        gap_order(gs).to_multiset() == Seq::new(gs.len(), |i: int| i).to_multiset(),
        forall|i: int, j: int|
            0 <= i < j < gs.len() ==> {
                let a = gs[#[trigger] gap_order(gs)[i]];
                let b = gs[#[trigger] gap_order(gs)[j]];
                &&& priority_rank(a.priority) <= priority_rank(b.priority)
                &&& priority_rank(a.priority) == priority_rank(b.priority) ==> a.betti_contribution
                    >= b.betti_contribution
            },
{
    let ids = Seq::new(gs.len(), |i: int| i);
    lemma_gap_leq_total(gs);
    ids.lemma_sort_by_ensures(gap_leq(gs));
    let o = gap_order(gs);
    assert(o.len() == gs.len()) by {
        ids.to_multiset_ensures();
        o.to_multiset_ensures();
    }
    assert forall|i: int, j: int| 0 <= i < j < gs.len() implies {
        let a = gs[#[trigger] gap_order(gs)[i]];
        let b = gs[#[trigger] gap_order(gs)[j]];
        &&& priority_rank(a.priority) <= priority_rank(b.priority)
        &&& priority_rank(a.priority) == priority_rank(b.priority) ==> a.betti_contribution
            >= b.betti_contribution
    } by {
        assert(gap_leq(gs)(o[i], o[j]));
    }
}

proof fn lemma_insert_multiset_int(s: Seq<int>, pos: int, x: int)
    requires
        0 <= pos <= s.len(),
    ensures
        s.insert(pos, x).to_multiset() =~= s.to_multiset().insert(x),
{
    broadcast use vstd::seq_lib::group_to_multiset_ensures;
    broadcast use vstd::multiset::group_multiset_axioms;

    let t = s.insert(pos, x);
    assert(t.remove(pos) =~= s);
    assert(t[pos] == x);
    assert(t.contains(x));
    assert(t.to_multiset().count(x) > 0);
}

pub open spec fn idx_view(v: Seq<usize>) -> Seq<int> {
    Seq::new(v.len(), |i: int| v[i] as int)
}

/// `gap_before` on two gaps, computed.
fn gap_before_exec(gs: &Vec<GapEntry>, a: usize, b: usize) -> (r: bool)
    requires
        a < gs.len(),
        b < gs.len(),
    ensures
        r == gap_before(gs@, a as int, b as int),
{
    let ra = gs[a].priority.rank();
    let rb = gs[b].priority.rank();
    ra < rb || (ra == rb && (gs[a].betti_contribution > gs[b].betti_contribution || (
    gs[a].betti_contribution == gs[b].betti_contribution && a <= b)))
}

/// The indices of the gaps in display order.
fn order_gaps(gs: &Vec<GapEntry>) -> (order: Vec<usize>)
    ensures
        idx_view(order@) == gap_order(gs@),
        order.len() == gs.len(),
        forall|k: int| 0 <= k < order.len() ==> #[trigger] order@[k] < gs.len(),
{
    broadcast use vstd::seq_lib::group_to_multiset_ensures;

    let ghost ids = Seq::new(gs.len() as nat, |i: int| i);
    let ghost leq = gap_leq(gs@);
    let mut r: Vec<usize> = Vec::new();
    let mut i: usize = 0;
    proof {
        assert(ids.take(0) =~= Seq::<int>::empty());
        assert(idx_view(r@) =~= Seq::<int>::empty());
    }
    while i < gs.len()
        invariant
            i <= gs.len(),
            ids == Seq::new(gs.len() as nat, |i: int| i),
            leq == gap_leq(gs@),
            r.len() == i,
            forall|k: int| 0 <= k < r.len() ==> #[trigger] r@[k] < i,
            vstd::relations::sorted_by(idx_view(r@), leq),
            idx_view(r@).to_multiset() == ids.take(i as int).to_multiset(),
        decreases gs.len() - i,
    {
        let mut p: usize = 0;
        while p < r.len() && gap_before_exec(gs, r[p], i)
            invariant
                p <= r.len(),
                i < gs.len(),
                forall|k: int| 0 <= k < r.len() ==> #[trigger] r@[k] < i,
                forall|k: int| 0 <= k < p ==> gap_before(gs@, r@[k] as int, i as int),
            decreases r.len() - p,
        {
            p = p + 1;
        }
        let ghost old_r = r@;
        r.insert(p, i);
        proof {
            let ov = idx_view(old_r);
            let nv = idx_view(r@);
            assert(r@ =~= old_r.insert(p as int, i));
            assert(nv =~= ov.insert(p as int, i as int));
            lemma_insert_multiset_int(ov, p as int, i as int);
            assert(ids.take(i as int + 1) =~= ids.take(i as int).push(i as int));
            ids.take(i as int).to_multiset_ensures();
            lemma_gap_leq_total(gs@);
            assert forall|a: int, b: int| 0 <= a < b < nv.len() implies #[trigger] leq(nv[a], nv[b]) by {
                if b < p {
                    assert(leq(ov[a], ov[b]));
                } else if b == p {
                    assert(gap_before(gs@, old_r[a] as int, i as int));
                } else if a < p {
                    assert(leq(ov[a], ov[b - 1]));
                } else if a == p {
                    // i does not come before old_r[p], so old_r[p] comes before i
                    assert(!gap_before(gs@, old_r[p as int] as int, i as int));
                    assert(old_r[p as int] < i);
                    assert(leq(i as int, ov[p as int]));
                    if b - 1 > p {
                        assert(leq(ov[p as int], ov[b - 1]));
                    }
                } else {
                    assert(leq(ov[a - 1], ov[b - 1]));
                }
            }
        }
        i = i + 1;
    }
    proof {
        assert(ids.take(gs.len() as int) =~= ids);
        ids.lemma_sort_by_ensures(leq);
        lemma_gap_leq_total(gs@);
        vstd::seq_lib::lemma_sorted_unique(idx_view(r@), ids.sort_by(leq), leq);
    }
    r
}

impl BettiNumbers {
    /// The Betti numbers with their meaning, as shown in reports.
    pub fn describe(&self) -> (s: String)
        ensures
            s@ == "β₀="@ + decimal(self.beta_0 as nat) + " (connected components of tested features), β₁="@
                + decimal(self.beta_1 as nat) + " (untested feature transitions/holes), β₂="@ + decimal(
                self.beta_2 as nat,
            ) + " (voids in feature coverage)"@,
    {
        let mut v: Vec<char> = Vec::new();
        append_str(&mut v, "β₀=");
        push_decimal(&mut v, self.beta_0);
        append_str(&mut v, " (connected components of tested features), β₁=");
        push_decimal(&mut v, self.beta_1);
        append_str(&mut v, " (untested feature transitions/holes), β₂=");
        push_decimal(&mut v, self.beta_2);
        append_str(&mut v, " (voids in feature coverage)");
        string_from_chars(&v)
    }
}

impl CoverageGapReport {
    /// Create a report from the topological analysis of the features.
    pub fn new(betti: BettiNumbers, features: &[CoverageFeature], gaps: Vec<GapEntry>) -> (r: Self)
        ensures
            r.betti == betti,
            r.total_features == features.len(),
            r.covered_features == count_covered(features@),
            r.uncovered_features == features.len() - count_covered(features@),
            r.gaps@ == gaps@,
    {
        let total = features.len();
        let mut covered: usize = 0;
        let mut i: usize = 0;
        while i < total
            invariant
                i <= total == features.len(),
                covered == count_covered(features@.take(i as int)),
                covered <= i,
            decreases total - i,
        {
            proof {
                assert(features@.take(i as int + 1).drop_last() =~= features@.take(i as int));
            }
            if features[i].covered {
                covered = covered + 1;
            }
            i = i + 1;
        }
        proof {
            assert(features@.take(total as int) =~= features@);
        }
        CoverageGapReport {
            betti,
            total_features: total,
            covered_features: covered,
            uncovered_features: total - covered,
            gaps,
        }
    }

    /// Render the prioritized gaps (top `max_gaps`).
    pub fn render_gaps(&self, max_gaps: usize) -> (s: String)
        ensures
            s@ == rendered_gaps(self.gaps@, max_gaps),
    {
        if self.gaps.len() == 0 {
            return String::from_str("   ✅ No significant coverage gaps detected!\n");
        }
        let order = order_gaps(&self.gaps);
        let ghost gs = self.gaps@;
        let n = if max_gaps < self.gaps.len() {
            max_gaps
        } else {
            self.gaps.len()
        };
        let mut v: Vec<char> = Vec::new();
        let mut k: usize = 0;
        while k < n
            invariant
                k <= n <= self.gaps.len(),
                n <= order.len(),
                gs == self.gaps@,
                idx_view(order@) == gap_order(gs),
                forall|t: int| 0 <= t < order.len() ==> #[trigger] order@[t] < gs.len(),
                v@ == gap_lines(gs, gap_order(gs), k as nat),
            decreases n - k,
        {
            let g = &self.gaps[order[k]];
            proof {
                assert(gap_order(gs)[k as int] == order@[k as int] as int);
            }
            push_decimal_line(&mut v, k, g);
            k = k + 1;
        }
        string_from_chars(&v)
    }
}

fn push_decimal_line(v: &mut Vec<char>, k: usize, g: &GapEntry)
    requires
        k < usize::MAX,
    ensures
        final(v)@ == old(v)@ + gap_line(k as nat, *g),
{
    let ghost start = v@;
    append_str(v, "   ");
    push_decimal(v, k + 1);
    append_str(v, ". ");
    let label = g.priority.label();
    append_str(v, label.as_str());
    append_str(v, " | ");
    append_str(v, g.location.as_str());
    append_str(v, " — ");
    append_str(v, g.feature_type.as_str());
    append_str(v, "\n      ");
    append_str(v, g.reason.as_str());
    append_str(v, "\n");
    assert(v@ =~= start + gap_line(k as nat, *g));
}

} // verus!
