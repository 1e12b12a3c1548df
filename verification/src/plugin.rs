//! Editor integration for the coverage gap finder: coverage file discovery
//! and inline annotations.
use vstd::prelude::*;
use crate::report::{GapEntry, Priority};
use crate::text::{
    append_str, chars_of, parse_usize, parse_usize_spec, rfind_char, starts_with, starts_with_str,
    string_from_chars, sub_chars,
};

verus! {

/// Where a coverage JSON export is looked for, in order of preference.
pub open spec fn coverage_json_candidates() -> Seq<Seq<char>> {
    seq!["target/llvm-cov/coverage.json"@, "target/coverage/coverage.json"@, "coverage.json"@]
}

/// Files whose presence shows that a workspace has coverage data.
pub open spec fn coverage_data_candidates() -> Seq<Seq<char>> {
    seq![
        "coverage.json"@,
        "target/coverage/coverage.json"@,
        "lcov.info"@,
        "target/coverage/lcov.info"@,
        "target/llvm-cov/coverage.json"@,
    ]
}

fn json_candidate(i: usize) -> (s: &'static str)
    requires
        i < 3,
    ensures
        s@ == coverage_json_candidates()[i as int],
{
    if i == 0 {
        "target/llvm-cov/coverage.json"
    } else if i == 1 {
        "target/coverage/coverage.json"
    } else {
        "coverage.json"
    }
}

fn data_candidate(i: usize) -> (s: &'static str)
    requires
        i < 5,
    ensures
        s@ == coverage_data_candidates()[i as int],
{
    if i == 0 {
        "coverage.json"
    } else if i == 1 {
        "target/coverage/coverage.json"
    } else if i == 2 {
        "lcov.info"
    } else if i == 3 {
        "target/coverage/lcov.info"
    } else {
        "target/llvm-cov/coverage.json"
    }
}

/// `is_present` was asked about the path `p` and answered `answer`.
pub open spec fn answered<F: Fn(&str) -> bool>(is_present: F, p: Seq<char>, answer: bool) -> bool {
    exists|s: &str| s@ == p && #[trigger] is_present.ensures((s,), answer)
}

/// `modified` was asked about the path `p` and answered `t` (the file's
/// modification time, or `None` when there is no such file).
pub open spec fn modified_gave<F: Fn(&str) -> Option<u64>>(modified: F, p: Seq<char>, t: Option<u64>) -> bool {
    exists|s: &str| s@ == p && #[trigger] modified.ensures((s,), t)
}

/// Find the most recent coverage JSON file of a workspace among
/// `target/llvm-cov/coverage.json`, `target/coverage/coverage.json` and
/// `coverage.json` (relative to the workspace root). `modified` gives the
/// modification time of a candidate, or `None` when it is absent; each
/// candidate is asked once. The result is a present candidate with the
/// latest time (on equal times the one earlier in the list), or `None` when
/// no candidate is present.
pub fn find_coverage_json<F: Fn(&str) -> Option<u64>>(modified: F) -> (r: Option<String>)
    requires
        forall|p: &str| #[trigger] modified.requires((p,)),
    ensures
        exists|ans: Seq<Option<u64>>|
            {
                &&& ans.len() == 3
                &&& forall|k: int|
                    0 <= k < 3 ==> modified_gave(modified, coverage_json_candidates()[k], #[trigger] ans[k])
                &&& r is None ==> forall|k: int| 0 <= k < 3 ==> #[trigger] ans[k] is None
                &&& r matches Some(p) ==> exists|k: int|
                    {
                        &&& 0 <= k < 3
                        &&& p@ == coverage_json_candidates()[k]
                        &&& ans[k] is Some
                        &&& forall|j: int|
                            0 <= j < 3 && #[trigger] ans[j] is Some ==> ans[j]->0 <= ans[k]->0 && (j < k
                                ==> ans[j]->0 < ans[k]->0)
                    }
            },
{
    let ghost mut ans: Seq<Option<u64>> = Seq::empty();
    let mut best: Option<(usize, u64)> = None;
    let mut i: usize = 0;
    while i < 3
        invariant
            i <= 3,
            ans.len() == i,
            forall|p: &str| #[trigger] modified.requires((p,)),
            forall|k: int|
                0 <= k < i ==> modified_gave(modified, coverage_json_candidates()[k], #[trigger] ans[k]),
            (match best {
                None => forall|k: int| 0 <= k < i ==> #[trigger] ans[k] is None,
                Some((b, t)) => {
                    &&& b < i
                    &&& ans[b as int] == Some(t)
                    &&& forall|j: int|
                        0 <= j < i && #[trigger] ans[j] is Some ==> ans[j]->0 <= t && (j < b ==> ans[j]->0 < t)
                },
            }),
        decreases 3 - i,
    {
        let c = json_candidate(i);
        let answer = modified(c);
        proof {
            assert(modified_gave(modified, coverage_json_candidates()[i as int], answer));
            ans = ans.push(answer);
        }
        match answer {
            Some(u) => {
                match best {
                    None => {
                        best = Some((i, u));
                    },
                    Some((b, t)) => {
                        if u > t {
                            best = Some((i, u));
                        }
                    },
                }
            },
            None => {},
        }
        i = i + 1;
    }
    match best {
        None => None,
        Some((b, t)) => {
            let c = json_candidate(b);
            Some(String::from_str(c))
        },
    }
}

/// Whether a workspace looks like it has coverage data: one of
/// `coverage.json`, `target/coverage/coverage.json`, `lcov.info`,
/// `target/coverage/lcov.info`, `target/llvm-cov/coverage.json` (relative to
/// the workspace root) is reported present by `is_present`; they are asked
/// in this order until one is present.
pub fn has_coverage_data<F: Fn(&str) -> bool>(is_present: F) -> (r: bool)
    requires
        forall|p: &str| #[trigger] is_present.requires((p,)),
    ensures
        r ==> exists|k: int|
            0 <= k < 5 && answered(is_present, #[trigger] coverage_data_candidates()[k], true)
                && forall|j: int|
                0 <= j < k ==> answered(is_present, #[trigger] coverage_data_candidates()[j], false),
        !r ==> forall|k: int|
            0 <= k < 5 ==> answered(is_present, #[trigger] coverage_data_candidates()[k], false),
{
    let mut i: usize = 0;
    while i < 5
        invariant
            i <= 5,
            forall|p: &str| #[trigger] is_present.requires((p,)),
            forall|j: int| 0 <= j < i ==> answered(is_present, #[trigger] coverage_data_candidates()[j], false),
        decreases 5 - i,
    {
        let c = data_candidate(i);
        if is_present(c) {
            assert(answered(is_present, coverage_data_candidates()[i as int], true));
            return true;
        }
        assert(answered(is_present, coverage_data_candidates()[i as int], false));
        i = i + 1;
    }
    false
}


/// How prominently an inline gap is shown.
#[derive(Debug, Clone, Copy, PartialEq, Eq, Structural)]
pub enum InlineSeverity {
    Error,
    Warning,
    Hint,
}

/// An inline gap annotation shown in the editor.
pub struct InlineGap {
    pub line: usize,
    pub message: String,
    pub severity: InlineSeverity,
}

/// Index of the last occurrence of `c`, or -1.
pub open spec fn last_index_of(l: Seq<char>, c: char) -> int
    decreases l.len(),
{
    if l.len() == 0 {
        -1
    } else if l.last() == c {
        l.len() - 1
    } else {
        last_index_of(l.drop_last(), c)
    }
}

/// A location `file:line` split at its last colon; without a colon the
/// line part is `0`.
pub open spec fn location_parts(l: Seq<char>) -> (Seq<char>, Seq<char>) {
    let i = last_index_of(l, ':');
    if i >= 0 {
        (l.subrange(0, i), l.subrange(i + 1, l.len() as int))
    } else {
        (l, "0"@)
    }
}

/// The file part of a location, without a leading `gap:`.
pub open spec fn location_file(l: Seq<char>) -> Seq<char> {
    let f = location_parts(l).0;
    if starts_with(f, "gap:"@) {
        f.subrange(4, f.len() as int)
    } else {
        f
    }
}

/// The line part of a location; `0` when it is not a number.
pub open spec fn location_line(l: Seq<char>) -> usize {
    match parse_usize_spec(location_parts(l).1) {
        Some(n) => n,
        None => 0,
    }
}

pub open spec fn severity_of(p: Priority) -> InlineSeverity {
    match p {
        Priority::Critical => InlineSeverity::Error,
        Priority::High => InlineSeverity::Warning,
        _ => InlineSeverity::Hint,
    }
}

/// The inline annotation of a gap: file, line, message and severity.
pub open spec fn inline_gap_of(g: GapEntry) -> (Seq<char>, usize, Seq<char>, InlineSeverity) {
    (
        location_file(g.location@),
        location_line(g.location@),
        "[Coverage Gap] "@ + g.feature_type@ + " — "@ + g.reason@,
        severity_of(g.priority),
    )
}

pub open spec fn file_gap_view(x: (String, InlineGap)) -> (Seq<char>, usize, Seq<char>, InlineSeverity) {
    (x.0@, x.1.line, x.1.message@, x.1.severity)
}

proof fn lemma_last_index_of(l: Seq<char>, c: char, i: int)
    requires
        -1 <= i < l.len(),
        i >= 0 ==> l[i] == c,
        forall|k: int| i < k < l.len() ==> l[k] != c,
    ensures
        last_index_of(l, c) == i,
    decreases l.len(),
{
    if l.len() > 0 && i < l.len() - 1 {
        assert(l.last() != c);
        lemma_last_index_of(l.drop_last(), c, i);
    }
}

/// The inline annotation for one gap, with the file it belongs to (as
/// written in the location, before resolving it against the workspace).
pub fn inline_gap(entry: &GapEntry) -> (r: (String, InlineGap))
    ensures
        file_gap_view(r) == inline_gap_of(*entry),
{
    let loc = chars_of(entry.location.as_str());
    let (file_part, line_part) = match rfind_char(&loc, ':') {
        Some(idx) => {
            proof {
                lemma_last_index_of(loc@, ':', idx as int);
            }
            (sub_chars(&loc, 0, idx), sub_chars(&loc, idx + 1, loc.len()))
        },
        None => {
            proof {
                lemma_last_index_of(loc@, ':', -1);
            }
            (sub_chars(&loc, 0, loc.len()), chars_of("0"))
        },
    };
    proof {
        assert(loc@.subrange(0, loc@.len() as int) =~= loc@);
    }
    let file = if starts_with_str(&file_part, "gap:") {
        proof {
            reveal_strlit("gap:");
        }
        sub_chars(&file_part, 4, file_part.len())
    } else {
        file_part
    };
    let line: usize = match parse_usize(&line_part) {
        Some(n) => n,
        None => 0,
    };
    let mut msg: Vec<char> = Vec::new();
    append_str(&mut msg, "[Coverage Gap] ");
    append_str(&mut msg, entry.feature_type.as_str());
    append_str(&mut msg, " — ");
    append_str(&mut msg, entry.reason.as_str());
    let severity = match entry.priority {
        Priority::Critical => InlineSeverity::Error,
        Priority::High => InlineSeverity::Warning,
        _ => InlineSeverity::Hint,
    };
    (string_from_chars(&file), InlineGap { line, message: string_from_chars(&msg), severity })
}

/// Inline annotations for the gaps of a report, in order, each with the file
/// it belongs to.
pub fn build_file_gaps(gaps: &[GapEntry]) -> (r: Vec<(String, InlineGap)>)
    ensures
        r.len() == gaps.len(),
        forall|i: int| 0 <= i < gaps.len() ==> file_gap_view(#[trigger] r[i]) == inline_gap_of(gaps[i]),
{
    let mut r: Vec<(String, InlineGap)> = Vec::new();
    let mut i: usize = 0;
    while i < gaps.len()
        invariant
            i <= gaps.len(),
            r.len() == i,
            forall|k: int| 0 <= k < i ==> file_gap_view(#[trigger] r[k]) == inline_gap_of(gaps[k]),
        decreases gaps.len() - i,
    {
        r.push(inline_gap(&gaps[i]));
        i = i + 1;
    }
    r
}


/// The content of an inline gap: line, message and severity.
pub open spec fn inline_view(g: InlineGap) -> (usize, Seq<char>, InlineSeverity) {
    (g.line, g.message@, g.severity)
}

pub open spec fn pairs_view(ps: Seq<(String, InlineGap)>) -> Seq<(Seq<char>, (usize, Seq<char>, InlineSeverity))> {
    Seq::new(ps.len(), |i: int| (ps[i].0@, inline_view(ps[i].1)))
}

pub open spec fn groups_view(gs: Seq<(String, Vec<InlineGap>)>) -> Seq<
    (Seq<char>, Seq<(usize, Seq<char>, InlineSeverity)>),
> {
    Seq::new(gs.len(), |i: int| (gs[i].0@, Seq::new(gs[i].1@.len(), |k: int| inline_view(gs[i].1@[k]))))
}

/// Position of the group of file `f`, or -1.
pub open spec fn group_index(
    gs: Seq<(Seq<char>, Seq<(usize, Seq<char>, InlineSeverity)>)>,
    f: Seq<char>,
) -> int
    decreases gs.len(),
{
    if gs.len() == 0 {
        -1
    } else if gs.last().0 == f {
        gs.len() - 1
    } else {
        group_index(gs.drop_last(), f)
    }
}

/// The annotations grouped by file: one group per file, in the order the
/// files are first seen, each holding that file's annotations in order.
pub open spec fn grouped(ps: Seq<(Seq<char>, (usize, Seq<char>, InlineSeverity))>) -> Seq<
    (Seq<char>, Seq<(usize, Seq<char>, InlineSeverity)>),
>
    decreases ps.len(),
{
    if ps.len() == 0 {
        Seq::empty()
    } else {
        let g = grouped(ps.drop_last());
        let (f, x) = ps.last();
        let k = group_index(g, f);
        if k >= 0 {
            g.update(k, (f, g[k].1.push(x)))
        } else {
            g.push((f, seq![x]))
        }
    }
}

proof fn lemma_group_index(
    gs: Seq<(Seq<char>, Seq<(usize, Seq<char>, InlineSeverity)>)>,
    f: Seq<char>,
    i: int,
)
    requires
        -1 <= i < gs.len(),
        i >= 0 ==> gs[i].0 == f,
        forall|j: int| i < j < gs.len() ==> gs[j].0 != f,
    ensures
        group_index(gs, f) == i,
    decreases gs.len(),
{
    if gs.len() > 0 && i < gs.len() - 1 {
        lemma_group_index(gs.drop_last(), f, i);
    }
}

proof fn lemma_group_index_found(gs: Seq<(Seq<char>, Seq<(usize, Seq<char>, InlineSeverity)>)>, f: Seq<char>)
    ensures
        -1 <= group_index(gs, f) < gs.len(),
        group_index(gs, f) >= 0 ==> gs[group_index(gs, f)].0 == f,
    decreases gs.len(),
{
    if gs.len() > 0 {
        lemma_group_index_found(gs.drop_last(), f);
    }
}

fn copy_gap(g: &InlineGap) -> (r: InlineGap)
    ensures
        inline_view(r) == inline_view(*g),
{
    InlineGap { line: g.line, message: g.message.clone(), severity: g.severity }
}

fn find_group(groups: &Vec<(String, Vec<InlineGap>)>, file: &String) -> (r: Option<usize>)
    ensures
        match r {
            Some(k) => k < groups.len() && group_index(groups_view(groups@), file@) == k,
            None => group_index(groups_view(groups@), file@) == -1,
        },
{
    let ghost gv = groups_view(groups@);
    let mut k: usize = groups.len();
    while k > 0
        invariant
            k <= groups.len(),
            gv == groups_view(groups@),
            forall|j: int| k <= j < groups.len() ==> gv[j].0 != file@,
        decreases k,
    {
        if groups[k - 1].0 == *file {
            proof {
                lemma_group_index(gv, file@, k - 1);
            }
            return Some(k - 1);
        }
        k = k - 1;
    }
    proof {
        lemma_group_index(gv, file@, -1);
    }
    None
}

/// Group inline annotations by their file, files in the order first seen
/// and each file's annotations in their order.
pub fn group_file_gaps(pairs: &[(String, InlineGap)]) -> (r: Vec<(String, Vec<InlineGap>)>)
    ensures
        groups_view(r@) == grouped(pairs_view(pairs@)),
{
    let mut groups: Vec<(String, Vec<InlineGap>)> = Vec::new();
    let ghost pv = pairs_view(pairs@);
    let mut i: usize = 0;
    proof {
        assert(pv.take(0) =~= Seq::<(Seq<char>, (usize, Seq<char>, InlineSeverity))>::empty());
        assert(groups_view(groups@) =~= grouped(pv.take(0)));
    }
    while i < pairs.len()
        invariant
            i <= pairs.len(),
            pv == pairs_view(pairs@),
            groups_view(groups@) == grouped(pv.take(i as int)),
        decreases pairs.len() - i,
    {
        let ghost gv = groups_view(groups@);
        proof {
            assert(pv.take(i as int + 1).drop_last() =~= pv.take(i as int));
            assert(pv.take(i as int + 1).last() == pv[i as int]);
        }
        let file = &pairs[i].0;
        let gap = copy_gap(&pairs[i].1);
        let ghost x = inline_view(gap);
        let found = find_group(&groups, file);
        if let Some(idx) = found {
            proof {
                lemma_group_index_found(gv, file@);
            }
            let ghost old_groups = groups@;
            let (f, mut members) = groups.remove(idx);
            let ghost old_members = members@;
            members.push(gap);
            groups.insert(idx, (f, members));
            proof {
                assert(groups@ =~= old_groups.update(idx as int, groups@[idx as int]));
                let nm = Seq::new(members@.len(), |q: int| inline_view(members@[q]));
                let om = Seq::new(old_members.len(), |q: int| inline_view(old_members[q]));
                assert(nm =~= om.push(x));
                assert(groups_view(groups@) =~= gv.update(idx as int, (file@, gv[idx as int].1.push(x))));
            }
        } else {
            let ghost old_groups = groups@;
            let mut members: Vec<InlineGap> = Vec::new();
            members.push(gap);
            groups.push((file.clone(), members));
            proof {
                let nm = Seq::new(members@.len(), |q: int| inline_view(members@[q]));
                assert(nm =~= seq![x]);
                assert(groups_view(groups@) =~= gv.push((file@, seq![x])));
            }
        }
        i = i + 1;
    }
    proof {
        assert(pv.take(pairs.len() as int) =~= pv);
    }
    groups
}

} // verus!
