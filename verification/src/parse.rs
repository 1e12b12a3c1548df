//! Structured coverage data from the `llvm-cov export` JSON format, and the
//! function-level and region-level coverage read off its segments.
use vstd::prelude::*;
use crate::text::{append_str, decimal, push_decimal, string_from_chars};

verus! {

/// Top-level coverage data from `llvm-cov export` JSON.
pub struct CoverageData {
    pub data: Vec<FileCoverage>,
    pub version: String,
    pub type_: String,
}

/// Per-export coverage data: the source files it covers.
pub struct FileCoverage {
    pub files: Vec<SourceFile>,
}

/// A single source file with coverage.
pub struct SourceFile {
    pub filename: String,
    pub segments: Vec<Segment>,
    pub expansions: Vec<Expansion>,
}

/// A line segment with execution count.
#[derive(Clone, Copy, Debug)]
pub struct Segment {
    pub line: usize,
    pub col: usize,
    pub count: u64,
    pub has_count: bool,
    pub is_region_entry: bool,
    pub is_gap_region: bool,
}

/// Expansion regions (macros, etc.)
pub struct Expansion {
    pub file_region: SourceRegion,
    pub target_region: Box<SourceRegion>,
    pub expansions: Vec<Expansion>,
}

/// A source region (line/column range).
#[derive(Clone, Copy, Debug)]
pub struct SourceRegion {
    pub line_start: usize,
    pub col_start: usize,
    pub line_end: usize,
    pub col_end: usize,
}

/// Per-function coverage inferred from segments.
pub struct FunctionCoverage {
    pub name: String,
    pub file: String,
    pub line_start: usize,
    pub line_end: usize,
    pub executed: bool,
    pub hit_count: u64,
}

/// A region of coverage data.
pub struct RegionCoverage {
    pub file: String,
    pub line_start: usize,
    pub line_end: usize,
    pub count: u64,
    pub is_covered: bool,
}

/// The content of a region: file, first and last line, count, covered.
pub open spec fn region_view(r: RegionCoverage) -> (Seq<char>, usize, usize, u64, bool) {
    (r.file@, r.line_start, r.line_end, r.count, r.is_covered)
}

/// The regions of one file: one per segment that enters a region, in order.
pub open spec fn segment_regions(name: Seq<char>, segs: Seq<Segment>) -> Seq<
    (Seq<char>, usize, usize, u64, bool),
>
    decreases segs.len(),
{
    if segs.len() == 0 {
        Seq::empty()
    } else {
        let rest = segment_regions(name, segs.drop_last());
        let s = segs.last();
        if s.is_region_entry {
            rest.push((name, s.line, s.line, s.count, s.count > 0))
        } else {
            rest
        }
    }
}

pub open spec fn files_regions(files: Seq<SourceFile>) -> Seq<(Seq<char>, usize, usize, u64, bool)>
    decreases files.len(),
{
    if files.len() == 0 {
        Seq::empty()
    } else {
        files_regions(files.drop_last()) + segment_regions(
            files.last().filename@,
            files.last().segments@,
        )
    }
}

/// All regions of the coverage data, file by file in order.
pub open spec fn data_regions(data: Seq<FileCoverage>) -> Seq<(Seq<char>, usize, usize, u64, bool)>
    decreases data.len(),
{
    if data.len() == 0 {
        Seq::empty()
    } else {
        data_regions(data.drop_last()) + files_regions(data.last().files@)
    }
}

pub open spec fn regions_view(rs: Seq<RegionCoverage>) -> Seq<(Seq<char>, usize, usize, u64, bool)> {
    Seq::new(rs.len(), |i: int| region_view(rs[i]))
}

fn push_file_regions(regions: &mut Vec<RegionCoverage>, source: &SourceFile)
    ensures
        regions_view(final(regions)@) == regions_view(old(regions)@) + segment_regions(
            source.filename@,
            source.segments@,
        ),
{
    let ghost start = regions_view(regions@);
    let mut k: usize = 0;
    while k < source.segments.len()
        invariant
            k <= source.segments.len(),
            regions_view(regions@) == start + segment_regions(
                source.filename@,
                source.segments@.take(k as int),
            ),
        decreases source.segments.len() - k,
    {
        let seg = source.segments[k];
        proof {
            assert(source.segments@.take(k as int + 1).drop_last() =~= source.segments@.take(k as int));
        }
        if seg.is_region_entry {
            let ghost before = regions@;
            regions.push(
                RegionCoverage {
                    file: source.filename.clone(),
                    line_start: seg.line,
                    line_end: seg.line,
                    count: seg.count,
                    is_covered: seg.count > 0,
                },
            );
            proof {
                assert(regions_view(regions@) =~= regions_view(before).push(
                    (source.filename@, seg.line, seg.line, seg.count, seg.count > 0),
                ));
            }
        }
        k = k + 1;
    }
    proof {
        assert(source.segments@.take(source.segments.len() as int) =~= source.segments@);
    }
}

/// Extract region-level coverage: one region per segment that enters a
/// region, with its count and whether it was executed.
pub fn extract_regions(data: &CoverageData) -> (regions: Vec<RegionCoverage>)
    ensures
        regions_view(regions@) == data_regions(data.data@),
{
    let mut regions: Vec<RegionCoverage> = Vec::new();
    let mut d: usize = 0;
    proof {
        assert(regions_view(regions@) =~= data_regions(data.data@.take(0)));
    }
    while d < data.data.len()
        invariant
            d <= data.data.len(),
            regions_view(regions@) == data_regions(data.data@.take(d as int)),
        decreases data.data.len() - d,
    {
        let file_data = &data.data[d];
        let ghost at_file_start = regions_view(regions@);
        let mut f: usize = 0;
        proof {
            assert(at_file_start =~= at_file_start + files_regions(file_data.files@.take(0)));
        }
        while f < file_data.files.len()
            invariant
                f <= file_data.files.len(),
                regions_view(regions@) == at_file_start + files_regions(file_data.files@.take(f as int)),
            decreases file_data.files.len() - f,
        {
            let ghost before = regions_view(regions@);
            push_file_regions(&mut regions, &file_data.files[f]);
            proof {
                let fs = file_data.files@;
                assert(fs.take(f as int + 1).drop_last() =~= fs.take(f as int));
                assert(files_regions(fs.take(f as int + 1)) == files_regions(fs.take(f as int))
                    + segment_regions(fs[f as int].filename@, fs[f as int].segments@));
                assert(regions_view(regions@) =~= at_file_start + files_regions(fs.take(f as int + 1)));
            }
            f = f + 1;
        }
        proof {
            let ds = data.data@;
            assert(file_data.files@.take(file_data.files.len() as int) =~= file_data.files@);
            assert(ds.take(d as int + 1).drop_last() =~= ds.take(d as int));
            assert(data_regions(ds.take(d as int + 1)) == data_regions(ds.take(d as int)) + files_regions(
                ds[d as int].files@,
            ));
        }
        d = d + 1;
    }
    proof {
        assert(data.data@.take(data.data.len() as int) =~= data.data@);
    }
    regions
}


/// The content of a function record: name, file, first and last line,
/// executed, hit count.
pub open spec fn function_view(f: FunctionCoverage) -> (Seq<char>, Seq<char>, usize, usize, bool, u64) {
    (f.name@, f.file@, f.line_start, f.line_end, f.executed, f.hit_count)
}

pub open spec fn functions_view(fs: Seq<FunctionCoverage>) -> Seq<
    (Seq<char>, Seq<char>, usize, usize, bool, u64),
> {
    Seq::new(fs.len(), |i: int| function_view(fs[i]))
}

/// The largest count among the segments on line `l` (zero if none).
pub open spec fn line_max(segs: Seq<Segment>, l: usize) -> u64
    decreases segs.len(),
{
    if segs.len() == 0 {
        0
    } else {
        let r = line_max(segs.drop_last(), l);
        let s = segs.last();
        if s.line == l && s.count > r {
            s.count
        } else {
            r
        }
    }
}

/// Some segment on line `l` enters a region.
pub open spec fn line_entry(segs: Seq<Segment>, l: usize) -> bool {
    exists|i: int| 0 <= i < segs.len() && #[trigger] segs[i].line == l && segs[i].is_region_entry
}

pub open spec fn strictly_increasing(s: Seq<usize>) -> bool {
    forall|i: int, j: int| 0 <= i < j < s.len() ==> s[i] < s[j]
}

/// `ls` lists the lines that carry segments, each once, in increasing order.
pub open spec fn is_line_list(segs: Seq<Segment>, ls: Seq<usize>) -> bool {
    &&& strictly_increasing(ls)
    &&& forall|x: usize| ls.contains(x) <==> exists|i: int| 0 <= i < segs.len() && #[trigger] segs[i].line == x
}

/// The lines that carry segments, in increasing order.
pub open spec fn sorted_lines(segs: Seq<Segment>) -> Seq<usize> {
    choose|ls: Seq<usize>| is_line_list(segs, ls)
}

/// The name given to a function starting at `line`.
pub open spec fn function_name(line: usize) -> Seq<char> {
    "fn_at_line_"@ + decimal(line as nat)
}

/// Scanner state: inside a function?, where it started, its hit count.
pub open spec fn scan_step(st: (bool, usize, u64), line: usize, max_count: u64, has_entry: bool) -> (
    (bool, usize, u64),
    Option<(usize, usize, u64)>,
) {
    let (in_fn, start, hit) = st;
    if !in_fn && has_entry {
        ((true, line, max_count), None)
    } else if in_fn && (has_entry || max_count == 0) && line > start + 1 {
        (
            if has_entry {
                (true, line, max_count)
            } else {
                (false, start, hit)
            },
            Some((start, (line - 1) as usize, hit)),
        )
    } else if in_fn {
        ((true, start, if hit > max_count {
            hit
        } else {
            max_count
        }), None)
    } else {
        (st, None)
    }
}

/// Walk the lines in order: a function starts at a line that enters a
/// region, and ends before the next line that enters a region or has count
/// zero (at least two lines later); its hit count is the largest line count
/// seen while inside it.
pub open spec fn scan_lines(segs: Seq<Segment>, lines: Seq<usize>) -> ((bool, usize, u64), Seq<
    (usize, usize, u64),
>)
    decreases lines.len(),
{
    if lines.len() == 0 {
        ((false, 0, 0), Seq::empty())
    } else {
        let (st, out) = scan_lines(segs, lines.drop_last());
        let l = lines.last();
        let (st2, e) = scan_step(st, l, line_max(segs, l), line_entry(segs, l));
        (st2, match e {
            Some(x) => out.push(x),
            None => out,
        })
    }
}

/// The functions found in one source file.
pub open spec fn file_functions(f: SourceFile) -> Seq<(Seq<char>, Seq<char>, usize, usize, bool, u64)> {
    found_view(scan_lines(f.segments@, sorted_lines(f.segments@)).1, f.filename@)
}

/// Function records for the found (start, end, hit count) triples of a file.
pub open spec fn found_view(found: Seq<(usize, usize, u64)>, file: Seq<char>) -> Seq<
    (Seq<char>, Seq<char>, usize, usize, bool, u64),
> {
    Seq::new(
        found.len(),
        |i: int| (function_name(found[i].0), file, found[i].0, found[i].1, found[i].2 > 0, found[i].2),
    )
}

pub open spec fn files_functions(files: Seq<SourceFile>) -> Seq<(Seq<char>, Seq<char>, usize, usize, bool, u64)>
    decreases files.len(),
{
    if files.len() == 0 {
        Seq::empty()
    } else {
        files_functions(files.drop_last()) + file_functions(files.last())
    }
}

/// All functions of the coverage data, file by file in order.
pub open spec fn data_functions(data: Seq<FileCoverage>) -> Seq<(Seq<char>, Seq<char>, usize, usize, bool, u64)>
    decreases data.len(),
{
    if data.len() == 0 {
        Seq::empty()
    } else {
        data_functions(data.drop_last()) + files_functions(data.last().files@)
    }
}

/// Two increasing lists with the same elements are equal.
proof fn lemma_increasing_unique(a: Seq<usize>, b: Seq<usize>)
    requires
        strictly_increasing(a),
        strictly_increasing(b),
        forall|x: usize| a.contains(x) <==> b.contains(x),
    ensures
        a == b,
    decreases a.len() + b.len(),
{
    if a.len() == 0 {
        if b.len() > 0 {
            assert(b.contains(b[0]));
        }
        assert(a =~= b);
    } else if b.len() == 0 {
        assert(a.contains(a[0]));
    } else {
        assert(a.contains(a[0]));
        assert(b.contains(b[0]));
        let j = choose|j: int| 0 <= j < b.len() && b[j] == a[0];
        let k = choose|k: int| 0 <= k < a.len() && a[k] == b[0];
        assert(a[0] == b[0]) by {
            if j > 0 {
                assert(b[0] < b[j]);
            }
            if k > 0 {
                assert(a[0] < a[k]);
            }
        }
        let a1 = a.drop_first();
        let b1 = b.drop_first();
        assert forall|x: usize| a1.contains(x) <==> b1.contains(x) by {
            if a1.contains(x) {
                let i = choose|i: int| 0 <= i < a1.len() && a1[i] == x;
                assert(a[i + 1] == x);
                assert(a[0] < a[i + 1]);
                assert(a.contains(x));
                let m = choose|m: int| 0 <= m < b.len() && b[m] == x;
                assert(m != 0);
                assert(b1[m - 1] == x);
            }
            if b1.contains(x) {
                let i = choose|i: int| 0 <= i < b1.len() && b1[i] == x;
                assert(b[i + 1] == x);
                assert(b[0] < b[i + 1]);
                assert(b.contains(x));
                let m = choose|m: int| 0 <= m < a.len() && a[m] == x;
                assert(m != 0);
                assert(a1[m - 1] == x);
            }
        }
        lemma_increasing_unique(a1, b1);
        assert(a =~= seq![a[0]] + a1);
        assert(b =~= seq![b[0]] + b1);
    }
}

/// Every segment on lines `s..=e` counts at most `h`, and one of them
/// counts exactly `h`.
pub open spec fn peak_count(segs: Seq<Segment>, s: usize, e: usize, h: u64) -> bool {
    &&& forall|j: int| 0 <= j < segs.len() && s <= #[trigger] segs[j].line <= e ==> segs[j].count <= h
    &&& exists|j: int| 0 <= j < segs.len() && s <= #[trigger] segs[j].line <= e && segs[j].count == h
}

proof fn lemma_line_max(segs: Seq<Segment>, l: usize)
    ensures
        forall|j: int| 0 <= j < segs.len() && #[trigger] segs[j].line == l ==> segs[j].count <= line_max(segs, l),
        (exists|j: int| 0 <= j < segs.len() && #[trigger] segs[j].line == l) ==> exists|j: int|
            0 <= j < segs.len() && #[trigger] segs[j].line == l && segs[j].count == line_max(segs, l),
    decreases segs.len(),
{
    if segs.len() > 0 {
        let d = segs.drop_last();
        lemma_line_max(d, l);
        assert forall|j: int| 0 <= j < segs.len() && #[trigger] segs[j].line == l implies segs[j].count
            <= line_max(segs, l) by {
            if j < segs.len() - 1 {
                assert(d[j] == segs[j]);
            }
        }
        if exists|j: int| 0 <= j < segs.len() && #[trigger] segs[j].line == l {
            let last = segs.last();
            if last.line == l && last.count > line_max(d, l) {
                assert(segs[segs.len() - 1].line == l);
            } else if last.line == l && !(exists|j: int| 0 <= j < d.len() && #[trigger] d[j].line == l) {
                // line_max(d, l) == 0 <= last.count and nothing else is on l
                assert(line_max(d, l) == 0) by {
                    lemma_line_max_absent(d, l);
                }
                assert(segs[segs.len() - 1].line == l);
            } else {
                let j0 = choose|j: int| 0 <= j < segs.len() && #[trigger] segs[j].line == l;
                if j0 == segs.len() - 1 {
                    let j1 = choose|j: int| 0 <= j < d.len() && #[trigger] d[j].line == l && d[j].count
                        == line_max(d, l);
                    assert(segs[j1] == d[j1]);
                } else {
                    assert(d[j0] == segs[j0]);
                    let j1 = choose|j: int| 0 <= j < d.len() && #[trigger] d[j].line == l && d[j].count
                        == line_max(d, l);
                    assert(segs[j1] == d[j1]);
                }
            }
        }
    }
}

proof fn lemma_line_max_absent(segs: Seq<Segment>, l: usize)
    requires
        !(exists|j: int| 0 <= j < segs.len() && #[trigger] segs[j].line == l),
    ensures
        line_max(segs, l) == 0,
    decreases segs.len(),
{
    if segs.len() > 0 {
        let d = segs.drop_last();
        assert(segs[segs.len() - 1].line != l);
        assert forall|j: int| 0 <= j < d.len() implies #[trigger] d[j].line != l by {
            assert(d[j] == segs[j]);
        }
        lemma_line_max_absent(d, l);
    }
}

proof fn lemma_insert_point(ls: Seq<usize>, x: usize) -> (p: int)
    requires
        strictly_increasing(ls),
        !ls.contains(x),
    ensures
        0 <= p <= ls.len(),
        forall|i: int| 0 <= i < p ==> ls[i] < x,
        forall|i: int| p <= i < ls.len() ==> ls[i] > x,
    decreases ls.len(),
{
    if ls.len() == 0 {
        0
    } else {
        let d = ls.drop_last();
        assert(!d.contains(x)) by {
            if d.contains(x) {
                let i = choose|i: int| 0 <= i < d.len() && d[i] == x;
                assert(ls[i] == x);
            }
        }
        let q = lemma_insert_point(d, x);
        let n = ls.len() as int;
        if ls.last() < x {
            assert forall|i: int| 0 <= i < n implies ls[i] < x by {
                if i < n - 1 {
                    assert(ls[i] < ls[n - 1]);
                }
            }
            n
        } else {
            assert(ls[n - 1] != x);
            assert forall|i: int| 0 <= i < q implies ls[i] < x by {
                assert(d[i] == ls[i]);
            }
            assert forall|i: int| q <= i < n implies ls[i] > x by {
                if i < n - 1 {
                    assert(d[i] == ls[i]);
                }
            }
            q
        }
    }
}

proof fn lemma_line_list_exists(segs: Seq<Segment>) -> (ls: Seq<usize>)
    ensures
        is_line_list(segs, ls),
    decreases segs.len(),
{
    if segs.len() == 0 {
        Seq::empty()
    } else {
        let d = segs.drop_last();
        let l0 = lemma_line_list_exists(d);
        let x = segs.last().line;
        assert(forall|i: int| 0 <= i < d.len() ==> #[trigger] d[i] == segs[i]);
        if l0.contains(x) {
            assert forall|y: usize| l0.contains(y) <==> exists|i: int| 0 <= i < segs.len() && #[trigger] segs[i].line == y by {
                if exists|i: int| 0 <= i < segs.len() && #[trigger] segs[i].line == y {
                    let i = choose|i: int| 0 <= i < segs.len() && #[trigger] segs[i].line == y;
                    if i < d.len() {
                        assert(d[i].line == y);
                    }
                }
                if l0.contains(y) {
                    let i = choose|i: int| 0 <= i < d.len() && #[trigger] d[i].line == y;
                    assert(segs[i].line == y);
                }
            }
            l0
        } else {
            let p = lemma_insert_point(l0, x);
            let ls = l0.insert(p, x);
            assert forall|i: int, j: int| 0 <= i < j < ls.len() implies ls[i] < ls[j] by {
                if j < p {
                    assert(ls[i] == l0[i] && ls[j] == l0[j]);
                } else if j == p {
                    assert(ls[i] == l0[i]);
                } else if i < p {
                    assert(ls[i] == l0[i] && ls[j] == l0[j - 1]);
                } else if i == p {
                    assert(ls[j] == l0[j - 1]);
                } else {
                    assert(ls[i] == l0[i - 1] && ls[j] == l0[j - 1]);
                }
            }
            assert forall|y: usize| ls.contains(y) <==> exists|i: int| 0 <= i < segs.len() && #[trigger] segs[i].line == y by {
                if ls.contains(y) {
                    let m = choose|m: int| 0 <= m < ls.len() && ls[m] == y;
                    if m < p {
                        assert(l0[m] == y);
                        assert(l0.contains(y));
                        let i = choose|i: int| 0 <= i < d.len() && #[trigger] d[i].line == y;
                        assert(segs[i].line == y);
                    } else if m > p {
                        assert(l0[m - 1] == y);
                        assert(l0.contains(y));
                        let i = choose|i: int| 0 <= i < d.len() && #[trigger] d[i].line == y;
                        assert(segs[i].line == y);
                    } else {
                        assert(segs[segs.len() - 1].line == y);
                    }
                }
                if exists|i: int| 0 <= i < segs.len() && #[trigger] segs[i].line == y {
                    let i = choose|i: int| 0 <= i < segs.len() && #[trigger] segs[i].line == y;
                    if i < d.len() {
                        assert(d[i].line == y);
                        assert(l0.contains(y));
                        let m = choose|m: int| 0 <= m < l0.len() && l0[m] == y;
                        if m < p {
                            assert(ls[m] == y);
                        } else {
                            assert(ls[m + 1] == y);
                        }
                    } else {
                        assert(ls[p] == x);
                    }
                }
            }
            ls
        }
    }
}

/// What the scan keeps while walking the lines `ls[..k]`: every function
/// found so far has the peak count of its lines as its hit count, and an
/// open function starting at `start` has the peak count of lines
/// `start..=ls[k - 1]`.
pub open spec fn scan_inv(segs: Seq<Segment>, ls: Seq<usize>, k: int) -> bool {
    let (st, out) = scan_lines(segs, ls.take(k));
    &&& forall|m: int| 0 <= m < out.len() ==> peak_count(segs, (#[trigger] out[m]).0, out[m].1, out[m].2)
    &&& st.0 ==> k > 0 && st.1 <= ls[k - 1] && peak_count(segs, st.1, ls[k - 1], st.2)
}

proof fn lemma_no_line_between(segs: Seq<Segment>, ls: Seq<usize>, k: int, j: int)
    requires
        is_line_list(segs, ls),
        0 < k < ls.len(),
        0 <= j < segs.len(),
        ls[k - 1] < segs[j].line,
    ensures
        segs[j].line >= ls[k],
{
    let y = segs[j].line;
    assert(ls.contains(y));
    let q = choose|q: int| 0 <= q < ls.len() && ls[q] == y;
    if q < k {
        if q < k - 1 {
            assert(ls[q] < ls[k - 1]);
        }
    } else if q > k {
        assert(ls[k] < ls[q]);
    }
}

proof fn lemma_scan_inv(segs: Seq<Segment>, ls: Seq<usize>, k: int)
    requires
        is_line_list(segs, ls),
        0 <= k <= ls.len(),
    ensures
        scan_inv(segs, ls, k),
    decreases k,
{
    if k == 0 {
        assert(ls.take(0) =~= Seq::<usize>::empty());
    } else {
        lemma_scan_inv(segs, ls, k - 1);
        let pre = ls.take(k - 1);
        assert(ls.take(k).drop_last() =~= pre);
        assert(ls.take(k).last() == ls[k - 1]);
        let (st, out) = scan_lines(segs, pre);
        let l = ls[k - 1];
        let lm = line_max(segs, l);
        let en = line_entry(segs, l);
        let (st2, e) = scan_step(st, l, lm, en);
        assert(ls.contains(l));
        lemma_line_max(segs, l);
        let (in_fn, start, hit) = st;
        if in_fn {
            // lines between the previous one and l carry no segment
            assert forall|j: int| 0 <= j < segs.len() && start <= #[trigger] segs[j].line < l implies segs[j].line
                <= ls[k - 2] by {
                if segs[j].line > ls[k - 2] {
                    lemma_no_line_between(segs, ls, k - 1, j);
                }
            }
        }
        if !in_fn && en {
            assert(peak_count(segs, l, l, lm));
        } else if in_fn && (en || lm == 0) && l > start + 1 {
            let x = (start, (l - 1) as usize, hit);
            assert(peak_count(segs, x.0, x.1, x.2)) by {
                let w = choose|j: int| 0 <= j < segs.len() && start <= #[trigger] segs[j].line <= ls[k - 2]
                    && segs[j].count == hit;
                assert(ls[k - 2] < l) by {
                    assert(ls[k - 2] < ls[k - 1]);
                }
                assert(segs[w].line <= l - 1);
            }
            if en {
                assert(peak_count(segs, l, l, lm));
            }
        } else if in_fn {
            let h2 = if hit > lm {
                hit
            } else {
                lm
            };
            assert(ls[k - 2] < l) by {
                assert(ls[k - 2] < ls[k - 1]);
            }
            assert(peak_count(segs, start, l, h2)) by {
                if hit > lm {
                    let w = choose|j: int| 0 <= j < segs.len() && start <= #[trigger] segs[j].line <= ls[k - 2]
                        && segs[j].count == hit;
                    assert(start <= segs[w].line <= l);
                } else {
                    let w = choose|j: int| 0 <= j < segs.len() && #[trigger] segs[j].line == l && segs[j].count
                        == lm;
                    assert(start <= segs[w].line <= l);
                }
            }
        }
    }
}

/// The hit count of every function found in a file is the largest count of
/// the segments on its lines (from its first to its last line), and it is
/// executed exactly when that count is not zero.
pub proof fn lemma_function_hit_is_peak(f: SourceFile)
    ensures
        forall|i: int|
            0 <= i < file_functions(f).len() ==> {
                let x = #[trigger] file_functions(f)[i];
                &&& peak_count(f.segments@, x.2, x.3, x.5)
                &&& x.4 == (x.5 > 0)
            },
{
    let segs = f.segments@;
    let w = lemma_line_list_exists(segs);
    let ls = sorted_lines(segs);
    assert(is_line_list(segs, ls));
    lemma_scan_inv(segs, ls, ls.len() as int);
    assert(ls.take(ls.len() as int) =~= ls);
    let out = scan_lines(segs, ls).1;
    assert forall|i: int| 0 <= i < file_functions(f).len() implies {
        let x = #[trigger] file_functions(f)[i];
        &&& peak_count(f.segments@, x.2, x.3, x.5)
        &&& x.4 == (x.5 > 0)
    } by {
        assert(peak_count(segs, out[i].0, out[i].1, out[i].2));
    }
}

/// The lines carrying segments, in increasing order, each once.
fn collect_lines(segs: &Vec<Segment>) -> (ls: Vec<usize>)
    ensures
        is_line_list(segs@, ls@),
        ls@ == sorted_lines(segs@),
{
    let mut ls: Vec<usize> = Vec::new();
    let mut k: usize = 0;
    while k < segs.len()
        invariant
            k <= segs.len(),
            strictly_increasing(ls@),
            forall|x: usize| ls@.contains(x) <==> exists|i: int| 0 <= i < k && #[trigger] segs@[i].line == x,
        decreases segs.len() - k,
    {
        let x = segs[k].line;
        let mut p: usize = 0;
        while p < ls.len() && ls[p] < x
            invariant
                p <= ls.len(),
                forall|i: int| 0 <= i < p ==> ls@[i] < x,
            decreases ls.len() - p,
        {
            p = p + 1;
        }
        let ghost old_ls = ls@;
        if p < ls.len() && ls[p] == x {
            proof {
                assert forall|y: usize| ls@.contains(y) <==> exists|i: int| 0 <= i < k + 1 && #[trigger] segs@[i].line == y by {
                    if y == x {
                        assert(ls@[p as int] == x);
                        assert(segs@[k as int].line == x);
                    } else if exists|i: int| 0 <= i < k + 1 && #[trigger] segs@[i].line == y {
                        let i = choose|i: int| 0 <= i < k + 1 && #[trigger] segs@[i].line == y;
                        assert(i < k);
                    }
                }
            }
        } else {
            ls.insert(p, x);
            proof {
                assert(ls@ =~= old_ls.insert(p as int, x));
                assert(strictly_increasing(ls@)) by {
                    assert forall|i: int, j: int| 0 <= i < j < ls@.len() implies ls@[i] < ls@[j] by {
                        if j < p {
                        } else if j == p {
                        } else if i < p {
                            assert(old_ls[i] < x);
                            assert(x < old_ls[p as int]);
                            if j - 1 > p {
                                assert(old_ls[p as int] < old_ls[j - 1]);
                            }
                        } else if i == p {
                            assert(x < old_ls[p as int]);
                            if j - 1 > p {
                                assert(old_ls[p as int] < old_ls[j - 1]);
                            }
                        } else {
                            assert(old_ls[i - 1] < old_ls[j - 1]);
                        }
                    }
                }
                assert forall|y: usize| ls@.contains(y) <==> exists|i: int| 0 <= i < k + 1 && #[trigger] segs@[i].line == y by {
                    if ls@.contains(y) {
                        let m = choose|m: int| 0 <= m < ls@.len() && ls@[m] == y;
                        if m < p {
                            assert(old_ls.contains(y)) by { assert(old_ls[m] == y); }
                        } else if m > p {
                            assert(old_ls.contains(y)) by { assert(old_ls[m - 1] == y); }
                        } else {
                            assert(segs@[k as int].line == y);
                        }
                    }
                    if exists|i: int| 0 <= i < k + 1 && #[trigger] segs@[i].line == y {
                        let i = choose|i: int| 0 <= i < k + 1 && #[trigger] segs@[i].line == y;
                        if i < k {
                            assert(old_ls.contains(y));
                            let m = choose|m: int| 0 <= m < old_ls.len() && old_ls[m] == y;
                            if m < p {
                                assert(ls@[m] == y);
                            } else {
                                assert(ls@[m + 1] == y);
                            }
                        } else {
                            assert(ls@[p as int] == x);
                        }
                    }
                }
            }
        }
        k = k + 1;
    }
    proof {
        assert(is_line_list(segs@, ls@));
        let c = sorted_lines(segs@);
        assert(is_line_list(segs@, c));
        lemma_increasing_unique(ls@, c);
    }
    ls
}

/// The largest count on line `l` and whether a segment there enters a region.
fn line_info(segs: &Vec<Segment>, l: usize) -> (r: (u64, bool))
    ensures
        r.0 == line_max(segs@, l),
        r.1 == line_entry(segs@, l),
{
    let mut m: u64 = 0;
    let mut e = false;
    let mut k: usize = 0;
    while k < segs.len()
        invariant
            k <= segs.len(),
            m == line_max(segs@.take(k as int), l),
            e == exists|i: int| 0 <= i < k && #[trigger] segs@[i].line == l && segs@[i].is_region_entry,
        decreases segs.len() - k,
    {
        let s = segs[k];
        proof {
            assert(segs@.take(k as int + 1).drop_last() =~= segs@.take(k as int));
        }
        if s.line == l && s.count > m {
            m = s.count;
        }
        if s.line == l && s.is_region_entry {
            e = true;
        }
        k = k + 1;
    }
    assert(segs@.take(segs.len() as int) =~= segs@);
    (m, e)
}

fn function_name_exec(line: usize) -> (s: String)
    ensures
        s@ == function_name(line),
{
    let mut v: Vec<char> = Vec::new();
    append_str(&mut v, "fn_at_line_");
    push_decimal(&mut v, line);
    assert(v@ =~= function_name(line));
    string_from_chars(&v)
}

fn push_file_functions(functions: &mut Vec<FunctionCoverage>, source: &SourceFile)
    ensures
        functions_view(final(functions)@) == functions_view(old(functions)@) + file_functions(*source),
{
    let ghost start = functions_view(functions@);
    let segs = &source.segments;
    let lines = collect_lines(segs);
    let mut in_function = false;
    let mut fn_start: usize = 0;
    let mut fn_hit: u64 = 0;
    let mut k: usize = 0;
    let ghost name = source.filename@;
    let ghost mut found: Seq<(usize, usize, u64)> = Seq::empty();
    proof {
        assert(lines@.take(0) =~= Seq::<usize>::empty());
        assert(functions_view(functions@) =~= start + found_view(found, name));
    }
    while k < lines.len()
        invariant
            k <= lines.len(),
            lines@ == sorted_lines(segs@),
            segs == &source.segments,
            name == source.filename@,
            scan_lines(segs@, lines@.take(k as int)) == ((in_function, fn_start, fn_hit), found),
            functions_view(functions@) == start + found_view(found, name),
        decreases lines.len() - k,
    {
        let line = lines[k];
        let (max_count, has_entry) = line_info(segs, line);
        proof {
            assert(lines@.take(k as int + 1).drop_last() =~= lines@.take(k as int));
            assert(lines@.take(k as int + 1).last() == line);
        }
        let ghost st = (in_function, fn_start, fn_hit);
        let ghost step = scan_step(st, line, max_count, has_entry);
        if !in_function && has_entry {
            in_function = true;
            fn_start = line;
            fn_hit = max_count;
        } else if in_function && (has_entry || max_count == 0) && fn_start < line && line - fn_start > 1 {
            let ghost before = functions_view(functions@);
            let fc = FunctionCoverage {
                name: function_name_exec(fn_start),
                file: source.filename.clone(),
                line_start: fn_start,
                line_end: line - 1,
                executed: fn_hit > 0,
                hit_count: fn_hit,
            };
            functions.push(fc);
            proof {
                let e = (fn_start, (line - 1) as usize, fn_hit);
                assert(step.1 == Some(e));
                let old_found = found;
                found = found.push(e);
                assert(found_view(found, name) =~= found_view(old_found, name).push(
                    (function_name(fn_start), name, fn_start, (line - 1) as usize, fn_hit > 0, fn_hit),
                ));
                assert(functions_view(functions@) =~= before.push(function_view(fc)));
                assert(functions_view(functions@) =~= start + found_view(found, name));
            }
            if has_entry {
                fn_start = line;
                fn_hit = max_count;
            } else {
                in_function = false;
            }
        } else if in_function {
            if max_count > fn_hit {
                fn_hit = max_count;
            }
        }
        k = k + 1;
    }
    proof {
        assert(lines@.take(lines.len() as int) =~= lines@);
        assert(functions_view(functions@) =~= start + file_functions(*source));
    }
}

/// Extract function-level coverage from the raw segments.
///
/// Per file, the lines carrying segments are walked in increasing order: a
/// function starts at a line that enters a region and ends before the next
/// line (at least two lines further) that enters a region or has count zero;
/// its hit count is the largest count seen inside it.
pub fn extract_function_coverage(data: &CoverageData) -> (functions: Vec<FunctionCoverage>)
    ensures
        functions_view(functions@) == data_functions(data.data@),
{
    let mut functions: Vec<FunctionCoverage> = Vec::new();
    let mut d: usize = 0;
    proof {
        assert(functions_view(functions@) =~= data_functions(data.data@.take(0)));
    }
    while d < data.data.len()
        invariant
            d <= data.data.len(),
            functions_view(functions@) == data_functions(data.data@.take(d as int)),
        decreases data.data.len() - d,
    {
        let file_data = &data.data[d];
        let ghost at_start = functions_view(functions@);
        let mut f: usize = 0;
        proof {
            assert(at_start =~= at_start + files_functions(file_data.files@.take(0)));
        }
        while f < file_data.files.len()
            invariant
                f <= file_data.files.len(),
                functions_view(functions@) == at_start + files_functions(file_data.files@.take(f as int)),
            decreases file_data.files.len() - f,
        {
            push_file_functions(&mut functions, &file_data.files[f]);
            proof {
                let fs = file_data.files@;
                assert(fs.take(f as int + 1).drop_last() =~= fs.take(f as int));
                assert(files_functions(fs.take(f as int + 1)) == files_functions(fs.take(f as int))
                    + file_functions(fs[f as int]));
                assert(functions_view(functions@) =~= at_start + files_functions(fs.take(f as int + 1)));
            }
            f = f + 1;
        }
        proof {
            let ds = data.data@;
            assert(file_data.files@.take(file_data.files.len() as int) =~= file_data.files@);
            assert(ds.take(d as int + 1).drop_last() =~= ds.take(d as int));
            assert(data_functions(ds.take(d as int + 1)) == data_functions(ds.take(d as int))
                + files_functions(ds[d as int].files@));
        }
        d = d + 1;
    }
    proof {
        assert(data.data@.take(data.data.len() as int) =~= data.data@);
    }
    functions
}

} // verus!
