//! Conservation-budget annotations in source code: comments of the forms
//! `// conservation: γ=X, H=Y, C=Z` (or `budget: gamma=X eta=Y capacity=Z`)
//! and `// SI-CAPACITY: X/Y/Z`. The library finds the annotated lines and
//! the texts of their values; reading the values as numbers and comparing
//! them is left to the caller.
use vstd::prelude::*;
use crate::agent_assist::{split_chars, split_on, strings_view};
use crate::text::{
    chars_of, contains_seq, contains_str, lowercase, split_marked,
    split_where, starts_with, starts_with_str, string_from_chars, sub_chars, to_lowercase, trim,
    trim_chars,
};

verus! {

/// Which comment form an annotation was written in.
#[derive(Debug, Clone, Copy, PartialEq, Eq, Structural)]
pub enum BudgetPattern {
    /// `conservation:` or `budget:` with named values.
    Comment,
    /// `// SI-CAPACITY: X/Y/Z`.
    SiCapacity,
}

pub open spec fn gamma_keys() -> Seq<Seq<char>> {
    seq!["γ"@, "gamma"@]
}

pub open spec fn eta_keys() -> Seq<Seq<char>> {
    seq!["η"@, "h"@, "eta"@]
}

pub open spec fn capacity_keys() -> Seq<Seq<char>> {
    seq!["c"@, "capacity"@]
}

pub open spec fn is_value_sep(c: char) -> bool {
    c == '=' || c == ':' || c == ' '
}

/// The text without its leading `=`, `:` and spaces.
pub open spec fn skip_value_seps(s: Seq<char>) -> Seq<char>
    decreases s.len(),
{
    if s.len() > 0 && is_value_sep(s[0]) {
        skip_value_seps(s.drop_first())
    } else {
        s
    }
}

/// The value text of a lowercase part: after the first key that starts the
/// part and leaves something once `=`, `:` and spaces are skipped.
pub open spec fn param_text(lp: Seq<char>, keys: Seq<Seq<char>>) -> Option<Seq<char>>
    decreases keys.len(),
{
    if keys.len() == 0 {
        None
    } else {
        let k = keys[0];
        if starts_with(lp, k) && skip_value_seps(lp.subrange(k.len() as int, lp.len() as int)).len()
            > 0 {
            Some(skip_value_seps(lp.subrange(k.len() as int, lp.len() as int)))
        } else {
            param_text(lp, keys.drop_first())
        }
    }
}

/// The candidate value texts of the parts, in order: for each part, trimmed
/// and lowercased, the value text after one of `keys`, where there is one.
/// The value is the first candidate that reads as a number.
pub open spec fn candidates(parts: Seq<Seq<char>>, keys: Seq<Seq<char>>) -> Seq<Seq<char>>
    decreases parts.len(),
{
    if parts.len() == 0 {
        Seq::empty()
    } else {
        let r = candidates(parts.drop_last(), keys);
        match param_text(lowercase(trim(parts.last())), keys) {
            Some(v) => r.push(v),
            None => r,
        }
    }
}

/// Parts of a budget comment are separated by `,`, spaces and `;`.
pub open spec fn budget_separator() -> spec_fn(char) -> bool {
    |c: char| c == ',' || c == ' ' || c == ';'
}

/// A (trimmed) line holding `conservation:` or `budget:` in any case: the
/// candidate texts of gamma, eta and capacity.
pub open spec fn comment_candidates(t: Seq<char>) -> Option<
    (Seq<Seq<char>>, Seq<Seq<char>>, Seq<Seq<char>>),
> {
    let l = lowercase(t);
    if contains_seq(l, "conservation:"@) || contains_seq(l, "budget:"@) {
        let ps = split_where(t, budget_separator());
        Some((candidates(ps, gamma_keys()), candidates(ps, eta_keys()), candidates(ps, capacity_keys())))
    } else {
        None
    }
}

pub open spec fn si_prefix() -> Seq<char> {
    "// SI-CAPACITY:"@
}

/// A (trimmed) line `// SI-CAPACITY: X/Y/Z` with exactly three `/`-separated
/// values: the three trimmed value texts.
pub open spec fn si_values(t: Seq<char>) -> Option<(Seq<char>, Seq<char>, Seq<char>)> {
    if starts_with(t, si_prefix()) {
        let parts = split_on(trim(t.subrange(si_prefix().len() as int, t.len() as int)), '/');
        if parts.len() == 3 {
            Some((trim(parts[0]), trim(parts[1]), trim(parts[2])))
        } else {
            None
        }
    } else {
        None
    }
}

/// An annotation: its line (from 1), the candidate texts of gamma, eta and
/// capacity, and its form.
pub type AnnotationView = (int, Seq<Seq<char>>, Seq<Seq<char>>, Seq<Seq<char>>, BudgetPattern);

/// The annotation of a budget comment on line `n`, when it has candidates
/// for all three values.
pub open spec fn comment_part(n: int, t: Seq<char>) -> Seq<AnnotationView> {
    match comment_candidates(t) {
        Some((g, h, c)) => if g.len() > 0 && h.len() > 0 && c.len() > 0 {
            seq![(n, g, h, c, BudgetPattern::Comment)]
        } else {
            Seq::empty()
        },
        None => Seq::empty(),
    }
}

/// The annotation of an SI-CAPACITY line `n`.
pub open spec fn si_part(n: int, t: Seq<char>) -> Seq<AnnotationView> {
    match si_values(t) {
        Some((g, h, c)) => seq![(n, seq![g], seq![h], seq![c], BudgetPattern::SiCapacity)],
        None => Seq::empty(),
    }
}

/// The annotations of line `n`: a budget comment with candidates for all
/// three values, then an SI-CAPACITY line.
pub open spec fn line_annotations(n: int, raw: Seq<char>) -> Seq<AnnotationView> {
    comment_part(n, trim(raw)) + si_part(n, trim(raw))
}

pub open spec fn annotations_of_lines(lines: Seq<Seq<char>>) -> Seq<AnnotationView>
    decreases lines.len(),
{
    if lines.len() == 0 {
        Seq::empty()
    } else {
        annotations_of_lines(lines.drop_last()) + line_annotations(lines.len() as int, lines.last())
    }
}

/// The budget annotations of a text, line by line.
pub open spec fn annotations_spec(code: Seq<char>) -> Seq<AnnotationView> {
    annotations_of_lines(split_on(code, '\n'))
}

pub open spec fn annotations_view(
    r: Seq<(usize, Vec<String>, Vec<String>, Vec<String>, BudgetPattern)>,
) -> Seq<AnnotationView> {
    Seq::new(
        r.len(),
        |i: int| (r[i].0 as int, strings_view(r[i].1@), strings_view(r[i].2@), strings_view(r[i].3@), r[i].4),
    )
}

proof fn lemma_skip(s: Seq<char>, i: int)
    requires
        0 <= i <= s.len(),
        forall|k: int| 0 <= k < i ==> is_value_sep(#[trigger] s[k]),
        i < s.len() ==> !is_value_sep(s[i]),
    ensures
        skip_value_seps(s) == s.subrange(i, s.len() as int),
    decreases i,
{
    if i == 0 {
        assert(s.subrange(0, s.len() as int) =~= s);
    } else {
        let d = s.drop_first();
        assert forall|k: int| 0 <= k < i - 1 implies is_value_sep(#[trigger] d[k]) by {
            assert(d[k] == s[k + 1]);
        }
        lemma_skip(d, i - 1);
        assert(d.subrange(i - 1, d.len() as int) =~= s.subrange(i, s.len() as int));
    }
}

fn skip_value_seps_exec(s: &Vec<char>) -> (r: Vec<char>)
    ensures
        r@ == skip_value_seps(s@),
{
    let mut i: usize = 0;
    while i < s.len() && (s[i] == '=' || s[i] == ':' || s[i] == ' ')
        invariant
            i <= s.len(),
            forall|k: int| 0 <= k < i ==> is_value_sep(#[trigger] s@[k]),
        decreases s.len() - i,
    {
        i = i + 1;
    }
    proof {
        lemma_skip(s@, i as int);
    }
    sub_chars(s, i, s.len())
}

fn param_text_exec(lp: &Vec<char>, keys: &Vec<&str>) -> (r: Option<Vec<char>>)
    ensures
        match r {
            Some(v) => param_text(lp@, key_views(keys@)) == Some(v@),
            None => param_text(lp@, key_views(keys@)) is None,
        },
{
    let ghost kv = key_views(keys@);
    let mut k: usize = 0;
    proof {
        assert(kv.subrange(0, kv.len() as int) =~= kv);
    }
    while k < keys.len()
        invariant
            k <= keys.len() == kv.len(),
            kv == key_views(keys@),
            param_text(lp@, kv) == param_text(lp@, kv.subrange(k as int, kv.len() as int)),
        decreases keys.len() - k,
    {
        let ghost rest = kv.subrange(k as int, kv.len() as int);
        proof {
            assert(rest[0] == keys@[k as int]@);
            assert(rest.drop_first() =~= kv.subrange(k as int + 1, kv.len() as int));
        }
        if starts_with_str(lp, keys[k]) {
            let key = chars_of(keys[k]);
            let after = sub_chars(lp, key.len(), lp.len());
            let v = skip_value_seps_exec(&after);
            if v.len() > 0 {
                return Some(v);
            }
        }
        k = k + 1;
    }
    None
}

pub open spec fn key_views(keys: Seq<&str>) -> Seq<Seq<char>> {
    Seq::new(keys.len(), |i: int| keys[i]@)
}

fn gamma_keys_exec() -> (v: Vec<&'static str>)
    ensures
        key_views(v@) == gamma_keys(),
{
    let v = vec!["γ", "gamma"];
    assert(key_views(v@) =~= gamma_keys());
    v
}

fn eta_keys_exec() -> (v: Vec<&'static str>)
    ensures
        key_views(v@) == eta_keys(),
{
    let v = vec!["η", "h", "eta"];
    assert(key_views(v@) =~= eta_keys());
    v
}

fn capacity_keys_exec() -> (v: Vec<&'static str>)
    ensures
        key_views(v@) == capacity_keys(),
{
    let v = vec!["c", "capacity"];
    assert(key_views(v@) =~= capacity_keys());
    v
}

fn lower_of(t: &Vec<char>) -> (r: Vec<char>)
    ensures
        r@ == lowercase(t@),
{
    let s = string_from_chars(t);
    let l = to_lowercase(s.as_str());
    chars_of(l.as_str())
}

fn candidates_exec(parts: &Vec<Vec<char>>, keys: &Vec<&str>) -> (r: Vec<String>)
    ensures
        strings_view(r@) == candidates(Seq::new(parts.len() as nat, |i: int| parts[i]@), key_views(keys@)),
{
    let ghost ps = Seq::new(parts.len() as nat, |i: int| parts[i]@);
    let mut r: Vec<String> = Vec::new();
    let mut i: usize = 0;
    proof {
        assert(ps.take(0) =~= Seq::<Seq<char>>::empty());
        assert(strings_view(r@) =~= candidates(ps.take(0), key_views(keys@)));
    }
    while i < parts.len()
        invariant
            i <= parts.len() == ps.len(),
            ps == Seq::new(parts.len() as nat, |i: int| parts[i]@),
            strings_view(r@) == candidates(ps.take(i as int), key_views(keys@)),
        decreases parts.len() - i,
    {
        proof {
            assert(ps.take(i as int + 1).drop_last() =~= ps.take(i as int));
            assert(ps.take(i as int + 1).last() == ps[i as int]);
        }
        let t = trim_chars(&parts[i]);
        let lt = lower_of(&t);
        match param_text_exec(&lt, keys) {
            Some(v) => {
                let ghost before = r@;
                r.push(string_from_chars(&v));
                proof {
                    assert(strings_view(r@) =~= strings_view(before).push(v@));
                }
            },
            None => {},
        }
        i = i + 1;
    }
    proof {
        assert(ps.take(parts.len() as int) =~= ps);
    }
    r
}

fn comment_candidates_exec(t: &Vec<char>) -> (r: Option<(Vec<String>, Vec<String>, Vec<String>)>)
    ensures
        match r {
            Some((g, h, c)) => comment_candidates(t@) == Some(
                (strings_view(g@), strings_view(h@), strings_view(c@)),
            ),
            None => comment_candidates(t@) is None,
        },
{
    let l = lower_of(t);
    if !(contains_str(&l, "conservation:") || contains_str(&l, "budget:")) {
        return None;
    }
    let mut marks: Vec<bool> = Vec::new();
    let mut i: usize = 0;
    while i < t.len()
        invariant
            i <= t.len(),
            marks.len() == i,
            forall|k: int| 0 <= k < i ==> #[trigger] marks[k] == (budget_separator())(t[k]),
        decreases t.len() - i,
    {
        let c = t[i];
        marks.push(c == ',' || c == ' ' || c == ';');
        i = i + 1;
    }
    let parts = split_marked(t, &marks, Ghost(budget_separator()));
    let ghost ps = split_where(t@, budget_separator());
    proof {
        assert(Seq::new(parts.len() as nat, |i: int| parts[i]@) =~= ps);
    }
    let g = candidates_exec(&parts, &gamma_keys_exec());
    let h = candidates_exec(&parts, &eta_keys_exec());
    let c = candidates_exec(&parts, &capacity_keys_exec());
    Some((g, h, c))
}

fn si_values_exec(t: &Vec<char>) -> (r: Option<(String, String, String)>)
    ensures
        match r {
            Some((g, h, c)) => si_values(t@) == Some((g@, h@, c@)),
            None => si_values(t@) is None,
        },
{
    let prefix = chars_of("// SI-CAPACITY:");
    if !starts_with_str(t, "// SI-CAPACITY:") {
        return None;
    }
    let rest = sub_chars(t, prefix.len(), t.len());
    let rt = trim_chars(&rest);
    let parts = split_chars(&rt, '/');
    if parts.len() != 3 {
        return None;
    }
    let g = trim_chars(&parts[0]);
    let h = trim_chars(&parts[1]);
    let c = trim_chars(&parts[2]);
    Some((string_from_chars(&g), string_from_chars(&h), string_from_chars(&c)))
}

/// The budget annotations of a source text, line by line (lines split at
/// `\n`, numbered from 1, each trimmed): a line holding `conservation:` or
/// `budget:` (in any case) gives, for each of gamma (`γ`, `gamma`), eta
/// (`η`, `h`, `eta`) and capacity (`c`, `capacity`), the value texts of its
/// parts (split at `,`, spaces and `;`) that start with one of the keys, in
/// order, when each of the three has at least one; a line
/// `// SI-CAPACITY: X/Y/Z` gives its three values. The value of a name is
/// its first candidate that reads as a number.
pub fn budget_annotations(code: &str) -> (r: Vec<(usize, Vec<String>, Vec<String>, Vec<String>, BudgetPattern)>)
    ensures
        annotations_view(r@) == annotations_spec(code@),
{
    let text = chars_of(code);
    let lines = split_chars(&text, '\n');
    let ghost ls = split_on(code@, '\n');
    let mut r: Vec<(usize, Vec<String>, Vec<String>, Vec<String>, BudgetPattern)> = Vec::new();
    let mut k: usize = 0;
    proof {
        assert(ls.take(0) =~= Seq::<Seq<char>>::empty());
        assert(annotations_view(r@) =~= annotations_of_lines(ls.take(0)));
    }
    while k < lines.len()
        invariant
            k <= lines.len() == ls.len(),
            ls == split_on(code@, '\n'),
            forall|i: int| 0 <= i < lines.len() ==> #[trigger] lines[i]@ == ls[i],
            annotations_view(r@) == annotations_of_lines(ls.take(k as int)),
        decreases lines.len() - k,
    {
        proof {
            assert(ls.take(k as int + 1).drop_last() =~= ls.take(k as int));
            assert(ls.take(k as int + 1).last() == ls[k as int]);
        }
        let ghost before = annotations_view(r@);
        let n = k + 1;
        let t = trim_chars(&lines[k]);
        let ghost la = line_annotations(n as int, ls[k as int]);
        let ghost mid: Seq<AnnotationView> = Seq::empty();
        match comment_candidates_exec(&t) {
            Some((g, h, c)) => {
                if g.len() > 0 && h.len() > 0 && c.len() > 0 {
                    let ghost gv = (n as int, strings_view(g@), strings_view(h@), strings_view(c@), BudgetPattern::Comment);
                    r.push((n, g, h, c, BudgetPattern::Comment));
                    proof {
                        mid = seq![gv];
                    }
                }
            },
            None => {},
        }
        proof {
            assert(mid =~= comment_part(n as int, t@));
            assert(annotations_view(r@) =~= before + mid);
        }
        let ghost before2 = annotations_view(r@);
        let ghost tail: Seq<AnnotationView> = Seq::empty();
        match si_values_exec(&t) {
            Some((g, h, c)) => {
                let mut gs: Vec<String> = Vec::new();
                gs.push(g);
                let mut hs: Vec<String> = Vec::new();
                hs.push(h);
                let mut cs: Vec<String> = Vec::new();
                cs.push(c);
                let ghost sv = (n as int, strings_view(gs@), strings_view(hs@), strings_view(cs@), BudgetPattern::SiCapacity);
                r.push((n, gs, hs, cs, BudgetPattern::SiCapacity));
                proof {
                    assert(strings_view(gs@) =~= seq![g@]);
                    assert(strings_view(hs@) =~= seq![h@]);
                    assert(strings_view(cs@) =~= seq![c@]);
                    tail = seq![sv];
                }
            },
            None => {},
        }
        proof {
            assert(tail =~= si_part(n as int, t@));
            assert(annotations_view(r@) =~= before2 + tail);
            assert(mid + tail =~= la);
            assert(annotations_view(r@) =~= before + la);
        }
        k = k + 1;
    }
    proof {
        assert(ls.take(lines.len() as int) =~= ls);
    }
    r
}


proof fn lemma_skip_plain(y: Seq<char>)
    requires
        y.len() > 0,
        !is_value_sep(y[0]),
    ensures
        skip_value_seps(y) == y,
{
}

proof fn lemma_skip_eq(k: Seq<char>, y: Seq<char>)
    requires
        y.len() > 0,
        !is_value_sep(y[0]),
    ensures
        ({
            let lp = k + "="@ + y;
            &&& starts_with(lp, k)
            &&& skip_value_seps(lp.subrange(k.len() as int, lp.len() as int)) == y
        }),
{
    reveal_strlit("=");
    let lp = k + "="@ + y;
    assert(lp.subrange(0, k.len() as int) =~= k);
    let rest = lp.subrange(k.len() as int, lp.len() as int);
    assert(rest.drop_first() =~= y);
    assert(rest[0] == '=');
    assert(is_value_sep(rest[0]));
    assert(skip_value_seps(rest) == skip_value_seps(rest.drop_first()));
    lemma_skip_plain(y);
}

/// Each documented key form names its value: `γ=Y` and `gamma=Y` give the
/// gamma value `Y`, `η=Y`, `h=Y` and `eta=Y` the eta value, `c=Y` the
/// capacity, for any value text `Y` that does not start with `=`, `:` or a
/// space.
pub proof fn lemma_documented_keys(y: Seq<char>)
    requires
        y.len() > 0,
        !is_value_sep(y[0]),
    ensures
        param_text("γ"@ + "="@ + y, gamma_keys()) == Some(y),
        param_text("gamma"@ + "="@ + y, gamma_keys()) == Some(y),
        param_text("η"@ + "="@ + y, eta_keys()) == Some(y),
        param_text("h"@ + "="@ + y, eta_keys()) == Some(y),
        param_text("eta"@ + "="@ + y, eta_keys()) == Some(y),
        param_text("c"@ + "="@ + y, capacity_keys()) == Some(y),
{
    reveal_strlit("γ");
    reveal_strlit("gamma");
    reveal_strlit("η");
    reveal_strlit("h");
    reveal_strlit("eta");
    reveal_strlit("c");
    reveal_strlit("=");
    lemma_skip_eq("γ"@, y);
    lemma_skip_eq("gamma"@, y);
    lemma_skip_eq("η"@, y);
    lemma_skip_eq("h"@, y);
    lemma_skip_eq("eta"@, y);
    lemma_skip_eq("c"@, y);
    let g2 = "gamma"@ + "="@ + y;
    assert(!starts_with(g2, "γ"@)) by {
        assert(g2[0] == 'g');
    }
    let h3 = "eta"@ + "="@ + y;
    assert(!starts_with(h3, "η"@)) by {
        assert(h3[0] == 'e');
    }
    assert(!starts_with(h3, "h"@)) by {
        assert(h3[0] == 'e');
    }
    let h2 = "h"@ + "="@ + y;
    assert(!starts_with(h2, "η"@)) by {
        assert(h2[0] == 'h');
    }
    let gk = gamma_keys().drop_first();
    assert(gk =~= seq!["gamma"@]);
    assert(param_text(g2, gamma_keys()) == param_text(g2, gk));
    assert(param_text(g2, gk) == Some(y));
    let ek = eta_keys().drop_first();
    let ek2 = ek.drop_first();
    assert(ek =~= seq!["h"@, "eta"@]);
    assert(ek2 =~= seq!["eta"@]);
    assert(param_text(h2, eta_keys()) == param_text(h2, ek));
    assert(param_text(h2, ek) == Some(y));
    assert(param_text(h3, eta_keys()) == param_text(h3, ek));
    assert(param_text(h3, ek) == param_text(h3, ek2));
    assert(param_text(h3, ek2) == Some(y));
}

/// Every part that names a value with one of the keys is a candidate for
/// that value.
pub proof fn lemma_candidate_member(parts: Seq<Seq<char>>, keys: Seq<Seq<char>>, i: int, v: Seq<char>)
    requires
        0 <= i < parts.len(),
        param_text(lowercase(trim(parts[i])), keys) == Some(v),
    ensures
        candidates(parts, keys).contains(v),
    decreases parts.len(),
{
    let r = candidates(parts.drop_last(), keys);
    if i == parts.len() - 1 {
        assert(candidates(parts, keys) == r.push(v));
        assert(candidates(parts, keys)[r.len() as int] == v);
    } else {
        assert(parts.drop_last()[i] == parts[i]);
        lemma_candidate_member(parts.drop_last(), keys, i, v);
        let k = choose|k: int| 0 <= k < r.len() && r[k] == v;
        match param_text(lowercase(trim(parts.last())), keys) {
            Some(w) => {
                assert(candidates(parts, keys)[k] == r.push(w)[k]);
            },
            None => {},
        }
    }
}

/// A budget comment line `// conservation: γ=X, η=Y, C=Z` (any line whose
/// lowercase form holds `conservation:` or `budget:` and that has parts
/// reading, once trimmed and lowercased, `γ=X`, `η=Y` and `c=Z`) is an
/// annotation of its line whose gamma, eta and capacity candidates hold X,
/// Y and Z.
pub proof fn lemma_budget_comment_found(
    raw: Seq<char>,
    n: int,
    x: Seq<char>,
    y: Seq<char>,
    z: Seq<char>,
    ig: int,
    ie: int,
    ic: int,
)
    requires
        contains_seq(lowercase(trim(raw)), "conservation:"@) || contains_seq(lowercase(trim(raw)), "budget:"@),
        x.len() > 0 && !is_value_sep(x[0]),
        y.len() > 0 && !is_value_sep(y[0]),
        z.len() > 0 && !is_value_sep(z[0]),
        ({
            let ps = split_where(trim(raw), budget_separator());
            &&& 0 <= ig < ps.len() && lowercase(trim(ps[ig])) == "γ"@ + "="@ + x
            &&& 0 <= ie < ps.len() && lowercase(trim(ps[ie])) == "η"@ + "="@ + y
            &&& 0 <= ic < ps.len() && lowercase(trim(ps[ic])) == "c"@ + "="@ + z
        }),
    ensures
        exists|k: int|
            0 <= k < line_annotations(n, raw).len() && {
                let a = #[trigger] line_annotations(n, raw)[k];
                &&& a.0 == n
                &&& a.1.contains(x)
                &&& a.2.contains(y)
                &&& a.3.contains(z)
                &&& a.4 == BudgetPattern::Comment
            },
{
    let t = trim(raw);
    let ps = split_where(t, budget_separator());
    lemma_documented_keys(x);
    lemma_documented_keys(y);
    lemma_documented_keys(z);
    lemma_candidate_member(ps, gamma_keys(), ig, x);
    lemma_candidate_member(ps, eta_keys(), ie, y);
    lemma_candidate_member(ps, capacity_keys(), ic, z);
    let la = line_annotations(n, raw);
    assert(la[0] == comment_part(n, t)[0]);
}

} // verus!
