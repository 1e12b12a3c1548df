//! Agent-assisted coding: CAPABILITY.toml manifests describe what a crate
//! offers; they are read with a small line-oriented reader.
use vstd::prelude::*;
use crate::text::{
    chars_of, chars_eq_str, find_char, lemma_trim_idempotent, starts_with, starts_with_str,
    string_from_chars, sub_chars, trim, trim_chars,
};

verus! {

/// Split at every occurrence of `c` (as `str::split` with a character
/// pattern: `n` separators give `n + 1` pieces).
pub open spec fn split_on(s: Seq<char>, c: char) -> Seq<Seq<char>>
    decreases s.len(),
{
    if s.len() == 0 {
        seq![Seq::empty()]
    } else {
        let r = split_on(s.drop_last(), c);
        if s.last() == c {
            r.push(Seq::empty())
        } else {
            r.update(r.len() - 1, r.last().push(s.last()))
        }
    }
}

pub proof fn lemma_split_nonempty(s: Seq<char>, c: char)
    ensures
        split_on(s, c).len() >= 1,
    decreases s.len(),
{
    if s.len() > 0 {
        lemma_split_nonempty(s.drop_last(), c);
    }
}

/// Index of the first occurrence of `c`, or -1.
pub open spec fn first_index_of(s: Seq<char>, c: char) -> int
    decreases s.len(),
{
    if s.len() == 0 {
        -1
    } else if s[0] == c {
        0
    } else {
        let r = first_index_of(s.drop_first(), c);
        if r < 0 {
            -1
        } else {
            r + 1
        }
    }
}

proof fn lemma_first_index_of(s: Seq<char>, c: char, i: int)
    requires
        -1 <= i < s.len(),
        i >= 0 ==> s[i] == c,
        forall|k: int| 0 <= k < (if i < 0 { s.len() as int } else { i }) ==> s[k] != c,
    ensures
        first_index_of(s, c) == i,
    decreases s.len(),
{
    if s.len() > 0 && i != 0 {
        let j = if i < 0 {
            -1
        } else {
            i - 1
        };
        assert forall|k: int| 0 <= k < (if j < 0 { s.drop_first().len() as int } else { j }) implies s.drop_first()[k] != c by {
            assert(s.drop_first()[k] == s[k + 1]);
        }
        lemma_first_index_of(s.drop_first(), c, j);
    }
}

/// A `key = value` line: both sides of the first `=`, trimmed.
pub open spec fn parse_kv_spec(line: Seq<char>) -> Option<(Seq<char>, Seq<char>)> {
    let eq = first_index_of(line, '=');
    if eq < 0 {
        None
    } else {
        Some((trim(line.subrange(0, eq)), trim(line.subrange(eq + 1, line.len() as int))))
    }
}

/// A single quote character, which cannot be unquoted.
pub open spec fn lone_quote(s: Seq<char>) -> bool {
    trim(s) == seq!['"'] || trim(s) == seq!['\'']
}

/// Trim, then remove one pair of matching surrounding quotes.
pub open spec fn unquote_spec(s: Seq<char>) -> Seq<char> {
    let t = trim(s);
    if t.len() > 0 && ((t[0] == '"' && t.last() == '"') || (t[0] == '\'' && t.last() == '\'')) {
        t.subrange(1, t.len() - 1)
    } else {
        t
    }
}

/// The pieces between the brackets of a `[..]` array, split at commas.
pub open spec fn array_items(s: Seq<char>) -> Seq<Seq<char>> {
    let t = trim(s);
    split_on(t.subrange(1, t.len() - 1), ',')
}

pub open spec fn is_bracketed(s: Seq<char>) -> bool {
    let t = trim(s);
    t.len() > 0 && t[0] == '[' && t.last() == ']' && t.len() >= 2
}

/// Unquoted non-empty items, in order.
pub open spec fn unquoted_nonempty(items: Seq<Seq<char>>) -> Seq<Seq<char>>
    decreases items.len(),
{
    if items.len() == 0 {
        Seq::empty()
    } else {
        let r = unquoted_nonempty(items.drop_last());
        let u = unquote_spec(trim(items.last()));
        if u.len() > 0 {
            r.push(u)
        } else {
            r
        }
    }
}

/// `["a", "b"]` as a list of strings; anything not in brackets is empty.
pub open spec fn string_array_spec(s: Seq<char>) -> Seq<Seq<char>> {
    if is_bracketed(s) {
        unquoted_nonempty(array_items(s))
    } else {
        Seq::empty()
    }
}

/// Reading the array would meet an item that is a lone quote.
pub open spec fn array_has_lone_quote(s: Seq<char>) -> bool {
    is_bracketed(s) && exists|i: int| 0 <= i < array_items(s).len() && lone_quote(#[trigger] array_items(s)[i])
}

/// Split a `key = value` line at its first `=`, trimming both sides.
pub fn parse_kv_chars(line: &Vec<char>) -> (r: Option<(Vec<char>, Vec<char>)>)
    ensures
        match r {
            Some((k, v)) => parse_kv_spec(line@) == Some((k@, v@)),
            None => parse_kv_spec(line@) is None,
        },
{
    match find_char(line, '=') {
        None => {
            proof {
                lemma_first_index_of(line@, '=', -1);
            }
            None
        },
        Some(eq) => {
            proof {
                lemma_first_index_of(line@, '=', eq as int);
            }
            let k = sub_chars(line, 0, eq);
            let v = sub_chars(line, eq + 1, line.len());
            Some((trim_chars(&k), trim_chars(&v)))
        },
    }
}

/// Split a `key = value` line at its first `=`, trimming both sides.
pub fn parse_kv(line: &str) -> (r: Option<(String, String)>)
    ensures
        match r {
            Some((k, v)) => parse_kv_spec(line@) == Some((k@, v@)),
            None => parse_kv_spec(line@) is None,
        },
{
    let cs = chars_of(line);
    match parse_kv_chars(&cs) {
        Some((k, v)) => Some((string_from_chars(&k), string_from_chars(&v))),
        None => None,
    }
}

/// Trim, then remove one pair of matching surrounding quotes.
pub fn unquote_chars(s: &Vec<char>) -> (r: Vec<char>)
    requires
        !lone_quote(s@),
    ensures
        r@ == unquote_spec(s@),
{
    let t = trim_chars(s);
    let n = t.len();
    if n > 0 && ((t[0] == '"' && t[n - 1] == '"') || (t[0] == '\'' && t[n - 1] == '\'')) {
        if n == 1 {
            proof {
                assert(t@ =~= seq![t@[0]]);
            }
        }
        sub_chars(&t, 1, n - 1)
    } else {
        t
    }
}

/// Trim, then remove one pair of matching surrounding quotes. A lone quote
/// character cannot be unquoted.
pub fn unquote(s: &str) -> (r: String)
    requires
        !lone_quote(s@),
    ensures
        r@ == unquote_spec(s@),
{
    let cs = chars_of(s);
    let u = unquote_chars(&cs);
    string_from_chars(&u)
}

/// The pieces of `s` split at `c`, computed.
pub fn split_chars(s: &Vec<char>, c: char) -> (r: Vec<Vec<char>>)
    ensures
        r.len() == split_on(s@, c).len(),
        forall|i: int| 0 <= i < r.len() ==> #[trigger] r[i]@ == split_on(s@, c)[i],
{
    let mut r: Vec<Vec<char>> = Vec::new();
    let mut cur: Vec<char> = Vec::new();
    let mut i: usize = 0;
    proof {
        assert(s@.take(0) =~= Seq::<char>::empty());
    }
    while i < s.len()
        invariant
            i <= s.len(),
            r.len() + 1 == split_on(s@.take(i as int), c).len(),
            forall|k: int| 0 <= k < r.len() ==> #[trigger] r[k]@ == split_on(s@.take(i as int), c)[k],
            cur@ == split_on(s@.take(i as int), c).last(),
        decreases s.len() - i,
    {
        let ghost pre = s@.take(i as int);
        proof {
            assert(s@.take(i as int + 1).drop_last() =~= pre);
            assert(s@.take(i as int + 1).last() == s@[i as int]);
            lemma_split_nonempty(pre, c);
        }
        if s[i] == c {
            r.push(cur);
            cur = Vec::new();
            proof {
                assert(cur@ =~= Seq::<char>::empty());
            }
        } else {
            cur.push(s[i]);
        }
        i = i + 1;
    }
    proof {
        assert(s@.take(s.len() as int) =~= s@);
        lemma_split_nonempty(s@, c);
    }
    r.push(cur);
    r
}

/// Read `["a", "b"]` as a list of strings: the items between the brackets,
/// split at commas, trimmed and unquoted, without empty ones. Anything not
/// in brackets gives no items.
pub fn parse_string_array_chars(s: &Vec<char>) -> (r: Vec<Vec<char>>)
    requires
        !array_has_lone_quote(s@),
    ensures
        r.len() == string_array_spec(s@).len(),
        forall|i: int| 0 <= i < r.len() ==> #[trigger] r[i]@ == string_array_spec(s@)[i],
{
    let t = trim_chars(s);
    let n = t.len();
    if !(n > 0 && t[0] == '[' && t[n - 1] == ']') || n < 2 {
        let r: Vec<Vec<char>> = Vec::new();
        return r;
    }
    let inner = sub_chars(&t, 1, n - 1);
    let items = split_chars(&inner, ',');
    let ghost its = array_items(s@);
    let mut r: Vec<Vec<char>> = Vec::new();
    let mut k: usize = 0;
    proof {
        assert(its.take(0) =~= Seq::<Seq<char>>::empty());
    }
    while k < items.len()
        invariant
            k <= items.len() == its.len(),
            its == array_items(s@),
            is_bracketed(s@),
            !array_has_lone_quote(s@),
            forall|i: int| 0 <= i < items.len() ==> #[trigger] items[i]@ == its[i],
            r.len() == unquoted_nonempty(its.take(k as int)).len(),
            forall|i: int| 0 <= i < r.len() ==> #[trigger] r[i]@ == unquoted_nonempty(its.take(k as int))[i],
        decreases items.len() - k,
    {
        proof {
            assert(its.take(k as int + 1).drop_last() =~= its.take(k as int));
            assert(its.take(k as int + 1).last() == its[k as int]);
            assert(!lone_quote(its[k as int]));
            lemma_trim_idempotent(its[k as int]);
        }
        let item = trim_chars(&items[k]);
        let u = unquote_chars(&item);
        if u.len() > 0 {
            r.push(u);
        }
        k = k + 1;
    }
    proof {
        assert(its.take(items.len() as int) =~= its);
    }
    r
}

/// Read `["a", "b"]` as a list of strings.
pub fn parse_string_array(s: &str) -> (r: Vec<String>)
    requires
        !array_has_lone_quote(s@),
    ensures
        r.len() == string_array_spec(s@).len(),
        forall|i: int| 0 <= i < r.len() ==> #[trigger] r[i]@ == string_array_spec(s@)[i],
{
    let cs = chars_of(s);
    let items = parse_string_array_chars(&cs);
    let mut r: Vec<String> = Vec::new();
    let mut i: usize = 0;
    while i < items.len()
        invariant
            i <= items.len(),
            r.len() == i,
            items.len() == string_array_spec(s@).len(),
            forall|k: int| 0 <= k < items.len() ==> #[trigger] items[k]@ == string_array_spec(s@)[k],
            forall|k: int| 0 <= k < i ==> #[trigger] r[k]@ == string_array_spec(s@)[k],
        decreases items.len() - i,
    {
        r.push(string_from_chars(&items[i]));
        i = i + 1;
    }
    r
}


/// Parsed representation of a CAPABILITY.toml file.
pub struct CapabilityManifest {
    /// Name of the crate or module.
    pub name: String,
    /// Semantic version string.
    pub version: String,
    /// Human-readable description.
    pub description: String,
    /// Exported capabilities (name and signature or brief description),
    /// each name once, in the order first seen.
    pub capabilities: Vec<(String, String)>,
    /// Dependencies on other capability-bearing crates.
    pub depends: Vec<String>,
    /// Path where this manifest was found.
    pub source_path: String,
}

/// A manifest as plain values: name, version, description, capabilities,
/// dependencies and source path.
pub type ManifestView = (
    Seq<char>,
    Seq<char>,
    Seq<char>,
    Seq<(Seq<char>, Seq<char>)>,
    Seq<Seq<char>>,
    Seq<char>,
);

impl View for CapabilityManifest {
    type V = ManifestView;

    open spec fn view(&self) -> ManifestView {
        (
            self.name@,
            self.version@,
            self.description@,
            Seq::new(
                self.capabilities@.len(),
                |i: int| (self.capabilities@[i].0@, self.capabilities@[i].1@),
            ),
            Seq::new(self.depends@.len(), |i: int| self.depends@[i]@),
            self.source_path@,
        )
    }
}

/// Reader state: section (0 none, 1 `[capability]`, 2 capabilities,
/// 3 depends), name, version, description, capabilities, depends, and
/// whether reading can go on.
pub type ManifestState = (
    int,
    Seq<char>,
    Seq<char>,
    Seq<char>,
    Seq<(Seq<char>, Seq<char>)>,
    Seq<Seq<char>>,
    bool,
);

/// Position of key `k`, or -1.
pub open spec fn key_index(caps: Seq<(Seq<char>, Seq<char>)>, k: Seq<char>) -> int
    decreases caps.len(),
{
    if caps.len() == 0 {
        -1
    } else if caps.last().0 == k {
        caps.len() - 1
    } else {
        key_index(caps.drop_last(), k)
    }
}

/// Map insertion: an existing key gets the new value in place, a new key is
/// appended.
pub open spec fn caps_insert(caps: Seq<(Seq<char>, Seq<char>)>, k: Seq<char>, v: Seq<char>) -> Seq<
    (Seq<char>, Seq<char>),
> {
    let i = key_index(caps, k);
    if i >= 0 {
        caps.update(i, (k, v))
    } else {
        caps.push((k, v))
    }
}

/// The manifest that a finished reader state describes.
pub open spec fn manifest_of(st: ManifestState, source_path: Seq<char>) -> ManifestView {
    (st.1, st.2, st.3, st.4, st.5, source_path)
}

pub open spec fn manifest_start() -> ManifestState {
    (0, Seq::empty(), Seq::empty(), Seq::empty(), Seq::empty(), Seq::empty(), true)
}

/// One line of a CAPABILITY.toml: section headers switch the section; in
/// `[capability]` the `name`, `version` and `description` keys are read;
/// in `[capability.capabilities]` every key is a capability; in
/// `[capability.depends]` the `depends` key holds the array of
/// dependencies. Values are unquoted; a lone quote stops the reading.
pub open spec fn step_line(st: ManifestState, raw: Seq<char>) -> ManifestState {
    let t = trim(raw);
    let (sec, name, version, desc, caps, deps, ok) = st;
    if !ok {
        st
    } else if t == "[capability]"@ {
        (1, name, version, desc, caps, deps, ok)
    } else if t == "[capability.capabilities]"@ {
        (2, name, version, desc, caps, deps, ok)
    } else if starts_with(t, "[capability.depends]"@) {
        (3, name, version, desc, caps, deps, ok)
    } else if starts_with(t, "["@) {
        (0, name, version, desc, caps, deps, ok)
    } else {
        match parse_kv_spec(t) {
            None => st,
            Some((k, v)) => {
                if sec == 1 {
                    if k == "name"@ || k == "version"@ || k == "description"@ {
                        if lone_quote(v) {
                            (sec, name, version, desc, caps, deps, false)
                        } else if k == "name"@ {
                            (sec, unquote_spec(v), version, desc, caps, deps, ok)
                        } else if k == "version"@ {
                            (sec, name, unquote_spec(v), desc, caps, deps, ok)
                        } else {
                            (sec, name, version, unquote_spec(v), caps, deps, ok)
                        }
                    } else {
                        st
                    }
                } else if sec == 2 {
                    if lone_quote(v) {
                        (sec, name, version, desc, caps, deps, false)
                    } else {
                        (sec, name, version, desc, caps_insert(caps, k, unquote_spec(v)), deps, ok)
                    }
                } else if sec == 3 {
                    if k == "depends"@ {
                        if array_has_lone_quote(v) {
                            (sec, name, version, desc, caps, deps, false)
                        } else {
                            (sec, name, version, desc, caps, string_array_spec(v), ok)
                        }
                    } else {
                        st
                    }
                } else {
                    st
                }
            },
        }
    }
}

/// The reader state after a sequence of lines.
pub open spec fn run_lines(lines: Seq<Seq<char>>) -> ManifestState
    decreases lines.len(),
{
    if lines.len() == 0 {
        manifest_start()
    } else {
        step_line(run_lines(lines.drop_last()), lines.last())
    }
}

/// The reader state after the whole file.
pub open spec fn manifest_spec(content: Seq<char>) -> ManifestState {
    run_lines(split_on(content, '\n'))
}

proof fn lemma_stopped_stays(lines: Seq<Seq<char>>, k: int)
    requires
        0 <= k <= lines.len(),
        !run_lines(lines.take(k)).6,
    ensures
        !run_lines(lines).6,
    decreases lines.len() - k,
{
    if k < lines.len() {
        assert(lines.take(k + 1).drop_last() =~= lines.take(k));
        lemma_stopped_stays(lines, k + 1);
    } else {
        assert(lines.take(k) =~= lines);
    }
}

/// No capability name occurs twice.
pub open spec fn keys_distinct(caps: Seq<(Seq<char>, Seq<char>)>) -> bool {
    forall|i: int, j: int| 0 <= i < j < caps.len() ==> #[trigger] caps[i].0 != #[trigger] caps[j].0
}

proof fn lemma_key_index_found(caps: Seq<(Seq<char>, Seq<char>)>, k: Seq<char>)
    ensures
        -1 <= key_index(caps, k) < caps.len(),
        key_index(caps, k) >= 0 ==> caps[key_index(caps, k)].0 == k,
        key_index(caps, k) < 0 ==> forall|j: int| 0 <= j < caps.len() ==> #[trigger] caps[j].0 != k,
    decreases caps.len(),
{
    if caps.len() > 0 {
        lemma_key_index_found(caps.drop_last(), k);
        if caps.last().0 != k {
            assert forall|j: int| 0 <= j < caps.len() - 1 implies #[trigger] caps[j].0
                == caps.drop_last()[j].0 by {}
        }
    }
}

proof fn lemma_caps_insert_distinct(caps: Seq<(Seq<char>, Seq<char>)>, k: Seq<char>, v: Seq<char>)
    requires
        keys_distinct(caps),
    ensures
        keys_distinct(caps_insert(caps, k, v)),
{
    lemma_key_index_found(caps, k);
    let r = caps_insert(caps, k, v);
    let x = key_index(caps, k);
    assert forall|i: int, j: int| 0 <= i < j < r.len() implies #[trigger] r[i].0 != #[trigger] r[j].0 by {
        if x < 0 {
            if j == caps.len() {
                assert(caps[i].0 != k);
            } else {
                assert(caps[i].0 != caps[j].0);
            }
        } else {
            assert(r[i].0 == caps[i].0 && r[j].0 == caps[j].0);
            assert(caps[i].0 != caps[j].0);
        }
    }
}

proof fn lemma_run_lines_distinct(lines: Seq<Seq<char>>)
    ensures
        keys_distinct(run_lines(lines).4),
    decreases lines.len(),
{
    if lines.len() > 0 {
        lemma_run_lines_distinct(lines.drop_last());
        let st = run_lines(lines.drop_last());
        let t = trim(lines.last());
        match parse_kv_spec(t) {
            Some((k, v)) => {
                lemma_caps_insert_distinct(st.4, k, unquote_spec(v));
            },
            None => {},
        }
    }
}

/// A manifest lists each capability name once (a later entry with the same
/// name replaces the value of the earlier one).
pub proof fn lemma_capability_names_distinct(content: Seq<char>)
    ensures
        keys_distinct(manifest_spec(content).4),
{
    lemma_run_lines_distinct(split_on(content, '\n'));
}

pub open spec fn caps_view(caps: Seq<(Vec<char>, Vec<char>)>) -> Seq<(Seq<char>, Seq<char>)> {
    Seq::new(caps.len(), |i: int| (caps[i].0@, caps[i].1@))
}

pub open spec fn seqs_view(v: Seq<Vec<char>>) -> Seq<Seq<char>> {
    Seq::new(v.len(), |i: int| v[i]@)
}

proof fn lemma_key_index(caps: Seq<(Seq<char>, Seq<char>)>, k: Seq<char>, i: int)
    requires
        -1 <= i < caps.len(),
        i >= 0 ==> caps[i].0 == k,
        forall|j: int| i < j < caps.len() ==> caps[j].0 != k,
    ensures
        key_index(caps, k) == i,
    decreases caps.len(),
{
    if caps.len() > 0 && i < caps.len() - 1 {
        lemma_key_index(caps.drop_last(), k, i);
    }
}

fn caps_insert_exec(caps: &mut Vec<(Vec<char>, Vec<char>)>, k: Vec<char>, v: Vec<char>)
    ensures
        caps_view(final(caps)@) == caps_insert(caps_view(old(caps)@), k@, v@),
{
    let ghost c0 = caps_view(caps@);
    let ghost kv = (k@, v@);
    let mut i: usize = caps.len();
    while i > 0
        invariant
            i <= caps.len(),
            c0 == caps_view(caps@),
            kv == (k@, v@),
            c0 == caps_view(old(caps)@),
            forall|j: int| i <= j < caps.len() ==> c0[j].0 != k@,
        decreases i,
    {
        if crate::text::chars_eq(&caps[i - 1].0, &k) {
            proof {
                lemma_key_index(c0, k@, i - 1);
            }
            caps.set(i - 1, (k, v));
            proof {
                assert(caps_view(caps@) =~= c0.update(i - 1, kv));
            }
            return;
        }
        i = i - 1;
    }
    proof {
        lemma_key_index(c0, k@, -1);
    }
    caps.push((k, v));
    proof {
        assert(caps_view(caps@) =~= c0.push(kv));
    }
}

fn is_lone_quote(v: &Vec<char>) -> (r: bool)
    ensures
        r == lone_quote(v@),
{
    let t = trim_chars(v);
    if t.len() == 1 {
        assert(t@ =~= seq![t@[0]]);
    }
    t.len() == 1 && (t[0] == '"' || t[0] == '\'')
}

fn array_lone_quote(v: &Vec<char>) -> (r: bool)
    ensures
        r == array_has_lone_quote(v@),
{
    let t = trim_chars(v);
    let n = t.len();
    if !(n > 0 && t[0] == '[' && t[n - 1] == ']') || n < 2 {
        return false;
    }
    let inner = sub_chars(&t, 1, n - 1);
    let items = split_chars(&inner, ',');
    let mut k: usize = 0;
    while k < items.len()
        invariant
            k <= items.len() == array_items(v@).len(),
            is_bracketed(v@),
            forall|i: int| 0 <= i < items.len() ==> #[trigger] items[i]@ == array_items(v@)[i],
            forall|i: int| 0 <= i < k ==> !lone_quote(#[trigger] array_items(v@)[i]),
        decreases items.len() - k,
    {
        if is_lone_quote(&items[k]) {
            return true;
        }
        k = k + 1;
    }
    false
}

/// Read a CAPABILITY.toml (its text and the path it was found at).
///
/// The reader knows a `[capability]` table (`name`, `version`,
/// `description`), a `[capability.capabilities]` table (every key is a
/// capability) and a `[capability.depends]` table (`depends = [..]`).
/// Values are unquoted. `None` when a value read is a lone quote character,
/// which cannot be unquoted.
pub fn parse_capability_toml(content: &str, source_path: &str) -> (r: Option<CapabilityManifest>)
    ensures
        r is None <==> !manifest_spec(content@).6,
        r matches Some(m) ==> m@ == manifest_of(manifest_spec(content@), source_path@),
{
    let text = chars_of(content);
    let lines = split_chars(&text, '\n');
    let ghost ls = split_on(content@, '\n');
    let mut section: u8 = 0;
    let mut name: Vec<char> = Vec::new();
    let mut version: Vec<char> = Vec::new();
    let mut description: Vec<char> = Vec::new();
    let mut caps: Vec<(Vec<char>, Vec<char>)> = Vec::new();
    let mut depends: Vec<Vec<char>> = Vec::new();
    let mut k: usize = 0;
    proof {
        assert(ls.take(0) =~= Seq::<Seq<char>>::empty());
        assert(caps_view(caps@) =~= Seq::<(Seq<char>, Seq<char>)>::empty());
        assert(seqs_view(depends@) =~= Seq::<Seq<char>>::empty());
        assert(name@ =~= Seq::<char>::empty());
        assert(version@ =~= Seq::<char>::empty());
        assert(description@ =~= Seq::<char>::empty());
    }
    while k < lines.len()
        invariant
            k <= lines.len() == ls.len(),
            ls == split_on(content@, '\n'),
            forall|i: int| 0 <= i < lines.len() ==> #[trigger] lines[i]@ == ls[i],
            run_lines(ls.take(k as int)) == (
                section as int,
                name@,
                version@,
                description@,
                caps_view(caps@),
                seqs_view(depends@),
                true,
            ),
            section <= 3,
        decreases lines.len() - k,
    {
        let ghost st = run_lines(ls.take(k as int));
        proof {
            assert(ls.take(k as int + 1).drop_last() =~= ls.take(k as int));
            assert(ls.take(k as int + 1).last() == ls[k as int]);
            lemma_trim_idempotent(ls[k as int]);
        }
        let t = trim_chars(&lines[k]);
        if chars_eq_str(&t, "[capability]") {
            section = 1;
        } else if chars_eq_str(&t, "[capability.capabilities]") {
            section = 2;
        } else if starts_with_str(&t, "[capability.depends]") {
            section = 3;
        } else if starts_with_str(&t, "[") {
            section = 0;
        } else {
            match parse_kv_chars(&t) {
                None => {},
                Some((key, val)) => {
                    if section == 1 {
                        let is_name = chars_eq_str(&key, "name");
                        let is_version = chars_eq_str(&key, "version");
                        let is_desc = chars_eq_str(&key, "description");
                        if is_name || is_version || is_desc {
                            if is_lone_quote(&val) {
                                proof {
                                    lemma_stopped_stays(ls, k as int + 1);
                                }
                                return None;
                            }
                            let u = unquote_chars(&val);
                            if is_name {
                                name = u;
                            } else if is_version {
                                version = u;
                            } else {
                                description = u;
                            }
                        }
                    } else if section == 2 {
                        if is_lone_quote(&val) {
                            proof {
                                lemma_stopped_stays(ls, k as int + 1);
                            }
                            return None;
                        }
                        let u = unquote_chars(&val);
                        caps_insert_exec(&mut caps, key, u);
                    } else if section == 3 {
                        if chars_eq_str(&key, "depends") {
                            if array_lone_quote(&val) {
                                proof {
                                    lemma_stopped_stays(ls, k as int + 1);
                                }
                                return None;
                            }
                            let items = parse_string_array_chars(&val);
                            depends = items;
                            proof {
                                assert(seqs_view(depends@) =~= string_array_spec(val@));
                            }
                        }
                    }
                },
            }
        }
        k = k + 1;
    }
    proof {
        assert(ls.take(lines.len() as int) =~= ls);
    }
    let mut cap_strings: Vec<(String, String)> = Vec::new();
    let mut i: usize = 0;
    while i < caps.len()
        invariant
            i <= caps.len(),
            cap_strings.len() == i,
            forall|j: int|
                0 <= j < i ==> (#[trigger] cap_strings[j]).0@ == caps[j].0@ && cap_strings[j].1@ == caps[j].1@,
        decreases caps.len() - i,
    {
        cap_strings.push((string_from_chars(&caps[i].0), string_from_chars(&caps[i].1)));
        i = i + 1;
    }
    let mut dep_strings: Vec<String> = Vec::new();
    let mut i: usize = 0;
    while i < depends.len()
        invariant
            i <= depends.len(),
            dep_strings.len() == i,
            forall|j: int| 0 <= j < i ==> #[trigger] dep_strings[j]@ == depends[j]@,
        decreases depends.len() - i,
    {
        dep_strings.push(string_from_chars(&depends[i]));
        i = i + 1;
    }
    let m = CapabilityManifest {
        name: string_from_chars(&name),
        version: string_from_chars(&version),
        description: string_from_chars(&description),
        capabilities: cap_strings,
        depends: dep_strings,
        source_path: String::from_str(source_path),
    };
    proof {
        assert(m@.3 =~= caps_view(caps@));
        assert(m@.4 =~= seqs_view(depends@));
    }
    Some(m)
}


/// The name that marks a capability manifest.
pub open spec fn manifest_file_name() -> Seq<char> {
    "CAPABILITY.toml"@
}

/// Whether the last component of a `/`-separated path (the text after the
/// last `/`) is `CAPABILITY.toml`.
pub open spec fn is_capability_path(p: Seq<char>) -> bool {
    let n = manifest_file_name().len();
    ||| p == manifest_file_name()
    ||| (p.len() > n && p[p.len() - n - 1] == '/' && p.subrange(p.len() - n, p.len() as int)
        == manifest_file_name())
}

/// Whether `path` names a CAPABILITY.toml file.
pub fn is_capability_path_exec(path: &str) -> (r: bool)
    ensures
        r == is_capability_path(path@),
{
    let p = chars_of(path);
    let name = chars_of("CAPABILITY.toml");
    proof {
        reveal_strlit("CAPABILITY.toml");
    }
    let n = name.len();
    if p.len() < n {
        return false;
    }
    let start = p.len() - n;
    let tail = sub_chars(&p, start, p.len());
    if !crate::text::chars_eq(&tail, &name) {
        proof {
            if p@ == manifest_file_name() {
                assert(tail@ =~= p@);
            }
        }
        return false;
    }
    if start == 0 {
        assert(p@ =~= tail@);
        return true;
    }
    if p[start - 1] == '/' {
        true
    } else {
        proof {
            assert(p@ != manifest_file_name());
        }
        false
    }
}

/// Whether a directory met in a workspace walk is entered: hidden
/// directories, `target` and `node_modules` are skipped.
pub fn should_descend(dir_name: &str) -> (r: bool)
    ensures
        r == !(starts_with(dir_name@, "."@) || dir_name@ == "target"@ || dir_name@
            == "node_modules"@),
{
    let d = chars_of(dir_name);
    let hidden = starts_with_str(&d, ".");
    let target = chars_eq_str(&d, "target");
    let modules = chars_eq_str(&d, "node_modules");
    !(hidden || target || modules)
}

pub open spec fn opt_string_view(o: Option<String>) -> Option<Seq<char>> {
    match o {
        Some(s) => Some(s@),
        None => None,
    }
}

/// `read` was asked for the file at `p` and gave `c` (the text, or `None`
/// where it could not be read).
pub open spec fn read_gave<F: Fn(&str) -> Option<String>>(
    read: F,
    p: Seq<char>,
    c: Option<Seq<char>>,
) -> bool {
    exists|s: &str, out: Option<String>|
        s@ == p && #[trigger] read.ensures((s,), out) && opt_string_view(out) == c
}

pub open spec fn strings_view(v: Seq<String>) -> Seq<Seq<char>> {
    Seq::new(v.len(), |i: int| v[i]@)
}

pub open spec fn manifests_view(v: Seq<CapabilityManifest>) -> Seq<ManifestView> {
    Seq::new(v.len(), |i: int| v[i]@)
}

/// The manifests of a walk: for each path, in order, that names a
/// CAPABILITY.toml whose text could be read (`contents`) and read as a
/// manifest, that manifest.
pub open spec fn scan_spec(paths: Seq<Seq<char>>, contents: Seq<Option<Seq<char>>>) -> Seq<
    ManifestView,
>
    decreases paths.len(),
{
    if paths.len() == 0 {
        Seq::empty()
    } else {
        let prev = scan_spec(paths.drop_last(), contents.drop_last());
        let p = paths.last();
        let c = contents.last();
        if is_capability_path(p) && c is Some && manifest_spec(c->0).6 {
            prev.push(manifest_of(manifest_spec(c->0), p))
        } else {
            prev
        }
    }
}

/// Collect the capability manifests of a workspace, given the paths of its
/// files (as a workspace walk lists them) and a `read` that gives the text
/// of a file. Only the CAPABILITY.toml files are read; those that cannot be
/// read, or not read as a manifest, are left out.
pub fn scan_workspace_capabilities<F: Fn(&str) -> Option<String>>(
    paths: &Vec<String>,
    read: F,
) -> (r: Vec<CapabilityManifest>)
    requires
        forall|p: &str| #[trigger] read.requires((p,)),
    ensures
        exists|cs: Seq<Option<Seq<char>>>|
            {
                &&& cs.len() == paths.len()
                &&& forall|i: int|
                    0 <= i < paths.len() && is_capability_path(paths@[i]@) ==> read_gave(
                        read,
                        paths@[i]@,
                        #[trigger] cs[i],
                    )
                &&& manifests_view(r@) == scan_spec(strings_view(paths@), cs)
            },
{
    let mut r: Vec<CapabilityManifest> = Vec::new();
    let ghost mut cs: Seq<Option<Seq<char>>> = Seq::empty();
    let mut i: usize = 0;
    while i < paths.len()
        invariant
            i <= paths.len(),
            cs.len() == i,
            forall|p: &str| #[trigger] read.requires((p,)),
            forall|j: int|
                0 <= j < i && is_capability_path(paths@[j]@) ==> read_gave(
                    read,
                    paths@[j]@,
                    #[trigger] cs[j],
                ),
            manifests_view(r@) == scan_spec(strings_view(paths@).take(i as int), cs),
        decreases paths.len() - i,
    {
        let ghost prev_r = r@;
        let p = paths[i].as_str();
        let ghost c: Option<Seq<char>> = None;
        if is_capability_path_exec(p) {
            let out = read(p);
            proof {
                c = opt_string_view(out);
                assert(read_gave(read, paths@[i as int]@, c));
            }
            match out {
                Some(text) => {
                    match parse_capability_toml(text.as_str(), p) {
                        Some(m) => {
                            r.push(m);
                        },
                        None => {},
                    }
                },
                None => {},
            }
        }
        proof {
            let ps = strings_view(paths@).take(i as int + 1);
            assert(ps.drop_last() =~= strings_view(paths@).take(i as int));
            assert(cs.push(c).drop_last() =~= cs);
            if r@.len() > prev_r.len() {
                assert(manifests_view(r@) =~= manifests_view(prev_r).push(r@.last()@));
            } else {
                assert(manifests_view(r@) =~= manifests_view(prev_r));
            }
            cs = cs.push(c);
        }
        i = i + 1;
    }
    proof {
        assert(strings_view(paths@).take(paths.len() as int) =~= strings_view(paths@));
    }
    r
}


/// Position of the last file whose stem is `name`, or -1: among files with
/// the same stem the last one is the one an import resolves to.
pub open spec fn stem_index(stems: Seq<Seq<char>>, name: Seq<char>) -> int
    decreases stems.len(),
{
    if stems.len() == 0 {
        -1
    } else if stems.last() == name {
        stems.len() - 1
    } else {
        stem_index(stems.drop_last(), name)
    }
}

/// File `i`, whose imports are `imps`, depends on file `j`: `j` is another
/// file and one of the imports resolves to it.
pub open spec fn depends_on(stems: Seq<Seq<char>>, imps: Seq<Seq<char>>, i: int, j: int) -> bool {
    j != i && exists|k: int| 0 <= k < imps.len() && #[trigger] stem_index(stems, imps[k]) == j
}

/// How many of the files `0..m` file `i` depends on.
pub open spec fn depended_count(stems: Seq<Seq<char>>, imps: Seq<Seq<char>>, i: int, m: int) -> nat
    decreases m,
{
    if m <= 0 {
        0
    } else {
        depended_count(stems, imps, i, m - 1) + if depends_on(stems, imps, i, m - 1) {
            1nat
        } else {
            0nat
        }
    }
}

/// Inbound degree of file `j`: how many files depend on it.
pub open spec fn in_degree(stems: Seq<Seq<char>>, imports: Seq<Seq<Seq<char>>>, j: int) -> nat
    decreases imports.len(),
{
    if imports.len() == 0 {
        0
    } else {
        in_degree(stems, imports.drop_last(), j) + if depends_on(
            stems,
            imports.last(),
            imports.len() - 1,
            j,
        ) {
            1nat
        } else {
            0nat
        }
    }
}

/// Outbound degree of file `i`: how many files it depends on.
pub open spec fn out_degree(stems: Seq<Seq<char>>, imports: Seq<Seq<Seq<char>>>, i: int) -> nat {
    depended_count(stems, imports[i], i, stems.len() as int)
}

proof fn lemma_stem_index(stems: Seq<Seq<char>>, name: Seq<char>, i: int)
    requires
        -1 <= i < stems.len(),
        i >= 0 ==> stems[i] == name,
        forall|j: int| i < j < stems.len() ==> stems[j] != name,
    ensures
        stem_index(stems, name) == i,
    decreases stems.len(),
{
    if stems.len() > 0 && i < stems.len() - 1 {
        lemma_stem_index(stems.drop_last(), name, i);
    }
}

pub open spec fn imports_view(v: Seq<Vec<String>>) -> Seq<Seq<Seq<char>>> {
    Seq::new(v.len(), |i: int| strings_view(v[i]@))
}

fn stem_lookup(stems: &Vec<String>, name: &String) -> (r: Option<usize>)
    ensures
        match r {
            Some(j) => j < stems.len() && stem_index(strings_view(stems@), name@) == j,
            None => stem_index(strings_view(stems@), name@) == -1,
        },
{
    let ghost sv = strings_view(stems@);
    let mut j: usize = stems.len();
    while j > 0
        invariant
            j <= stems.len(),
            sv == strings_view(stems@),
            forall|k: int| j <= k < stems.len() ==> sv[k] != name@,
        decreases j,
    {
        if stems[j - 1] == *name {
            proof {
                lemma_stem_index(sv, name@, j - 1);
            }
            return Some(j - 1);
        }
        j = j - 1;
    }
    proof {
        lemma_stem_index(sv, name@, -1);
    }
    None
}

/// Which files file `i` depends on: entry `j` is set exactly when
/// `depends_on(.., i, j)`.
fn dependencies_of(stems: &Vec<String>, imps: &Vec<String>, i: usize) -> (hit: Vec<bool>)
    ensures
        hit.len() == stems.len(),
        forall|j: int|
            0 <= j < stems.len() ==> #[trigger] hit[j] == depends_on(
                strings_view(stems@),
                strings_view(imps@),
                i as int,
                j,
            ),
{
    let n = stems.len();
    let ghost sv = strings_view(stems@);
    let ghost ims = strings_view(imps@);
    let mut hit: Vec<bool> = Vec::new();
    let mut z: usize = 0;
    while z < n
        invariant
            z <= n,
            hit.len() == z,
            forall|j: int| 0 <= j < z ==> !hit[j],
        decreases n - z,
    {
        hit.push(false);
        z = z + 1;
    }
    let mut k: usize = 0;
    while k < imps.len()
        invariant
            n == stems.len(),
            sv == strings_view(stems@),
            ims == strings_view(imps@),
            k <= imps.len(),
            hit.len() == n,
            forall|j: int|
                0 <= j < n ==> #[trigger] hit[j] == depends_on(sv, ims.take(k as int), i as int, j),
        decreases imps.len() - k,
    {
        let ghost pre = ims.take(k as int);
        let ghost cur = ims.take(k as int + 1);
        let found = stem_lookup(stems, &imps[k]);
        let ghost t: int = match found {
            Some(x) => x as int,
            None => -1,
        };
        proof {
            assert(cur[k as int] == ims[k as int]);
            assert(stem_index(sv, cur[k as int]) == t);
            assert forall|j: int| 0 <= j < n implies depends_on(sv, cur, i as int, j) == (
            depends_on(sv, pre, i as int, j) || (j == t && j != i)) by {
                if depends_on(sv, pre, i as int, j) {
                    let kk = choose|kk: int| 0 <= kk < pre.len() && #[trigger] stem_index(sv, pre[kk]) == j;
                    assert(cur[kk] == pre[kk]);
                }
                if depends_on(sv, cur, i as int, j) {
                    let kk = choose|kk: int| 0 <= kk < cur.len() && #[trigger] stem_index(sv, cur[kk]) == j;
                    if kk < k {
                        assert(pre[kk] == cur[kk]);
                    }
                }
            }
        }
        match found {
            Some(x) => {
                if x != i {
                    hit.set(x, true);
                }
            },
            None => {},
        }
        k = k + 1;
    }
    proof {
        assert(ims.take(imps.len() as int) =~= ims);
    }
    hit
}

/// Inbound and outbound degrees of the files of an import graph. File `i`
/// has stem `stems[i]` (its name without extension) and imports the names
/// `imports[i]`; an import resolves to the last file with that stem. The
/// inbound degree of a file is the number of other files with an import
/// that resolves to it; the outbound degree is the number of other files
/// that its imports resolve to (an import of the file itself, or of no file,
/// counts nowhere, and a file imported twice counts once).
pub fn import_degrees(stems: &Vec<String>, imports: &Vec<Vec<String>>) -> (r: (
    Vec<usize>,
    Vec<usize>,
))
    requires
        stems.len() == imports.len(),
    ensures
        r.0.len() == stems.len(),
        r.1.len() == stems.len(),
        forall|j: int|
            0 <= j < stems.len() ==> #[trigger] r.0[j] == in_degree(
                strings_view(stems@),
                imports_view(imports@),
                j,
            ),
        forall|i: int|
            0 <= i < stems.len() ==> #[trigger] r.1[i] == out_degree(
                strings_view(stems@),
                imports_view(imports@),
                i,
            ),
{
    let n = stems.len();
    let ghost sv = strings_view(stems@);
    let ghost iv = imports_view(imports@);
    let mut inbound: Vec<usize> = Vec::new();
    let mut outbound: Vec<usize> = Vec::new();
    let mut z: usize = 0;
    while z < n
        invariant
            z <= n,
            inbound.len() == z,
            outbound.len() == z,
            forall|j: int| 0 <= j < z ==> inbound[j] == 0 && outbound[j] == 0,
        decreases n - z,
    {
        inbound.push(0);
        outbound.push(0);
        z = z + 1;
    }
    proof {
        assert forall|j: int| 0 <= j < n implies #[trigger] inbound[j] == in_degree(sv, iv.take(0), j) by {
            assert(iv.take(0).len() == 0);
        }
    }
    let mut i: usize = 0;
    while i < n
        invariant
            i <= n == stems.len() == imports.len(),
            sv == strings_view(stems@),
            iv == imports_view(imports@),
            inbound.len() == n,
            outbound.len() == n,
            forall|j: int| 0 <= j < n ==> #[trigger] inbound[j] == in_degree(sv, iv.take(i as int), j),
            forall|j: int| 0 <= j < n ==> #[trigger] inbound[j] <= i,
            forall|j: int| 0 <= j < i ==> #[trigger] outbound[j] == out_degree(sv, iv, j),
        decreases n - i,
    {
        proof {
            assert(iv[i as int] == strings_view(imports@[i as int]@));
        }
        let hit = dependencies_of(stems, &imports[i], i);
        let ghost before = inbound@;
        proof {
            assert(iv.take(i as int + 1).drop_last() =~= iv.take(i as int));
            assert(iv.take(i as int + 1).last() == iv[i as int]);
        }
        let mut j: usize = 0;
        let mut out: usize = 0;
        while j < n
            invariant
                i < n == stems.len(),
                j <= n,
                hit.len() == n,
                inbound.len() == n,
                before.len() == n,
                forall|x: int| 0 <= x < n ==> #[trigger] before[x] <= i,
                forall|x: int|
                    0 <= x < n ==> #[trigger] hit[x] == depends_on(sv, iv[i as int], i as int, x),
                forall|x: int|
                    0 <= x < n ==> #[trigger] inbound[x] == before[x] + if x < j && hit[x] {
                        1int
                    } else {
                        0int
                    },
                out == depended_count(sv, iv[i as int], i as int, j as int),
                out <= j,
            decreases n - j,
        {
            if hit[j] {
                let v = inbound[j];
                inbound.set(j, v + 1);
                out = out + 1;
            }
            j = j + 1;
        }
        outbound.set(i, out);
        i = i + 1;
    }
    proof {
        assert(iv.take(n as int) =~= iv);
    }
    (inbound, outbound)
}


/// The files that file `i` depends on, among `0..m`, in increasing order.
pub open spec fn dependency_list(stems: Seq<Seq<char>>, imps: Seq<Seq<char>>, i: int, m: int) -> Seq<int>
    decreases m,
{
    if m <= 0 {
        Seq::empty()
    } else {
        let r = dependency_list(stems, imps, i, m - 1);
        if depends_on(stems, imps, i, m - 1) {
            r.push(m - 1)
        } else {
            r
        }
    }
}

pub open spec fn positions_view(v: Seq<usize>) -> Seq<int> {
    Seq::new(v.len(), |k: int| v[k] as int)
}

/// For each file, the other files its imports resolve to, each once and in
/// increasing order (an import resolves to the last file with that stem).
pub fn dependency_lists(stems: &Vec<String>, imports: &Vec<Vec<String>>) -> (r: Vec<Vec<usize>>)
    requires
        stems.len() == imports.len(),
    ensures
        r.len() == stems.len(),
        forall|i: int|
            0 <= i < r.len() ==> positions_view(#[trigger] r[i]@) == dependency_list(
                strings_view(stems@),
                imports_view(imports@)[i],
                i,
                stems.len() as int,
            ),
{
    let n = stems.len();
    let ghost sv = strings_view(stems@);
    let ghost iv = imports_view(imports@);
    let mut r: Vec<Vec<usize>> = Vec::new();
    let mut i: usize = 0;
    while i < n
        invariant
            i <= n == stems.len() == imports.len(),
            sv == strings_view(stems@),
            iv == imports_view(imports@),
            r.len() == i,
            forall|x: int|
                0 <= x < i ==> positions_view(#[trigger] r[x]@) == dependency_list(sv, iv[x], x, n as int),
        decreases n - i,
    {
        proof {
            assert(iv[i as int] == strings_view(imports@[i as int]@));
        }
        let hit = dependencies_of(stems, &imports[i], i);
        let mut deps: Vec<usize> = Vec::new();
        let mut j: usize = 0;
        while j < n
            invariant
                i < n == stems.len(),
                j <= n,
                hit.len() == n,
                forall|x: int| 0 <= x < n ==> #[trigger] hit[x] == depends_on(sv, iv[i as int], i as int, x),
                positions_view(deps@) == dependency_list(sv, iv[i as int], i as int, j as int),
            decreases n - j,
        {
            if hit[j] {
                let ghost before = deps@;
                deps.push(j);
                proof {
                    assert(positions_view(deps@) =~= positions_view(before).push(j as int));
                }
            }
            j = j + 1;
        }
        r.push(deps);
        i = i + 1;
    }
    r
}

} // verus!
