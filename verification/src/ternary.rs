//! Editing patterns as ternary signals: +1 (code added), -1 (code deleted),
//! 0 (idle). Per-file histories classify a coding style into a species.
use vstd::prelude::*;
use crate::text::{chars_eq, chars_of};

verus! {

/// A ternary editing signal.
#[derive(Debug, Clone, Copy, PartialEq, Eq, Structural, Hash)]
pub enum EditTrit {
    /// -1: code removed
    Deleted,
    /// 0: no change
    Idle,
    /// +1: code added
    Added,
}

pub open spec fn trit_value(t: EditTrit) -> int {
    match t {
        EditTrit::Deleted => -1,
        EditTrit::Idle => 0,
        EditTrit::Added => 1,
    }
}

impl EditTrit {
    /// The signal as a number: -1, 0 or +1.
    pub fn value(&self) -> (v: i8)
        ensures
            v == trit_value(*self),
    {
        match self {
            EditTrit::Deleted => -1,
            EditTrit::Idle => 0,
            EditTrit::Added => 1,
        }
    }
}

/// Tracks editing patterns over time: per file, the most recent signals,
/// at most `window` of them.
pub struct EditingTracker {
    files: Vec<String>,
    histories: Vec<Vec<EditTrit>>,
    window: usize,
}

/// Position of `f` in the file list, or -1.
pub open spec fn file_index(files: Seq<Seq<char>>, f: Seq<char>) -> int
    decreases files.len(),
{
    if files.len() == 0 {
        -1
    } else if files.last() == f {
        files.len() - 1
    } else {
        file_index(files.drop_last(), f)
    }
}

/// The window kept after recording `t` on top of `h`: the oldest signal
/// goes when the window would overflow.
pub open spec fn windowed_push(h: Seq<EditTrit>, t: EditTrit, window: usize) -> Seq<EditTrit> {
    let p = h.push(t);
    if p.len() > window {
        p.drop_first()
    } else {
        p
    }
}

/// Number of occurrences of a signal.
pub open spec fn count_trit(h: Seq<EditTrit>, t: EditTrit) -> nat
    decreases h.len(),
{
    if h.len() == 0 {
        0
    } else {
        count_trit(h.drop_last(), t) + if h.last() == t {
            1nat
        } else {
            0nat
        }
    }
}

impl EditingTracker {
    /// The tracked files, in the order they were first recorded.
    pub closed spec fn tracked_files(&self) -> Seq<Seq<char>> {
        Seq::new(self.files@.len(), |i: int| self.files@[i]@)
    }

    /// The recent signals of a file (empty when it was never recorded).
    pub closed spec fn history(&self, f: Seq<char>) -> Seq<EditTrit> {
        let i = file_index(self.tracked_files(), f);
        if i >= 0 {
            self.histories@[i]@
        } else {
            Seq::empty()
        }
    }

    /// The maximal number of signals kept per file.
    pub closed spec fn window(&self) -> usize {
        self.window
    }

    /// Internal consistency: one history per file, no file twice, no history
    /// longer than the window.
    pub closed spec fn wf(&self) -> bool {
        &&& self.files@.len() == self.histories@.len()
        &&& forall|i: int, j: int|
            0 <= i < j < self.files@.len() ==> #[trigger] self.files@[i]@ != #[trigger] self.files@[j]@
        &&& forall|i: int| 0 <= i < self.histories@.len() ==> #[trigger] self.histories@[i]@.len() <= self.window
    }

    pub fn new(window: usize) -> (t: Self)
        ensures
            t.wf(),
            t.window() == window,
            t.tracked_files() == Seq::<Seq<char>>::empty(),
            forall|f: Seq<char>| #[trigger] t.history(f) == Seq::<EditTrit>::empty(),
    {
        let t = EditingTracker { files: Vec::new(), histories: Vec::new(), window };
        assert(t.tracked_files() =~= Seq::<Seq<char>>::empty());
        t
    }

    /// However many signals were recorded, a file keeps at most `window`
    /// of them.
    pub proof fn lemma_history_within_window(&self, f: Seq<char>)
        requires
            self.wf(),
        ensures
            self.history(f).len() <= self.window(),
    {
        self.lemma_file_index(f);
    }

    proof fn lemma_file_index(&self, f: Seq<char>)
        requires
            self.wf(),
        ensures
            -1 <= file_index(self.tracked_files(), f) < self.files@.len(),
            file_index(self.tracked_files(), f) >= 0 ==> self.tracked_files()[file_index(self.tracked_files(), f)] == f,
            file_index(self.tracked_files(), f) < 0 ==> !self.tracked_files().contains(f),
    {
        lemma_file_index_props(self.tracked_files(), f);
    }

    fn find(&self, file: &Vec<char>) -> (r: Option<usize>)
        requires
            self.wf(),
        ensures
            match r {
                Some(k) => k < self.files@.len() && k as int == file_index(self.tracked_files(), file@),
                None => file_index(self.tracked_files(), file@) == -1,
            },
    {
        let mut k: usize = self.files.len();
        while k > 0
            invariant
                k <= self.files@.len(),
                forall|j: int| k <= j < self.files@.len() ==> self.files@[j]@ != file@,
            decreases k,
        {
            let name = chars_of(self.files[k - 1].as_str());
            if chars_eq(&name, file) {
                proof {
                    lemma_file_index_at(self.tracked_files(), file@, k - 1);
                }
                return Some(k - 1);
            }
            k = k - 1;
        }
        proof {
            lemma_file_index_at(self.tracked_files(), file@, -1);
        }
        None
    }

    /// Record an edit event for a file.
    pub fn record(&mut self, file: &str, trit: EditTrit)
        requires
            old(self).wf(),
        ensures
            final(self).wf(),
            final(self).window() == old(self).window(),
            final(self).history(file@) == windowed_push(old(self).history(file@), trit, old(self).window()),
            forall|g: Seq<char>| g != file@ ==> #[trigger] final(self).history(g) == old(self).history(g),
            final(self).tracked_files() == if old(self).tracked_files().contains(file@) {
                old(self).tracked_files()
            } else {
                old(self).tracked_files().push(file@)
            },
    {
        let name = chars_of(file);
        proof {
            self.lemma_file_index(file@);
        }
        let k = match self.find(&name) {
            Some(k) => k,
            None => {
                let ghost old_files = self.tracked_files();
                self.files.push(String::from_str(file));
                self.histories.push(Vec::new());
                proof {
                    assert(self.tracked_files() =~= old_files.push(file@));
                    assert(!old_files.contains(file@));
                    assert forall|i: int, j: int|
                        0 <= i < j < self.files@.len() implies #[trigger] self.files@[i]@ != #[trigger] self.files@[j]@ by {
                        if j == self.files@.len() - 1 {
                            assert(old_files[i] == self.files@[i]@);
                        }
                    }
                    lemma_file_index_at(self.tracked_files(), file@, old_files.len() as int);
                    assert forall|g: Seq<char>| g != file@ implies file_index(self.tracked_files(), g)
                        == file_index(old_files, g) by {
                        assert(self.tracked_files().drop_last() =~= old_files);
                    }
                }
                self.files.len() - 1
            },
        };
        let ghost mid = *self;
        let mut h: Vec<EditTrit> = Vec::new();
        let mut i: usize = 0;
        while i < self.histories[k].len()
            invariant
                k < self.histories@.len(),
                i <= self.histories@[k as int]@.len(),
                h@ == self.histories@[k as int]@.take(i as int),
            decreases self.histories@[k as int]@.len() - i,
        {
            h.push(self.histories[k][i]);
            i = i + 1;
            assert(h@ =~= self.histories@[k as int]@.take(i as int));
        }
        assert(h@ =~= self.histories@[k as int]@);
        h.push(trit);
        if h.len() > self.window {
            h.remove(0);
            assert(h@ =~= mid.histories@[k as int]@.push(trit).drop_first());
        }
        self.histories.set(k, h);
        proof {
            assert(self.tracked_files() =~= mid.tracked_files());
            assert(mid.tracked_files()[k as int] == file@);
            assert forall|g: Seq<char>| g != file@ implies #[trigger] self.history(g) == old(self).history(g) by {
                lemma_file_index_props(mid.tracked_files(), g);
                let ig = file_index(mid.tracked_files(), g);
                assert(ig != k);
            }
        }
    }

    /// Counts of (added, deleted, idle) signals in a file's history.
    pub fn edit_counts(&self, file: &str) -> (r: (usize, usize, usize))
        requires
            self.wf(),
        ensures
            r.0 == count_trit(self.history(file@), EditTrit::Added),
            r.1 == count_trit(self.history(file@), EditTrit::Deleted),
            r.2 == count_trit(self.history(file@), EditTrit::Idle),
    {
        let name = chars_of(file);
        proof {
            self.lemma_file_index(file@);
        }
        match self.find(&name) {
            Some(k) => count_all(&self.histories[k]),
            None => (0, 0, 0),
        }
    }
}

proof fn lemma_file_index_props(files: Seq<Seq<char>>, f: Seq<char>)
    ensures
        -1 <= file_index(files, f) < files.len(),
        file_index(files, f) >= 0 ==> files[file_index(files, f)] == f,
        file_index(files, f) < 0 ==> !files.contains(f),
    decreases files.len(),
{
    if files.len() > 0 {
        lemma_file_index_props(files.drop_last(), f);
        if files.last() != f && file_index(files.drop_last(), f) < 0 {
            assert forall|i: int| 0 <= i < files.len() implies files[i] != f by {
                if i < files.len() - 1 {
                    assert(!files.drop_last().contains(f));
                    assert(files.drop_last()[i] == files[i]);
                }
            }
        }
    }
}

proof fn lemma_file_index_at(files: Seq<Seq<char>>, f: Seq<char>, k: int)
    requires
        -1 <= k < files.len(),
        k >= 0 ==> files[k] == f,
        forall|j: int| k < j < files.len() ==> files[j] != f,
    ensures
        file_index(files, f) == k,
    decreases files.len(),
{
    if files.len() > 0 && k < files.len() - 1 {
        lemma_file_index_at(files.drop_last(), f, k);
    }
}

/// Counts of (added, deleted, idle) signals.
fn count_all(h: &Vec<EditTrit>) -> (r: (usize, usize, usize))
    ensures
        r.0 == count_trit(h@, EditTrit::Added),
        r.1 == count_trit(h@, EditTrit::Deleted),
        r.2 == count_trit(h@, EditTrit::Idle),
{
    let mut a: usize = 0;
    let mut d: usize = 0;
    let mut z: usize = 0;
    let mut i: usize = 0;
    while i < h.len()
        invariant
            i <= h.len(),
            a == count_trit(h@.take(i as int), EditTrit::Added),
            d == count_trit(h@.take(i as int), EditTrit::Deleted),
            z == count_trit(h@.take(i as int), EditTrit::Idle),
            a + d + z == i,
        decreases h.len() - i,
    {
        proof {
            assert(h@.take(i as int + 1).drop_last() =~= h@.take(i as int));
        }
        match h[i] {
            EditTrit::Added => {
                a = a + 1;
            },
            EditTrit::Deleted => {
                d = d + 1;
            },
            EditTrit::Idle => {
                z = z + 1;
            },
        }
        i = i + 1;
    }
    assert(h@.take(h.len() as int) =~= h@);
    (a, d, z)
}


/// Coding style species: how a developer writes code.
#[derive(Debug, Clone, Copy, PartialEq, Eq, Structural, Hash)]
pub enum StyleSpecies {
    /// High addition, low deletion: building new code.
    Builder,
    /// High deletion, low addition: refactoring aggressively.
    Surgeon,
    /// Balanced add/delete: iterative refinement.
    Balancer,
    /// Low activity: mostly reading/browsing.
    Reader,
    /// Erratic pattern: exploration/experimentation.
    Explorer,
}

/// The species of a history, from the shares of added, deleted and idle
/// signals (an empty history counts as all idle): idle above 70% is a
/// Reader; added above 50% with deleted below 20% a Builder; deleted above
/// 40% with added below 20% a Surgeon; added and deleted both above 20% a
/// Balancer; anything else an Explorer. The shares are compared exactly.
pub open spec fn classify_history(h: Seq<EditTrit>) -> StyleSpecies {
    let n = h.len() as int;
    let a = count_trit(h, EditTrit::Added) as int;
    let d = count_trit(h, EditTrit::Deleted) as int;
    let z = count_trit(h, EditTrit::Idle) as int;
    if n == 0 || 10 * z > 7 * n {
        StyleSpecies::Reader
    } else if 2 * a > n && 5 * d < n {
        StyleSpecies::Builder
    } else if 5 * d > 2 * n && 5 * a < n {
        StyleSpecies::Surgeon
    } else if 5 * a > n && 5 * d > n {
        StyleSpecies::Balancer
    } else {
        StyleSpecies::Explorer
    }
}

/// Every signal is added, deleted or idle: the three counts of a history
/// add up to its length, so the three ratios of a history add up to one.
pub proof fn lemma_count_sum(h: Seq<EditTrit>)
    ensures
        count_trit(h, EditTrit::Added) + count_trit(h, EditTrit::Deleted) + count_trit(h, EditTrit::Idle)
            == h.len(),
    decreases h.len(),
{
    if h.len() > 0 {
        lemma_count_sum(h.drop_last());
    }
}

/// What each species says of a history's shares of added (a), deleted (d)
/// and idle (z) signals out of n: a Builder has more than half added and
/// under a fifth deleted; a Surgeon over two fifths deleted and under a fifth
/// added; a Reader is empty or over 70% idle; every other history is at most
/// 70% idle. A history at most 70% idle with over a fifth added and over a
/// fifth deleted is a Balancer; one with over half added and under a fifth
/// deleted is a Builder.
pub proof fn lemma_species_shares(h: Seq<EditTrit>)
    ensures
        ({
            let n = h.len() as int;
            let a = count_trit(h, EditTrit::Added) as int;
            let d = count_trit(h, EditTrit::Deleted) as int;
            let z = count_trit(h, EditTrit::Idle) as int;
            &&& classify_history(h) == StyleSpecies::Builder ==> 2 * a > n && 5 * d < n && 10 * z <= 7 * n
            &&& classify_history(h) == StyleSpecies::Surgeon ==> 5 * d > 2 * n && 5 * a < n && 10 * z <= 7
                * n
            &&& classify_history(h) == StyleSpecies::Balancer ==> 5 * a > n && 5 * d > n && 10 * z <= 7
                * n
            &&& classify_history(h) == StyleSpecies::Reader <==> (n == 0 || 10 * z > 7 * n)
            &&& (n > 0 && 10 * z <= 7 * n && 5 * a > n && 5 * d > n) ==> classify_history(h)
                == StyleSpecies::Balancer
            &&& (n > 0 && 10 * z <= 7 * n && 2 * a > n && 5 * d < n) ==> classify_history(h)
                == StyleSpecies::Builder
        }),
{
    lemma_count_sum(h);
}

/// A history made of one kind of signal only: added alone is a Builder,
/// deleted alone a Surgeon, idle alone (or nothing) a Reader.
pub proof fn lemma_uniform_history_species(h: Seq<EditTrit>, t: EditTrit)
    requires
        forall|i: int| 0 <= i < h.len() ==> h[i] == t,
    ensures
        h.len() > 0 && t == EditTrit::Added ==> classify_history(h) == StyleSpecies::Builder,
        h.len() > 0 && t == EditTrit::Deleted ==> classify_history(h) == StyleSpecies::Surgeon,
        t == EditTrit::Idle ==> classify_history(h) == StyleSpecies::Reader,
{
    lemma_count_only(h, t);
    lemma_count_sum(h);
}

proof fn lemma_count_only(h: Seq<EditTrit>, t: EditTrit)
    requires
        forall|i: int| 0 <= i < h.len() ==> h[i] == t,
    ensures
        count_trit(h, t) == h.len(),
    decreases h.len(),
{
    if h.len() > 0 {
        lemma_count_only(h.drop_last(), t);
    }
}

/// The AI model a species is routed to: creative for builders and
/// explorers, precise for surgeons, balanced for balancers, fast for
/// readers.
pub open spec fn model_for(s: StyleSpecies) -> Seq<char> {
    match s {
        StyleSpecies::Builder => "creative"@,
        StyleSpecies::Surgeon => "precise"@,
        StyleSpecies::Balancer => "balanced"@,
        StyleSpecies::Reader => "fast"@,
        StyleSpecies::Explorer => "creative"@,
    }
}

/// The model to route a request to for a species.
pub fn preferred_model(species: StyleSpecies) -> (m: &'static str)
    ensures
        m@ == model_for(species),
{
    match species {
        StyleSpecies::Builder => "creative",
        StyleSpecies::Surgeon => "precise",
        StyleSpecies::Balancer => "balanced",
        StyleSpecies::Reader => "fast",
        StyleSpecies::Explorer => "creative",
    }
}

/// Species in declaration order, for tie-breaking.
pub open spec fn species_index(s: StyleSpecies) -> nat {
    match s {
        StyleSpecies::Builder => 0,
        StyleSpecies::Surgeon => 1,
        StyleSpecies::Balancer => 2,
        StyleSpecies::Reader => 3,
        StyleSpecies::Explorer => 4,
    }
}

/// Classifies coding style from edit patterns.
pub struct StyleClassifier {
    tracker: EditingTracker,
}

/// Number of files (among the first `k`) whose history has species `s`.
pub open spec fn species_count(t: EditingTracker, k: int, s: StyleSpecies) -> nat
    decreases k,
{
    if k <= 0 {
        0
    } else {
        species_count(t, k - 1, s) + if classify_history(t.history(t.tracked_files()[k - 1])) == s {
            1nat
        } else {
            0nat
        }
    }
}

fn classify_counts(a: usize, d: usize, z: usize) -> (s: StyleSpecies)
    ensures
        forall|h: Seq<EditTrit>|
            count_trit(h, EditTrit::Added) == a && count_trit(h, EditTrit::Deleted) == d && count_trit(
                h,
                EditTrit::Idle,
            ) == z ==> #[trigger] classify_history(h) == s,
{
    let n: u128 = a as u128 + d as u128 + z as u128;
    let a = a as u128;
    let d = d as u128;
    let z = z as u128;
    let s = if n == 0 || 10 * z > 7 * n {
        StyleSpecies::Reader
    } else if 2 * a > n && 5 * d < n {
        StyleSpecies::Builder
    } else if 5 * d > 2 * n && 5 * a < n {
        StyleSpecies::Surgeon
    } else if 5 * a > n && 5 * d > n {
        StyleSpecies::Balancer
    } else {
        StyleSpecies::Explorer
    };
    proof {
        assert forall|h: Seq<EditTrit>|
            count_trit(h, EditTrit::Added) == a && count_trit(h, EditTrit::Deleted) == d && count_trit(
                h,
                EditTrit::Idle,
            ) == z implies #[trigger] classify_history(h) == s by {
            lemma_count_sum(h);
        }
    }
    s
}

impl StyleClassifier {
    pub closed spec fn tracker(&self) -> EditingTracker {
        self.tracker
    }

    pub fn new(tracker: EditingTracker) -> (c: Self)
        ensures
            c.tracker() == tracker,
    {
        Self { tracker }
    }

    /// Classify the coding style for a specific file.
    pub fn classify(&self, file: &str) -> (s: StyleSpecies)
        requires
            self.tracker().wf(),
        ensures
            s == classify_history(self.tracker().history(file@)),
    {
        let (a, d, z) = self.tracker.edit_counts(file);
        classify_counts(a, d, z)
    }

    /// Classify the overall style across all files: the species of the most
    /// files (ties go to the species declared first); a Reader when no file
    /// was recorded.
    pub fn classify_overall(&self) -> (s: StyleSpecies)
        requires
            self.tracker().wf(),
        ensures
            self.tracker().tracked_files().len() == 0 ==> s == StyleSpecies::Reader,
            self.tracker().tracked_files().len() > 0 ==> {
                let n = self.tracker().tracked_files().len() as int;
                &&& forall|o: StyleSpecies| #[trigger] species_count(self.tracker(), n, o) <= species_count(self.tracker(), n, s)
                &&& forall|o: StyleSpecies|
                    species_index(o) < species_index(s) ==> #[trigger] species_count(self.tracker(), n, o)
                        < species_count(self.tracker(), n, s)
            },
    {
        let t = &self.tracker;
        let n = t.files.len();
        if n == 0 {
            return StyleSpecies::Reader;
        }
        // counts per species, in declaration order
        let mut counts: [usize; 5] = [0, 0, 0, 0, 0];
        let mut i: usize = 0;
        while i < n
            invariant
                i <= n == t.files@.len(),
                t.wf(),
                *t == self.tracker(),
                counts@[0] == species_count(*t, i as int, StyleSpecies::Builder),
                counts@[1] == species_count(*t, i as int, StyleSpecies::Surgeon),
                counts@[2] == species_count(*t, i as int, StyleSpecies::Balancer),
                counts@[3] == species_count(*t, i as int, StyleSpecies::Reader),
                counts@[4] == species_count(*t, i as int, StyleSpecies::Explorer),
                counts@[0] <= i && counts@[1] <= i && counts@[2] <= i && counts@[3] <= i && counts@[4] <= i,
            decreases n - i,
        {
            let ghost f = t.tracked_files()[i as int];
            proof {
                lemma_file_index_at(t.tracked_files(), f, i as int);
            }
            let (a, d, z) = count_all(&t.histories[i]);
            let sp = classify_counts(a, d, z);
            proof {
                assert(t.history(f) == t.histories@[i as int]@);
            }
            let slot: usize = match sp {
                StyleSpecies::Builder => 0,
                StyleSpecies::Surgeon => 1,
                StyleSpecies::Balancer => 2,
                StyleSpecies::Reader => 3,
                StyleSpecies::Explorer => 4,
            };
            counts[slot] = counts[slot] + 1;
            i = i + 1;
        }
        let mut best: usize = 0;
        let mut k: usize = 1;
        while k < 5
            invariant
                1 <= k <= 5,
                best < k,
                forall|j: int| 0 <= j < k ==> counts@[j] <= counts@[best as int],
                forall|j: int| 0 <= j < best ==> counts@[j] < counts@[best as int],
            decreases 5 - k,
        {
            if counts[k] > counts[best] {
                best = k;
            }
            k = k + 1;
        }
        if best == 0 {
            StyleSpecies::Builder
        } else if best == 1 {
            StyleSpecies::Surgeon
        } else if best == 2 {
            StyleSpecies::Balancer
        } else if best == 3 {
            StyleSpecies::Reader
        } else {
            StyleSpecies::Explorer
        }
    }
}


/// Occurrences of a signal over the histories of the first `k` files.
pub open spec fn total_count(t: EditingTracker, k: int, trit: EditTrit) -> nat
    decreases k,
{
    if k <= 0 {
        0
    } else {
        total_count(t, k - 1, trit) + count_trit(t.history(t.tracked_files()[k - 1]), trit)
    }
}

impl EditingTracker {
    /// Counts of (added, deleted, idle) signals over all files.
    pub fn trit_totals(&self) -> (r: (u128, u128, u128))
        requires
            self.wf(),
        ensures
            r.0 == total_count(*self, self.tracked_files().len() as int, EditTrit::Added),
            r.1 == total_count(*self, self.tracked_files().len() as int, EditTrit::Deleted),
            r.2 == total_count(*self, self.tracked_files().len() as int, EditTrit::Idle),
    {
        let n = self.files.len();
        let mut a: u128 = 0;
        let mut d: u128 = 0;
        let mut z: u128 = 0;
        let mut i: usize = 0;
        while i < n
            invariant
                i <= n == self.files@.len(),
                self.wf(),
                a == total_count(*self, i as int, EditTrit::Added),
                d == total_count(*self, i as int, EditTrit::Deleted),
                z == total_count(*self, i as int, EditTrit::Idle),
                a + d + z <= i * (usize::MAX as int),
            decreases n - i,
        {
            let ghost f = self.tracked_files()[i as int];
            proof {
                lemma_file_index_at(self.tracked_files(), f, i as int);
                assert(self.history(f) == self.histories@[i as int]@);
                lemma_count_sum(self.histories@[i as int]@);
            }
            let (ca, cd, cz) = count_all(&self.histories[i]);
            proof {
                assert(ca + cd + cz <= usize::MAX);
                assert(i * (usize::MAX as int) + usize::MAX == (i + 1) * (usize::MAX as int)) by (nonlinear_arith);
                assert((i + 1) * (usize::MAX as int) <= (usize::MAX as int) * (usize::MAX as int)) by (nonlinear_arith)
                    requires
                        i + 1 <= usize::MAX,
                ;
            }
            a = a + ca as u128;
            d = d + cd as u128;
            z = z + cz as u128;
            i = i + 1;
        }
        (a, d, z)
    }
}

} // verus!
