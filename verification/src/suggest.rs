//! Import suggestions: the keywords of an editing context and where they
//! occur in a capability manifest (the relevance score itself is summed by
//! the caller from these hits).
use vstd::prelude::*;
use crate::agent_assist::{strings_view, CapabilityManifest, ManifestView};
use crate::text::{
    alphanumeric, chars_of, contains_chars, contains_seq, is_alphanumeric, lowercase, split_marked,
    split_where, string_from_chars, to_lowercase, utf8_len, utf8_longer_than,
};

verus! {

/// Keywords are separated by every character that is neither alphanumeric
/// nor `_`.
pub open spec fn word_separator() -> spec_fn(char) -> bool {
    |c: char| !alphanumeric(c) && c != '_'
}

/// The words longer than two bytes (in UTF-8), in order.
pub open spec fn long_words(ws: Seq<Seq<char>>) -> Seq<Seq<char>>
    decreases ws.len(),
{
    if ws.len() == 0 {
        Seq::empty()
    } else {
        let r = long_words(ws.drop_last());
        if utf8_len(ws.last()) > 2 {
            r.push(ws.last())
        } else {
            r
        }
    }
}

/// The keywords of a text: its words longer than two bytes.
pub open spec fn keywords_spec(text: Seq<char>) -> Seq<Seq<char>> {
    long_words(split_where(text, word_separator()))
}

/// The keywords of a text, in order (repeated words are kept).
pub fn keywords_in(text: &str) -> (kws: Vec<String>)
    ensures
        strings_view(kws@) == keywords_spec(text@),
{
    let cs = chars_of(text);
    let mut marks: Vec<bool> = Vec::new();
    let mut i: usize = 0;
    while i < cs.len()
        invariant
            i <= cs.len(),
            marks.len() == i,
            forall|k: int| 0 <= k < i ==> #[trigger] marks[k] == (word_separator())(cs[k]),
        decreases cs.len() - i,
    {
        let c = cs[i];
        let sep = !is_alphanumeric(c) && c != '_';
        marks.push(sep);
        i = i + 1;
    }
    let pieces = split_marked(&cs, &marks, Ghost(word_separator()));
    let ghost ps = split_where(text@, word_separator());
    let mut kws: Vec<String> = Vec::new();
    let mut k: usize = 0;
    proof {
        assert(ps.take(0) =~= Seq::<Seq<char>>::empty());
        assert(strings_view(kws@) =~= long_words(ps.take(0)));
    }
    while k < pieces.len()
        invariant
            k <= pieces.len() == ps.len(),
            ps == split_where(text@, word_separator()),
            forall|j: int| 0 <= j < pieces.len() ==> #[trigger] pieces[j]@ == ps[j],
            strings_view(kws@) == long_words(ps.take(k as int)),
        decreases pieces.len() - k,
    {
        proof {
            assert(ps.take(k as int + 1).drop_last() =~= ps.take(k as int));
            assert(ps.take(k as int + 1).last() == ps[k as int]);
        }
        if utf8_longer_than(&pieces[k], 2) {
            let ghost before = kws@;
            kws.push(string_from_chars(&pieces[k]));
            proof {
                assert(strings_view(kws@) =~= strings_view(before).push(ps[k as int]));
            }
        }
        k = k + 1;
    }
    proof {
        assert(ps.take(pieces.len() as int) =~= ps);
    }
    kws
}

/// The keywords of an editing context: the keywords of its lowercase form.
pub fn context_keywords(context: &str) -> (kws: Vec<String>)
    ensures
        strings_view(kws@) == keywords_spec(lowercase(context@)),
{
    let lower = to_lowercase(context);
    keywords_in(lower.as_str())
}

/// How many capabilities have the keyword in their lowercase name or
/// lowercase signature.
pub open spec fn cap_hits(caps: Seq<(Seq<char>, Seq<char>)>, kw: Seq<char>) -> nat
    decreases caps.len(),
{
    if caps.len() == 0 {
        0
    } else {
        cap_hits(caps.drop_last(), kw) + if contains_seq(lowercase(caps.last().0), kw) || contains_seq(
            lowercase(caps.last().1),
            kw,
        ) {
            1nat
        } else {
            0nat
        }
    }
}

/// Where a keyword occurs in a manifest: in its lowercase name, in its
/// lowercase description, and in how many of its capabilities.
pub open spec fn keyword_hit(m: ManifestView, kw: Seq<char>) -> (bool, bool, nat) {
    (contains_seq(lowercase(m.0), kw), contains_seq(lowercase(m.2), kw), cap_hits(m.3, kw))
}

fn lower_chars(s: &String) -> (r: Vec<char>)
    ensures
        r@ == lowercase(s@),
{
    let l = to_lowercase(s.as_str());
    chars_of(l.as_str())
}

/// For each keyword, in order, where it occurs in the manifest.
pub fn keyword_hits(kws: &Vec<String>, m: &CapabilityManifest) -> (h: Vec<(bool, bool, usize)>)
    ensures
        h.len() == kws.len(),
        forall|k: int|
            0 <= k < h.len() ==> {
                let e = keyword_hit(m@, #[trigger] kws@[k]@);
                &&& h[k].0 == e.0
                &&& h[k].1 == e.1
                &&& h[k].2 == e.2
            },
{
    let ghost mv = m@;
    let name_l = lower_chars(&m.name);
    let desc_l = lower_chars(&m.description);
    let n = m.capabilities.len();
    let mut cap_names: Vec<Vec<char>> = Vec::new();
    let mut cap_sigs: Vec<Vec<char>> = Vec::new();
    let mut j: usize = 0;
    while j < n
        invariant
            j <= n == m.capabilities.len(),
            mv == m@,
            cap_names.len() == j,
            cap_sigs.len() == j,
            forall|q: int| 0 <= q < j ==> #[trigger] cap_names[q]@ == lowercase(mv.3[q].0),
            forall|q: int| 0 <= q < j ==> #[trigger] cap_sigs[q]@ == lowercase(mv.3[q].1),
        decreases n - j,
    {
        cap_names.push(lower_chars(&m.capabilities[j].0));
        cap_sigs.push(lower_chars(&m.capabilities[j].1));
        j = j + 1;
    }
    let mut h: Vec<(bool, bool, usize)> = Vec::new();
    let mut k: usize = 0;
    while k < kws.len()
        invariant
            k <= kws.len(),
            mv == m@,
            n == mv.3.len(),
            name_l@ == lowercase(mv.0),
            desc_l@ == lowercase(mv.2),
            cap_names.len() == n,
            cap_sigs.len() == n,
            forall|q: int| 0 <= q < n ==> #[trigger] cap_names[q]@ == lowercase(mv.3[q].0),
            forall|q: int| 0 <= q < n ==> #[trigger] cap_sigs[q]@ == lowercase(mv.3[q].1),
            h.len() == k,
            forall|p: int|
                0 <= p < k ==> {
                    let e = keyword_hit(mv, #[trigger] kws@[p]@);
                    &&& h[p].0 == e.0
                    &&& h[p].1 == e.1
                    &&& h[p].2 == e.2
                },
        decreases kws.len() - k,
    {
        let kc = chars_of(kws[k].as_str());
        let in_name = contains_chars(&name_l, &kc);
        let in_desc = contains_chars(&desc_l, &kc);
        let mut count: usize = 0;
        let mut q: usize = 0;
        proof {
            assert(mv.3.take(0) =~= Seq::<(Seq<char>, Seq<char>)>::empty());
        }
        while q < n
            invariant
                q <= n == mv.3.len(),
                cap_names.len() == n,
                cap_sigs.len() == n,
                forall|x: int| 0 <= x < n ==> #[trigger] cap_names[x]@ == lowercase(mv.3[x].0),
                forall|x: int| 0 <= x < n ==> #[trigger] cap_sigs[x]@ == lowercase(mv.3[x].1),
                count == cap_hits(mv.3.take(q as int), kc@),
                count <= q,
            decreases n - q,
        {
            proof {
                assert(mv.3.take(q as int + 1).drop_last() =~= mv.3.take(q as int));
                assert(mv.3.take(q as int + 1).last() == mv.3[q as int]);
            }
            if contains_chars(&cap_names[q], &kc) || contains_chars(&cap_sigs[q], &kc) {
                count = count + 1;
            }
            q = q + 1;
        }
        proof {
            assert(mv.3.take(n as int) =~= mv.3);
        }
        h.push((in_name, in_desc, count));
        k = k + 1;
    }
    h
}

} // verus!
