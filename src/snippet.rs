//! Snippets: a window of a document's body around the earliest match.

use vstd::prelude::*;

use crate::model::SearchIndex;
use crate::query::Candidate;
use crate::text::{chars_of, string_of};
use crate::tokenizer::views_of;
use crate::tokenizer::{lower_char, lower_spec};

verus! {

/// Characters shown before the earliest match.
pub const SNIPPET_LEAD: usize = 50;

/// The most body characters a snippet shows.
pub const SNIPPET_WIDTH: usize = 150;

/// Term `m` occurs at position `p` of `body`, ignoring ASCII case.
pub open spec fn occurs_at(body: Seq<char>, m: Seq<char>, p: int) -> bool {
    &&& 0 <= p
    &&& p + m.len() <= body.len()
    &&& forall|j: int| 0 <= j < m.len() ==> lower_spec(#[trigger] body[p + j]) == m[j]
}

/// Some term of `ms` occurs at position `p` of `body`.
pub open spec fn any_at(body: Seq<char>, ms: Seq<Seq<char>>, p: int) -> bool {
    exists|k: int| 0 <= k < ms.len() && occurs_at(body, #[trigger] ms[k], p)
}

/// The first position at or after `p` where some term of `ms` occurs.
pub open spec fn first_from(body: Seq<char>, ms: Seq<Seq<char>>, p: int) -> Option<int>
    decreases body.len() - p,
{
    if p < 0 || p >= body.len() {
        None
    } else if any_at(body, ms, p) {
        Some(p)
    } else {
        first_from(body, ms, p + 1)
    }
}

pub open spec fn dots() -> Seq<char> {
    seq!['.', '.', '.']
}

/// The snippet of `body` for the matched terms `ms`: empty when no term
/// occurs; else up to `SNIPPET_WIDTH` characters from `SNIPPET_LEAD` before
/// the earliest occurrence (or from the start), with `...` where the window
/// cuts the body.
pub open spec fn snippet_of(body: Seq<char>, ms: Seq<Seq<char>>) -> Seq<char> {
    match first_from(body, ms, 0) {
        None => seq![],
        Some(p) => {
            let st = if p >= SNIPPET_LEAD {
                p - SNIPPET_LEAD
            } else {
                0
            };
            let en = if st + SNIPPET_WIDTH <= body.len() {
                st + SNIPPET_WIDTH
            } else {
                body.len() as int
            };
            (if st > 0 {
                dots()
            } else {
                seq![]
            }) + body.subrange(st, en) + (if en < body.len() {
                dots()
            } else {
                seq![]
            })
        },
    }
}

fn occurs_at_exec(body: &Vec<char>, m: &Vec<char>, p: usize) -> (r: bool)
    ensures
        r == occurs_at(body@, m@, p as int),
{
    if m.len() > body.len() || p > body.len() - m.len() {
        return false;
    }
    let bl = body.len();
    let mut j: usize = 0;
    while j < m.len()
        invariant
            bl == body@.len(),
            p + m@.len() <= bl,
            0 <= j <= m@.len(),
            forall|q: int| 0 <= q < j ==> lower_spec(#[trigger] body@[p + q]) == m@[q],
        decreases m@.len() - j,
    {
        if lower_char(body[p + j]) != m[j] {
            return false;
        }
        j = j + 1;
    }
    true
}

fn push_dots(out: &mut Vec<char>)
    ensures
        final(out)@ == old(out)@ + dots(),
{
    out.push('.');
    out.push('.');
    out.push('.');
    assert(final(out)@ =~= old(out)@ + dots());
}

/// The snippet of `body` around the earliest occurrence of any of the
/// matched terms.
pub fn make_snippet(body: &str, matches: &Vec<String>) -> (r: String)
    ensures
        r@ == snippet_of(body@, matches@.map_values(|m: String| m@)),
{
    let ghost ms = matches@.map_values(|m: String| m@);
    let bc = chars_of(body);
    let mut mcs: Vec<Vec<char>> = Vec::new();
    let mut k: usize = 0;
    while k < matches.len()
        invariant
            0 <= k <= matches@.len(),
            ms == matches@.map_values(|m: String| m@),
            mcs@.len() == k,
            forall|q: int| 0 <= q < k ==> (#[trigger] mcs@[q])@ == ms[q],
        decreases matches@.len() - k,
    {
        mcs.push(chars_of(matches[k].as_str()));
        k = k + 1;
    }
    let n = bc.len();
    let mut p: usize = 0;
    let mut found = false;
    while p < n && !found
        invariant
            bc@ == body@,
            n == bc@.len(),
            mcs@.len() == ms.len(),
            forall|q: int| 0 <= q < ms.len() ==> (#[trigger] mcs@[q])@ == ms[q],
            0 <= p <= n,
            found ==> p < n && any_at(bc@, ms, p as int) && first_from(bc@, ms, 0) == Some(p as int),
            !found ==> first_from(bc@, ms, 0) == first_from(bc@, ms, p as int),
        decreases n - p + if found { 0int } else { 1int },
    {
        let mut k: usize = 0;
        while k < mcs.len() && !found
            invariant
                bc@ == body@,
                n == bc@.len(),
                0 <= p < n,
                mcs@.len() == ms.len(),
                forall|q: int| 0 <= q < ms.len() ==> (#[trigger] mcs@[q])@ == ms[q],
                0 <= k <= ms.len(),
                found ==> any_at(bc@, ms, p as int),
                !found ==> forall|q: int| 0 <= q < k ==> !occurs_at(bc@, #[trigger] ms[q], p as int),
            decreases ms.len() - k + if found { 0int } else { 1int },
        {
            if occurs_at_exec(&bc, &mcs[k], p) {
                found = true;
            } else {
                k = k + 1;
            }
        }
        if found {
            assert(first_from(bc@, ms, p as int) == Some(p as int));
        } else {
            assert(!any_at(bc@, ms, p as int));
            p = p + 1;
        }
    }
    if !found {
        assert(first_from(bc@, ms, p as int) == None::<int>);
        return string_of(Vec::<char>::new().as_slice());
    }
    let st: usize = if p >= SNIPPET_LEAD {
        p - SNIPPET_LEAD
    } else {
        0
    };
    let en: usize = if st <= n && n - st >= SNIPPET_WIDTH {
        st + SNIPPET_WIDTH
    } else {
        n
    };
    let mut out: Vec<char> = Vec::new();
    if st > 0 {
        push_dots(&mut out);
    }
    let ghost lead = out@;
    let mut q: usize = st;
    while q < en
        invariant
            bc@ == body@,
            n == bc@.len(),
            st <= q <= en <= n,
            out@ == lead + bc@.subrange(st as int, q as int),
        decreases en - q,
    {
        out.push(bc[q]);
        assert(out@ =~= lead + bc@.subrange(st as int, q + 1));
        q = q + 1;
    }
    if en < n {
        push_dots(&mut out);
    }
    let r = string_of(out.as_slice());
    assert(r@ =~= snippet_of(body@, ms));
    r
}

/// What a search result shows of a ranked candidate.
#[derive(Clone, Debug)]
pub struct ResultEntry {
    pub doc_idx: usize,
    pub id: String,
    pub title: String,
    pub url: String,
    pub matches: Vec<String>,
    pub snippet: String,
}

fn copy_strings(v: &Vec<String>) -> (r: Vec<String>)
    ensures
        views_of(r@) == views_of(v@),
{
    let mut out: Vec<String> = Vec::new();
    let n = v.len();
    let mut k: usize = 0;
    while k < n
        invariant
            n == v@.len(),
            0 <= k <= n,
            views_of(out@) == views_of(v@.take(k as int)),
        decreases n - k,
    {
        let ghost before = out@;
        let t = v[k].clone();
        assert(t@ == v@[k as int]@);
        out.push(t);
        assert(views_of(out@) =~= views_of(before).push(t@));
        assert(views_of(v@.take(k + 1)) =~= views_of(v@.take(k as int)).push(v@[k as int]@));
        k = k + 1;
    }
    assert(v@.take(n as int) =~= v@);
    out
}

impl SearchIndex {
    /// The results for the candidates in the ranked `order`: each one's
    /// document, matched terms and snippet.
    pub fn present(&self, candidates: &Vec<Candidate>, order: &Vec<usize>) -> (r: Vec<ResultEntry>)
        requires
            forall|k: int| 0 <= k < order@.len() ==> (#[trigger] order@[k]) < candidates@.len(),
            forall|k: int|
                0 <= k < candidates@.len() ==> (#[trigger] candidates@[k]).doc_idx
                    < self.documents@.len(),
        ensures
            r@.len() == order@.len(),
            forall|k: int|
                0 <= k < r@.len() ==> {
                    let c = candidates@[order@[k] as int];
                    let d = self.documents@[c.doc_idx as int];
                    &&& (#[trigger] r@[k]).doc_idx == c.doc_idx
                    &&& r@[k].id@ == d.id@
                    &&& r@[k].title@ == d.title@
                    &&& r@[k].url@ == d.url@
                    &&& views_of(r@[k].matches@) == views_of(c.matches@)
                    &&& r@[k].snippet@ == snippet_of(d.body@, views_of(c.matches@))
                },
    {
        let mut out: Vec<ResultEntry> = Vec::new();
        let n = order.len();
        let mut k: usize = 0;
        while k < n
            invariant
                n == order@.len(),
                0 <= k <= n,
                out@.len() == k,
                forall|k: int| 0 <= k < order@.len() ==> (#[trigger] order@[k]) < candidates@.len(),
                forall|k: int|
                    0 <= k < candidates@.len() ==> (#[trigger] candidates@[k]).doc_idx
                        < self.documents@.len(),
                forall|j: int|
                    0 <= j < k ==> {
                        let c = candidates@[order@[j] as int];
                        let d = self.documents@[c.doc_idx as int];
                        &&& (#[trigger] out@[j]).doc_idx == c.doc_idx
                        &&& out@[j].id@ == d.id@
                        &&& out@[j].title@ == d.title@
                        &&& out@[j].url@ == d.url@
                        &&& views_of(out@[j].matches@) == views_of(c.matches@)
                        &&& out@[j].snippet@ == snippet_of(d.body@, views_of(c.matches@))
                    },
            decreases n - k,
        {
            let c = &candidates[order[k]];
            let d = &self.documents[c.doc_idx];
            let snippet = make_snippet(d.body.as_str(), &c.matches);
            assert(c.matches@.map_values(|m: String| m@) == views_of(c.matches@));
            let entry = ResultEntry {
                doc_idx: c.doc_idx,
                id: d.id.clone(),
                title: d.title.clone(),
                url: d.url.clone(),
                matches: copy_strings(&c.matches),
                snippet,
            };
            let ghost before = out@;
            out.push(entry);
            assert forall|j: int| 0 <= j < k implies #[trigger] out@[j] == before[j] by {}
            k = k + 1;
        }
        out
    }
}

} // verus!
