//! Query matching: which index terms a query selects, and the postings they
//! contribute to each document.

use vstd::prelude::*;

use crate::model::{Field, Posting, SearchIndex, TermEntry};
use crate::fuzzy::{one_edit, within_one_edit};
use crate::text::chars_of;
use crate::tokenizer::{tokenize, tokens_of, views_of};

verus! {

/// `p` is a prefix of `t`.
pub open spec fn is_prefix_of(p: Seq<char>, t: Seq<char>) -> bool {
    p.len() <= t.len() && t.take(p.len() as int) == p
}

/// Whether `term` is selected by query token `tok`: by prefix when
/// `expand`, else only when equal.
pub open spec fn selects(tok: Seq<char>, term: Seq<char>, expand: bool) -> bool {
    if expand {
        is_prefix_of(tok, term)
    } else {
        term == tok
    }
}

/// The positions, in order, of the first `n` entries that `tok` selects.
pub open spec fn selected_upto(ts: Seq<TermEntry>, tok: Seq<char>, expand: bool, n: int) -> Seq<
    usize,
>
    decreases n,
{
    if n <= 0 {
        seq![]
    } else if selects(tok, ts[n - 1].term@, expand) {
        selected_upto(ts, tok, expand, n - 1).push((n - 1) as usize)
    } else {
        selected_upto(ts, tok, expand, n - 1)
    }
}

/// The shortest query token that fuzzy matching applies to.
pub const FUZZY_MIN_LEN: usize = 3;

/// The positions, in order, of the first `n` entries whose term is at most
/// one edit from `tok`.
pub open spec fn near_upto(ts: Seq<TermEntry>, tok: Seq<char>, n: int) -> Seq<usize>
    decreases n,
{
    if n <= 0 {
        seq![]
    } else if one_edit(tok, ts[n - 1].term@) {
        near_upto(ts, tok, n - 1).push((n - 1) as usize)
    } else {
        near_upto(ts, tok, n - 1)
    }
}

/// The entries that query token `i` selects: by exact term (or prefix, for
/// an expanded last token); when that selects nothing, fuzzy matching is
/// on and the token has at least `FUZZY_MIN_LEN` characters, the terms one
/// edit away.
pub open spec fn token_entries(
    ts: Seq<TermEntry>,
    toks: Seq<Seq<char>>,
    i: int,
    prefix: bool,
    fuzzy: bool,
) -> Seq<usize> {
    let sel = selected_upto(ts, toks[i], expands(toks, i, prefix), ts.len() as int);
    if sel.len() == 0 && fuzzy && toks[i].len() >= FUZZY_MIN_LEN {
        near_upto(ts, toks[i], ts.len() as int)
    } else {
        sel
    }
}

/// Whether the token at position `i` of `toks` is expanded by prefix: it
/// is the last one, prefix matching is on, and it has two characters or
/// more.
pub open spec fn expands(toks: Seq<Seq<char>>, i: int, prefix: bool) -> bool {
    prefix && i == toks.len() - 1 && toks[i].len() >= 2
}

/// The entries selected by the first `n` query tokens, token by token.
pub open spec fn matched_upto(
    ts: Seq<TermEntry>,
    toks: Seq<Seq<char>>,
    prefix: bool,
    fuzzy: bool,
    n: int,
) -> Seq<usize>
    decreases n,
{
    if n <= 0 {
        seq![]
    } else {
        matched_upto(ts, toks, prefix, fuzzy, n - 1) + token_entries(ts, toks, n - 1, prefix, fuzzy)
    }
}

/// The entries a query selects, in order of query token and then of entry.
pub open spec fn matched_entries(
    ts: Seq<TermEntry>,
    query: Seq<char>,
    prefix: bool,
    fuzzy: bool,
) -> Seq<usize> {
    matched_upto(ts, tokens_of(query), prefix, fuzzy, tokens_of(query).len() as int)
}

pub fn starts_with(t: &str, p: &str) -> (r: bool)
    ensures
        r == is_prefix_of(p@, t@),
{
    let tc = chars_of(t);
    let pc = chars_of(p);
    if pc.len() > tc.len() {
        return false;
    }
    let mut j: usize = 0;
    while j < pc.len()
        invariant
            tc@ == t@,
            pc@ == p@,
            pc@.len() <= tc@.len(),
            0 <= j <= pc@.len(),
            forall|m: int| 0 <= m < j ==> tc@[m] == pc@[m],
        decreases pc@.len() - j,
    {
        if tc[j] != pc[j] {
            assert(t@.take(p@.len() as int)[j as int] != p@[j as int]);
            return false;
        }
        j = j + 1;
    }
    assert(t@.take(p@.len() as int) =~= p@);
    true
}

fn select_entries(ts: &Vec<TermEntry>, tok: &String, expand: bool, out: &mut Vec<usize>)
    ensures
        final(out)@ == old(out)@ + selected_upto(ts@, tok@, expand, ts@.len() as int),
{
    let n = ts.len();
    let mut a: usize = 0;
    while a < n
        invariant
            n == ts@.len(),
            0 <= a <= n,
            out@ == old(out)@ + selected_upto(ts@, tok@, expand, a as int),
        decreases n - a,
    {
        let hit = if expand {
            starts_with(ts[a].term.as_str(), tok.as_str())
        } else {
            ts[a].term == *tok
        };
        if hit {
            out.push(a);
        }
        proof {
            assert(out@ =~= old(out)@ + selected_upto(ts@, tok@, expand, a + 1));
        }
        a = a + 1;
    }
}

fn near_entries(ts: &Vec<TermEntry>, tok: &String, out: &mut Vec<usize>)
    ensures
        final(out)@ == old(out)@ + near_upto(ts@, tok@, ts@.len() as int),
{
    let tc = chars_of(tok.as_str());
    let n = ts.len();
    let mut a: usize = 0;
    while a < n
        invariant
            n == ts@.len(),
            tc@ == tok@,
            0 <= a <= n,
            out@ == old(out)@ + near_upto(ts@, tok@, a as int),
        decreases n - a,
    {
        let term = chars_of(ts[a].term.as_str());
        if within_one_edit(&tc, &term) {
            out.push(a);
        }
        proof {
            assert(out@ =~= old(out)@ + near_upto(ts@, tok@, a + 1));
        }
        a = a + 1;
    }
}

impl SearchIndex {
    /// The entries that `query` selects: each token but the last by exact
    /// term, the last by prefix when `prefix` is on and it has at least
    /// two characters; with `fuzzy`, a token of at least `FUZZY_MIN_LEN`
    /// characters that selects nothing selects the terms one edit away.
    pub fn match_terms(&self, query: &str, prefix: bool, fuzzy: bool) -> (r: Vec<usize>)
        ensures
            r@ == matched_entries(self.terms@, query@, prefix, fuzzy),
    {
        let toks = tokenize(query);
        let ghost tv = views_of(toks@);
        let nt = toks.len();
        let mut out: Vec<usize> = Vec::new();
        let mut i: usize = 0;
        while i < nt
            invariant
                nt == toks@.len(),
                tv == views_of(toks@),
                tv == tokens_of(query@),
                0 <= i <= nt,
                out@ == matched_upto(self.terms@, tv, prefix, fuzzy, i as int),
            decreases nt - i,
        {
            let tl = toks[i].as_str().unicode_len();
            let expand = prefix && i == nt - 1 && tl >= 2;
            assert(tv[i as int] == toks@[i as int]@);
            let mut sel: Vec<usize> = Vec::new();
            select_entries(&self.terms, &toks[i], expand, &mut sel);
            assert(sel@ =~= selected_upto(self.terms@, tv[i as int], expand, self.terms@.len() as int));
            if sel.len() == 0 && fuzzy && tl >= FUZZY_MIN_LEN {
                near_entries(&self.terms, &toks[i], &mut out);
            } else {
                let ghost before = out@;
                out.append(&mut sel);
                assert(out@ =~= before + token_entries(self.terms@, tv, i as int, prefix, fuzzy));
            }
            i = i + 1;
        }
        out
    }
}

/// One posting reached by a query: the entry it came from, its field and
/// its term frequency.
#[derive(Clone, Copy, Debug, PartialEq, Eq, Structural)]
pub struct Hit {
    pub term_idx: usize,
    pub field: Field,
    pub tf: usize,
}

/// The hits that the postings `ps` of entry `a` give document `d`, in order.
pub open spec fn posting_hits(ps: Seq<Posting>, a: usize, d: int) -> Seq<Hit>
    decreases ps.len(),
{
    if ps.len() == 0 {
        seq![]
    } else if ps.last().doc_idx == d {
        posting_hits(ps.drop_last(), a, d).push(
            Hit { term_idx: a, field: ps.last().field, tf: ps.last().tf },
        )
    } else {
        posting_hits(ps.drop_last(), a, d)
    }
}

/// The hits that the matched entries `m` give document `d`, in order.
pub open spec fn doc_hits(ts: Seq<TermEntry>, m: Seq<usize>, d: int) -> Seq<Hit>
    decreases m.len(),
{
    if m.len() == 0 {
        seq![]
    } else {
        doc_hits(ts, m.drop_last(), d) + posting_hits(ts[m.last() as int].postings@, m.last(), d)
    }
}

impl SearchIndex {
    /// For each document, in order, the hits that the matched entries give
    /// it.
    pub fn collect_hits(&self, matched: &Vec<usize>) -> (r: Vec<Vec<Hit>>)
        requires
            self.wf(),
            forall|j: int| 0 <= j < matched@.len() ==> matched@[j] < self.terms@.len(),
        ensures
            r@.len() == self.documents@.len(),
            forall|d: int|
                0 <= d < r@.len() ==> (#[trigger] r@[d])@ == doc_hits(self.terms@, matched@, d),
    {
        let nd = self.documents.len();
        let mut out: Vec<Vec<Hit>> = Vec::new();
        let mut d: usize = 0;
        while d < nd
            invariant
                nd == self.documents@.len(),
                0 <= d <= nd,
                out@.len() == d,
                forall|e: int| 0 <= e < d ==> (#[trigger] out@[e])@ == Seq::<Hit>::empty(),
            decreases nd - d,
        {
            out.push(Vec::new());
            d = d + 1;
        }
        proof {
            assert forall|e: int| 0 <= e < nd implies (#[trigger] out@[e])@ == doc_hits(
                self.terms@,
                matched@.take(0),
                e,
            ) by {}
        }
        let nm = matched.len();
        let mut j: usize = 0;
        while j < nm
            invariant
                self.wf(),
                forall|j: int| 0 <= j < matched@.len() ==> matched@[j] < self.terms@.len(),
                nd == self.documents@.len(),
                nm == matched@.len(),
                0 <= j <= nm,
                out@.len() == nd,
                forall|e: int|
                    0 <= e < nd ==> (#[trigger] out@[e])@ == doc_hits(
                        self.terms@,
                        matched@.take(j as int),
                        e,
                    ),
            decreases nm - j,
        {
            let a = matched[j];
            let ps = &self.terms[a].postings;
            let np = ps.len();
            let mut k: usize = 0;
            proof {
                reveal(crate::model::terms_wf);
                assert(crate::model::entry_wf(self.terms@[a as int], nd as nat));
                assert(matched@.take(j + 1).drop_last() =~= matched@.take(j as int));
                assert(ps@.take(0) =~= Seq::<Posting>::empty());
            }
            while k < np
                invariant
                    np == ps@.len(),
                    ps@ == self.terms@[a as int].postings@,
                    forall|q: int| 0 <= q < np ==> (#[trigger] ps@[q]).doc_idx < nd,
                    0 <= k <= np,
                    out@.len() == nd,
                    forall|e: int|
                        0 <= e < nd ==> (#[trigger] out@[e])@ == doc_hits(
                            self.terms@,
                            matched@.take(j as int),
                            e,
                        ) + posting_hits(ps@.take(k as int), a, e),
                decreases np - k,
            {
                let p = ps[k];
                let h = Hit { term_idx: a, field: p.field, tf: p.tf };
                let ghost before = out@;
                let mut slot: Vec<Hit> = Vec::new();
                std::mem::swap(&mut slot, &mut out[p.doc_idx]);
                slot.push(h);
                std::mem::swap(&mut slot, &mut out[p.doc_idx]);
                proof {
                    assert(ps@.take(k + 1).drop_last() =~= ps@.take(k as int));
                    assert forall|e: int| 0 <= e < nd implies (#[trigger] out@[e])@ == doc_hits(
                        self.terms@,
                        matched@.take(j as int),
                        e,
                    ) + posting_hits(ps@.take(k + 1), a, e) by {
                        if e != p.doc_idx {
                            assert(out@[e] == before[e]);
                        } else {
                            assert(out@[e]@ =~= before[e]@.push(h));
                        }
                    }
                }
                k = k + 1;
            }
            proof {
                assert(ps@.take(np as int) =~= ps@);
            }
            j = j + 1;
        }
        proof {
            assert(matched@.take(nm as int) =~= matched@);
        }
        out
    }
}

/// The distinct terms of `hits`, in order of first hit.
pub open spec fn distinct_terms(ts: Seq<TermEntry>, hits: Seq<Hit>) -> Seq<Seq<char>>
    decreases hits.len(),
{
    if hits.len() == 0 {
        seq![]
    } else {
        let prev = distinct_terms(ts, hits.drop_last());
        let t = ts[hits.last().term_idx as int].term@;
        if prev.contains(t) {
            prev
        } else {
            prev.push(t)
        }
    }
}

/// The documents below `n` that some matched entry reaches, in order.
pub open spec fn candidate_docs(ts: Seq<TermEntry>, m: Seq<usize>, n: int) -> Seq<usize>
    decreases n,
{
    if n <= 0 {
        seq![]
    } else if doc_hits(ts, m, n - 1).len() > 0 {
        candidate_docs(ts, m, n - 1).push((n - 1) as usize)
    } else {
        candidate_docs(ts, m, n - 1)
    }
}

/// A document reached by a query, with what a score is computed from.
#[derive(Clone, Debug)]
pub struct Candidate {
    pub doc_idx: usize,
    pub hits: Vec<Hit>,
    /// The distinct matched terms, in order of first hit.
    pub matches: Vec<String>,
}

/// `c` is the candidate for document `d` under the matched entries `m`.
pub open spec fn candidate_for(ts: Seq<TermEntry>, m: Seq<usize>, c: Candidate, d: usize) -> bool {
    &&& c.doc_idx == d
    &&& c.hits@ == doc_hits(ts, m, d as int)
    &&& views_of(c.matches@) == distinct_terms(ts, c.hits@)
}

/// The weight of a field in a score: a title counts ten times, a heading
/// five times, body and code once.
pub open spec fn boost_spec(f: Field) -> nat {
    match f {
        Field::Title => 10,
        Field::Heading => 5,
        Field::Body => 1,
        Field::Code => 1,
    }
}

pub fn field_boost(f: Field) -> (r: u32)
    ensures
        r == boost_spec(f),
{
    match f {
        Field::Title => 10,
        Field::Heading => 5,
        Field::Body => 1,
        Field::Code => 1,
    }
}

impl SearchIndex {
    /// The distinct terms of `hits`, in order of first hit.
    pub fn hit_terms(&self, hits: &Vec<Hit>) -> (r: Vec<String>)
        requires
            forall|k: int| 0 <= k < hits@.len() ==> (#[trigger] hits@[k]).term_idx < self.terms@.len(),
        ensures
            views_of(r@) == distinct_terms(self.terms@, hits@),
    {
        let mut out: Vec<String> = Vec::new();
        let nh = hits.len();
        let mut k: usize = 0;
        while k < nh
            invariant
                nh == hits@.len(),
                0 <= k <= nh,
                forall|k: int| 0 <= k < hits@.len() ==> (#[trigger] hits@[k]).term_idx < self.terms@.len(),
                views_of(out@) == distinct_terms(self.terms@, hits@.take(k as int)),
            decreases nh - k,
        {
            let t = &self.terms[hits[k].term_idx].term;
            let mut seen = false;
            let mut q: usize = 0;
            while q < out.len() && !seen
                invariant
                    0 <= q <= out@.len(),
                    seen ==> views_of(out@).contains(t@),
                    !seen ==> forall|z: int| 0 <= z < q ==> out@[z]@ != t@,
                decreases out@.len() - q + if seen { 0int } else { 1int },
            {
                if out[q] == *t {
                    seen = true;
                    assert(views_of(out@)[q as int] == t@);
                } else {
                    q = q + 1;
                }
            }
            proof {
                assert(hits@.take(k + 1).drop_last() =~= hits@.take(k as int));
                if !seen {
                    assert(!views_of(out@).contains(t@)) by {
                        if views_of(out@).contains(t@) {
                            let z = choose|z: int| 0 <= z < views_of(out@).len() && views_of(out@)[z] == t@;
                            assert(out@[z]@ == t@);
                        }
                    }
                }
            }
            if !seen {
                let ghost before = out@;
                out.push(t.clone());
                assert(views_of(out@) =~= views_of(before).push(t@));
            }
            k = k + 1;
        }
        assert(hits@.take(nh as int) =~= hits@);
        out
    }

    /// The documents that `query` reaches, in document order, each with
    /// its hits and its distinct matched terms.
    pub fn candidates(&self, query: &str, prefix: bool, fuzzy: bool) -> (r: Vec<Candidate>)
        requires
            self.wf(),
        ensures
            r@.map_values(|c: Candidate| c.doc_idx) == candidate_docs(
                self.terms@,
                matched_entries(self.terms@, query@, prefix, fuzzy),
                self.documents@.len() as int,
            ),
            forall|k: int|
                0 <= k < r@.len() ==> candidate_for(
                    self.terms@,
                    matched_entries(self.terms@, query@, prefix, fuzzy),
                    #[trigger] r@[k],
                    r@[k].doc_idx,
                ),
    {
        let matched = self.match_terms(query, prefix, fuzzy);
        proof {
            lemma_matched_in_range(self.terms@, query@, prefix, fuzzy);
        }
        let mut per_doc = self.collect_hits(&matched);
        let ghost m = matched@;
        let nd = per_doc.len();
        let mut out: Vec<Candidate> = Vec::new();
        let mut d: usize = 0;
        while d < nd
            invariant
                self.wf(),
                m == matched@,
                m == matched_entries(self.terms@, query@, prefix, fuzzy),
                forall|j: int| 0 <= j < m.len() ==> (#[trigger] m[j]) < self.terms@.len(),
                nd == per_doc@.len(),
                nd == self.documents@.len(),
                0 <= d <= nd,
                forall|e: int| d <= e < nd ==> (#[trigger] per_doc@[e])@ == doc_hits(self.terms@, m, e),
                out@.map_values(|c: Candidate| c.doc_idx) == candidate_docs(self.terms@, m, d as int),
                forall|k: int|
                    0 <= k < out@.len() ==> candidate_for(self.terms@, m, #[trigger] out@[k], out@[k].doc_idx),
            decreases nd - d,
        {
            let mut hits: Vec<Hit> = Vec::new();
            std::mem::swap(&mut hits, &mut per_doc[d]);
            let ghost before = out@;
            if hits.len() > 0 {
                proof {
                    lemma_hits_in_range(self.terms@, m, d as int);
                }
                let matches = self.hit_terms(&hits);
                out.push(Candidate { doc_idx: d, hits, matches });
                assert(out@.map_values(|c: Candidate| c.doc_idx) =~= before.map_values(
                    |c: Candidate| c.doc_idx,
                ).push(d));
            }
            proof {
                assert forall|e: int| d + 1 <= e < nd implies (#[trigger] per_doc@[e])@ == doc_hits(self.terms@, m, e) by {}
                assert forall|k: int| 0 <= k < out@.len() implies candidate_for(self.terms@, m, #[trigger] out@[k], out@[k].doc_idx) by {
                    if k < before.len() {
                        assert(out@[k] == before[k]);
                    }
                }
            }
            d = d + 1;
        }
        out
    }
}

/// Matched entries are positions of entries.
proof fn lemma_matched_in_range(ts: Seq<TermEntry>, query: Seq<char>, prefix: bool, fuzzy: bool)
    ensures
        forall|j: int|
            0 <= j < matched_entries(ts, query, prefix, fuzzy).len() ==> (#[trigger] matched_entries(ts, query, prefix, fuzzy)[j]) < ts.len(),
{
    let toks = tokens_of(query);
    lemma_matched_upto_in_range(ts, toks, prefix, fuzzy, toks.len() as int);
}

proof fn lemma_matched_upto_in_range(ts: Seq<TermEntry>, toks: Seq<Seq<char>>, prefix: bool, fuzzy: bool, n: int)
    ensures
        forall|j: int|
            0 <= j < matched_upto(ts, toks, prefix, fuzzy, n).len() ==> (#[trigger] matched_upto(ts, toks, prefix, fuzzy, n)[j]) < ts.len(),
    decreases n,
{
    if n > 0 {
        lemma_matched_upto_in_range(ts, toks, prefix, fuzzy, n - 1);
        let e = expands(toks, n - 1, prefix);
        lemma_selected_in_range(ts, toks[n - 1], e, ts.len() as int);
        lemma_near_in_range(ts, toks[n - 1], ts.len() as int);
        let a = matched_upto(ts, toks, prefix, fuzzy, n - 1);
        let b = token_entries(ts, toks, n - 1, prefix, fuzzy);
        assert forall|j: int| 0 <= j < (a + b).len() implies (#[trigger] (a + b)[j]) < ts.len() by {
            if j >= a.len() {
                assert((a + b)[j] == b[j - a.len()]);
            }
        }
    }
}

proof fn lemma_selected_in_range(ts: Seq<TermEntry>, tok: Seq<char>, expand: bool, n: int)
    requires
        n <= ts.len(),
    ensures
        forall|j: int|
            0 <= j < selected_upto(ts, tok, expand, n).len() ==> (#[trigger] selected_upto(ts, tok, expand, n)[j]) < n,
    decreases n,
{
    if n > 0 {
        lemma_selected_in_range(ts, tok, expand, n - 1);
        let prev = selected_upto(ts, tok, expand, n - 1);
        assert forall|j: int| 0 <= j < selected_upto(ts, tok, expand, n).len() implies (#[trigger] selected_upto(ts, tok, expand, n)[j]) < n by {
            if j < prev.len() {
                assert(selected_upto(ts, tok, expand, n)[j] == prev[j]);
            }
        }
    }
}

proof fn lemma_near_in_range(ts: Seq<TermEntry>, tok: Seq<char>, n: int)
    requires
        n <= ts.len(),
    ensures
        forall|j: int|
            0 <= j < near_upto(ts, tok, n).len() ==> (#[trigger] near_upto(ts, tok, n)[j]) < n,
    decreases n,
{
    if n > 0 {
        lemma_near_in_range(ts, tok, n - 1);
        let prev = near_upto(ts, tok, n - 1);
        assert forall|j: int| 0 <= j < near_upto(ts, tok, n).len() implies (#[trigger] near_upto(ts, tok, n)[j]) < n by {
            if j < prev.len() {
                assert(near_upto(ts, tok, n)[j] == prev[j]);
            }
        }
    }
}

/// Hits point at entries.
proof fn lemma_hits_in_range(ts: Seq<TermEntry>, m: Seq<usize>, d: int)
    requires
        forall|j: int| 0 <= j < m.len() ==> (#[trigger] m[j]) < ts.len(),
    ensures
        forall|k: int| 0 <= k < doc_hits(ts, m, d).len() ==> (#[trigger] doc_hits(ts, m, d)[k]).term_idx < ts.len(),
    decreases m.len(),
{
    if m.len() > 0 {
        lemma_hits_in_range(ts, m.drop_last(), d);
        let a = doc_hits(ts, m.drop_last(), d);
        let b = posting_hits(ts[m.last() as int].postings@, m.last(), d);
        lemma_posting_hits_idx(ts[m.last() as int].postings@, m.last(), d);
        assert forall|k: int| 0 <= k < (a + b).len() implies (#[trigger] (a + b)[k]).term_idx < ts.len() by {
            if k >= a.len() {
                assert((a + b)[k] == b[k - a.len()]);
            }
        }
    }
}

proof fn lemma_posting_hits_idx(ps: Seq<Posting>, a: usize, d: int)
    ensures
        forall|k: int| 0 <= k < posting_hits(ps, a, d).len() ==> (#[trigger] posting_hits(ps, a, d)[k]).term_idx == a,
    decreases ps.len(),
{
    if ps.len() > 0 {
        lemma_posting_hits_idx(ps.drop_last(), a, d);
    }
}

} // verus!
