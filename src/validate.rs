//! Checking an index read back from its serialized form.

use vstd::hash_map::StringHashMap;
use vstd::prelude::*;

use crate::model::{
    body_total, distinct_docs, entry_wf, field_rank, posting_key, postings_sorted, terms_wf, Field,
    Posting, SearchIndex, StoredDocument, TermEntry,
};
use crate::lemmas::lemma_distinct_push;

verus! {

/// Why a set of index parts is not an index.
#[derive(Clone, Copy, Debug, PartialEq, Eq, Structural)]
pub enum IndexError {
    /// Two entries share a term, an entry has no postings, postings are out
    /// of order, point past the documents or count nothing, or a document
    /// frequency is wrong.
    Inconsistent,
}

fn rank_of(f: Field) -> (r: usize)
    ensures
        r == field_rank(f),
{
    match f {
        Field::Title => 0,
        Field::Heading => 1,
        Field::Body => 2,
        Field::Code => 3,
    }
}

/// Whether posting `a` sorts strictly before posting `b`.
fn key_less(a: &Posting, b: &Posting) -> (r: bool)
    ensures
        r == (posting_key(a.doc_idx as int, a.field) < posting_key(b.doc_idx as int, b.field)),
{
    a.doc_idx < b.doc_idx || (a.doc_idx == b.doc_idx && rank_of(a.field) < rank_of(b.field))
}

/// Whether `e` is a well formed entry for `n` documents.
fn entry_ok(e: &TermEntry, n: usize) -> (r: bool)
    ensures
        r == entry_wf(*e, n as nat),
{
    let ps = &e.postings;
    let np = ps.len();
    if np == 0 {
        return false;
    }
    let mut df: usize = 0;
    let mut k: usize = 0;
    while k < np
        invariant
            np == ps@.len(),
            ps@ == e.postings@,
            0 <= k <= np,
            df == distinct_docs(ps@.take(k as int)),
            df <= k,
            postings_sorted(ps@.take(k as int)),
            forall|q: int| 0 <= q < k ==> (#[trigger] ps@[q]).doc_idx < n && ps@[q].tf > 0,
        decreases np - k,
    {
        let p = ps[k];
        if p.doc_idx >= n || p.tf == 0 {
            return false;
        }
        if k > 0 && !key_less(&ps[k - 1], &p) {
            assert(!postings_sorted(ps@)) by {
                assert(!(posting_key(ps@[k - 1].doc_idx as int, ps@[k - 1].field) < posting_key(ps@[k as int].doc_idx as int, ps@[k as int].field)));
            }
            return false;
        }
        proof {
            let pre = ps@.take(k as int);
            assert(ps@.take(k + 1) =~= pre.push(p));
            lemma_distinct_push(pre, p);
            if k > 0 {
                assert(pre.last() == ps@[k - 1]);
            }
            assert forall|k1: int, k2: int| 0 <= k1 < k2 < k + 1 implies posting_key(
                (#[trigger] ps@.take(k + 1)[k1]).doc_idx as int,
                ps@.take(k + 1)[k1].field,
            ) < posting_key((#[trigger] ps@.take(k + 1)[k2]).doc_idx as int, ps@.take(k + 1)[k2].field) by {
                assert(ps@.take(k + 1)[k1] == ps@[k1]);
                assert(ps@.take(k + 1)[k2] == ps@[k2]);
                if k2 < k {
                    assert(pre[k1] == ps@[k1] && pre[k2] == ps@[k2]);
                } else if k1 < k - 1 {
                    assert(pre[k1] == ps@[k1] && pre[k - 1] == ps@[k - 1]);
                }
            }
        }
        if k == 0 || ps[k - 1].doc_idx != p.doc_idx {
            df = df + 1;
        }
        k = k + 1;
    }
    assert(ps@.take(np as int) =~= ps@);
    e.df == df
}

impl SearchIndex {
    /// Puts an index together from its parts, as read back from a
    /// serialized index, after checking that they form one.
    pub fn from_parts(documents: Vec<StoredDocument>, terms: Vec<TermEntry>) -> (r: Result<
        SearchIndex,
        IndexError,
    >)
        ensures
            r is Ok <==> terms_wf(terms@, documents@.len()),
            r is Ok ==> r->Ok_0.documents@ == documents@ && r->Ok_0.terms@ == terms@,
            r is Err ==> r == Err::<SearchIndex, IndexError>(IndexError::Inconsistent),
    {
        let n = documents.len();
        let nt = terms.len();
        let mut seen: StringHashMap<usize> = StringHashMap::new();
        let mut a: usize = 0;
        while a < nt
            invariant
                nt == terms@.len(),
                n == documents@.len(),
                0 <= a <= nt,
                forall|b: int| 0 <= b < a ==> entry_wf(#[trigger] terms@[b], n as nat),
                forall|b1: int, b2: int|
                    0 <= b1 < b2 < a ==> (#[trigger] terms@[b1]).term@ != (#[trigger] terms@[b2]).term@,
                forall|t: Seq<char>| #[trigger]
                    seen@.contains_key(t) ==> seen@[t] < a && terms@[seen@[t] as int].term@ == t,
                forall|b: int| 0 <= b < a ==> seen@.contains_key(#[trigger] terms@[b].term@),
            decreases nt - a,
        {
            if !entry_ok(&terms[a], n) {
                proof {
                    reveal(terms_wf);
                }
                return Err(IndexError::Inconsistent);
            }
            if seen.contains_key(terms[a].term.as_str()) {
                proof {
                    reveal(terms_wf);
                    let b = seen@[terms@[a as int].term@];
                    assert(terms@[b as int].term@ == terms@[a as int].term@);
                }
                return Err(IndexError::Inconsistent);
            }
            seen.insert(terms[a].term.clone(), a);
            proof {
                assert forall|b1: int, b2: int|
                    0 <= b1 < b2 < a + 1 implies (#[trigger] terms@[b1]).term@ != (#[trigger] terms@[b2]).term@ by {
                    if b2 == a {
                        assert(seen@.contains_key(terms@[b1].term@) || terms@[b1].term@ != terms@[a as int].term@);
                    }
                }
            }
            a = a + 1;
        }
        proof {
            reveal(terms_wf);
        }
        Ok(SearchIndex { documents, terms })
    }

    /// The number of documents.
    pub fn doc_count(&self) -> (r: usize)
        ensures
            r == self.documents@.len(),
    {
        self.documents.len()
    }

    /// The total character length of the documents' bodies; the average
    /// document length is this over the number of documents.
    pub fn total_body_chars(&self) -> (r: u128)
        ensures
            r == body_total(self.documents@),
    {
        let n = self.documents.len();
        let mut total: u128 = 0;
        let mut i: usize = 0;
        while i < n
            invariant
                n == self.documents@.len(),
                0 <= i <= n,
                total == body_total(self.documents@.take(i as int)),
                total <= i * usize::MAX,
            decreases n - i,
        {
            let l = self.documents[i].body.as_str().unicode_len();
            proof {
                assert(self.documents@.take(i + 1).drop_last() =~= self.documents@.take(i as int));
            }
            total = total + l as u128;
            i = i + 1;
        }
        assert(self.documents@.take(n as int) =~= self.documents@);
        total
    }
}

} // verus!
