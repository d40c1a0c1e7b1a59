//! The indexed data: documents, fields, postings, and what an index of a
//! sequence of documents has to hold.

use vstd::prelude::*;

use crate::tokenizer::tokens_of;

verus! {

/// The part of a document a term occurred in.
#[derive(Clone, Copy, Debug, PartialEq, Eq, Structural)]
pub enum Field {
    Title,
    Heading,
    Body,
    Code,
}

/// Fields in the order in which a document's text is indexed.
pub open spec fn field_rank(f: Field) -> nat {
    match f {
        Field::Title => 0,
        Field::Heading => 1,
        Field::Body => 2,
        Field::Code => 3,
    }
}

/// One (term, document, field) record with the number of occurrences.
#[derive(Clone, Copy, Debug, PartialEq, Eq, Structural)]
pub struct Posting {
    pub doc_idx: usize,
    pub field: Field,
    pub tf: usize,
}

/// The order of postings under one term: by document, then by field.
pub open spec fn posting_key(doc_idx: int, f: Field) -> int {
    doc_idx * 4 + field_rank(f)
}

/// A document handed to the index builder.
#[derive(Clone, Debug)]
pub struct SearchDocument {
    pub id: String,
    pub title: String,
    pub url: String,
    pub body: String,
    pub headings: Vec<String>,
    pub code: Vec<String>,
}

/// The sum of the character lengths of the documents' bodies.
pub open spec fn body_total(ds: Seq<StoredDocument>) -> nat
    decreases ds.len(),
{
    if ds.len() == 0 {
        0
    } else {
        body_total(ds.drop_last()) + ds.last().body@.len()
    }
}

/// The sum of the character lengths of the input documents' bodies.
pub open spec fn input_body_total(ds: Seq<SearchDocument>) -> nat
    decreases ds.len(),
{
    if ds.len() == 0 {
        0
    } else {
        input_body_total(ds.drop_last()) + ds.last().body@.len()
    }
}

/// What the index keeps of a document to show it in a result.
#[derive(Clone, Debug)]
pub struct StoredDocument {
    pub id: String,
    pub title: String,
    pub url: String,
    pub body: String,
}

/// One term of the index with its postings and its document frequency.
#[derive(Clone, Debug)]
pub struct TermEntry {
    pub term: String,
    pub postings: Vec<Posting>,
    pub df: usize,
}

/// A stored document shows the input document it was made from.
pub open spec fn stores(s: StoredDocument, d: SearchDocument) -> bool {
    &&& s.id@ == d.id@
    &&& s.title@ == d.title@
    &&& s.url@ == d.url@
    &&& s.body@ == d.body@
}

/// The terms of a text, each tagged with the field the text belongs to.
pub open spec fn tagged(text: Seq<char>, f: Field) -> Seq<(Seq<char>, Field)> {
    tokens_of(text).map_values(|t: Seq<char>| (t, f))
}

/// The tagged terms of several texts of one field, in order.
pub open spec fn tagged_all(texts: Seq<String>, f: Field) -> Seq<(Seq<char>, Field)>
    decreases texts.len(),
{
    if texts.len() == 0 {
        seq![]
    } else {
        tagged_all(texts.drop_last(), f) + tagged(texts.last()@, f)
    }
}

/// Every term of a document, tagged with its field: the title, then each
/// heading, then the body, then each code block.
pub open spec fn doc_tokens(d: SearchDocument) -> Seq<(Seq<char>, Field)> {
    tagged(d.title@, Field::Title) + tagged_all(d.headings@, Field::Heading) + tagged(
        d.body@,
        Field::Body,
    ) + tagged_all(d.code@, Field::Code)
}

/// How often `x` occurs in `s`.
pub open spec fn count_in<A>(s: Seq<A>, x: A) -> nat
    decreases s.len(),
{
    if s.len() == 0 {
        0
    } else {
        count_in(s.drop_last(), x) + if s.last() == x {
            1nat
        } else {
            0nat
        }
    }
}

/// The number of documents among postings ordered by document.
pub open spec fn distinct_docs(ps: Seq<Posting>) -> nat
    decreases ps.len(),
{
    if ps.len() == 0 {
        0
    } else {
        distinct_docs(ps.drop_last()) + if ps.len() == 1 || ps[ps.len() - 2].doc_idx
            != ps.last().doc_idx {
            1nat
        } else {
            0nat
        }
    }
}

/// The set of documents that postings point to.
pub open spec fn docs_of(ps: Seq<Posting>) -> Set<usize> {
    ps.map_values(|p: Posting| p.doc_idx).to_set()
}

pub open spec fn postings_sorted(ps: Seq<Posting>) -> bool {
    forall|k1: int, k2: int|
        0 <= k1 < k2 < ps.len() ==> posting_key((#[trigger] ps[k1]).doc_idx as int, ps[k1].field)
            < posting_key((#[trigger] ps[k2]).doc_idx as int, ps[k2].field)
}

pub open spec fn pairs_of(ps: Seq<Posting>) -> Seq<(usize, Field)> {
    ps.map_values(|p: Posting| (p.doc_idx, p.field))
}

pub open spec fn terms_of(ts: Seq<TermEntry>) -> Seq<Seq<char>> {
    ts.map_values(|e: TermEntry| e.term@)
}

/// An entry is well formed for `n` documents: postings in order, pointing
/// at documents below `n`, with positive counts, and `df` counting their
/// documents.
pub open spec fn entry_wf(e: TermEntry, n: nat) -> bool {
    &&& e.postings@.len() > 0
    &&& postings_sorted(e.postings@)
    &&& forall|k: int|
        0 <= k < e.postings@.len() ==> (#[trigger] e.postings@[k]).doc_idx < n
            && e.postings@[k].tf > 0
    &&& e.df == distinct_docs(e.postings@)
}

/// The terms are distinct and each entry is well formed.
#[verifier::opaque]
pub open spec fn terms_wf(ts: Seq<TermEntry>, n: nat) -> bool {
    &&& forall|a: int, b: int|
        0 <= a < b < ts.len() ==> (#[trigger] ts[a]).term@ != (#[trigger] ts[b]).term@
    &&& forall|a: int| 0 <= a < ts.len() ==> entry_wf(#[trigger] ts[a], n)
}

/// Every posting counts the occurrences of its term and field in its
/// document.
#[verifier::opaque]
pub open spec fn counts_exact(ts: Seq<TermEntry>, streams: Seq<Seq<(Seq<char>, Field)>>) -> bool {
    forall|a: int, k: int|
        0 <= a < ts.len() && 0 <= k < ts[a].postings@.len() ==> {
            let p = (#[trigger] ts[a].postings@[k]);
            p.tf == count_in(streams[p.doc_idx as int], (ts[a].term@, p.field))
        }
}

/// Every (term, document, field) that occurs has its posting.
#[verifier::opaque]
pub open spec fn postings_complete(
    ts: Seq<TermEntry>,
    streams: Seq<Seq<(Seq<char>, Field)>>,
) -> bool {
    forall|a: int, i: int, f: Field|
        0 <= a < ts.len() && 0 <= i < streams.len() && #[trigger] count_in(
            streams[i],
            (ts[a].term@, f),
        ) > 0 ==> pairs_of(ts[a].postings@).contains((i as usize, f))
}

/// Every term that occurs has its entry.
#[verifier::opaque]
pub open spec fn terms_cover(ts: Seq<TermEntry>, streams: Seq<Seq<(Seq<char>, Field)>>) -> bool {
    forall|i: int, j: int|
        0 <= i < streams.len() && 0 <= j < streams[i].len() ==> terms_of(ts).contains(
            (#[trigger] streams[i][j]).0,
        )
}

/// `ts` is exactly the inverted index of the tagged term streams.
pub open spec fn indexes(ts: Seq<TermEntry>, streams: Seq<Seq<(Seq<char>, Field)>>) -> bool {
    &&& terms_wf(ts, streams.len())
    &&& counts_exact(ts, streams)
    &&& postings_complete(ts, streams)
    &&& terms_cover(ts, streams)
}

pub open spec fn streams_of(ds: Seq<SearchDocument>) -> Seq<Seq<(Seq<char>, Field)>> {
    ds.map_values(|d: SearchDocument| doc_tokens(d))
}

} // verus!

verus! {

/// A built index: the documents in the order they were added, and one
/// entry per distinct term.
#[derive(Clone, Debug)]
pub struct SearchIndex {
    pub documents: Vec<StoredDocument>,
    pub terms: Vec<TermEntry>,
}

impl SearchIndex {
    /// The structural invariant that every index satisfies, built or read
    /// back.
    pub open spec fn wf(&self) -> bool {
        terms_wf(self.terms@, self.documents@.len())
    }

    /// This index is the one built from the documents `ds`, in order.
    pub open spec fn describes(&self, ds: Seq<SearchDocument>) -> bool {
        &&& self.documents@.len() == ds.len()
        &&& forall|i: int| 0 <= i < ds.len() ==> stores(#[trigger] self.documents@[i], ds[i])
        &&& indexes(self.terms@, streams_of(ds))
    }
}

} // verus!
