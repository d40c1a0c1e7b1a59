//! Properties that relate the index, its builder and the query engine.

use vstd::prelude::*;

use crate::lemmas::lemma_distinct_docs_card;
use crate::model::{
    body_total, docs_of, entry_wf, input_body_total, stores, terms_wf, SearchDocument,
    SearchIndex, StoredDocument, TermEntry,
};
use crate::query::{
    candidate_docs, doc_hits, expands, is_prefix_of, matched_entries, selected_upto, selects,
};

verus! {

/// In every well formed index, the document frequency of each term is the
/// number of distinct documents among its postings.
pub proof fn lemma_df_counts_documents(idx: SearchIndex)
    requires
        idx.wf(),
    ensures
        forall|a: int|
            0 <= a < idx.terms@.len() ==> (#[trigger] idx.terms@[a]).df == docs_of(
                idx.terms@[a].postings@,
            ).len(),
{
    reveal(terms_wf);
    assert forall|a: int| 0 <= a < idx.terms@.len() implies (#[trigger] idx.terms@[a]).df
        == docs_of(idx.terms@[a].postings@).len() by {
        assert(entry_wf(idx.terms@[a], idx.documents@.len()));
        lemma_distinct_docs_card(idx.terms@[a].postings@);
    }
}

proof fn lemma_body_totals(sd: Seq<StoredDocument>, ds: Seq<SearchDocument>)
    requires
        sd.len() == ds.len(),
        forall|i: int| 0 <= i < ds.len() ==> stores(#[trigger] sd[i], ds[i]),
    ensures
        body_total(sd) == input_body_total(ds),
    decreases ds.len(),
{
    if ds.len() > 0 {
        lemma_body_totals(sd.drop_last(), ds.drop_last());
        assert(stores(sd[sd.len() - 1], ds[ds.len() - 1]));
    }
}

/// The body length total of an index built from `ds` is the total length
/// of the bodies of `ds`: the average document length is the mean body
/// length of the documents added.
pub proof fn lemma_avg_dl_is_mean_body_length(idx: SearchIndex, ds: Seq<SearchDocument>)
    requires
        idx.describes(ds),
    ensures
        idx.documents@.len() == ds.len(),
        body_total(idx.documents@) == input_body_total(ds),
{
    lemma_body_totals(idx.documents@, ds);
}

proof fn lemma_selected_contents(ts: Seq<TermEntry>, tok: Seq<char>, expand: bool, n: int)
    requires
        0 <= n <= ts.len(),
        ts.len() <= usize::MAX,
    ensures
        forall|a: usize| #[trigger]
            selected_upto(ts, tok, expand, n).contains(a) <==> (a < n && selects(
                tok,
                ts[a as int].term@,
                expand,
            )),
    decreases n,
{
    if n > 0 {
        lemma_selected_contents(ts, tok, expand, n - 1);
        let prev = selected_upto(ts, tok, expand, n - 1);
        let cur = selected_upto(ts, tok, expand, n);
        if selects(tok, ts[n - 1].term@, expand) {
            assert(cur == prev.push((n - 1) as usize));
        } else {
            assert(cur == prev);
        }
        assert forall|a: usize| #[trigger] cur.contains(a) <==> (a < n && selects(
            tok,
            ts[a as int].term@,
            expand,
        )) by {
            assert(prev.contains(a) <==> (a < n - 1 && selects(tok, ts[a as int].term@, expand)));
            if selects(tok, ts[n - 1].term@, expand) {
                assert(cur == prev.push((n - 1) as usize));
                if cur.contains(a) {
                    let j = choose|j: int| 0 <= j < cur.len() && cur[j] == a;
                    if j < prev.len() {
                        assert(prev[j] == a);
                        assert(prev.contains(a));
                    }
                }
                if a < n && selects(tok, ts[a as int].term@, expand) {
                    if a == n - 1 {
                        assert(cur[prev.len() as int] == a);
                    } else {
                        assert(prev.contains(a));
                        let j = choose|j: int| 0 <= j < prev.len() && prev[j] == a;
                        assert(cur[j] == a);
                    }
                }
            } else {
                assert(cur == prev);
            }
        }
    }
}

/// A query token selects, among the entries of an index, exactly the terms it
/// equals; when it is the last token, prefix matching is on, and it has two
/// characters or more, exactly the terms it is a prefix of. A one-character
/// last token is never expanded.
pub proof fn lemma_prefix_expansion(idx: SearchIndex, toks: Seq<Seq<char>>, prefix: bool, i: int)
    requires
        idx.terms@.len() <= usize::MAX,
        0 <= i < toks.len(),
    ensures
        toks[i].len() < 2 ==> !expands(toks, i, prefix),
        forall|a: usize| #[trigger]
            selected_upto(idx.terms@, toks[i], expands(toks, i, prefix), idx.terms@.len() as int).contains(a) <==> (a
                < idx.terms@.len() && if prefix && i == toks.len() - 1 && toks[i].len() >= 2 {
                is_prefix_of(toks[i], idx.terms@[a as int].term@)
            } else {
                idx.terms@[a as int].term@ == toks[i]
            }),
{
    let ts = idx.terms@;
    lemma_selected_contents(ts, toks[i], expands(toks, i, prefix), ts.len() as int);
}

/// An index put back together from the parts of another (as when it is
/// serialized and read back) answers every query as the other does: the
/// same matched terms, the same candidate documents with the same hits,
/// and the same stored documents to score and cut snippets from.
pub proof fn lemma_parts_round_trip(
    idx: SearchIndex,
    again: SearchIndex,
    query: Seq<char>,
    prefix: bool,
    fuzzy: bool,
)
    requires
        idx.wf(),
        again.documents@ == idx.documents@,
        again.terms@ == idx.terms@,
    ensures
        again.wf(),
        matched_entries(again.terms@, query, prefix, fuzzy) == matched_entries(
            idx.terms@,
            query,
            prefix,
            fuzzy,
        ),
        candidate_docs(
            again.terms@,
            matched_entries(again.terms@, query, prefix, fuzzy),
            again.documents@.len() as int,
        ) == candidate_docs(
            idx.terms@,
            matched_entries(idx.terms@, query, prefix, fuzzy),
            idx.documents@.len() as int,
        ),
        forall|d: int|
            #![trigger doc_hits(again.terms@, matched_entries(again.terms@, query, prefix, fuzzy), d)]
            doc_hits(again.terms@, matched_entries(again.terms@, query, prefix, fuzzy), d)
                == doc_hits(idx.terms@, matched_entries(idx.terms@, query, prefix, fuzzy), d),
{
}

} // verus!
