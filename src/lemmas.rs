//! Facts about occurrence counts and posting lists.

use vstd::prelude::*;

use crate::model::{
    count_in, distinct_docs, docs_of, field_rank, posting_key, postings_sorted, Posting,
};

verus! {

pub proof fn lemma_count_push<A>(s: Seq<A>, y: A, x: A)
    ensures
        count_in(s.push(y), x) == count_in(s, x) + if y == x {
            1nat
        } else {
            0nat
        },
{
    assert(s.push(y).drop_last() =~= s);
}

pub proof fn lemma_count_positive<A>(s: Seq<A>, x: A)
    requires
        count_in(s, x) > 0,
    ensures
        s.contains(x),
    decreases s.len(),
{
    if s.last() != x {
        lemma_count_positive(s.drop_last(), x);
        let k = choose|k: int| 0 <= k < s.drop_last().len() && s.drop_last()[k] == x;
        assert(s[k] == x);
    } else {
        assert(s[s.len() - 1] == x);
    }
}

pub proof fn lemma_count_le_len<A>(s: Seq<A>, x: A)
    ensures
        count_in(s, x) <= s.len(),
    decreases s.len(),
{
    if s.len() > 0 {
        lemma_count_le_len(s.drop_last(), x);
    }
}

pub proof fn lemma_distinct_push(ps: Seq<Posting>, p: Posting)
    ensures
        distinct_docs(ps.push(p)) == distinct_docs(ps) + if ps.len() == 0 || ps.last().doc_idx
            != p.doc_idx {
            1nat
        } else {
            0nat
        },
{
    assert(ps.push(p).drop_last() =~= ps);
    if ps.len() > 0 {
        assert(ps.push(p)[ps.len() - 1] == ps.last());
    }
}

/// Postings in order point at no more documents than the last one's
/// position allows.
pub proof fn lemma_distinct_bound(ps: Seq<Posting>)
    requires
        ps.len() > 0,
        postings_sorted(ps),
    ensures
        distinct_docs(ps) <= ps.last().doc_idx + 1,
    decreases ps.len(),
{
    if ps.len() == 1 {
        assert(ps.drop_last() =~= Seq::<Posting>::empty());
        assert(distinct_docs(ps.drop_last()) == 0);
    } else {
        let init = ps.drop_last();
        assert(postings_sorted(init)) by {
            assert forall|k1: int, k2: int| 0 <= k1 < k2 < init.len() implies posting_key(
                (#[trigger] init[k1]).doc_idx as int,
                init[k1].field,
            ) < posting_key((#[trigger] init[k2]).doc_idx as int, init[k2].field) by {
                assert(init[k1] == ps[k1] && init[k2] == ps[k2]);
            }
        }
        lemma_distinct_bound(init);
        let l1 = ps[ps.len() - 2];
        let l2 = ps[ps.len() - 1];
        assert(posting_key(l1.doc_idx as int, l1.field) < posting_key(l2.doc_idx as int, l2.field));
        assert(field_rank(l1.field) < 4 && field_rank(l2.field) < 4);
        assert(l1.doc_idx <= l2.doc_idx);
    }
}

/// For postings in order, `distinct_docs` is the number of documents they
/// point at.
pub proof fn lemma_distinct_docs_card(ps: Seq<Posting>)
    requires
        postings_sorted(ps),
    ensures
        distinct_docs(ps) == docs_of(ps).len(),
        docs_of(ps).finite(),
        forall|d: usize| docs_of(ps).contains(d) ==> ps.len() > 0 && d <= ps.last().doc_idx,
    decreases ps.len(),
{
    let ms = ps.map_values(|p: Posting| p.doc_idx);
    vstd::seq_lib::seq_to_set_is_finite(ms);
    if ps.len() == 0 {
        assert(docs_of(ps) =~= Set::<usize>::empty());
    } else {
        let init = ps.drop_last();
        let l = ps.last();
        assert(postings_sorted(init)) by {
            assert forall|k1: int, k2: int| 0 <= k1 < k2 < init.len() implies posting_key(
                (#[trigger] init[k1]).doc_idx as int,
                init[k1].field,
            ) < posting_key((#[trigger] init[k2]).doc_idx as int, init[k2].field) by {
                assert(init[k1] == ps[k1] && init[k2] == ps[k2]);
            }
        }
        lemma_distinct_docs_card(init);
        let mi = init.map_values(|p: Posting| p.doc_idx);
        assert(ms =~= mi.push(l.doc_idx));
        mi.lemma_push_to_set_commute(l.doc_idx);
        assert(docs_of(ps) =~= docs_of(init).insert(l.doc_idx));
        if init.len() > 0 {
            let l1 = ps[ps.len() - 2];
            assert(l1 == init.last());
            assert(posting_key(l1.doc_idx as int, l1.field) < posting_key(l.doc_idx as int, l.field));
            assert(field_rank(l1.field) < 4 && field_rank(l.field) < 4);
            if l1.doc_idx != l.doc_idx {
                assert(!docs_of(init).contains(l.doc_idx));
            } else {
                assert(mi[init.len() - 1] == l.doc_idx);
                assert(docs_of(init).contains(l.doc_idx));
                assert(docs_of(init).insert(l.doc_idx) =~= docs_of(init));
            }
        } else {
            assert(docs_of(init) =~= Set::<usize>::empty());
        }
        assert forall|d: usize| docs_of(ps).contains(d) implies d <= ps.last().doc_idx by {
            if d != l.doc_idx {
                assert(docs_of(init).contains(d));
            }
        }
    }
}

} // verus!
