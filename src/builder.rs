//! Building an inverted index from documents, one document at a time.

use vstd::hash_map::StringHashMap;
use vstd::prelude::*;

use crate::tokenizer::{tokenize, tokens_of, views_of};

use crate::lemmas::{
    lemma_count_le_len, lemma_count_positive, lemma_count_push, lemma_distinct_bound,
    lemma_distinct_push,
};
use crate::model::{
    count_in, doc_tokens, stores, streams_of, tagged, tagged_all, SearchDocument, SearchIndex,
    StoredDocument, counts_exact, distinct_docs, entry_wf, field_rank, indexes, pairs_of, posting_key,
    postings_complete, terms_cover, terms_of, terms_wf, Field, Posting, TermEntry,
};

verus! {

/// `m` maps each term of `ts` to the position of its entry, and nothing
/// else.
pub open spec fn positions_ok(m: Map<Seq<char>, usize>, ts: Seq<TermEntry>) -> bool {
    &&& forall|t: Seq<char>| #[trigger]
        m.contains_key(t) ==> m[t] < ts.len() && ts[m[t] as int].term@ == t
    &&& forall|a: int| 0 <= a < ts.len() ==> m.contains_key(#[trigger] ts[a].term@)
}

/// The position of the entry for `t`, if there is one.
fn lookup(terms: &Vec<TermEntry>, positions: &StringHashMap<usize>, t: &String) -> (r: Option<
    usize,
>)
    requires
        positions_ok(positions@, terms@),
    ensures
        match r {
            Some(a) => a < terms@.len() && terms@[a as int].term@ == t@,
            None => !terms_of(terms@).contains(t@),
        },
{
    match positions.get(t.as_str()) {
        Some(a) => Some(*a),
        None => {
            proof {
                if terms_of(terms@).contains(t@) {
                    let b = choose|b: int|
                        0 <= b < terms_of(terms@).len() && terms_of(terms@)[b] == t@;
                    assert(terms@[b].term@ == t@);
                }
            }
            None
        },
    }
}

/// The streams after one more occurrence `x` in document `i`.
spec fn pushed(
    streams: Seq<Seq<(Seq<char>, Field)>>,
    i: int,
    x: (Seq<char>, Field),
) -> Seq<Seq<(Seq<char>, Field)>> {
    streams.update(i, streams[i].push(x))
}

proof fn lemma_pushed_counts(
    streams: Seq<Seq<(Seq<char>, Field)>>,
    i: int,
    x: (Seq<char>, Field),
)
    requires
        0 <= i < streams.len(),
    ensures
        forall|j: int, y: (Seq<char>, Field)|
            0 <= j < streams.len() ==> #[trigger] count_in(pushed(streams, i, x)[j], y) == count_in(
                streams[j],
                y,
            ) + if j == i && y == x {
                1nat
            } else {
                0nat
            },
{
    assert forall|j: int, y: (Seq<char>, Field)| 0 <= j < streams.len() implies #[trigger] count_in(
        pushed(streams, i, x)[j],
        y,
    ) == count_in(streams[j], y) + if j == i && y == x {
        1nat
    } else {
        0nat
    } by {
        if j == i {
            lemma_count_push(streams[i], x, y);
        }
    }
}

/// The occurrence was the last posting of entry `a`, whose count went up.
proof fn lemma_bump(
    ts: Seq<TermEntry>,
    ts2: Seq<TermEntry>,
    streams: Seq<Seq<(Seq<char>, Field)>>,
    i: int,
    a: int,
    x: (Seq<char>, Field),
)
    requires
        indexes(ts, streams),
        0 <= i < streams.len(),
        i <= usize::MAX,
        0 <= a < ts.len(),
        ts2.len() == ts.len(),
        forall|b: int| 0 <= b < ts.len() && b != a ==> ts2[b] == ts[b],
        ts2[a].term@ == ts[a].term@,
        ts[a].term@ == x.0,
        ts2[a].df == ts[a].df,
        ts[a].postings@.len() > 0,
        ts[a].postings@.last().doc_idx == i,
        ts[a].postings@.last().field == x.1,
        ts[a].postings@.last().tf + 1 < usize::MAX,
        ts2[a].postings@ == ts[a].postings@.drop_last().push(
            Posting { doc_idx: i as usize, field: x.1, tf: (ts[a].postings@.last().tf + 1) as usize },
        ),
    ensures
        indexes(ts2, pushed(streams, i, x)),
{
    let ps = ts[a].postings@;
    let nps = ts2[a].postings@;
    assert forall|k: int| 0 <= k < ps.len() - 1 implies !((#[trigger] ts[a].postings@[k]).doc_idx
        == i && ts[a].postings@[k].field == x.1) by {
        reveal(terms_wf);
        assert(entry_wf(ts[a], streams.len()));
        assert(posting_key(ps[k].doc_idx as int, ps[k].field) < posting_key(
            ps[ps.len() - 1].doc_idx as int,
            ps[ps.len() - 1].field,
        ));
    }
    assert(pairs_of(nps) =~= pairs_of(ps)) by {
        assert forall|k: int| 0 <= k < nps.len() implies pairs_of(nps)[k] == pairs_of(ps)[k] by {
            if k < nps.len() - 1 {
                assert(nps[k] == ps[k]);
            }
        }
    }
    lemma_bump_wf(ts, ts2, streams, i, a, x);
    lemma_bump_counts(ts, ts2, streams, i, a, x);
    lemma_bump_complete(ts, ts2, streams, i, a, x);
    lemma_same_terms_cover(ts, ts2, streams, i, a, x);
}

proof fn lemma_bump_wf(
    ts: Seq<TermEntry>,
    ts2: Seq<TermEntry>,
    streams: Seq<Seq<(Seq<char>, Field)>>,
    i: int,
    a: int,
    x: (Seq<char>, Field),
)
    requires
        indexes(ts, streams),
        0 <= i < streams.len(),
        i <= usize::MAX,
        0 <= a < ts.len(),
        ts2.len() == ts.len(),
        forall|b: int| 0 <= b < ts.len() && b != a ==> ts2[b] == ts[b],
        ts2[a].term@ == ts[a].term@,
        ts[a].term@ == x.0,
        ts2[a].df == ts[a].df,
        ts[a].postings@.len() > 0,
        ts[a].postings@.last().doc_idx == i,
        ts[a].postings@.last().field == x.1,
        ts[a].postings@.last().tf + 1 < usize::MAX,
        ts2[a].postings@ == ts[a].postings@.drop_last().push(
            Posting { doc_idx: i as usize, field: x.1, tf: (ts[a].postings@.last().tf + 1) as usize },
        ),
    ensures
        terms_wf(ts2, streams.len()),
{
    reveal(terms_wf);
    let ps = ts[a].postings@;
    let nps = ts2[a].postings@;
    assert(ps =~= ps.drop_last().push(ps.last()));
    lemma_distinct_push(ps.drop_last(), ps.last());
    lemma_distinct_push(ps.drop_last(), nps.last());
    assert forall|b: int| 0 <= b < ts2.len() implies entry_wf(#[trigger] ts2[b], streams.len()) by {
        if b != a {
            assert(ts2[b] == ts[b]);
            assert(entry_wf(ts[b], streams.len()));
        } else {
            assert(entry_wf(ts[a], streams.len()));
            assert forall|k1: int, k2: int| 0 <= k1 < k2 < nps.len() implies posting_key(
                (#[trigger] nps[k1]).doc_idx as int,
                nps[k1].field,
            ) < posting_key((#[trigger] nps[k2]).doc_idx as int, nps[k2].field) by {
                assert(ps[k1] == nps[k1]);
                assert(posting_key(ps[k1].doc_idx as int, ps[k1].field) < posting_key(
                    ps[k2].doc_idx as int,
                    ps[k2].field,
                ));
            }
            assert forall|k: int| 0 <= k < nps.len() implies (#[trigger] nps[k]).doc_idx
                < streams.len() && nps[k].tf > 0 by {
                if k < nps.len() - 1 {
                    assert(nps[k] == ps[k]);
                } else {
                    assert(ps[k].doc_idx < streams.len());
                }
            }
        }
    }
    assert forall|b1: int, b2: int| 0 <= b1 < b2 < ts2.len() implies (#[trigger] ts2[b1]).term@
        != (#[trigger] ts2[b2]).term@ by {
        assert(ts[b1].term@ != ts[b2].term@);
    }
}

proof fn lemma_bump_counts(
    ts: Seq<TermEntry>,
    ts2: Seq<TermEntry>,
    streams: Seq<Seq<(Seq<char>, Field)>>,
    i: int,
    a: int,
    x: (Seq<char>, Field),
)
    requires
        indexes(ts, streams),
        0 <= i < streams.len(),
        i <= usize::MAX,
        0 <= a < ts.len(),
        ts2.len() == ts.len(),
        forall|b: int| 0 <= b < ts.len() && b != a ==> ts2[b] == ts[b],
        ts2[a].term@ == ts[a].term@,
        ts[a].term@ == x.0,
        ts2[a].df == ts[a].df,
        ts[a].postings@.len() > 0,
        ts[a].postings@.last().doc_idx == i,
        ts[a].postings@.last().field == x.1,
        ts[a].postings@.last().tf + 1 < usize::MAX,
        ts2[a].postings@ == ts[a].postings@.drop_last().push(
            Posting { doc_idx: i as usize, field: x.1, tf: (ts[a].postings@.last().tf + 1) as usize },
        ),
        forall|k: int|
            0 <= k < ts[a].postings@.len() - 1 ==> !((#[trigger] ts[a].postings@[k]).doc_idx == i
                && ts[a].postings@[k].field == x.1),
    ensures
        counts_exact(ts2, pushed(streams, i, x)),
{
    reveal(counts_exact);
    reveal(terms_wf);
    let s2 = pushed(streams, i, x);
    let ps = ts[a].postings@;
    let nps = ts2[a].postings@;
    lemma_pushed_counts(streams, i, x);
    assert forall|b: int, k: int| 0 <= b < ts2.len() && 0 <= k < ts2[b].postings@.len() implies {
        let p = (#[trigger] ts2[b].postings@[k]);
        p.tf == count_in(s2[p.doc_idx as int], (ts2[b].term@, p.field))
    } by {
        if b != a {
            assert(ts2[b] == ts[b]);
            let p = ts[b].postings@[k];
            assert(ts2[b].postings@[k] == p);
            if b < a {
                assert(ts[b].term@ != ts[a].term@);
            } else {
                assert(ts[a].term@ != ts[b].term@);
            }
            assert(p.tf == count_in(streams[p.doc_idx as int], (ts[b].term@, p.field)));
            assert(entry_wf(ts[b], streams.len()));
        } else if k < nps.len() - 1 {
            assert(nps[k] == ps[k]);
            assert(ps[k].tf == count_in(streams[ps[k].doc_idx as int], (ts[a].term@, ps[k].field)));
            assert(entry_wf(ts[a], streams.len()));
        } else {
            assert(k == ps.len() - 1);
            assert(ps[k].tf == count_in(streams[ps[k].doc_idx as int], (ts[a].term@, ps[k].field)));
            assert((ts[a].term@, ps[k].field) == x);
            assert(count_in(s2[i], x) == count_in(streams[i], x) + 1);
        }
    }
}

proof fn lemma_bump_complete(
    ts: Seq<TermEntry>,
    ts2: Seq<TermEntry>,
    streams: Seq<Seq<(Seq<char>, Field)>>,
    i: int,
    a: int,
    x: (Seq<char>, Field),
)
    requires
        indexes(ts, streams),
        0 <= i < streams.len(),
        i <= usize::MAX,
        0 <= a < ts.len(),
        ts2.len() == ts.len(),
        forall|b: int| 0 <= b < ts.len() && b != a ==> ts2[b] == ts[b],
        ts2[a].term@ == ts[a].term@,
        ts[a].term@ == x.0,
        ts2[a].df == ts[a].df,
        ts[a].postings@.len() > 0,
        ts[a].postings@.last().doc_idx == i,
        ts[a].postings@.last().field == x.1,
        ts[a].postings@.last().tf + 1 < usize::MAX,
        ts2[a].postings@ == ts[a].postings@.drop_last().push(
            Posting { doc_idx: i as usize, field: x.1, tf: (ts[a].postings@.last().tf + 1) as usize },
        ),
        pairs_of(ts2[a].postings@) == pairs_of(ts[a].postings@),
    ensures
        postings_complete(ts2, pushed(streams, i, x)),
{
    reveal(postings_complete);
    reveal(terms_wf);
    let s2 = pushed(streams, i, x);
    let ps = ts[a].postings@;
    lemma_pushed_counts(streams, i, x);
    assert forall|b: int, j: int, g: Field|
        0 <= b < ts2.len() && 0 <= j < s2.len() && #[trigger] count_in(
            s2[j],
            (ts2[b].term@, g),
        ) > 0 implies pairs_of(ts2[b].postings@).contains((j as usize, g)) by {
        if b != a {
            assert(ts2[b] == ts[b]);
            if b < a {
                assert(ts[b].term@ != ts[a].term@);
            } else {
                assert(ts[a].term@ != ts[b].term@);
            }
            assert(count_in(streams[j], (ts[b].term@, g)) > 0);
        } else if !(j == i && g == x.1) {
            assert(count_in(streams[j], (ts[a].term@, g)) > 0);
        } else {
            assert(pairs_of(ps)[ps.len() - 1] == (j as usize, g));
        }
    }
}

/// The term of the new occurrence is among the entries' terms, which are
/// unchanged.
proof fn lemma_same_terms_cover(
    ts: Seq<TermEntry>,
    ts2: Seq<TermEntry>,
    streams: Seq<Seq<(Seq<char>, Field)>>,
    i: int,
    a: int,
    x: (Seq<char>, Field),
)
    requires
        terms_cover(ts, streams),
        0 <= i < streams.len(),
        0 <= a < ts.len(),
        ts2.len() == ts.len(),
        forall|b: int| 0 <= b < ts.len() ==> (#[trigger] ts2[b]).term@ == ts[b].term@,
        ts[a].term@ == x.0,
    ensures
        terms_cover(ts2, pushed(streams, i, x)),
{
    reveal(terms_cover);
    let s2 = pushed(streams, i, x);
    assert(terms_of(ts2) =~= terms_of(ts));
    assert forall|j: int, m: int| 0 <= j < s2.len() && 0 <= m < s2[j].len() implies terms_of(
        ts2,
    ).contains((#[trigger] s2[j][m]).0) by {
        if j == i && m == streams[i].len() {
            assert(terms_of(ts)[a] == x.0);
        } else {
            assert(s2[j][m] == streams[j][m]);
        }
    }
}

/// The occurrence is the first of its term in field `x.1` of document `i`:
/// entry `a` gets a new last posting.
proof fn lemma_extend(
    ts: Seq<TermEntry>,
    ts2: Seq<TermEntry>,
    streams: Seq<Seq<(Seq<char>, Field)>>,
    i: int,
    a: int,
    x: (Seq<char>, Field),
)
    requires
        indexes(ts, streams),
        0 <= i < streams.len(),
        i <= usize::MAX,
        0 <= a < ts.len(),
        ts2.len() == ts.len(),
        forall|b: int| 0 <= b < ts.len() && b != a ==> ts2[b] == ts[b],
        ts2[a].term@ == ts[a].term@,
        ts[a].term@ == x.0,
        forall|k: int|
            0 <= k < ts[a].postings@.len() ==> posting_key(
                (#[trigger] ts[a].postings@[k]).doc_idx as int,
                ts[a].postings@[k].field,
            ) < posting_key(i, x.1),
        ts2[a].postings@ == ts[a].postings@.push(
            Posting { doc_idx: i as usize, field: x.1, tf: 1 },
        ),
        ts2[a].df == ts[a].df + if ts[a].postings@.last().doc_idx != i {
            1int
        } else {
            0int
        },
    ensures
        indexes(ts2, pushed(streams, i, x)),
{
    reveal(terms_wf);
    reveal(postings_complete);
    let ps = ts[a].postings@;
    let nps = ts2[a].postings@;
    let s2 = pushed(streams, i, x);
    if count_in(streams[i], x) > 0 {
        assert(count_in(streams[i], (ts[a].term@, x.1)) > 0);
        assert(pairs_of(ps).contains((i as usize, x.1)));
        let k = choose|k: int| 0 <= k < pairs_of(ps).len() && pairs_of(ps)[k] == (i as usize, x.1);
        assert(pairs_of(ps)[k] == (ps[k].doc_idx, ps[k].field));
        assert(posting_key(
            ts[a].postings@[k].doc_idx as int,
            ts[a].postings@[k].field,
        ) < posting_key(i, x.1));
        assert(false);
    }
    lemma_pushed_counts(streams, i, x);
    lemma_distinct_push(ps, nps.last());
    assert(entry_wf(ts[a], streams.len()));
    assert(terms_wf(ts2, s2.len())) by {
        assert forall|b: int| 0 <= b < ts2.len() implies entry_wf(#[trigger] ts2[b], s2.len()) by {
            if b != a {
                assert(ts2[b] == ts[b]);
                assert(entry_wf(ts[b], streams.len()));
            } else {
                assert forall|k1: int, k2: int| 0 <= k1 < k2 < nps.len() implies posting_key(
                    (#[trigger] nps[k1]).doc_idx as int,
                    nps[k1].field,
                ) < posting_key((#[trigger] nps[k2]).doc_idx as int, nps[k2].field) by {
                    assert(ps[k1] == nps[k1]);
                    assert(ts[a].postings@[k1] == ps[k1]);
                    if k2 < ps.len() {
                        assert(ps[k2] == nps[k2]);
                    } else {
                        assert(nps[k2] == Posting { doc_idx: i as usize, field: x.1, tf: 1 });
                        assert(posting_key(
                            ts[a].postings@[k1].doc_idx as int,
                            ts[a].postings@[k1].field,
                        ) < posting_key(i, x.1));
                    }
                }
                assert forall|k: int| 0 <= k < nps.len() implies (#[trigger] nps[k]).doc_idx
                    < s2.len() && nps[k].tf > 0 by {
                    if k < ps.len() {
                        assert(nps[k] == ps[k]);
                    }
                }
            }
        }
        assert forall|b1: int, b2: int| 0 <= b1 < b2 < ts2.len() implies (#[trigger] ts2[b1]).term@
            != (#[trigger] ts2[b2]).term@ by {
            assert(ts[b1].term@ != ts[b2].term@);
        }
    }
    assert(counts_exact(ts2, s2)) by {
        reveal(counts_exact);
        assert forall|b: int, k: int| 0 <= b < ts2.len() && 0 <= k < ts2[b].postings@.len() implies {
            let p = (#[trigger] ts2[b].postings@[k]);
            p.tf == count_in(s2[p.doc_idx as int], (ts2[b].term@, p.field))
        } by {
            if b != a {
                assert(ts2[b] == ts[b]);
                let p = ts[b].postings@[k];
                assert(ts2[b].postings@[k] == p);
                if b < a {
                    assert(ts[b].term@ != ts[a].term@);
                } else {
                    assert(ts[a].term@ != ts[b].term@);
                }
                assert(p.tf == count_in(streams[p.doc_idx as int], (ts[b].term@, p.field)));
                assert(entry_wf(ts[b], streams.len()));
            } else if k < ps.len() {
                assert(nps[k] == ps[k]);
                assert(ts[a].postings@[k] == ps[k]);
                assert(ps[k].tf == count_in(
                    streams[ps[k].doc_idx as int],
                    (ts[a].term@, ps[k].field),
                ));
            } else {
                assert(count_in(s2[i], x) == count_in(streams[i], x) + 1);
            }
        }
    }
    assert(postings_complete(ts2, s2)) by {
        assert forall|b: int, j: int, g: Field|
            0 <= b < ts2.len() && 0 <= j < s2.len() && #[trigger] count_in(
                s2[j],
                (ts2[b].term@, g),
            ) > 0 implies pairs_of(ts2[b].postings@).contains((j as usize, g)) by {
            if b != a {
                assert(ts2[b] == ts[b]);
                if b < a {
                    assert(ts[b].term@ != ts[a].term@);
                } else {
                    assert(ts[a].term@ != ts[b].term@);
                }
                assert(count_in(streams[j], (ts[b].term@, g)) > 0);
            } else if !(j == i && g == x.1) {
                assert(count_in(streams[j], (ts[a].term@, g)) > 0);
                assert(pairs_of(ps).contains((j as usize, g)));
                let k = choose|k: int|
                    0 <= k < pairs_of(ps).len() && pairs_of(ps)[k] == (j as usize, g);
                assert(pairs_of(nps)[k] == pairs_of(ps)[k]);
            } else {
                assert(pairs_of(nps)[ps.len() as int] == (j as usize, g));
            }
        }
    }
    assert forall|b: int| 0 <= b < ts.len() implies (#[trigger] ts2[b]).term@ == ts[b].term@ by {}
    lemma_same_terms_cover(ts, ts2, streams, i, a, x);
}

/// The occurrence is the first of its term anywhere: a new entry is added.
proof fn lemma_new_term(
    ts: Seq<TermEntry>,
    e: TermEntry,
    streams: Seq<Seq<(Seq<char>, Field)>>,
    i: int,
    x: (Seq<char>, Field),
)
    requires
        indexes(ts, streams),
        0 <= i < streams.len(),
        i <= usize::MAX,
        !terms_of(ts).contains(x.0),
        e.term@ == x.0,
        e.postings@ == seq![Posting { doc_idx: i as usize, field: x.1, tf: 1 }],
        e.df == 1,
    ensures
        indexes(ts.push(e), pushed(streams, i, x)),
{
    lemma_pushed_counts(streams, i, x);
    lemma_absent_term(ts, streams, x.0);
    lemma_new_term_wf(ts, e, streams, i, x);
    lemma_new_term_counts(ts, e, streams, i, x);
    lemma_new_term_complete(ts, e, streams, i, x);
    lemma_new_term_cover(ts, e, streams, i, x);
}

/// A term without an entry occurs nowhere.
proof fn lemma_absent_term(
    ts: Seq<TermEntry>,
    streams: Seq<Seq<(Seq<char>, Field)>>,
    t: Seq<char>,
)
    requires
        terms_cover(ts, streams),
        !terms_of(ts).contains(t),
    ensures
        forall|j: int, g: Field| 0 <= j < streams.len() ==> #[trigger] count_in(streams[j], (t, g)) == 0,
{
    reveal(terms_cover);
    assert forall|j: int, g: Field| 0 <= j < streams.len() implies #[trigger] count_in(
        streams[j],
        (t, g),
    ) == 0 by {
        if count_in(streams[j], (t, g)) > 0 {
            lemma_count_positive(streams[j], (t, g));
            let m = choose|m: int| 0 <= m < streams[j].len() && streams[j][m] == (t, g);
            assert(terms_of(ts).contains(streams[j][m].0));
        }
    }
}

proof fn lemma_new_term_wf(
    ts: Seq<TermEntry>,
    e: TermEntry,
    streams: Seq<Seq<(Seq<char>, Field)>>,
    i: int,
    x: (Seq<char>, Field),
)
    requires
        indexes(ts, streams),
        0 <= i < streams.len(),
        i <= usize::MAX,
        !terms_of(ts).contains(x.0),
        e.term@ == x.0,
        e.postings@ == seq![Posting { doc_idx: i as usize, field: x.1, tf: 1 }],
        e.df == 1,
    ensures
        terms_wf(ts.push(e), streams.len()),
{
    reveal(terms_wf);
    let ts2 = ts.push(e);
    let a = ts.len() as int;
    assert forall|b: int| 0 <= b < ts.len() implies (#[trigger] ts[b]).term@ != x.0 by {
        assert(terms_of(ts)[b] == ts[b].term@);
    }
    assert(distinct_docs(e.postings@) == 1) by {
        assert(e.postings@.drop_last() =~= Seq::<Posting>::empty());
        assert(distinct_docs(e.postings@.drop_last()) == 0);
    }
    assert forall|b: int| 0 <= b < ts2.len() implies entry_wf(#[trigger] ts2[b], streams.len()) by {
        if b < a {
            assert(ts2[b] == ts[b]);
            assert(entry_wf(ts[b], streams.len()));
        }
    }
    assert forall|b1: int, b2: int| 0 <= b1 < b2 < ts2.len() implies (#[trigger] ts2[b1]).term@
        != (#[trigger] ts2[b2]).term@ by {
        if b2 < a {
            assert(ts[b1].term@ != ts[b2].term@);
        } else {
            assert(ts2[b1] == ts[b1]);
        }
    }
}

proof fn lemma_new_term_counts(
    ts: Seq<TermEntry>,
    e: TermEntry,
    streams: Seq<Seq<(Seq<char>, Field)>>,
    i: int,
    x: (Seq<char>, Field),
)
    requires
        indexes(ts, streams),
        0 <= i < streams.len(),
        i <= usize::MAX,
        !terms_of(ts).contains(x.0),
        e.term@ == x.0,
        e.postings@ == seq![Posting { doc_idx: i as usize, field: x.1, tf: 1 }],
        e.df == 1,
        forall|j: int, y: (Seq<char>, Field)|
            0 <= j < streams.len() ==> #[trigger] count_in(pushed(streams, i, x)[j], y) == count_in(
                streams[j],
                y,
            ) + if j == i && y == x {
                1nat
            } else {
                0nat
            },
        forall|j: int, g: Field| 0 <= j < streams.len() ==> #[trigger] count_in(streams[j], (x.0, g)) == 0,
    ensures
        counts_exact(ts.push(e), pushed(streams, i, x)),
{
    reveal(counts_exact);
    reveal(terms_wf);
    let ts2 = ts.push(e);
    let s2 = pushed(streams, i, x);
    let a = ts.len() as int;
    assert forall|b: int| 0 <= b < ts.len() implies (#[trigger] ts[b]).term@ != x.0 by {
        assert(terms_of(ts)[b] == ts[b].term@);
    }
    assert forall|b: int, k: int| 0 <= b < ts2.len() && 0 <= k < ts2[b].postings@.len() implies {
        let p = (#[trigger] ts2[b].postings@[k]);
        p.tf == count_in(s2[p.doc_idx as int], (ts2[b].term@, p.field))
    } by {
        if b < a {
            assert(ts2[b] == ts[b]);
            let p = ts[b].postings@[k];
            assert(ts2[b].postings@[k] == p);
            assert(p.tf == count_in(streams[p.doc_idx as int], (ts[b].term@, p.field)));
            assert(entry_wf(ts[b], streams.len()));
        } else {
            assert(k == 0);
            assert(count_in(streams[i], x) == 0);
            assert(count_in(s2[i], x) == count_in(streams[i], x) + 1);
        }
    }
}

proof fn lemma_new_term_complete(
    ts: Seq<TermEntry>,
    e: TermEntry,
    streams: Seq<Seq<(Seq<char>, Field)>>,
    i: int,
    x: (Seq<char>, Field),
)
    requires
        indexes(ts, streams),
        0 <= i < streams.len(),
        i <= usize::MAX,
        !terms_of(ts).contains(x.0),
        e.term@ == x.0,
        e.postings@ == seq![Posting { doc_idx: i as usize, field: x.1, tf: 1 }],
        e.df == 1,
        forall|j: int, y: (Seq<char>, Field)|
            0 <= j < streams.len() ==> #[trigger] count_in(pushed(streams, i, x)[j], y) == count_in(
                streams[j],
                y,
            ) + if j == i && y == x {
                1nat
            } else {
                0nat
            },
        forall|j: int, g: Field| 0 <= j < streams.len() ==> #[trigger] count_in(streams[j], (x.0, g)) == 0,
    ensures
        postings_complete(ts.push(e), pushed(streams, i, x)),
{
    reveal(postings_complete);
    let ts2 = ts.push(e);
    let s2 = pushed(streams, i, x);
    let a = ts.len() as int;
    assert forall|b: int, j: int, g: Field|
        0 <= b < ts2.len() && 0 <= j < s2.len() && #[trigger] count_in(
            s2[j],
            (ts2[b].term@, g),
        ) > 0 implies pairs_of(ts2[b].postings@).contains((j as usize, g)) by {
        if b < a {
            assert(ts2[b] == ts[b]);
            assert(terms_of(ts)[b] == ts[b].term@);
            assert(ts[b].term@ != x.0);
            assert(count_in(streams[j], (ts[b].term@, g)) > 0);
        } else {
            assert(count_in(streams[j], (x.0, g)) == 0);
            assert(j == i && g == x.1);
            assert(pairs_of(e.postings@)[0] == (j as usize, g));
        }
    }
}

proof fn lemma_new_term_cover(
    ts: Seq<TermEntry>,
    e: TermEntry,
    streams: Seq<Seq<(Seq<char>, Field)>>,
    i: int,
    x: (Seq<char>, Field),
)
    requires
        indexes(ts, streams),
        0 <= i < streams.len(),
        i <= usize::MAX,
        !terms_of(ts).contains(x.0),
        e.term@ == x.0,
        e.postings@ == seq![Posting { doc_idx: i as usize, field: x.1, tf: 1 }],
        e.df == 1,
    ensures
        terms_cover(ts.push(e), pushed(streams, i, x)),
{
    reveal(terms_cover);
    let ts2 = ts.push(e);
    let s2 = pushed(streams, i, x);
    let a = ts.len() as int;
    assert forall|j: int, m: int| 0 <= j < s2.len() && 0 <= m < s2[j].len() implies terms_of(
        ts2,
    ).contains((#[trigger] s2[j][m]).0) by {
        if j == i && m == streams[i].len() {
            assert(terms_of(ts2)[a] == x.0);
        } else {
            assert(s2[j][m] == streams[j][m]);
            assert(terms_of(ts).contains(streams[j][m].0));
            let b = choose|b: int| 0 <= b < terms_of(ts).len() && terms_of(ts)[b] == streams[j][m].0;
            assert(terms_of(ts2)[b] == terms_of(ts)[b]);
        }
    }
}

/// Positions stay right while the entries keep their terms.
proof fn lemma_same_terms_positions(m: Map<Seq<char>, usize>, ts: Seq<TermEntry>, ts2: Seq<TermEntry>)
    requires
        positions_ok(m, ts),
        ts2.len() == ts.len(),
        forall|b: int| 0 <= b < ts.len() ==> (#[trigger] ts2[b]).term@ == ts[b].term@,
    ensures
        positions_ok(m, ts2),
{
    assert forall|t: Seq<char>| #[trigger] m.contains_key(t) implies m[t] < ts2.len() && ts2[m[t] as int].term@ == t by {
        assert(ts2[m[t] as int].term@ == ts[m[t] as int].term@);
    }
    assert forall|a: int| 0 <= a < ts2.len() implies m.contains_key(#[trigger] ts2[a].term@) by {
        assert(ts2[a].term@ == ts[a].term@);
        assert(m.contains_key(ts[a].term@));
    }
}

/// Records one more occurrence of `t` in field `f` of document `i`, the
/// last document, whose terms so far all lie in fields up to `f`.
fn record(
    terms: &mut Vec<TermEntry>,
    positions: &mut StringHashMap<usize>,
    t: String,
    i: usize,
    f: Field,
    Ghost(streams): Ghost<Seq<Seq<(Seq<char>, Field)>>>,
)
    requires
        streams.len() == i + 1,
        i < usize::MAX,
        streams[i as int].len() + 1 < usize::MAX,
        indexes(old(terms)@, streams),
        positions_ok(old(positions)@, old(terms)@),
        forall|k: int|
            0 <= k < streams[i as int].len() ==> field_rank(#[trigger] streams[i as int][k].1)
                <= field_rank(f),
    ensures
        indexes(final(terms)@, pushed(streams, i as int, (t@, f))),
        positions_ok(final(positions)@, final(terms)@),
{
    let ghost old_terms = terms@;
    let ghost x = (t@, f);
    proof {
        reveal(terms_wf);
    }
    match lookup(terms, positions, &t) {
        Some(a) => {
            proof {
                assert(entry_wf(old_terms[a as int], streams.len()));
            }
            let plen = terms[a].postings.len();
            let last = terms[a].postings[plen - 1];
            let ghost ps = old_terms[a as int].postings@;
            // Every posting of this term sorts at or before (i, f).
            assert forall|k: int| 0 <= k < ps.len() implies posting_key(
                (#[trigger] ps[k]).doc_idx as int,
                ps[k].field,
            ) <= posting_key(i as int, f) && (posting_key(ps[k].doc_idx as int, ps[k].field)
                == posting_key(i as int, f) ==> ps[k].doc_idx == i && ps[k].field == f) by {
                assert(old_terms[a as int].postings@[k] == ps[k]);
                if ps[k].doc_idx == i {
                    reveal(counts_exact);
                    assert(ps[k].tf == count_in(streams[i as int], (t@, ps[k].field)));
                    lemma_count_positive(streams[i as int], (t@, ps[k].field));
                    let m = choose|m: int|
                        0 <= m < streams[i as int].len() && streams[i as int][m] == (
                            t@,
                            ps[k].field,
                        );
                    assert(field_rank(streams[i as int][m].1) <= field_rank(f));
                }
            }
            if last.doc_idx == i && last.field == f {
                proof {
                    reveal(counts_exact);
                    assert(old_terms[a as int].postings@[plen - 1] == last);
                    lemma_count_le_len(streams[i as int], x);
                }
                let new_p = Posting { doc_idx: i, field: f, tf: last.tf + 1 };
                terms[a].postings.set(plen - 1, new_p);
                proof {
                    assert(terms@[a as int].postings@ =~= ps.drop_last().push(new_p));
                    lemma_bump(old_terms, terms@, streams, i as int, a as int, x);
                    lemma_same_terms_positions(positions@, old_terms, terms@);
                }
            } else {
                let new_p = Posting { doc_idx: i, field: f, tf: 1 };
                proof {
                    assert forall|k: int| 0 <= k < ps.len() implies posting_key(
                        (#[trigger] old_terms[a as int].postings@[k]).doc_idx as int,
                        old_terms[a as int].postings@[k].field,
                    ) < posting_key(i as int, f) by {
                        assert(old_terms[a as int].postings@[k] == ps[k]);
                        if k < ps.len() - 1 {
                            assert(posting_key(ps[k].doc_idx as int, ps[k].field) < posting_key(
                                ps[ps.len() - 1].doc_idx as int,
                                ps[ps.len() - 1].field,
                            ));
                        }
                    }
                    lemma_distinct_push(ps, new_p);
                    lemma_distinct_bound(ps);
                }
                proof {
                    assert(old_terms[a as int].postings@[plen - 1] == last);
                    assert(ps.last() == last);
                    assert(last.doc_idx < streams.len());
                }
                let new_df = if last.doc_idx != i {
                    terms[a].df + 1
                } else {
                    terms[a].df
                };
                terms[a].postings.push(new_p);
                terms[a].df = new_df;
                proof {
                    lemma_extend(old_terms, terms@, streams, i as int, a as int, x);
                    lemma_same_terms_positions(positions@, old_terms, terms@);
                }
            }
        },
        None => {
            let mut ps: Vec<Posting> = Vec::new();
            ps.push(Posting { doc_idx: i, field: f, tf: 1 });
            positions.insert(t.clone(), terms.len());
            let e = TermEntry { term: t, postings: ps, df: 1 };
            proof {
                assert(e.postings@ =~= seq![Posting { doc_idx: i, field: f, tf: 1 }]);
                lemma_new_term(old_terms, e, streams, i as int, x);
            }
            terms.push(e);
            proof {
                assert forall|u: Seq<char>| #[trigger] positions@.contains_key(u) implies positions@[u]
                    < terms@.len() && terms@[positions@[u] as int].term@ == u by {
                    if u != x.0 {
                        assert(terms@[positions@[u] as int] == old_terms[positions@[u] as int]);
                    }
                }
                assert forall|b: int| 0 <= b < terms@.len() implies positions@.contains_key(
                    #[trigger] terms@[b].term@,
                ) by {
                    if b < old_terms.len() {
                        assert(terms@[b] == old_terms[b]);
                    }
                }
            }
        },
    }
}

/// The terms of `toks`, tagged with `f`.
spec fn tag_all(toks: Seq<String>, f: Field) -> Seq<(Seq<char>, Field)> {
    views_of(toks).map_values(|t: Seq<char>| (t, f))
}

/// Adding a document with no terms yet keeps an index exact.
proof fn lemma_add_empty_stream(ts: Seq<TermEntry>, streams: Seq<Seq<(Seq<char>, Field)>>)
    requires
        indexes(ts, streams),
    ensures
        indexes(ts, streams.push(Seq::empty())),
{
    reveal(terms_wf);
    reveal(counts_exact);
    reveal(postings_complete);
    reveal(terms_cover);
    let s2 = streams.push(Seq::<(Seq<char>, Field)>::empty());
    assert forall|a: int| 0 <= a < ts.len() implies entry_wf(#[trigger] ts[a], s2.len()) by {
        assert(entry_wf(ts[a], streams.len()));
    }
    assert forall|a: int, k: int| 0 <= a < ts.len() && 0 <= k < ts[a].postings@.len() implies {
        let p = (#[trigger] ts[a].postings@[k]);
        p.tf == count_in(s2[p.doc_idx as int], (ts[a].term@, p.field))
    } by {
        assert(entry_wf(ts[a], streams.len()));
        assert(s2[ts[a].postings@[k].doc_idx as int] == streams[ts[a].postings@[k].doc_idx as int]);
    }
    assert forall|a: int, i: int, f: Field|
        0 <= a < ts.len() && 0 <= i < s2.len() && #[trigger] count_in(s2[i], (ts[a].term@, f))
            > 0 implies pairs_of(ts[a].postings@).contains((i as usize, f)) by {
        if i == streams.len() {
            assert(count_in(s2[i], (ts[a].term@, f)) == 0);
        } else {
            assert(s2[i] == streams[i]);
        }
    }
    assert forall|i: int, j: int| 0 <= i < s2.len() && 0 <= j < s2[i].len() implies terms_of(
        ts,
    ).contains((#[trigger] s2[i][j]).0) by {
        assert(s2[i] == streams[i]);
    }
}

/// Every tagged term of texts of field `f` carries `f`.
proof fn lemma_tagged_all_fields(texts: Seq<String>, f: Field)
    ensures
        forall|m: int|
            0 <= m < tagged_all(texts, f).len() ==> (#[trigger] tagged_all(texts, f)[m]).1 == f,
    decreases texts.len(),
{
    if texts.len() > 0 {
        lemma_tagged_all_fields(texts.drop_last(), f);
        let l = tagged_all(texts.drop_last(), f);
        assert forall|m: int|
            0 <= m < tagged_all(texts, f).len() implies (#[trigger] tagged_all(texts, f)[m]).1
            == f by {
            if m >= l.len() {
                assert(tagged_all(texts, f)[m] == tagged(texts.last()@, f)[m - l.len()]);
            }
        }
    }
}

/// The tagged terms of a prefix of texts are no more than those of all.
proof fn lemma_tagged_all_prefix(texts: Seq<String>, k: int, f: Field)
    requires
        0 <= k <= texts.len(),
    ensures
        tagged_all(texts.take(k), f).len() <= tagged_all(texts, f).len(),
    decreases texts.len(),
{
    if k == texts.len() {
        assert(texts.take(k) =~= texts);
    } else {
        assert(texts.drop_last().take(k) =~= texts.take(k));
        lemma_tagged_all_prefix(texts.drop_last(), k, f);
    }
}

/// Records every term of `toks`, in field `f` of document `i`, the last one.
fn record_all(
    terms: &mut Vec<TermEntry>,
    positions: &mut StringHashMap<usize>,
    toks: &Vec<String>,
    i: usize,
    f: Field,
    Ghost(before): Ghost<Seq<Seq<(Seq<char>, Field)>>>,
    Ghost(done): Ghost<Seq<(Seq<char>, Field)>>,
)
    requires
        before.len() == i,
        i < usize::MAX,
        done.len() + toks@.len() + 1 < usize::MAX,
        indexes(old(terms)@, before.push(done)),
        positions_ok(old(positions)@, old(terms)@),
        forall|k: int| 0 <= k < done.len() ==> field_rank(#[trigger] done[k].1) <= field_rank(f),
    ensures
        indexes(final(terms)@, before.push(done + tag_all(toks@, f))),
        positions_ok(final(positions)@, final(terms)@),
{
    let n = toks.len();
    let mut j: usize = 0;
    while j < n
        invariant
            n == toks@.len(),
            0 <= j <= n,
            before.len() == i,
            i < usize::MAX,
            done.len() + toks@.len() + 1 < usize::MAX,
            indexes(terms@, before.push(done + tag_all(toks@, f).take(j as int))),
            positions_ok(positions@, terms@),
            forall|k: int| 0 <= k < done.len() ==> field_rank(#[trigger] done[k].1) <= field_rank(f),
        decreases n - j,
    {
        let ghost cur = done + tag_all(toks@, f).take(j as int);
        let t = toks[j].clone();
        proof {
            assert forall|k: int| 0 <= k < cur.len() implies field_rank(#[trigger] cur[k].1)
                <= field_rank(f) by {
                if k >= done.len() {
                    assert(cur[k] == tag_all(toks@, f)[k - done.len()]);
                }
            }
            assert(before.push(cur)[i as int] == cur);
        }
        record(terms, positions, t, i, f, Ghost(before.push(cur)));
        proof {
            assert(tag_all(toks@, f)[j as int] == (t@, f));
            assert(cur.push((t@, f)) =~= done + tag_all(toks@, f).take(j + 1));
            assert(pushed(before.push(cur), i as int, (t@, f)) =~= before.push(
                done + tag_all(toks@, f).take(j + 1),
            ));
        }
        j = j + 1;
    }
    assert(tag_all(toks@, f).take(n as int) =~= tag_all(toks@, f));
}

/// Why the builder refused a call.
#[derive(Clone, Copy, Debug, PartialEq, Eq, Structural)]
pub enum BuildError {
    /// `build` was already called: the builder accepts nothing more.
    AlreadyBuilt,
    /// The document holds more terms, or the index more documents, than a
    /// machine word counts.
    TooLarge,
}

/// Accumulates documents into an inverted index; `build` finalises it.
pub struct SearchIndexBuilder {
    documents: Vec<StoredDocument>,
    terms: Vec<TermEntry>,
    positions: StringHashMap<usize>,
    built: bool,
    added: Ghost<Seq<SearchDocument>>,
}

impl SearchIndexBuilder {
    /// The documents added so far, in order.
    pub closed spec fn docs(&self) -> Seq<SearchDocument> {
        self.added@
    }

    /// Whether `build` has been called.
    pub closed spec fn is_built(&self) -> bool {
        self.built
    }

    /// The builder's internal invariant.
    pub closed spec fn inv(&self) -> bool {
        !self.built ==> self.open_inv()
    }

    closed spec fn open_inv(&self) -> bool {
        &&& self.documents@.len() == self.added@.len()
        &&& forall|i: int|
            0 <= i < self.added@.len() ==> stores(#[trigger] self.documents@[i], self.added@[i])
        &&& indexes(self.terms@, streams_of(self.added@))
        &&& positions_ok(self.positions@, self.terms@)
    }

    pub fn new() -> (r: Self)
        ensures
            r.inv(),
            r.docs() == Seq::<SearchDocument>::empty(),
            !r.is_built(),
    {
        let r = SearchIndexBuilder {
            documents: Vec::new(),
            terms: Vec::new(),
            positions: StringHashMap::new(),
            built: false,
            added: Ghost(Seq::empty()),
        };
        proof {
            reveal(terms_wf);
            reveal(counts_exact);
            reveal(postings_complete);
            reveal(terms_cover);
        }
        r
    }

    /// Appends `doc` as the next document and indexes every term of its
    /// title, headings, body and code.
    pub fn add_document(&mut self, doc: SearchDocument) -> (r: Result<(), BuildError>)
        requires
            old(self).inv(),
        ensures
            final(self).inv(),
            final(self).is_built() == old(self).is_built(),
            old(self).is_built() ==> r == Err::<(), BuildError>(BuildError::AlreadyBuilt),
            !old(self).is_built() ==> (r is Err <==> (doc_tokens(doc).len() + 2 >= usize::MAX
                || old(self).docs().len() + 1 >= usize::MAX)),
            !old(self).is_built() && r is Err ==> r == Err::<(), BuildError>(BuildError::TooLarge),
            r is Ok ==> final(self).docs() == old(self).docs().push(doc),
            r is Err ==> final(self).docs() == old(self).docs(),
    {
        if self.built {
            return Err(BuildError::AlreadyBuilt);
        }
        let ghost d = doc;
        let title_toks = tokenize(doc.title.as_str());
        let body_toks = tokenize(doc.body.as_str());
        let mut heading_toks: Vec<Vec<String>> = Vec::new();
        let mut code_toks: Vec<Vec<String>> = Vec::new();
        let mut total: u128 = title_toks.len() as u128 + body_toks.len() as u128;
        let nh = doc.headings.len();
        let mut k: usize = 0;
        proof {
            assert(doc.headings@.take(0) =~= Seq::<String>::empty());
            lemma_tagged_all_prefix(doc.headings@, 0, Field::Heading);
            lemma_tagged_all_prefix(doc.code@, 0, Field::Code);
            assert(doc.code@.take(0) =~= Seq::<String>::empty());
        }
        if total + 2 >= usize::MAX as u128 {
            return Err(BuildError::TooLarge);
        }
        while k < nh
            invariant
                nh == doc.headings@.len(),
                0 <= k <= nh,
                heading_toks@.len() == k,
                forall|m: int|
                    0 <= m < k ==> views_of((#[trigger] heading_toks@[m])@) == tokens_of(
                        doc.headings@[m]@,
                    ),
                total == tokens_of(doc.title@).len() + tokens_of(doc.body@).len() + tagged_all(
                    doc.headings@.take(k as int),
                    Field::Heading,
                ).len(),
                total + 2 < usize::MAX,
                !old(self).is_built(),
                d == doc,
                self.inv(),
                self.added == old(self).added,
                self.documents == old(self).documents,
                self.built == old(self).built,
            decreases nh - k,
        {
            let toks = tokenize(doc.headings[k].as_str());
            proof {
                assert(doc.headings@.take(k + 1).drop_last() =~= doc.headings@.take(k as int));
                lemma_tagged_all_prefix(doc.headings@, k + 1, Field::Heading);
            }
            total = total + toks.len() as u128;
            if total + 2 >= usize::MAX as u128 {
                return Err(BuildError::TooLarge);
            }
            heading_toks.push(toks);
            k = k + 1;
        }
        let nc = doc.code.len();
        let mut k: usize = 0;
        proof {
            assert(doc.headings@.take(nh as int) =~= doc.headings@);
            assert(doc.code@.take(0) =~= Seq::<String>::empty());
        }
        while k < nc
            invariant
                nc == doc.code@.len(),
                nh == doc.headings@.len(),
                0 <= k <= nc,
                code_toks@.len() == k,
                forall|m: int|
                    0 <= m < k ==> views_of((#[trigger] code_toks@[m])@) == tokens_of(
                        doc.code@[m]@,
                    ),
                total == tokens_of(doc.title@).len() + tokens_of(doc.body@).len() + tagged_all(
                    doc.headings@,
                    Field::Heading,
                ).len() + tagged_all(doc.code@.take(k as int), Field::Code).len(),
                total + 2 < usize::MAX,
                !old(self).is_built(),
                d == doc,
                self.inv(),
                self.added == old(self).added,
                self.documents == old(self).documents,
                self.built == old(self).built,
            decreases nc - k,
        {
            let toks = tokenize(doc.code[k].as_str());
            proof {
                assert(doc.code@.take(k + 1).drop_last() =~= doc.code@.take(k as int));
                lemma_tagged_all_prefix(doc.code@, k + 1, Field::Code);
            }
            total = total + toks.len() as u128;
            if total + 2 >= usize::MAX as u128 {
                return Err(BuildError::TooLarge);
            }
            code_toks.push(toks);
            k = k + 1;
        }
        proof {
            assert(doc.code@.take(nc as int) =~= doc.code@);
            assert(total == doc_tokens(d).len());
        }
        if self.documents.len() >= usize::MAX - 1 {
            return Err(BuildError::TooLarge);
        }
        let i = self.documents.len();
        let ghost before = streams_of(self.added@);
        proof {
            lemma_add_empty_stream(self.terms@, before);
            lemma_tagged_all_fields(doc.headings@, Field::Heading);
            lemma_tagged_all_fields(doc.code@, Field::Code);
            assert(tag_all(title_toks@, Field::Title) =~= tagged(doc.title@, Field::Title));
            assert(tag_all(body_toks@, Field::Body) =~= tagged(doc.body@, Field::Body));
            assert(Seq::<(Seq<char>, Field)>::empty() + tagged(doc.title@, Field::Title) =~= tagged(
                doc.title@,
                Field::Title,
            ));
        }
        record_all(
            &mut self.terms,
            &mut self.positions,
            &title_toks,
            i,
            Field::Title,
            Ghost(before),
            Ghost(Seq::empty()),
        );
        let ghost done = tagged(doc.title@, Field::Title);
        let mut k: usize = 0;
        while k < nh
            invariant
                nh == doc.headings@.len(),
                nh == heading_toks@.len(),
                0 <= k <= nh,
                i < usize::MAX,
                before.len() == i,
                done == tagged(d.title@, Field::Title),
                forall|m: int|
                    0 <= m < nh ==> views_of((#[trigger] heading_toks@[m])@) == tokens_of(
                        doc.headings@[m]@,
                    ),
                forall|m: int|
                    0 <= m < tagged_all(doc.headings@, Field::Heading).len() ==> (#[trigger] tagged_all(
                        doc.headings@,
                        Field::Heading,
                    )[m]).1 == Field::Heading,
                doc_tokens(d).len() + 2 < usize::MAX,
                indexes(
                    self.terms@,
                    before.push(done + tagged_all(doc.headings@.take(k as int), Field::Heading)),
                ),
                self.added == old(self).added,
                self.documents == old(self).documents,
                self.built == old(self).built,
                d == doc,
                positions_ok(self.positions@, self.terms@),
            decreases nh - k,
        {
            let ghost cur = done + tagged_all(doc.headings@.take(k as int), Field::Heading);
            proof {
                assert(doc.headings@.take(k + 1).drop_last() =~= doc.headings@.take(k as int));
                assert(tag_all(heading_toks@[k as int]@, Field::Heading) =~= tagged(
                    doc.headings@[k as int]@,
                    Field::Heading,
                ));
                lemma_tagged_all_prefix(doc.headings@, k as int + 1, Field::Heading);
                lemma_tagged_all_fields(doc.headings@.take(k as int), Field::Heading);
                assert forall|m: int| 0 <= m < cur.len() implies field_rank(#[trigger] cur[m].1)
                    <= field_rank(Field::Heading) by {
                    if m >= done.len() {
                        assert(cur[m] == tagged_all(doc.headings@.take(k as int), Field::Heading)[m
                            - done.len()]);
                    }
                }
            }
            proof {
                lemma_tagged_all_prefix(doc.headings@, k as int + 1, Field::Heading);
                assert(doc.headings@.take(k + 1).last() == doc.headings@[k as int]);
                assert(heading_toks@[k as int]@.len() == views_of(heading_toks@[k as int]@).len());
                lemma_tagged_all_prefix(doc.code@, 0, Field::Code);
                assert(cur.len() + heading_toks@[k as int]@.len() == done.len() + tagged_all(
                    doc.headings@.take(k + 1),
                    Field::Heading,
                ).len());
                assert(doc_tokens(d).len() >= done.len() + tagged_all(d.headings@, Field::Heading).len());
            }
            record_all(&mut self.terms, &mut self.positions, &heading_toks[k], i, Field::Heading, Ghost(before), Ghost(cur));
            proof {
                assert(cur + tag_all(heading_toks@[k as int]@, Field::Heading) =~= done
                    + tagged_all(doc.headings@.take(k + 1), Field::Heading));
            }
            k = k + 1;
        }
        let ghost done2 = done + tagged_all(doc.headings@, Field::Heading);
        proof {
            assert(doc.headings@.take(nh as int) =~= doc.headings@);
            assert forall|m: int| 0 <= m < done2.len() implies field_rank(#[trigger] done2[m].1)
                <= field_rank(Field::Body) by {
                if m >= done.len() {
                    assert(done2[m] == tagged_all(doc.headings@, Field::Heading)[m - done.len()]);
                }
            }
        }
        record_all(&mut self.terms, &mut self.positions, &body_toks, i, Field::Body, Ghost(before), Ghost(done2));
        let ghost done3 = done2 + tagged(doc.body@, Field::Body);
        let mut k: usize = 0;
        proof {
            assert(doc.code@.take(0) =~= Seq::<String>::empty());
            assert(done3 + tagged_all(doc.code@.take(0), Field::Code) =~= done3);
        }
        while k < nc
            invariant
                nc == doc.code@.len(),
                nc == code_toks@.len(),
                0 <= k <= nc,
                i < usize::MAX,
                before.len() == i,
                done3 == tagged(d.title@, Field::Title) + tagged_all(d.headings@, Field::Heading)
                    + tagged(d.body@, Field::Body),
                forall|m: int|
                    0 <= m < nc ==> views_of((#[trigger] code_toks@[m])@) == tokens_of(
                        doc.code@[m]@,
                    ),
                doc_tokens(d).len() + 2 < usize::MAX,
                indexes(
                    self.terms@,
                    before.push(done3 + tagged_all(doc.code@.take(k as int), Field::Code)),
                ),
                self.added == old(self).added,
                self.documents == old(self).documents,
                self.built == old(self).built,
                d == doc,
                positions_ok(self.positions@, self.terms@),
            decreases nc - k,
        {
            let ghost cur = done3 + tagged_all(doc.code@.take(k as int), Field::Code);
            proof {
                assert(doc.code@.take(k + 1).drop_last() =~= doc.code@.take(k as int));
                assert(tag_all(code_toks@[k as int]@, Field::Code) =~= tagged(
                    doc.code@[k as int]@,
                    Field::Code,
                ));
                lemma_tagged_all_prefix(doc.code@, k as int + 1, Field::Code);
                assert(field_rank(Field::Code) == 3);
                assert forall|m: int| 0 <= m < cur.len() implies field_rank(#[trigger] cur[m].1)
                    <= field_rank(Field::Code) by {}
            }
            proof {
                assert(doc.code@.take(k + 1).last() == doc.code@[k as int]);
                assert(code_toks@[k as int]@.len() == views_of(code_toks@[k as int]@).len());
                lemma_tagged_all_prefix(doc.code@, k as int + 1, Field::Code);
                assert(cur.len() + code_toks@[k as int]@.len() == done3.len() + tagged_all(
                    doc.code@.take(k + 1),
                    Field::Code,
                ).len());
            }
            record_all(&mut self.terms, &mut self.positions, &code_toks[k], i, Field::Code, Ghost(before), Ghost(cur));
            proof {
                assert(cur + tag_all(code_toks@[k as int]@, Field::Code) =~= done3 + tagged_all(
                    doc.code@.take(k + 1),
                    Field::Code,
                ));
            }
            k = k + 1;
        }
        proof {
            assert(doc.code@.take(nc as int) =~= doc.code@);
            assert(done3 + tagged_all(doc.code@, Field::Code) == doc_tokens(d));
            assert(streams_of(self.added@.push(d)) =~= before.push(doc_tokens(d)));
        }
        self.documents.push(
            StoredDocument { id: doc.id, title: doc.title, url: doc.url, body: doc.body },
        );
        self.added = Ghost(self.added@.push(d));
        Ok(())
    }

    /// Finalises the index: the builder is then built and accepts nothing
    /// more.
    pub fn build(&mut self) -> (r: Result<SearchIndex, BuildError>)
        requires
            old(self).inv(),
        ensures
            final(self).inv(),
            final(self).is_built(),
            final(self).docs() == old(self).docs(),
            old(self).is_built() ==> r == Err::<SearchIndex, BuildError>(BuildError::AlreadyBuilt),
            !old(self).is_built() ==> r is Ok && r->Ok_0.wf() && r->Ok_0.describes(old(self).docs()),
    {
        if self.built {
            return Err(BuildError::AlreadyBuilt);
        }
        let mut documents: Vec<StoredDocument> = Vec::new();
        let mut terms: Vec<TermEntry> = Vec::new();
        std::mem::swap(&mut documents, &mut self.documents);
        std::mem::swap(&mut terms, &mut self.terms);
        self.built = true;
        Ok(SearchIndex { documents, terms })
    }
}

/// Builds the index of `documents`, in order.
pub fn build_search_index(documents: Vec<SearchDocument>) -> (r: Result<SearchIndex, BuildError>)
    ensures
        r is Ok <==> forall|m: int|
            0 <= m < documents@.len() ==> doc_tokens(#[trigger] documents@[m]).len() + 2 < usize::MAX
                && m + 1 < usize::MAX,
        r is Ok ==> r->Ok_0.wf() && r->Ok_0.describes(documents@),
        r is Err ==> r == Err::<SearchIndex, BuildError>(BuildError::TooLarge),
{
    let mut builder = SearchIndexBuilder::new();
    let n = documents.len();
    let ghost ds = documents@;
    let mut rest = documents;
    let mut i: usize = 0;
    while i < n
        invariant
            n == ds.len(),
            ds == documents@,
            0 <= i <= n,
            rest@.len() == n - i,
            rest@ == ds.skip(i as int),
            builder.inv(),
            !builder.is_built(),
            builder.docs() == ds.take(i as int),
            forall|m: int| 0 <= m < i ==> doc_tokens(#[trigger] ds[m]).len() + 2 < usize::MAX && m + 1 < usize::MAX,
        decreases n - i,
    {
        let ghost r0 = rest@;
        let doc = rest.remove(0);
        proof {
            assert(rest@ =~= ds.skip(i as int + 1));
            assert(doc == r0[0]);
        }
        let ghost before = builder.docs();
        match builder.add_document(doc) {
            Ok(()) => {},
            Err(e) => {
                proof {
                    assert(ds[i as int] == doc);
                    assert(before.len() == i);
                    assert(doc_tokens(doc).len() + 2 >= usize::MAX || i + 1 >= usize::MAX);
                    assert(!(doc_tokens(ds[i as int]).len() + 2 < usize::MAX && i + 1 < usize::MAX));
                    assert(!(forall|m: int|
                        0 <= m < ds.len() ==> doc_tokens(#[trigger] ds[m]).len() + 2 < usize::MAX
                            && m + 1 < usize::MAX));
                }
                return Err(e);
            },
        }
        proof {
            assert(ds.take(i + 1) =~= ds.take(i as int).push(ds[i as int]));
        }
        i = i + 1;
    }
    proof {
        assert(ds.take(n as int) =~= ds);
    }
    builder.build()
}

} // verus!
