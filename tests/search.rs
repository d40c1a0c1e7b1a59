use site_search::fuzzy::within_one_edit;
use site_search::builder::{build_search_index, BuildError, SearchIndexBuilder};
use site_search::model::{Field, Posting, SearchDocument, SearchIndex, StoredDocument, TermEntry};
use site_search::options::SearchOptions;
use site_search::query::{field_boost, Candidate};
use site_search::rank::rank;
use site_search::snippet::make_snippet;
use site_search::tokenizer::tokenize;
use site_search::validate::IndexError;

fn doc(id: &str, title: &str, body: &str, headings: &[&str], code: &[&str]) -> SearchDocument {
    SearchDocument {
        id: id.to_string(),
        title: title.to_string(),
        url: format!("/{}", id),
        body: body.to_string(),
        headings: headings.iter().map(|h| h.to_string()).collect(),
        code: code.iter().map(|c| c.to_string()).collect(),
    }
}

fn build(docs: Vec<SearchDocument>) -> SearchIndex {
    build_search_index(docs).expect("documents within limits")
}

fn entry<'a>(idx: &'a SearchIndex, term: &str) -> Option<&'a TermEntry> {
    idx.terms.iter().find(|e| e.term == term)
}

/// BM25 with field boosts, as the query engine computes it.
fn score(idx: &SearchIndex, c: &Candidate) -> f64 {
    let k1 = 1.2;
    let b = 0.75;
    let n = idx.doc_count() as f64;
    let avg_dl = if idx.doc_count() == 0 { 0.0 } else { idx.total_body_chars() as f64 / n };
    let dl = idx.documents[c.doc_idx].body.chars().count() as f64;
    let mut s = 0.0;
    for h in &c.hits {
        let df = idx.terms[h.term_idx].df as f64;
        let idf = ((n - df + 0.5) / (df + 0.5) + 1.0).ln();
        let tf = h.tf as f64;
        let norm = if avg_dl > 0.0 { dl / avg_dl } else { 0.0 };
        s += idf * (tf * (k1 + 1.0)) / (tf + k1 * (1.0 - b + b * norm)) * field_boost(h.field) as f64;
    }
    s
}

/// Search results as (id, score, matches, snippet), best first.
fn search(idx: &SearchIndex, q: &str, opts: &SearchOptions, threshold: f64) -> Vec<(String, f64, Vec<String>, String)> {
    let cands = idx.candidates(q, opts.prefix, opts.fuzzy);
    let scores: Vec<f64> = cands.iter().map(|c| score(idx, c)).collect();
    let keys: Vec<u64> = scores.iter().map(|s| s.to_bits()).collect();
    let tkey = if threshold <= 0.0 { 0 } else { threshold.to_bits() };
    let order = rank(&keys, tkey, opts.limit);
    idx.present(&cands, &order)
        .into_iter()
        .zip(order.iter())
        .map(|(e, &i)| (e.id, scores[i], e.matches, e.snippet))
        .collect()
}

#[test]
fn tokenize_words_lowercased() {
    assert_eq!(tokenize("Hello, World!"), vec!["hello", "world"]);
    assert_eq!(tokenize("foo_bar2 baz"), vec!["foo_bar2", "baz"]);
    assert_eq!(tokenize("  ...  "), Vec::<String>::new());
    assert_eq!(tokenize(""), Vec::<String>::new());
}

#[test]
fn tokenize_cjk_each_char() {
    assert_eq!(tokenize("検索テスト"), vec!["検", "索", "テ", "ス", "ト"]);
    assert_eq!(tokenize("abc日本Def"), vec!["abc", "日", "本", "def"]);
    assert_eq!(tokenize("한국어"), vec!["한", "국", "어"]);
}

#[test]
fn tokenize_keeps_repeats() {
    assert_eq!(tokenize("go GO go"), vec!["go", "go", "go"]);
}

#[test]
fn build_counts_documents_in_order() {
    let idx = build(vec![doc("a", "A", "x", &[], &[]), doc("b", "B", "y", &[], &[]), doc("c", "C", "z", &[], &[])]);
    assert_eq!(idx.doc_count(), 3);
    let ids: Vec<&str> = idx.documents.iter().map(|d| d.id.as_str()).collect();
    assert_eq!(ids, vec!["a", "b", "c"]);
    assert_eq!(idx.documents[1].url, "/b");
}

#[test]
fn build_aggregates_term_frequency() {
    let idx = build(vec![doc("a", "", "run run run", &[], &[])]);
    let e = entry(&idx, "run").unwrap();
    assert_eq!(e.postings, vec![Posting { doc_idx: 0, field: Field::Body, tf: 3 }]);
    assert_eq!(e.df, 1);
}

#[test]
fn build_postings_per_field() {
    let idx = build(vec![doc("a", "Rust guide", "rust is fast", &["Why Rust"], &["rust build"])]);
    let e = entry(&idx, "rust").unwrap();
    assert_eq!(
        e.postings,
        vec![
            Posting { doc_idx: 0, field: Field::Title, tf: 1 },
            Posting { doc_idx: 0, field: Field::Heading, tf: 1 },
            Posting { doc_idx: 0, field: Field::Body, tf: 1 },
            Posting { doc_idx: 0, field: Field::Code, tf: 1 },
        ]
    );
    assert_eq!(e.df, 1);
}

#[test]
fn df_is_distinct_document_count() {
    let idx = build(vec![
        doc("a", "install", "install install", &[], &[]),
        doc("b", "other", "nothing", &[], &[]),
        doc("c", "", "install", &["install"], &[]),
    ]);
    for e in &idx.terms {
        let mut docs: Vec<usize> = e.postings.iter().map(|p| p.doc_idx).collect();
        docs.dedup();
        assert_eq!(e.df, docs.len());
    }
    assert_eq!(entry(&idx, "install").unwrap().df, 2);
}

#[test]
fn avg_dl_is_mean_body_length() {
    let idx = build(vec![doc("a", "", "abcd", &[], &[]), doc("b", "", "ab", &[], &[]), doc("c", "Title only", "", &[], &[])]);
    assert_eq!(idx.total_body_chars(), 6);
    let avg = idx.total_body_chars() as f64 / idx.doc_count() as f64;
    assert!((avg - 2.0).abs() < 1e-9);
}

#[test]
fn add_after_build_is_refused() {
    let mut b = SearchIndexBuilder::new();
    assert_eq!(b.add_document(doc("a", "A", "x", &[], &[])), Ok(()));
    let idx = b.build().unwrap();
    assert_eq!(idx.doc_count(), 1);
    assert_eq!(b.add_document(doc("b", "B", "y", &[], &[])), Err(BuildError::AlreadyBuilt));
    assert!(matches!(b.build(), Err(BuildError::AlreadyBuilt)));
}

#[test]
fn empty_corpus_builds() {
    let idx = build(vec![]);
    assert_eq!(idx.doc_count(), 0);
    assert!(idx.terms.is_empty());
    assert!(search(&idx, "anything", &SearchOptions::default(), 0.0).is_empty());
}

#[test]
fn title_match_outscores_body_match() {
    let title_idx = build(vec![doc("a", "Kubernetes", "unrelated text", &[], &[])]);
    let body_idx = build(vec![doc("a", "Unrelated", "kubernetes text", &[], &[])]);
    let opts = SearchOptions::default();
    let t = search(&title_idx, "kubernetes", &opts, 0.0);
    let b = search(&body_idx, "kubernetes", &opts, 0.0);
    assert_eq!(t.len(), 1);
    assert!(t[0].2.contains(&"kubernetes".to_string()));
    assert_eq!(b.len(), 1);
    assert!(t[0].1 > b[0].1);
}

#[test]
fn one_char_last_token_is_not_expanded() {
    let idx = build(vec![doc("a", "", "i install it", &[], &[]), doc("b", "", "index", &[], &[])]);
    let m = idx.match_terms("i", true, false);
    let terms: Vec<&str> = m.iter().map(|&a| idx.terms[a].term.as_str()).collect();
    assert_eq!(terms, vec!["i"]);
}

#[test]
fn two_char_last_token_expands_to_all_prefixed_terms() {
    let idx = build(vec![doc("a", "", "i install it", &[], &[]), doc("b", "", "index inline", &[], &[])]);
    let m = idx.match_terms("in", true, false);
    let terms: Vec<&str> = m.iter().map(|&a| idx.terms[a].term.as_str()).collect();
    assert_eq!(terms, vec!["install", "index", "inline"]);
    let exact = idx.match_terms("in", false, false);
    assert!(exact.is_empty());
}

#[test]
fn only_last_token_is_expanded() {
    let idx = build(vec![doc("a", "", "install guide", &[], &[]), doc("b", "", "in guidance", &[], &[])]);
    let m = idx.match_terms("in gui", true, false);
    let terms: Vec<&str> = m.iter().map(|&a| idx.terms[a].term.as_str()).collect();
    assert_eq!(terms, vec!["in", "guide", "guidance"]);
}

#[test]
fn limit_keeps_the_best() {
    let idx = build(vec![
        doc("a", "", "rust", &[], &[]),
        doc("b", "rust", "rust", &[], &[]),
        doc("c", "", "rust rust", &[], &[]),
        doc("d", "rust", "rust rust rust", &["rust"], &[]),
        doc("e", "", "rust and more words here", &[], &[]),
    ]);
    let mut opts = SearchOptions::default();
    let all = search(&idx, "rust", &opts, 0.0);
    assert_eq!(all.len(), 5);
    opts.limit = 2;
    let top = search(&idx, "rust", &opts, 0.0);
    assert_eq!(top.len(), 2);
    assert_eq!(top[0].0, all[0].0);
    assert_eq!(top[1].0, all[1].0);
    assert_eq!(top[0].0, "d");
    assert_eq!(top[1].0, "b");
}

#[test]
fn threshold_excludes_low_scores() {
    let idx = build(vec![doc("a", "rust", "rust", &[], &[]), doc("b", "", "rust and other words", &[], &[])]);
    let opts = SearchOptions::default();
    let all = search(&idx, "rust", &opts, 0.0);
    assert_eq!(all.len(), 2);
    let cut = (all[0].1 + all[1].1) / 2.0;
    let kept = search(&idx, "rust", &opts, cut);
    assert_eq!(kept.len(), 1);
    assert_eq!(kept[0].0, all[0].0);
}

#[test]
fn round_trip_through_parts() {
    let idx = build(vec![
        doc("a", "Install Guide", "run the installer", &["Setup"], &["cargo install"]),
        doc("b", "Overview", "install dependencies first", &[], &[]),
    ]);
    let again = SearchIndex::from_parts(idx.documents.clone(), idx.terms.clone()).unwrap();
    let opts = SearchOptions::default();
    assert_eq!(search(&idx, "install", &opts, 0.0), search(&again, "install", &opts, 0.0));
    assert_eq!(search(&idx, "inst gu", &opts, 0.0), search(&again, "inst gu", &opts, 0.0));
}

#[test]
fn install_example_ranks_title_first() {
    let idx = build(vec![
        doc("a", "Install Guide", "run the installer", &[], &[]),
        doc("b", "Overview", "install dependencies first", &[], &[]),
    ]);
    let r = search(&idx, "install", &SearchOptions::default(), 0.0);
    assert_eq!(r.len(), 2);
    assert_eq!(r[0].0, "a");
    assert_eq!(r[1].0, "b");
    assert!(r[0].1 > r[1].1);
}

#[test]
fn equal_scores_keep_document_order() {
    let idx = build(vec![doc("a", "", "same words", &[], &[]), doc("b", "", "same words", &[], &[])]);
    let r = search(&idx, "same", &SearchOptions::default(), 0.0);
    let ids: Vec<&str> = r.iter().map(|x| x.0.as_str()).collect();
    assert_eq!(ids, vec!["a", "b"]);
}

#[test]
fn rank_orders_filters_and_limits() {
    assert_eq!(rank(&vec![3, 9, 5, 9, 1], 2, 10), vec![1, 3, 2, 0]);
    assert_eq!(rank(&vec![3, 9, 5, 9, 1], 2, 2), vec![1, 3]);
    assert_eq!(rank(&vec![3, 9, 5], 10, 5), Vec::<usize>::new());
    assert_eq!(rank(&vec![], 0, 5), Vec::<usize>::new());
    assert_eq!(rank(&vec![4, 4], 0, 0), Vec::<usize>::new());
}

#[test]
fn candidates_carry_hits_and_matches() {
    let idx = build(vec![
        doc("a", "Install", "the installer", &[], &[]),
        doc("b", "Other", "nothing here", &[], &[]),
        doc("c", "", "install", &[], &[]),
    ]);
    let cands = idx.candidates("inst", true, false);
    let docs: Vec<usize> = cands.iter().map(|c| c.doc_idx).collect();
    assert_eq!(docs, vec![0, 2]);
    assert_eq!(cands[0].matches, vec!["install", "installer"]);
    assert_eq!(cands[0].hits.len(), 2);
    assert_eq!(cands[1].matches, vec!["install"]);
    assert!(idx.candidates("", true, false).is_empty());
    assert!(idx.candidates("zzz", true, false).is_empty());
}

#[test]
fn snippet_window_and_ellipses() {
    let body: String = (0..300).map(|i| if i == 120 { 'X' } else { 'a' }).collect::<String>();
    let body = format!("{}{}", &body[..120], format!(" needle {}", &body[121..]));
    let s = make_snippet(&body, &vec!["needle".to_string()]);
    let p = body.find("needle").unwrap();
    let expect = format!("...{}...", &body[p - 50..p - 50 + 150]);
    assert_eq!(s, expect);
}

#[test]
fn snippet_at_start_and_end() {
    let s = make_snippet("Needle in a short body", &vec!["needle".to_string()]);
    assert_eq!(s, "Needle in a short body");
    let long: String = std::iter::repeat('b').take(200).collect();
    let body = format!("{} tail", long);
    let s = make_snippet(&body, &vec!["tail".to_string()]);
    let p = body.find("tail").unwrap();
    assert_eq!(s, format!("...{}", &body[p - 50..]));
}

#[test]
fn snippet_earliest_of_several_terms() {
    let s = make_snippet("alpha beta gamma", &vec!["gamma".to_string(), "beta".to_string()]);
    assert_eq!(s, "alpha beta gamma");
    let body = format!("{}beta{}gamma", "x".repeat(60), "y".repeat(10));
    let s = make_snippet(&body, &vec!["gamma".to_string(), "beta".to_string()]);
    assert_eq!(s, format!("...{}", &body[10..]));
}

#[test]
fn snippet_empty_without_match() {
    assert_eq!(make_snippet("nothing to see", &vec!["absent".to_string()]), "");
    assert_eq!(make_snippet("", &vec!["x".to_string()]), "");
    assert_eq!(make_snippet("text", &vec![]), "");
}

#[test]
fn field_boosts() {
    assert_eq!(field_boost(Field::Title), 10);
    assert_eq!(field_boost(Field::Heading), 5);
    assert_eq!(field_boost(Field::Body), 1);
    assert_eq!(field_boost(Field::Code), 1);
}

#[test]
fn default_options() {
    let o = SearchOptions::default();
    assert_eq!(o.limit, 10);
    assert!(o.prefix);
    assert!(!o.fuzzy);
    let o = SearchOptions::from_settings(Some(3), Some(false), None);
    assert_eq!(o, SearchOptions { limit: 3, prefix: false, fuzzy: false });
}

fn stored(id: &str) -> StoredDocument {
    StoredDocument { id: id.to_string(), title: String::new(), url: String::new(), body: String::new() }
}

fn term(t: &str, postings: Vec<Posting>, df: usize) -> TermEntry {
    TermEntry { term: t.to_string(), postings, df }
}

#[test]
fn from_parts_accepts_consistent_index() {
    let p = Posting { doc_idx: 0, field: Field::Body, tf: 2 };
    let q = Posting { doc_idx: 1, field: Field::Title, tf: 1 };
    let idx = SearchIndex::from_parts(vec![stored("a"), stored("b")], vec![term("x", vec![p, q], 2)]).unwrap();
    assert_eq!(idx.doc_count(), 2);
}

#[test]
fn from_parts_rejects_inconsistent_index() {
    let p = Posting { doc_idx: 0, field: Field::Body, tf: 2 };
    let far = Posting { doc_idx: 5, field: Field::Body, tf: 1 };
    let zero = Posting { doc_idx: 0, field: Field::Title, tf: 0 };
    let docs = || vec![stored("a"), stored("b")];
    let bad = Err(IndexError::Inconsistent);
    assert_eq!(SearchIndex::from_parts(docs(), vec![term("x", vec![far], 1)]).map(|_| ()), bad);
    assert_eq!(SearchIndex::from_parts(docs(), vec![term("x", vec![p], 2)]).map(|_| ()), bad);
    assert_eq!(SearchIndex::from_parts(docs(), vec![term("x", vec![p], 1), term("x", vec![p], 1)]).map(|_| ()), bad);
    assert_eq!(SearchIndex::from_parts(docs(), vec![term("x", vec![zero], 1)]).map(|_| ()), bad);
    assert_eq!(SearchIndex::from_parts(docs(), vec![term("x", vec![], 0)]).map(|_| ()), bad);
    let q = Posting { doc_idx: 0, field: Field::Title, tf: 1 };
    assert_eq!(SearchIndex::from_parts(docs(), vec![term("x", vec![p, q], 1)]).map(|_| ()), bad);
}

fn chars(s: &str) -> Vec<char> {
    s.chars().collect()
}

#[test]
fn one_edit_distance() {
    assert!(within_one_edit(&chars("search"), &chars("search")));
    assert!(within_one_edit(&chars("search"), &chars("seerch")));
    assert!(within_one_edit(&chars("search"), &chars("serch")));
    assert!(within_one_edit(&chars("serch"), &chars("search")));
    assert!(within_one_edit(&chars("search"), &chars("searchs")));
    assert!(!within_one_edit(&chars("search"), &chars("saerch")));
    assert!(!within_one_edit(&chars("search"), &chars("sear")));
    assert!(within_one_edit(&chars(""), &chars("a")));
}

#[test]
fn fuzzy_falls_back_only_without_a_match() {
    let idx = build(vec![doc("a", "", "installer install", &[], &[]), doc("b", "", "instal", &[], &[])]);
    let names = |m: Vec<usize>| m.iter().map(|&a| idx.terms[a].term.clone()).collect::<Vec<String>>();
    assert!(idx.match_terms("instll", false, false).is_empty());
    assert_eq!(names(idx.match_terms("instll", false, true)), vec!["install", "instal"]);
    assert_eq!(names(idx.match_terms("install", false, true)), vec!["install"]);
    assert!(idx.match_terms("xq", false, true).is_empty());
}

#[test]
fn fuzzy_search_finds_misspelling() {
    let idx = build(vec![doc("a", "Install Guide", "run the installer", &[], &[])]);
    let mut opts = SearchOptions::default();
    opts.prefix = false;
    assert!(search(&idx, "guid", &opts, 0.0).is_empty());
    opts.fuzzy = true;
    let r = search(&idx, "guid", &opts, 0.0);
    assert_eq!(r.len(), 1);
    assert_eq!(r[0].2, vec!["guide".to_string()]);
}

#[test]
fn present_shows_ranked_documents() {
    let idx = build(vec![
        doc("a", "First", "alpha text", &[], &[]),
        doc("b", "Second", "beta alpha", &[], &[]),
    ]);
    let cands = idx.candidates("alpha", true, false);
    let rows = idx.present(&cands, &vec![1, 0]);
    assert_eq!(rows.len(), 2);
    assert_eq!(rows[0].id, "b");
    assert_eq!(rows[0].title, "Second");
    assert_eq!(rows[0].url, "/b");
    assert_eq!(rows[0].doc_idx, 1);
    assert_eq!(rows[0].matches, vec!["alpha"]);
    assert_eq!(rows[0].snippet, "beta alpha");
    assert_eq!(rows[1].id, "a");
    assert!(idx.present(&cands, &vec![]).is_empty());
}
