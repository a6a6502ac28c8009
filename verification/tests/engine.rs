use tfidf_core::lexer::{tokenize, Lexer};
use tfidf_core::model::{compute_idf, compute_tf, search_terms, Model, TermFreq};

fn chars(s: &str) -> Vec<char> {
    s.chars().collect()
}

fn toks(s: &str) -> Vec<String> {
    tokenize(&chars(s))
}

fn strings(xs: &[&str]) -> Vec<String> {
    xs.iter().map(|x| x.to_string()).collect()
}

#[test]
fn tokenizer_case_folds_alphabetic_tokens() {
    assert_eq!(toks("Hello World42"), strings(&["HELLO", "WORLD42"]));
    assert_eq!(toks("mIxEd CaSe"), strings(&["MIXED", "CASE"]));
}

#[test]
fn tokenizer_splits_digit_run_from_letters() {
    assert_eq!(toks("42apples"), strings(&["42", "APPLES"]));
}

#[test]
fn tokenizer_emits_punctuation_alone() {
    assert_eq!(toks("a,b"), strings(&["A", ",", "B"]));
}

#[test]
fn tokenizer_ignores_whitespace_amount() {
    assert_eq!(toks("  a   b  "), toks("a b"));
}

#[test]
fn tokenizer_empty_input_yields_no_tokens() {
    assert_eq!(toks(""), Vec::<String>::new());
    assert_eq!(toks("   \t\n "), Vec::<String>::new());
}

#[test]
fn tokenizer_folds_ascii_only() {
    // Folding is ASCII upper-casing: non-ASCII letters pass unchanged.
    assert_eq!(toks("\u{e4}rm"), strings(&["\u{e4}RM"]));
    assert_eq!(toks("caf\u{e9}"), strings(&["CAF\u{e9}"]));
}

#[test]
fn tokenizer_handles_unicode_classes() {
    // Arabic-Indic digits are a numeric run; ideographic space separates.
    assert_eq!(toks("\u{664}\u{662}"), strings(&["\u{664}\u{662}"]));
    assert_eq!(toks("a\u{3000}b"), strings(&["A", "B"]));
}

#[test]
fn lexer_is_restartable_by_reconstruction() {
    let content = chars("foo 12 bar!");
    let mut first: Vec<String> = Vec::new();
    let mut lexer = Lexer::new(&content);
    while let Some(t) = lexer.next_token() {
        first.push(t);
    }
    let mut second: Vec<String> = Vec::new();
    let mut lexer = Lexer::new(&content);
    while let Some(t) = lexer.next_token() {
        second.push(t);
    }
    assert_eq!(first, second);
    assert_eq!(first, strings(&["FOO", "12", "BAR", "!"]));
    assert_eq!(lexer.next_token(), None);
}

fn two_doc_model() -> Model {
    let mut m = Model::new();
    m.add_document("a.txt".to_string(), &chars("hello world hello"));
    m.add_document("b.txt".to_string(), &chars("world 42"));
    m
}

#[test]
fn build_index_accumulates_all_documents() {
    let docs = vec![
        ("a.txt".to_string(), chars("hello world hello")),
        ("b.txt".to_string(), chars("world 42")),
    ];
    let m = Model::build_index(&docs).unwrap();
    assert_eq!(m.tfpd.len(), 2);
    assert_eq!(m.tfpd[0].1.get(&"HELLO".to_string()), 2);
    assert_eq!(m.df.get(&"WORLD".to_string()), 2);
    let incremental = two_doc_model();
    let q = chars("hello world");
    assert_eq!(search_terms(&m, &q), search_terms(&incremental, &q));
    let dup = vec![
        ("x".to_string(), chars("one")),
        ("x".to_string(), chars("two")),
    ];
    assert!(Model::build_index(&dup).is_none());
}

#[test]
fn term_frequency_is_exact_fraction() {
    let m = two_doc_model();
    // a.txt: HELLO twice, WORLD once, three tokens in all.
    assert_eq!(compute_tf(&"HELLO".to_string(), &m.tfpd[0].1), (2, 3));
    assert_eq!(compute_tf(&"WORLD".to_string(), &m.tfpd[0].1), (1, 3));
    assert_eq!(compute_tf(&"MISSING".to_string(), &m.tfpd[0].1), (0, 3));
}

#[test]
fn term_frequency_of_empty_document_is_zero() {
    let mut m = Model::new();
    m.add_document("empty.txt".to_string(), &chars(""));
    assert_eq!(compute_tf(&"ANY".to_string(), &m.tfpd[0].1), (0, 1));
}

#[test]
fn inverse_document_frequency_fractions() {
    let m = two_doc_model();
    let n = m.tfpd.len();
    // WORLD occurs in both documents, HELLO in one, UNSEEN in none.
    assert_eq!(compute_idf(&"WORLD".to_string(), n, &m.df), (2, 2));
    assert_eq!(compute_idf(&"HELLO".to_string(), n, &m.df), (2, 1));
    assert_eq!(compute_idf(&"UNSEEN".to_string(), n, &m.df), (2, 1));
}

#[test]
fn document_frequencies_count_documents_not_occurrences() {
    let m = two_doc_model();
    // HELLO occurs twice, but only in one document.
    assert_eq!(m.df.get(&"HELLO".to_string()), 1);
    assert_eq!(m.df.get(&"WORLD".to_string()), 2);
    assert_eq!(m.df.get(&"42".to_string()), 1);
    assert_eq!(m.df.get(&"MISSING".to_string()), 0);
}

#[test]
fn term_frequencies_sum_to_one() {
    let m = two_doc_model();
    for di in 0..m.tfpd.len() {
        let table = &m.tfpd[di].1;
        let mut num_sum: usize = 0;
        let mut den: usize = 1;
        for i in 0..table.len() {
            let key = table.key_at(i).clone();
            let (num, d) = compute_tf(&key, table);
            num_sum += num;
            den = d;
        }
        assert_eq!(num_sum, den);
    }
}

#[test]
fn rarer_terms_weigh_more() {
    let mut m = Model::new();
    m.add_document("one.txt".to_string(), &chars("rare shared"));
    m.add_document("two.txt".to_string(), &chars("shared"));
    m.add_document("three.txt".to_string(), &chars("shared other"));
    let n = m.tfpd.len();
    let (ra, ma) = compute_idf(&"RARE".to_string(), n, &m.df);
    let (rb, mb) = compute_idf(&"SHARED".to_string(), n, &m.df);
    // Cross-multiplied fraction comparison, then through the logarithm.
    assert!(ra * mb > rb * ma);
    let idf_a = (ra as f32 / ma as f32).log10();
    let idf_b = (rb as f32 / mb as f32).log10();
    assert!(idf_a > idf_b);
    assert_eq!(idf_b, 0.0);
}

#[test]
fn search_is_deterministic() {
    let m = two_doc_model();
    let q = chars("hello world");
    assert_eq!(search_terms(&m, &q), search_terms(&m, &q));
}

#[test]
fn search_returns_every_document_in_index_order() {
    let m = two_doc_model();
    let res = search_terms(&m, &chars("world"));
    assert_eq!(res.len(), 2);
    assert_eq!(res[0].0, "a.txt");
    assert_eq!(res[1].0, "b.txt");
}

#[test]
fn search_repeats_query_tokens_per_occurrence() {
    let m = two_doc_model();
    let res = search_terms(&m, &chars("world world"));
    for (_, terms) in &res {
        assert_eq!(terms.len(), 2);
        assert_eq!(terms[0], terms[1]);
    }
}

#[test]
fn search_scores_components_are_exact() {
    let m = two_doc_model();
    let res = search_terms(&m, &chars("hello"));
    // a.txt: tf 2/3, idf 2/1; b.txt: tf 0/2, idf 2/1.
    assert_eq!(res[0].1, vec![((2, 3), (2, 1))]);
    assert_eq!(res[1].1, vec![((0, 2), (2, 1))]);
}

#[test]
fn empty_query_scores_every_document_zero() {
    let m = two_doc_model();
    let res = search_terms(&m, &chars(""));
    assert_eq!(res.len(), m.tfpd.len());
    for (_, terms) in &res {
        assert!(terms.is_empty());
    }
}

fn dump_tables(m: &Model) -> Vec<(String, Vec<(String, usize)>)> {
    let mut out: Vec<(String, Vec<(String, usize)>)> = Vec::new();
    for (name, table) in &m.tfpd {
        let mut entries: Vec<(String, usize)> = Vec::new();
        for i in 0..table.len() {
            entries.push((table.key_at(i).clone(), table.count_at(i)));
        }
        out.push((name.clone(), entries));
    }
    out
}

#[test]
fn serialized_index_round_trips() {
    let m = two_doc_model();
    let dumped = dump_tables(&m);
    let encoded = serde_json::to_string(&dumped).unwrap();
    let decoded: Vec<(String, Vec<(String, usize)>)> = serde_json::from_str(&encoded).unwrap();
    let mut tables: Vec<(String, TermFreq)> = Vec::new();
    for (name, entries) in decoded {
        tables.push((name, TermFreq::from_entries(entries).unwrap()));
    }
    let m2 = Model::from_tables(&tables).unwrap();
    // Per-document tables are equal: same names, same keys, same counts.
    assert_eq!(dump_tables(&m2), dumped);
    // The recounted document-frequency table agrees entry for entry.
    assert_eq!(m2.df.len(), m.df.len());
    for i in 0..m.df.len() {
        let key = m.df.key_at(i).clone();
        assert_eq!(m2.df.get(&key), m.df.get(&key));
    }
    // And the rebuilt index answers queries identically.
    let q = chars("hello 42 world");
    assert_eq!(search_terms(&m2, &q), search_terms(&m, &q));
}

#[test]
fn invalid_tables_are_rejected() {
    let dup_keys = vec![("A".to_string(), 1), ("A".to_string(), 2)];
    assert!(TermFreq::from_entries(dup_keys).is_none());
    let zero_count = vec![("A".to_string(), 0)];
    assert!(TermFreq::from_entries(zero_count).is_none());
    let ok = TermFreq::from_entries(vec![("A".to_string(), 1)]).unwrap();
    let dup_names = vec![
        ("a.txt".to_string(), ok.duplicate()),
        ("a.txt".to_string(), ok),
    ];
    assert!(Model::from_tables(&dup_names).is_none());
}
