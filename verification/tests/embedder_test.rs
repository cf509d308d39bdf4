use cviz::pipeline::embedder::{peak_count, term_statistics, tokenize};

fn toks(s: &str) -> Vec<String> {
    tokenize(s)
}

fn strs(v: &[&str]) -> Vec<String> {
    v.iter().map(|s| s.to_string()).collect()
}

#[test]
fn tokenize_splits_words_camel_and_snake_case() {
    assert_eq!(toks("fn main() { let x = compute(); println!(x); }"), strs(&["fn", "main", "let", "compute", "println"]));
    assert_eq!(toks("parseFileGraph"), strs(&["parse", "file", "graph"]));
    assert_eq!(toks("collect_file_graph"), strs(&["collect", "file", "graph"]));
    assert_eq!(toks("# Project\nThis is a readme with no code"), strs(&["project", "this", "is", "readme", "with", "no", "code"]));
}

#[test]
fn tokenize_drops_one_byte_pieces() {
    assert_eq!(toks("a b c x_y"), Vec::<String>::new());
    assert_eq!(toks(""), Vec::<String>::new());
    assert_eq!(toks("é"), strs(&["é"]));
}

#[test]
fn camel_pieces_before_the_last_boundary_keep_underscores() {
    // Only the part after the last camel-case boundary is split at '_'.
    assert_eq!(toks("my_varName"), strs(&["my_var", "name"]));
    assert_eq!(toks("HTTPServer"), strs(&["httpserver"]));
    assert_eq!(toks("getHTTP_response"), strs(&["get", "http", "response"]));
}

#[test]
fn term_statistics_counts_documents_and_occurrences() {
    let docs = vec![strs(&["fn", "main", "fn"]), strs(&["fn", "helper"]), strs(&[])];
    let st = term_statistics(&docs);
    assert_eq!(st.vocab, strs(&["fn", "helper", "main"]));
    assert_eq!(st.doc_freq, vec![2, 1, 1]);
    assert_eq!(st.counts, vec![vec![2, 0, 1], vec![1, 1, 0], vec![0, 0, 0]]);
    assert_eq!(peak_count(&st.counts[0]), 2);
    assert_eq!(peak_count(&st.counts[2]), 1);
    assert_eq!(peak_count(&vec![]), 1);
}

#[test]
fn vocabulary_is_sorted_and_distinct() {
    let docs = vec![strs(&["zeta", "alpha", "beta", "alpha"]), strs(&["alpha", "ab", "a"])];
    let st = term_statistics(&docs);
    assert_eq!(st.vocab, strs(&["a", "ab", "alpha", "beta", "zeta"]));
    let mut sorted = st.vocab.clone();
    sorted.sort();
    sorted.dedup();
    assert_eq!(sorted, st.vocab);
}

#[test]
fn every_token_is_longer_than_one_byte() {
    let text = "a Bc d_ef gH i+j kLmN o_p_qq é x";
    let tokens = toks(text);
    assert!(!tokens.is_empty());
    for t in &tokens {
        assert!(t.len() > 1, "token {:?} is a single byte", t);
    }
}
