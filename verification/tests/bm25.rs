//! Tests of the BM25 ranking engine and its tokenizers.

use noteapp::bm25::bm25;
use noteapp::bm25::bm25_trigram;
use noteapp::bm25::rank_indices;
use noteapp::tokenize::default_tokenize;
use noteapp::tokenize::ngram_tokenize;

#[test]
fn test_exact_match() {
    let documents = vec![
        "the quick brown fox".to_string(),
        "never give up".to_string(),
        "quick brown".to_string(),
    ];
    let target = "never";
    let result = bm25(&documents, target, default_tokenize);
    assert_eq!(result[0], "never give up");
}

#[test]
fn test_empty_query() {
    let documents = vec![
        "the quick brown fox".to_string(),
        "never give up".to_string(),
    ];
    let target = "";
    let result = bm25(&documents, target, default_tokenize);
    assert_eq!(result.len(), 2);
}

#[test]
fn test_no_matches() {
    let documents = vec![
        "the quick brown fox".to_string(),
        "never give up".to_string(),
    ];
    let target = "zzzzz";
    let result = bm25(&documents, target, default_tokenize);
    assert_eq!(result.len(), 2);
    // Documents should still be returned, just with zero scores
}

#[test]
fn test_custom_tokenizer() {
    let documents = vec![
        "the-quick-brown-fox".to_string(),
        "never-give-up".to_string(),
    ];
    let custom_tokenize = |s: &str| s.split('-').map(String::from).collect();
    let target = "never";
    let result = bm25(&documents, target, custom_tokenize);
    assert_eq!(result[0], "never-give-up");
}

#[test]
fn test_ngram_tokenizer() {
    let documents = vec![
        "hello world".to_string(),
        "help me".to_string(),
        "world peace".to_string(),
    ];

    // This will test trigrams (n=3)
    // For example, "hello" should become: ["hel", "ell", "llo"]
    let target = "hell";
    let result = bm25(&documents, target, ngram_tokenize);

    // "hello world" and "help me" should be ranked higher than "world peace"
    // as they both contain "hel" trigrams
    assert_eq!(result[0], "hello world");
    assert_eq!(result[1], "help me");
    assert_eq!(result[2], "world peace");
}

#[test]
fn test_ngram_tokenize_basic() {
    let result = ngram_tokenize("hello");
    let expected = vec!["hel", "ell", "llo"];
    assert_eq!(result, expected);
}

#[test]
fn test_ngram_tokenize_short_input() {
    let result = ngram_tokenize("hi");
    let expected = vec!["hi"];
    assert_eq!(result, expected);
}

#[test]
fn test_ngram_tokenize_case_insensitive() {
    let result = ngram_tokenize("Hello");
    let expected = vec!["hel", "ell", "llo"];
    assert_eq!(result, expected);
}

#[test]
fn test_empty_corpus() {
    let documents: Vec<String> = vec![];
    let result = bm25(&documents, "anything", default_tokenize);
    assert!(result.is_empty());
    let result = bm25_trigram(&documents, "anything");
    assert!(result.is_empty());
}

#[test]
fn test_permutation_with_duplicates() {
    let documents = vec![
        "quick brown".to_string(),
        "never give up".to_string(),
        "quick brown".to_string(),
        "".to_string(),
    ];
    let result = bm25(&documents, "quick", default_tokenize);
    assert_eq!(result.len(), documents.len());
    let mut sorted_input = documents.clone();
    sorted_input.sort();
    let mut sorted_output = result.clone();
    sorted_output.sort();
    assert_eq!(sorted_input, sorted_output);
}

#[test]
fn test_empty_query_preserves_order() {
    let documents = vec![
        "c".to_string(),
        "a".to_string(),
        "b".to_string(),
        "a".to_string(),
    ];
    let result = bm25(&documents, "", default_tokenize);
    assert_eq!(result, documents);
    let result = bm25_trigram(&documents, "");
    assert_eq!(result, documents);
}

#[test]
fn test_no_matches_preserves_order() {
    let documents = vec![
        "the quick brown fox".to_string(),
        "never give up".to_string(),
    ];
    let result = bm25(&documents, "zzzzz", default_tokenize);
    assert_eq!(result, documents);
}

#[test]
fn test_rank_is_idempotent() {
    let documents = vec![
        "hello world".to_string(),
        "help me".to_string(),
        "world peace".to_string(),
        "hello hello".to_string(),
    ];
    let once = bm25_trigram(&documents, "hell");
    let twice = bm25_trigram(&once, "hell");
    assert_eq!(once, twice);

    let once = bm25(&documents, "world", default_tokenize);
    let twice = bm25(&once, "world", default_tokenize);
    assert_eq!(once, twice);
}

#[test]
fn test_bm25_trigram_matches_bm25_with_ngram() {
    let documents = vec![
        "hello world".to_string(),
        "help me".to_string(),
        "world peace".to_string(),
    ];
    assert_eq!(
        bm25_trigram(&documents, "hell"),
        bm25(&documents, "hell", ngram_tokenize)
    );
}

#[test]
fn test_rank_indices_exact() {
    let documents = vec![
        "the quick brown fox".to_string(),
        "never give up".to_string(),
        "quick brown".to_string(),
    ];
    let doc_tokens: Vec<Vec<String>> = documents.iter().map(|d| default_tokenize(d)).collect();
    let query_tokens = default_tokenize("never");
    let order = rank_indices(&doc_tokens, &query_tokens);
    assert_eq!(order, vec![1, 0, 2]);
}

#[test]
fn test_length_normalization() {
    // Same term frequency; the shorter document must rank higher.
    let documents = vec!["x y z w".to_string(), "x y".to_string()];
    let result = bm25(&documents, "x", default_tokenize);
    assert_eq!(result, vec!["x y".to_string(), "x y z w".to_string()]);
}

#[test]
fn test_term_frequency_wins() {
    // Two occurrences in a slightly longer document still beat one.
    let documents = vec!["x z".to_string(), "x x y".to_string()];
    let result = bm25(&documents, "x", default_tokenize);
    assert_eq!(result, vec!["x x y".to_string(), "x z".to_string()]);
}

#[test]
fn test_repeated_query_terms_count_once() {
    // Each distinct query term contributes once, whatever its count
    // in the query.
    let documents = vec!["x y".to_string(), "y z".to_string()];
    let once = bm25(&documents, "x", default_tokenize);
    let thrice = bm25(&documents, "x x x", default_tokenize);
    assert_eq!(once, thrice);
}

#[test]
fn test_word_tokenizer_splits_whitespace() {
    assert_eq!(
        default_tokenize(" the quick\tbrown\nfox  "),
        vec!["the", "quick", "brown", "fox"]
    );
    assert_eq!(default_tokenize(""), Vec::<String>::new());
    assert_eq!(default_tokenize(" \t\n"), Vec::<String>::new());
    // Case and punctuation are preserved.
    assert_eq!(default_tokenize("Hello, World!"), vec!["Hello,", "World!"]);
}

#[test]
fn test_ngram_tokenize_empty_input() {
    assert_eq!(ngram_tokenize(""), vec![""]);
}

#[test]
fn test_ngram_tokenize_short_input_is_lowercased() {
    assert_eq!(ngram_tokenize("HI"), vec!["hi"]);
}

#[test]
fn test_ngram_tokenize_exact_three() {
    assert_eq!(ngram_tokenize("abc"), vec!["abc"]);
}

#[test]
fn test_ngram_tokenize_counts_characters_not_bytes() {
    // Five characters, six bytes: three windows, not four.
    assert_eq!(ngram_tokenize("héllo"), vec!["hél", "éll", "llo"]);
}
