use pdf_search::index::{index_data, Score, MAX_TOKENS};
use pdf_search::lexing::{my_split, split_into_words, tokenize};

fn strings(words: &[&str]) -> Vec<String> {
    words.iter().map(|w| w.to_string()).collect()
}

#[test]
fn tokenize_empty_text_has_no_words() {
    assert!(tokenize("").is_empty());
    assert!(split_into_words("").is_empty());
}

#[test]
fn tokenize_lowercases_and_splits() {
    assert_eq!(tokenize("Apple Banana apple"), strings(&["apple", "banana", "apple"]));
}

#[test]
fn split_into_words_drops_every_delimiter() {
    let text = "It's (a) `test`, \"quoted\".\nNext  line";
    assert_eq!(
        split_into_words(text),
        strings(&["it", "s", "a", "test", "quoted", "next", "line"])
    );
}

#[test]
fn split_into_words_keeps_other_punctuation() {
    assert_eq!(
        split_into_words("Hello, World! How are you today?"),
        strings(&["hello", "world!", "how", "are", "you", "today?"])
    );
}

#[test]
fn split_into_words_only_delimiters() {
    assert!(split_into_words(" ,.()'`\"\n ").is_empty());
}

#[test]
fn split_into_words_lowercases_beyond_ascii() {
    assert_eq!(split_into_words("ÉCOLE Straße"), strings(&["école", "straße"]));
}

#[test]
fn tokens_hold_no_delimiter_and_join_without_punctuation() {
    let text = "a.b,c(d)e'f`g\"h\ni j";
    let words = tokenize(text);
    let delimiters = ['\'', '.', ')', '(', '`', ',', '"', ' ', '\n'];
    for w in &words {
        assert!(!w.is_empty());
        assert!(!w.chars().any(|c| delimiters.contains(&c)));
    }
    let joined = words.join(" ");
    assert!(joined.chars().all(|c| c == ' ' || !delimiters.contains(&c)));
    assert_eq!(joined, "a b c d e f g h i j");
}

#[test]
fn my_split_keeps_empty_pieces_and_drops_the_tail() {
    assert_eq!(my_split("A,,b c"), strings(&["a", "", "b"]));
    assert_eq!(my_split("a.b(c)"), Vec::<String>::new());
    assert_eq!(my_split("x'y\n"), strings(&["x", "y"]));
}

#[test]
fn index_data_scores_repeats_by_token_count() {
    let tf = index_data(strings(&["apple", "banana", "apple"]));
    assert_eq!(tf.entries.len(), 2);
    assert_eq!(tf.entries[0].term, "apple");
    assert_eq!(tf.entries[0].score, Score { num: 4, den: 3 });
    assert_eq!(tf.entries[1].term, "banana");
    assert_eq!(tf.entries[1].score, Score { num: 3, den: 3 });
}

#[test]
fn index_data_single_occurrence_scores_one() {
    let tf = index_data(strings(&["a", "b", "c", "d"]));
    assert_eq!(tf.entries.len(), 4);
    for e in &tf.entries {
        assert_eq!(e.score.num, e.score.den);
        assert_eq!(e.score.den, 4);
    }
}

#[test]
fn index_data_many_repeats() {
    let tf = index_data(strings(&["x", "x", "x", "y", "x"]));
    assert_eq!(tf.entries.len(), 2);
    assert_eq!(tf.entries[0].term, "x");
    // 1 + 3/5
    assert_eq!(tf.entries[0].score, Score { num: 8, den: 5 });
    assert_eq!(tf.entries[1].term, "y");
    assert_eq!(tf.entries[1].score, Score { num: 5, den: 5 });
    let v = tf.entries[0].score.num as f64 / tf.entries[0].score.den as f64;
    assert!((v - 1.6).abs() < 1e-12);
}

#[test]
fn index_data_empty_is_empty() {
    assert!(index_data(Vec::new()).entries.is_empty());
}

#[test]
fn index_bound_is_half_of_u64_range() {
    assert_eq!(MAX_TOKENS, 1u64 << 63);
}

#[test]
fn split_words_of_keeps_case() {
    assert_eq!(pdf_search::lexing::split_words_of("Ab CD"), strings(&["Ab", "CD"]));
}

#[test]
fn split_pieces_of_keeps_case() {
    assert_eq!(pdf_search::lexing::split_pieces_of("Ab,CD x"), strings(&["Ab", "CD"]));
}
