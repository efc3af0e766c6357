use text_analyzer::analysis::{
    analyze_text, count_lines, count_non_space, normalize_words, split_tokens, total_chars,
    trim_edges, TextStats,
};
use text_analyzer::order::{lex_less, same_chars};
use text_analyzer::tally::{count_words, rank, word_frequencies};

fn cv(s: &str) -> Vec<char> {
    s.chars().collect()
}

fn ranking(st: &TextStats) -> Vec<(&str, usize)> {
    st.word_frequencies.iter().map(|(w, c)| (w.as_str(), *c)).collect()
}

fn average(st: &TextStats) -> f64 {
    if st.word_count == 0 {
        0.0
    } else {
        st.total_word_chars as f64 / st.word_count as f64
    }
}

#[test]
fn hello_hello_world() {
    let st = analyze_text("Hello, hello world!");
    assert_eq!(st.word_count, 3);
    assert_eq!(st.unique_word_count, 2);
    assert_eq!(ranking(&st), vec![("hello", 2), ("world", 1)]);
    assert_eq!(st.char_count, 19);
    assert_eq!(st.char_count_no_spaces, 17);
    assert_eq!(st.line_count, 1);
    assert_eq!(st.total_word_chars, 15);
    assert_eq!(average(&st), 5.0);
}

#[test]
fn empty_text() {
    let st = analyze_text("");
    assert_eq!(st.char_count, 0);
    assert_eq!(st.char_count_no_spaces, 0);
    assert_eq!(st.line_count, 0);
    assert_eq!(st.word_count, 0);
    assert_eq!(st.unique_word_count, 0);
    assert_eq!(st.total_word_chars, 0);
    assert_eq!(average(&st), 0.0);
    assert!(st.word_frequencies.is_empty());
}

#[test]
fn top_two_of_repeated_letters() {
    let st = analyze_text("a a a b b c");
    let top: Vec<(&str, usize)> = ranking(&st).into_iter().take(2).collect();
    assert_eq!(top, vec![("a", 3), ("b", 2)]);
    assert_eq!(ranking(&st), vec![("a", 3), ("b", 2), ("c", 1)]);
}

#[test]
fn punctuation_only() {
    let st = analyze_text("!!! ??? ---");
    assert_eq!(st.word_count, 0);
    assert_eq!(st.unique_word_count, 0);
    assert_eq!(st.char_count, 11);
    assert_eq!(st.char_count_no_spaces, 9);
    assert_eq!(average(&st), 0.0);
}

#[test]
fn trailing_newline_adds_no_line() {
    assert_eq!(analyze_text("Line1\nLine2\nLine3\n").line_count, 3);
    assert_eq!(analyze_text("Line1\nLine2\nLine3").line_count, 3);
    assert_eq!(analyze_text("\n").line_count, 1);
    assert_eq!(analyze_text("a\r\nb").line_count, 2);
    assert_eq!(analyze_text("\n\n").line_count, 2);
}

#[test]
fn ties_break_lexicographically() {
    let st = analyze_text("pear apple fig apple pear fig");
    assert_eq!(ranking(&st), vec![("apple", 2), ("fig", 2), ("pear", 2)]);
}

#[test]
fn counts_sum_to_word_count() {
    let st = analyze_text("the cat and the hat and the bat");
    let sum: usize = st.word_frequencies.iter().map(|(_, c)| *c).sum();
    assert_eq!(sum, st.word_count);
    assert_eq!(st.word_count, 8);
    assert_eq!(st.unique_word_count, st.word_frequencies.len());
    assert_eq!(ranking(&st)[0], ("the", 3));
    for pair in st.word_frequencies.windows(2) {
        let (w1, c1) = &pair[0];
        let (w2, c2) = &pair[1];
        assert!(c1 > c2 || (c1 == c2 && w1 <= w2));
    }
}

#[test]
fn average_is_total_over_count() {
    let st = analyze_text("ab abcd");
    assert_eq!(st.total_word_chars, 6);
    assert_eq!(average(&st), 3.0);
}

#[test]
fn repeated_analysis_is_identical() {
    let text = "Zeta alpha, beta! alpha; GAMMA gamma\tdelta\n";
    let a = analyze_text(text);
    let b = analyze_text(text);
    assert_eq!(a.char_count, b.char_count);
    assert_eq!(a.char_count_no_spaces, b.char_count_no_spaces);
    assert_eq!(a.line_count, b.line_count);
    assert_eq!(a.word_count, b.word_count);
    assert_eq!(a.unique_word_count, b.unique_word_count);
    assert_eq!(a.total_word_chars, b.total_word_chars);
    assert_eq!(a.word_frequencies, b.word_frequencies);
}

#[test]
fn unicode_letters_are_kept_and_lowercased() {
    let st = analyze_text("«École» école ÉCOLE… 日本語!");
    assert_eq!(ranking(&st), vec![("école", 3), ("日本語", 1)]);
    assert_eq!(st.char_count, 25);
}

#[test]
fn unicode_whitespace_separates_tokens() {
    let st = analyze_text("one\u{00A0}two\u{2003}three");
    assert_eq!(st.word_count, 3);
    assert_eq!(st.char_count_no_spaces, 11);
}

#[test]
fn split_on_whitespace_runs() {
    let toks = split_tokens(&cv("  ab \t\n cd  e "));
    assert_eq!(toks, vec![cv("ab"), cv("cd"), cv("e")]);
    assert!(split_tokens(&cv(" \n\t ")).is_empty());
}

#[test]
fn trim_strips_edges_only() {
    assert_eq!(trim_edges(&cv("--it's--")), cv("it's"));
    assert_eq!(trim_edges(&cv("(x)")), cv("x"));
    assert_eq!(trim_edges(&cv("?!")), cv(""));
    assert_eq!(trim_edges(&cv("42")), cv("42"));
}

#[test]
fn normalization_lowercases_and_drops_empty() {
    let ws = normalize_words(&vec![cv("Hello,"), cv("..."), cv("WORLD")]);
    assert_eq!(ws, vec![cv("hello"), cv("world")]);
}

#[test]
fn total_of_word_lengths() {
    assert_eq!(total_chars(&vec![cv("ab"), cv("çde")]), 5);
    assert_eq!(total_chars(&vec![]), 0);
}

#[test]
fn lines_and_spaces_counted() {
    assert_eq!(count_lines(&cv("a\nb")), 2);
    assert_eq!(count_lines(&cv("")), 0);
    assert_eq!(count_non_space(&cv(" a b ")), 2);
}

#[test]
fn counting_keeps_first_occurrence_order() {
    let (keys, counts) = count_words(&vec![cv("b"), cv("a"), cv("b")]);
    assert_eq!(keys, vec![cv("b"), cv("a")]);
    assert_eq!(counts, vec![2, 1]);
}

#[test]
fn ranking_orders_entries() {
    let r = rank(&vec![cv("b"), cv("a"), cv("c")], &vec![1, 1, 5]);
    assert_eq!(
        r,
        vec![("c".to_string(), 5), ("a".to_string(), 1), ("b".to_string(), 1)]
    );
}

#[test]
fn frequencies_of_words() {
    let r = word_frequencies(&vec![cv("x"), cv("y"), cv("x")]);
    assert_eq!(r, vec![("x".to_string(), 2), ("y".to_string(), 1)]);
    assert!(word_frequencies(&vec![]).is_empty());
}

#[test]
fn lexicographic_comparison() {
    assert!(lex_less(&cv("ab"), &cv("b")));
    assert!(lex_less(&cv("ab"), &cv("abc")));
    assert!(!lex_less(&cv("abc"), &cv("ab")));
    assert!(!lex_less(&cv("x"), &cv("x")));
    assert!(lex_less(&cv("z"), &cv("é")));
    assert!(same_chars(&cv("ab"), &cv("ab")));
    assert!(!same_chars(&cv("ab"), &cv("ac")));
    assert!(!same_chars(&cv("ab"), &cv("a")));
}
