use vstd::prelude::*;
use crate::order::lex_lt;
use crate::chars::{alphanumeric, chars_of, is_alnum, is_space, lower_of, lowercase, white_space};
use crate::tally::{
    lemma_ranking_unique, ranked, ranked_before, ranking_view, tallies, total, word_frequencies,
    words_view,
};

verus! {

/// The tokens completed within `s`, and the run of non-whitespace characters
/// still open at its end.
pub open spec fn scan(s: Seq<char>) -> (Seq<Seq<char>>, Seq<char>)
    decreases s.len(),
{
    if s.len() == 0 {
        (seq![], seq![])
    } else {
        let prev = scan(s.drop_last());
        let c = s.last();
        if !white_space(c) {
            (prev.0, prev.1.push(c))
        } else if prev.1.len() > 0 {
            (prev.0.push(prev.1), seq![])
        } else {
            (prev.0, seq![])
        }
    }
}

/// The tokens of `s`: its maximal runs of non-whitespace characters, in order.
pub open spec fn tokens(s: Seq<char>) -> Seq<Seq<char>> {
    let st = scan(s);
    if st.1.len() > 0 {
        st.0.push(st.1)
    } else {
        st.0
    }
}

/// `t` without its leading non-alphanumeric characters.
pub open spec fn trim_front(t: Seq<char>) -> Seq<char>
    decreases t.len(),
{
    if t.len() > 0 && !alphanumeric(t[0]) {
        trim_front(t.drop_first())
    } else {
        t
    }
}

/// `t` without its trailing non-alphanumeric characters.
pub open spec fn trim_back(t: Seq<char>) -> Seq<char>
    decreases t.len(),
{
    if t.len() > 0 && !alphanumeric(t.last()) {
        trim_back(t.drop_last())
    } else {
        t
    }
}

/// A token with non-alphanumeric characters stripped from both ends, then lowercased.
pub open spec fn normalized(t: Seq<char>) -> Seq<char> {
    lower_of(trim_back(trim_front(t)))
}

/// The non-empty normalized forms of the given tokens, in order.
pub open spec fn words_of(toks: Seq<Seq<char>>) -> Seq<Seq<char>>
    decreases toks.len(),
{
    if toks.len() == 0 {
        seq![]
    } else {
        let w = normalized(toks.last());
        if w.len() > 0 {
            words_of(toks.drop_last()).push(w)
        } else {
            words_of(toks.drop_last())
        }
    }
}

/// The words of a text.
pub open spec fn words(s: Seq<char>) -> Seq<Seq<char>> {
    words_of(tokens(s))
}

/// The number of characters of `s` that satisfy `f`.
pub open spec fn count_where(s: Seq<char>, f: spec_fn(char) -> bool) -> nat
    decreases s.len(),
{
    if s.len() == 0 {
        0
    } else {
        count_where(s.drop_last(), f) + if f(s.last()) { 1nat } else { 0nat }
    }
}

/// The number of characters of `s` that are not whitespace.
pub open spec fn non_space_count(s: Seq<char>) -> nat {
    count_where(s, |c: char| !white_space(c))
}

/// The number of lines of `s`: one per line feed, plus one for a last line
/// that no line feed ends. An empty text has no lines.
pub open spec fn line_count(s: Seq<char>) -> nat {
    count_where(s, |c: char| c == '\n') + if s.len() > 0 && s.last() != '\n' { 1nat } else { 0nat }
}

/// The total number of characters of a sequence of words.
pub open spec fn char_total(ws: Seq<Seq<char>>) -> nat
    decreases ws.len(),
{
    if ws.len() == 0 {
        0
    } else {
        char_total(ws.drop_last()) + ws.last().len()
    }
}

proof fn lemma_count_where_bound(s: Seq<char>, f: spec_fn(char) -> bool)
    ensures
        count_where(s, f) <= s.len(),
    decreases s.len(),
{
    if s.len() > 0 {
        lemma_count_where_bound(s.drop_last(), f);
    }
}

/// How many characters of `chars` are not whitespace.
pub fn count_non_space(chars: &Vec<char>) -> (r: usize)
    ensures
        r == non_space_count(chars@),
{
    let ghost f = |c: char| !white_space(c);
    let mut n: usize = 0;
    let mut i: usize = 0;
    while i < chars.len()
        invariant
            i <= chars.len(),
            n == count_where(chars@.take(i as int), f),
            n <= i,
            f == (|c: char| !white_space(c)),
        decreases chars.len() - i,
    {
        assert(chars@.take(i + 1).drop_last() =~= chars@.take(i as int));
        if !is_space(chars[i]) {
            n += 1;
        }
        i += 1;
    }
    assert(chars@.take(i as int) =~= chars@);
    n
}

/// How many lines `chars` holds, by line feeds; a final line feed does not
/// start another line.
pub fn count_lines(chars: &Vec<char>) -> (r: usize)
    ensures
        r == line_count(chars@),
{
    let ghost f = |c: char| c == '\n';
    let mut n: usize = 0;
    let mut i: usize = 0;
    while i < chars.len()
        invariant
            i <= chars.len(),
            n == count_where(chars@.take(i as int), f),
            n <= i,
            f == (|c: char| c == '\n'),
        decreases chars.len() - i,
    {
        assert(chars@.take(i + 1).drop_last() =~= chars@.take(i as int));
        if chars[i] == '\n' {
            n += 1;
        }
        i += 1;
    }
    assert(chars@.take(i as int) =~= chars@);
    if chars.len() > 0 && chars[chars.len() - 1] != '\n' {
        proof {
            lemma_count_where_bound(chars@.drop_last(), f);
        }
        n + 1
    } else {
        n
    }
}

/// Splits `chars` on runs of whitespace into its tokens.
pub fn split_tokens(chars: &Vec<char>) -> (r: Vec<Vec<char>>)
    ensures
        words_view(r@) == tokens(chars@),
{
    let mut done: Vec<Vec<char>> = Vec::new();
    let mut cur: Vec<char> = Vec::new();
    let mut i: usize = 0;
    while i < chars.len()
        invariant
            i <= chars.len(),
            words_view(done@) == scan(chars@.take(i as int)).0,
            cur@ == scan(chars@.take(i as int)).1,
        decreases chars.len() - i,
    {
        let ghost prefix = chars@.take(i + 1);
        assert(prefix.drop_last() =~= chars@.take(i as int));
        let c = chars[i];
        if !is_space(c) {
            cur.push(c);
        } else if cur.len() > 0 {
            let ghost before = done@;
            done.push(cur);
            cur = Vec::new();
            assert(words_view(done@) =~= words_view(before).push(scan(chars@.take(i as int)).1));
        }
        i += 1;
    }
    assert(chars@.take(i as int) =~= chars@);
    if cur.len() > 0 {
        let ghost before = done@;
        done.push(cur);
        assert(words_view(done@) =~= words_view(before).push(scan(chars@).1));
    }
    done
}

/// `t` with non-alphanumeric characters stripped from both ends.
pub fn trim_edges(t: &Vec<char>) -> (r: Vec<char>)
    ensures
        r@ == trim_back(trim_front(t@)),
{
    let n = t.len();
    let mut start: usize = 0;
    assert(t@.subrange(0, n as int) =~= t@);
    while start < n && !is_alnum(t[start])
        invariant
            start <= n,
            n == t.len(),
            trim_front(t@) == trim_front(t@.subrange(start as int, n as int)),
        decreases n - start,
    {
        assert(t@.subrange(start as int, n as int).drop_first() =~= t@.subrange(start + 1, n as int));
        start += 1;
    }
    let mut end: usize = n;
    while end > start && !is_alnum(t[end - 1])
        invariant
            start <= end <= n,
            n == t.len(),
            trim_front(t@) == t@.subrange(start as int, n as int),
            trim_back(trim_front(t@)) == trim_back(t@.subrange(start as int, end as int)),
        decreases end - start,
    {
        assert(t@.subrange(start as int, end as int).drop_last() =~= t@.subrange(start as int, end - 1));
        end -= 1;
    }
    let mut r: Vec<char> = Vec::new();
    let mut k: usize = start;
    while k < end
        invariant
            start <= k <= end,
            end <= t.len(),
            r@ == t@.subrange(start as int, k as int),
        decreases end - k,
    {
        assert(t@.subrange(start as int, k + 1) =~= t@.subrange(start as int, k as int).push(t@[k as int]));
        r.push(t[k]);
        k += 1;
    }
    r
}

/// The words of the given tokens: each normalized, the empty ones dropped.
pub fn normalize_words(toks: &Vec<Vec<char>>) -> (r: Vec<Vec<char>>)
    ensures
        words_view(r@) == words_of(words_view(toks@)),
{
    let ghost tv = words_view(toks@);
    let mut ws: Vec<Vec<char>> = Vec::new();
    let mut i: usize = 0;
    while i < toks.len()
        invariant
            i <= toks.len(),
            tv == words_view(toks@),
            words_view(ws@) == words_of(tv.take(i as int)),
        decreases toks.len() - i,
    {
        assert(tv.take(i + 1).drop_last() =~= tv.take(i as int));
        assert(tv.take(i + 1).last() == toks@[i as int]@);
        let trimmed = trim_edges(&toks[i]);
        let w = lowercase(&trimmed);
        if w.len() > 0 {
            let ghost before = ws@;
            ws.push(w);
            assert(words_view(ws@) =~= words_view(before).push(normalized(toks@[i as int]@)));
        }
        i += 1;
    }
    assert(tv.take(i as int) =~= tv);
    ws
}

/// The total number of characters of the given words.
pub fn total_chars(ws: &Vec<Vec<char>>) -> (r: u128)
    ensures
        r == char_total(words_view(ws@)),
{
    let ghost wv = words_view(ws@);
    let mut sum: u128 = 0;
    let mut i: usize = 0;
    while i < ws.len()
        invariant
            i <= ws.len(),
            wv == words_view(ws@),
            sum == char_total(wv.take(i as int)),
            sum <= i * (usize::MAX as int),
        decreases ws.len() - i,
    {
        assert(wv.take(i + 1).drop_last() =~= wv.take(i as int));
        let len = ws[i].len();
        proof {
            let m = usize::MAX as int;
            let k = i as int;
            assert(sum + len <= (k + 1) * m) by (nonlinear_arith)
                requires
                    sum <= k * m,
                    len <= m,
            ;
            assert((k + 1) * m <= m * m) by (nonlinear_arith)
                requires
                    k + 1 <= m,
                    0 <= m,
            ;
            assert(m * m < u128::MAX) by (nonlinear_arith)
                requires
                    0 <= m <= u64::MAX,
            ;
        }
        sum = sum + len as u128;
        i += 1;
    }
    assert(wv.take(i as int) =~= wv);
    sum
}

/// Statistics of a text.
pub struct TextStats {
    /// Number of characters (Unicode scalar values).
    pub char_count: usize,
    /// Number of characters that are not whitespace.
    pub char_count_no_spaces: usize,
    /// Number of lines.
    pub line_count: usize,
    /// Number of words.
    pub word_count: usize,
    /// Number of distinct words.
    pub unique_word_count: usize,
    /// Total number of characters over all words, wide enough never to overflow.
    pub total_word_chars: u128,
    /// Each distinct word with its count, higher counts first, ties in
    /// lexicographic order.
    pub word_frequencies: Vec<(String, usize)>,
}

/// `st` holds the statistics of the text `s`.
pub open spec fn describes(st: TextStats, s: Seq<char>) -> bool {
    let r = ranking_view(st.word_frequencies@);
    &&& st.char_count == s.len()
    &&& st.char_count_no_spaces == non_space_count(s)
    &&& st.line_count == line_count(s)
    &&& st.word_count == words(s).len()
    &&& st.unique_word_count == r.len()
    &&& st.total_word_chars == char_total(words(s))
    &&& tallies(r, words(s))
    &&& ranked(r)
    &&& total(r) == st.word_count
}

/// Computes the statistics of `content`.
pub fn analyze_text(content: &str) -> (st: TextStats)
    ensures
        describes(st, content@),
{
    let chars = chars_of(content);
    let char_count = chars.len();
    let char_count_no_spaces = count_non_space(&chars);
    let line_count = count_lines(&chars);
    let toks = split_tokens(&chars);
    let ws = normalize_words(&toks);
    let total_word_chars = total_chars(&ws);
    let word_frequencies = word_frequencies(&ws);
    TextStats {
        char_count,
        char_count_no_spaces,
        line_count,
        word_count: ws.len(),
        unique_word_count: word_frequencies.len(),
        total_word_chars,
        word_frequencies,
    }
}

/// Analysing the same text twice gives the same statistics: every count is
/// equal and the rankings list the same words and counts in the same order.
pub proof fn lemma_analysis_deterministic(s: Seq<char>, a: TextStats, b: TextStats)
    requires
        describes(a, s),
        describes(b, s),
    ensures
        a.char_count == b.char_count,
        a.char_count_no_spaces == b.char_count_no_spaces,
        a.line_count == b.line_count,
        a.word_count == b.word_count,
        a.unique_word_count == b.unique_word_count,
        a.total_word_chars == b.total_word_chars,
        ranking_view(a.word_frequencies@) == ranking_view(b.word_frequencies@),
{
    lemma_ranking_unique(ranking_view(a.word_frequencies@), ranking_view(b.word_frequencies@), words(s));
}

/// In the ranking of a text, of two adjacent entries the first has the higher
/// count, or an equal count and a word that is not lexicographically greater.
pub proof fn lemma_ranking_sorted(s: Seq<char>, st: TextStats, i: int)
    requires
        describes(st, s),
        0 <= i,
        i + 1 < st.word_frequencies@.len(),
    ensures
        ({
            let r = ranking_view(st.word_frequencies@);
            r[i].1 > r[i + 1].1 || (r[i].1 == r[i + 1].1 && (r[i].0 == r[i + 1].0 || lex_lt(r[i].0, r[i + 1].0)))
        }),
{
    let r = ranking_view(st.word_frequencies@);
    assert(ranked_before(r[i], r[i + 1]));
}

} // verus!
