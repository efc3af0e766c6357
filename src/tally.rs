use vstd::prelude::*;
use crate::chars::text_of;
use crate::order::{
    lex_less, lex_lt, lemma_lex_irreflexive, lemma_lex_total, lemma_lex_transitive, same_chars,
};

verus! {

/// A word and the number of times it occurs.
pub type Entry = (Seq<char>, nat);

/// How many times `w` occurs in `ws`.
pub open spec fn occurrences(ws: Seq<Seq<char>>, w: Seq<char>) -> nat
    decreases ws.len(),
{
    if ws.len() == 0 {
        0
    } else {
        occurrences(ws.drop_last(), w) + if ws.last() == w { 1nat } else { 0nat }
    }
}

/// Whether some entry of `r` is for the word `w`.
pub open spec fn has_key(r: Seq<Entry>, w: Seq<char>) -> bool {
    exists|i: int| 0 <= i < r.len() && #[trigger] r[i].0 == w
}

/// `r` lists every word of `ws` exactly once, each with its number of occurrences.
pub open spec fn tallies(r: Seq<Entry>, ws: Seq<Seq<char>>) -> bool {
    &&& forall|i: int, j: int| 0 <= i < j < r.len() ==> r[i].0 != r[j].0
    &&& forall|i: int| 0 <= i < r.len() ==> #[trigger] r[i].1 == occurrences(ws, r[i].0)
    &&& forall|i: int| 0 <= i < r.len() ==> ws.contains(#[trigger] r[i].0)
    &&& forall|k: int| 0 <= k < ws.len() ==> has_key(r, #[trigger] ws[k])
}

/// Higher counts first; among equal counts, the lexicographically smaller word.
pub open spec fn ranked_before(a: Entry, b: Entry) -> bool {
    a.1 > b.1 || (a.1 == b.1 && lex_lt(a.0, b.0))
}

/// Every entry of `r` comes before every later one.
pub open spec fn ranked(r: Seq<Entry>) -> bool {
    forall|i: int, j: int| 0 <= i < j < r.len() ==> ranked_before(#[trigger] r[i], #[trigger] r[j])
}

/// The sum of the counts in `r`.
pub open spec fn total(r: Seq<Entry>) -> nat
    decreases r.len(),
{
    if r.len() == 0 {
        0
    } else {
        total(r.drop_last()) + r.last().1
    }
}

/// The words of a vector of character vectors.
pub open spec fn words_view(ws: Seq<Vec<char>>) -> Seq<Seq<char>> {
    Seq::new(ws.len(), |i: int| ws[i]@)
}

/// Entries from parallel vectors of words and counts.
pub open spec fn pairs(keys: Seq<Vec<char>>, counts: Seq<usize>) -> Seq<Entry> {
    Seq::new(keys.len(), |i: int| (keys[i]@, counts[i] as nat))
}

/// The entries of a ranking of strings.
pub open spec fn ranking_view(r: Seq<(String, usize)>) -> Seq<Entry> {
    Seq::new(r.len(), |i: int| (r[i].0@, r[i].1 as nat))
}

proof fn lemma_occurrences_push(ws: Seq<Seq<char>>, w: Seq<char>, k: Seq<char>)
    ensures
        occurrences(ws.push(w), k) == occurrences(ws, k) + if w == k { 1nat } else { 0nat },
{
    assert(ws.push(w).drop_last() =~= ws);
}

proof fn lemma_total_push(r: Seq<Entry>, e: Entry)
    ensures
        total(r.push(e)) == total(r) + e.1,
{
    assert(r.push(e).drop_last() =~= r);
}

proof fn lemma_total_update(r: Seq<Entry>, j: int, e: Entry)
    requires
        0 <= j < r.len(),
    ensures
        total(r.update(j, e)) + r[j].1 == total(r) + e.1,
    decreases r.len(),
{
    if j == r.len() - 1 {
        assert(r.update(j, e).drop_last() =~= r.drop_last());
    } else {
        lemma_total_update(r.drop_last(), j, e);
        assert(r.update(j, e).drop_last() =~= r.drop_last().update(j, e));
    }
}

proof fn lemma_total_insert(r: Seq<Entry>, p: int, e: Entry)
    requires
        0 <= p <= r.len(),
    ensures
        total(r.insert(p, e)) == total(r) + e.1,
    decreases r.len(),
{
    if p == r.len() {
        assert(r.insert(p, e) =~= r.push(e));
        lemma_total_push(r, e);
    } else {
        lemma_total_insert(r.drop_last(), p, e);
        assert(r.insert(p, e).drop_last() =~= r.drop_last().insert(p, e));
    }
}

proof fn lemma_ranked_before_strict(a: Entry, b: Entry, c: Entry)
    ensures
        !ranked_before(a, a),
        ranked_before(a, b) && ranked_before(b, c) ==> ranked_before(a, c),
        a != b && a.0 != b.0 ==> ranked_before(a, b) || ranked_before(b, a),
{
    lemma_lex_irreflexive(a.0);
    if ranked_before(a, b) && ranked_before(b, c) && a.1 == b.1 && b.1 == c.1 {
        lemma_lex_transitive(a.0, b.0, c.0);
    }
    if a.0 != b.0 {
        lemma_lex_total(a.0, b.0);
    }
}

/// Whether the entry (w1, c1) comes before (w2, c2) in a ranking.
pub fn ranks_before(w1: &Vec<char>, c1: usize, w2: &Vec<char>, c2: usize) -> (r: bool)
    ensures
        r == ranked_before((w1@, c1 as nat), (w2@, c2 as nat)),
{
    c1 > c2 || (c1 == c2 && lex_less(w1, w2))
}

/// Counts the words: one (word, count) pair for each distinct word, in the
/// order of first occurrence.
pub fn count_words(words: &Vec<Vec<char>>) -> (r: (Vec<Vec<char>>, Vec<usize>))
    ensures
        r.0.len() == r.1.len(),
        tallies(pairs(r.0@, r.1@), words_view(words@)),
        total(pairs(r.0@, r.1@)) == words@.len(),
{
    let mut keys: Vec<Vec<char>> = Vec::new();
    let mut counts: Vec<usize> = Vec::new();
    let ghost ws = words_view(words@);
    let mut i: usize = 0;
    while i < words.len()
        invariant
            i <= words.len(),
            ws == words_view(words@),
            keys.len() == counts.len(),
            tallies(pairs(keys@, counts@), ws.take(i as int)),
            total(pairs(keys@, counts@)) == i,
            forall|j: int| 0 <= j < counts.len() ==> counts[j] <= i,
        decreases words.len() - i,
    {
        let w = &words[i];
        let ghost before = pairs(keys@, counts@);
        let ghost seen = ws.take(i as int);
        assert(ws.take(i + 1) =~= seen.push(w@));
        let mut j: usize = 0;
        while j < keys.len() && !same_chars(&keys[j], w)
            invariant
                j <= keys.len(),
                keys.len() == counts.len(),
                forall|a: int| 0 <= a < j ==> keys@[a]@ != w@,
            decreases keys.len() - j,
        {
            j += 1;
        }
        proof {
            assert forall|k: Seq<char>| occurrences(seen.push(w@), k) == occurrences(seen, k) + if w@ == k { 1nat } else { 0nat } by {
                lemma_occurrences_push(seen, w@, k);
            }
        }
        if j < keys.len() {
            let c = counts[j];
            counts.set(j, c + 1);
            proof {
                assert(pairs(keys@, counts@) =~= before.update(j as int, (w@, (c + 1) as nat)));
                lemma_total_update(before, j as int, (w@, (c + 1) as nat));
                let after = pairs(keys@, counts@);
                assert forall|k: int| 0 <= k < seen.len() + 1 implies has_key(after, #[trigger] seen.push(w@)[k]) by {
                    if k < seen.len() {
                        assert(seen.push(w@)[k] == seen[k]);
                        assert(has_key(before, seen[k]));
                        let b = choose|b: int| 0 <= b < before.len() && #[trigger] before[b].0 == seen[k];
                        assert(after[b].0 == seen[k]);
                    } else {
                        assert(after[j as int].0 == w@);
                    }
                }
                assert forall|a: int| 0 <= a < after.len() implies seen.push(w@).contains(#[trigger] after[a].0) by {
                    if a == j {
                        assert(seen.push(w@)[seen.len() as int] == w@);
                    } else {
                        let k = choose|k: int| 0 <= k < seen.len() && seen[k] == before[a].0;
                        assert(seen.push(w@)[k] == seen[k]);
                    }
                }
            }
        } else {
            keys.push(copy_chars(w));
            counts.push(1);
            proof {
                assert(pairs(keys@, counts@) =~= before.push((w@, 1nat)));
                lemma_total_push(before, (w@, 1nat));
                let after = pairs(keys@, counts@);
                assert forall|k: int| 0 <= k < seen.len() + 1 implies has_key(after, #[trigger] seen.push(w@)[k]) by {
                    if k < seen.len() {
                        assert(seen.push(w@)[k] == seen[k]);
                        assert(has_key(before, seen[k]));
                        let b = choose|b: int| 0 <= b < before.len() && #[trigger] before[b].0 == seen[k];
                        assert(after[b].0 == seen[k]);
                    } else {
                        assert(after[before.len() as int].0 == w@);
                    }
                }
                assert forall|a: int| 0 <= a < after.len() implies seen.push(w@).contains(#[trigger] after[a].0) by {
                    if a == before.len() {
                        assert(seen.push(w@)[seen.len() as int] == w@);
                    } else {
                        let k = choose|k: int| 0 <= k < seen.len() && seen[k] == before[a].0;
                        assert(seen.push(w@)[k] == seen[k]);
                    }
                }
                assert(!seen.contains(w@)) by {
                    if seen.contains(w@) {
                        let k = choose|k: int| 0 <= k < seen.len() && seen[k] == w@;
                        assert(has_key(before, seen[k]));
                    }
                }
                assert(occurrences(seen, w@) == 0) by {
                    lemma_occurrences_absent(seen, w@);
                }
            }
        }
        i += 1;
    }
    assert(ws.take(i as int) =~= ws);
    (keys, counts)
}

/// A copy of a character vector.
pub fn copy_chars(w: &Vec<char>) -> (r: Vec<char>)
    ensures
        r@ == w@,
{
    let mut r: Vec<char> = Vec::new();
    let mut i: usize = 0;
    while i < w.len()
        invariant
            i <= w.len(),
            r@ == w@.take(i as int),
        decreases w.len() - i,
    {
        assert(w@.take(i + 1) =~= w@.take(i as int).push(w@[i as int]));
        r.push(w[i]);
        i += 1;
    }
    assert(w@.take(i as int) =~= w@);
    r
}

proof fn lemma_occurrences_absent(ws: Seq<Seq<char>>, w: Seq<char>)
    requires
        !ws.contains(w),
    ensures
        occurrences(ws, w) == 0,
    decreases ws.len(),
{
    if ws.len() > 0 {
        assert(!ws.drop_last().contains(w)) by {
            if ws.drop_last().contains(w) {
                let k = choose|k: int| 0 <= k < ws.len() - 1 && ws.drop_last()[k] == w;
                assert(ws[k] == w);
            }
        }
        assert(ws[ws.len() - 1] == ws.last());
        lemma_occurrences_absent(ws.drop_last(), w);
    }
}

#[verifier::rlimit(40)]
proof fn lemma_insert_ranked(r: Seq<Entry>, p: int, x: Entry)
    requires
        ranked(r),
        0 <= p <= r.len(),
        forall|a: int| 0 <= a < p ==> ranked_before(#[trigger] r[a], x),
        forall|a: int| p <= a < r.len() ==> ranked_before(x, #[trigger] r[a]),
    ensures
        ranked(r.insert(p, x)),
        forall|y: Entry| r.insert(p, x).contains(y) <==> (r.contains(y) || y == x),
{
    r.insert_ensures(p, x);
    let s = r.insert(p, x);
    assert forall|a: int, b: int| 0 <= a < b < s.len() implies ranked_before(#[trigger] s[a], #[trigger] s[b]) by {
        if b < p {
            assert(s[a] == r[a] && s[b] == r[b]);
        } else if b == p {
            assert(s[a] == r[a]);
        } else if a < p {
            assert(s[a] == r[a] && s[b] == r[b - 1]);
        } else if a == p {
            assert(s[b] == r[b - 1]);
        } else {
            assert(s[a] == r[a - 1] && s[b] == r[b - 1]);
        }
    }
    assert forall|y: Entry| s.contains(y) <==> (r.contains(y) || y == x) by {
        if s.contains(y) {
            let k = choose|k: int| 0 <= k < s.len() && s[k] == y;
            if k < p {
                assert(r[k] == y);
            } else if k > p {
                assert(r[k - 1] == y);
            }
        }
        if r.contains(y) {
            let k = choose|k: int| 0 <= k < r.len() && r[k] == y;
            if k < p {
                assert(s[k] == y);
            } else {
                assert(s[k + 1] == y);
            }
        }
        if y == x {
            assert(s[p] == y);
        }
    }
}

/// Orders tallied words for display: higher counts first, ties broken by the
/// lexicographically smaller word. The result holds exactly the given entries.
pub fn rank(keys: &Vec<Vec<char>>, counts: &Vec<usize>) -> (r: Vec<(String, usize)>)
    requires
        keys.len() == counts.len(),
        forall|i: int, j: int| 0 <= i < j < keys.len() ==> keys@[i]@ != keys@[j]@,
    ensures
        r.len() == keys.len(),
        ranked(ranking_view(r@)),
        forall|y: Entry| ranking_view(r@).contains(y) <==> pairs(keys@, counts@).contains(y),
        total(ranking_view(r@)) == total(pairs(keys@, counts@)),
{
    let ghost input = pairs(keys@, counts@);
    let mut out_keys: Vec<Vec<char>> = Vec::new();
    let mut out_counts: Vec<usize> = Vec::new();
    let mut i: usize = 0;
    while i < keys.len()
        invariant
            i <= keys.len(),
            keys.len() == counts.len(),
            input == pairs(keys@, counts@),
            forall|a: int, b: int| 0 <= a < b < keys.len() ==> keys@[a]@ != keys@[b]@,
            out_keys.len() == i,
            out_counts.len() == i,
            ranked(pairs(out_keys@, out_counts@)),
            forall|y: Entry| pairs(out_keys@, out_counts@).contains(y) <==> input.take(i as int).contains(y),
            total(pairs(out_keys@, out_counts@)) == total(input.take(i as int)),
        decreases keys.len() - i,
    {
        let ghost out = pairs(out_keys@, out_counts@);
        let ghost x = input[i as int];
        let mut p: usize = 0;
        while p < out_keys.len() && !ranks_before(&keys[i], counts[i], &out_keys[p], out_counts[p])
            invariant
                p <= out_keys.len(),
                i < keys.len(),
                keys.len() == counts.len(),
                out_keys.len() == out_counts.len(),
                out == pairs(out_keys@, out_counts@),
                x == (keys@[i as int]@, counts@[i as int] as nat),
                forall|a: int| 0 <= a < p ==> !ranked_before(x, #[trigger] out[a]),
            decreases out_keys.len() - p,
        {
            p += 1;
        }
        proof {
            assert(input.take(i + 1) =~= input.take(i as int).push(x));
            assert(input.take(i + 1).drop_last() =~= input.take(i as int));
            assert forall|a: int| 0 <= a < p implies ranked_before(#[trigger] out[a], x) by {
                assert(out.contains(out[a]));
                assert(input.take(i as int).contains(out[a]));
                let b = choose|b: int| 0 <= b < i && #[trigger] input.take(i as int)[b] == out[a];
                assert(input.take(i as int)[b] == input[b]);
                assert(keys@[b]@ != keys@[i as int]@);
                lemma_ranked_before_strict(out[a], x, x);
            }
            assert forall|a: int| p <= a < out.len() implies ranked_before(x, #[trigger] out[a]) by {
                if a > p {
                    lemma_ranked_before_strict(x, out[p as int], out[a]);
                }
            }
            lemma_insert_ranked(out, p as int, x);
            lemma_total_insert(out, p as int, x);
            assert forall|y: Entry| input.take(i + 1).contains(y) <==> (input.take(i as int).contains(y) || y == x) by {
                if input.take(i + 1).contains(y) {
                    let k = choose|k: int| 0 <= k < i + 1 && #[trigger] input.take(i + 1)[k] == y;
                    if k < i {
                        assert(input.take(i as int)[k] == y);
                    }
                }
                if input.take(i as int).contains(y) {
                    let k = choose|k: int| 0 <= k < i && input.take(i as int)[k] == y;
                    assert(input.take(i + 1)[k] == y);
                }
                if y == x {
                    assert(input.take(i + 1)[i as int] == y);
                }
            }
        }
        out_keys.insert(p, copy_chars(&keys[i]));
        out_counts.insert(p, counts[i]);
        proof {
            assert(pairs(out_keys@, out_counts@) =~= out.insert(p as int, x));
            assert forall|y: Entry| pairs(out_keys@, out_counts@).contains(y) <==> input.take(i + 1).contains(y) by {
                assert(out.contains(y) <==> input.take(i as int).contains(y));
            }
        }
        i += 1;
    }
    assert(input.take(i as int) =~= input);
    let ghost sorted = pairs(out_keys@, out_counts@);
    let mut r: Vec<(String, usize)> = Vec::new();
    let mut k: usize = 0;
    while k < out_keys.len()
        invariant
            k <= out_keys.len(),
            out_keys.len() == out_counts.len(),
            sorted == pairs(out_keys@, out_counts@),
            r.len() == k,
            ranking_view(r@) == sorted.take(k as int),
        decreases out_keys.len() - k,
    {
        let word = text_of(&out_keys[k]);
        let ghost prev = r@;
        r.push((word, out_counts[k]));
        assert(r@[k as int].0@ == out_keys@[k as int]@);
        assert(r@[k as int].1 == out_counts@[k as int]);
        assert(ranking_view(r@)[k as int] == sorted[k as int]);
        assert forall|a: int| 0 <= a < k implies ranking_view(r@)[a] == ranking_view(prev)[a] by {
            assert(r@[a] == prev[a]);
        }
        assert(ranking_view(r@) =~= sorted.take(k + 1));
        k += 1;
    }
    assert(ranking_view(r@) =~= sorted);
    r
}

/// The frequency ranking of a sequence of words: each distinct word once,
/// with its number of occurrences, higher counts first and ties in
/// lexicographic order.
pub fn word_frequencies(words: &Vec<Vec<char>>) -> (r: Vec<(String, usize)>)
    ensures
        tallies(ranking_view(r@), words_view(words@)),
        ranked(ranking_view(r@)),
        total(ranking_view(r@)) == words@.len(),
{
    let (keys, counts) = count_words(words);
    assert forall|i: int, j: int| 0 <= i < j < keys.len() implies keys@[i]@ != keys@[j]@ by {
        assert(pairs(keys@, counts@)[i].0 != pairs(keys@, counts@)[j].0);
    }
    let r = rank(&keys, &counts);
    proof {
        let ws = words_view(words@);
        let input = pairs(keys@, counts@);
        let out = ranking_view(r@);
        assert forall|i: int| 0 <= i < out.len() implies input.contains(#[trigger] out[i]) by {
            assert(out.contains(out[i]));
        }
        assert forall|i: int, j: int| 0 <= i < j < out.len() implies out[i].0 != out[j].0 by {
            assert(input.contains(out[i]));
            assert(input.contains(out[j]));
            let a = choose|a: int| 0 <= a < input.len() && #[trigger] input[a] == out[i];
            let b = choose|b: int| 0 <= b < input.len() && #[trigger] input[b] == out[j];
            if out[i].0 == out[j].0 {
                if a != b {
                    if a < b {
                        assert(input[a].0 != input[b].0);
                    } else {
                        assert(input[b].0 != input[a].0);
                    }
                }
                assert(ranked_before(out[i], out[j]));
                lemma_ranked_before_strict(out[i], out[i], out[i]);
            }
        }
        assert forall|i: int| 0 <= i < out.len() implies #[trigger] out[i].1 == occurrences(ws, out[i].0) && ws.contains(out[i].0) by {
            assert(input.contains(out[i]));
            let a = choose|a: int| 0 <= a < input.len() && #[trigger] input[a] == out[i];
            assert(input[a].1 == occurrences(ws, input[a].0));
            assert(ws.contains(input[a].0));
        }
        assert forall|k: int| 0 <= k < ws.len() implies has_key(out, #[trigger] ws[k]) by {
            assert(has_key(input, ws[k]));
            let b = choose|b: int| 0 <= b < input.len() && #[trigger] input[b].0 == ws[k];
            assert(input.contains(input[b]));
            assert(out.contains(input[b]));
            let i = choose|i: int| 0 <= i < out.len() && out[i] == input[b];
            assert(out[i].0 == ws[k]);
        }
    }
    r
}

/// Two rankings of the same words are identical: the ranking is determined
/// by the words alone.
pub proof fn lemma_ranking_unique(r1: Seq<Entry>, r2: Seq<Entry>, ws: Seq<Seq<char>>)
    requires
        tallies(r1, ws),
        ranked(r1),
        tallies(r2, ws),
        ranked(r2),
    ensures
        r1 == r2,
{
    assert forall|x: Entry| r1.contains(x) <==> r2.contains(x) by {
        if r1.contains(x) {
            lemma_tally_member(r1, r2, ws, x);
        }
        if r2.contains(x) {
            lemma_tally_member(r2, r1, ws, x);
        }
    }
    lemma_ranked_same_members(r1, r2);
}

proof fn lemma_tally_member(r1: Seq<Entry>, r2: Seq<Entry>, ws: Seq<Seq<char>>, x: Entry)
    requires
        tallies(r1, ws),
        tallies(r2, ws),
        r1.contains(x),
    ensures
        r2.contains(x),
{
    let i = choose|i: int| 0 <= i < r1.len() && r1[i] == x;
    assert(ws.contains(r1[i].0));
    let k = choose|k: int| 0 <= k < ws.len() && ws[k] == r1[i].0;
    assert(has_key(r2, ws[k]));
    let j = choose|j: int| 0 <= j < r2.len() && #[trigger] r2[j].0 == ws[k];
    assert(r2[j].1 == occurrences(ws, r2[j].0));
    assert(r2[j] == x);
}

proof fn lemma_ranked_same_members(r1: Seq<Entry>, r2: Seq<Entry>)
    requires
        ranked(r1),
        ranked(r2),
        forall|x: Entry| r1.contains(x) <==> r2.contains(x),
    ensures
        r1 == r2,
    decreases r1.len(),
{
    if r1.len() == 0 {
        if r2.len() > 0 {
            assert(r2.contains(r2[0]));
        }
        assert(r1 =~= r2);
    } else if r2.len() == 0 {
        assert(r1.contains(r1[0]));
    } else {
        assert(r1.contains(r1[0]));
        assert(r2.contains(r2[0]));
        let a = choose|a: int| 0 <= a < r1.len() && r1[a] == r2[0];
        let b = choose|b: int| 0 <= b < r2.len() && r2[b] == r1[0];
        if a > 0 && b > 0 {
            assert(ranked_before(r1[0], r1[a]));
            assert(ranked_before(r2[0], r2[b]));
            lemma_ranked_before_strict(r1[0], r2[0], r1[0]);
        }
        assert(r1[0] == r2[0]);
        let t1 = r1.drop_first();
        let t2 = r2.drop_first();
        assert forall|x: Entry| t1.contains(x) <==> t2.contains(x) by {
            lemma_ranked_tail_member(r1, x);
            lemma_ranked_tail_member(r2, x);
        }
        lemma_ranked_same_members(t1, t2);
        assert(r1 =~= seq![r1[0]] + t1);
        assert(r2 =~= seq![r2[0]] + t2);
    }
}

proof fn lemma_ranked_tail_member(r: Seq<Entry>, x: Entry)
    requires
        ranked(r),
        r.len() > 0,
    ensures
        r.drop_first().contains(x) <==> (r.contains(x) && x != r[0]),
{
    if r.drop_first().contains(x) {
        let k = choose|k: int| 0 <= k < r.len() - 1 && r.drop_first()[k] == x;
        assert(r[k + 1] == x);
        assert(ranked_before(r[0], r[k + 1]));
        lemma_ranked_before_strict(r[0], r[0], r[0]);
    }
    if r.contains(x) && x != r[0] {
        let k = choose|k: int| 0 <= k < r.len() && r[k] == x;
        assert(r.drop_first()[k - 1] == x);
    }
}

} // verus!
