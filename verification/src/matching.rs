use vstd::prelude::*;

use crate::similarity::{similarity, similarity_above, similarity_less, similarity_spec, Similarity};
use crate::text::words_view;

verus! {

/// A word of a command phrase that stands for a slot, such as `{name}`.
pub open spec fn is_placeholder(w: Seq<char>) -> bool {
    w.len() > 0 && w[0] == '{' && w.last() == '}'
}

/// The words of a command phrase that are not placeholders, in order.
pub open spec fn static_words(ws: Seq<Seq<char>>) -> Seq<Seq<char>>
    decreases ws.len(),
{
    if ws.len() == 0 {
        seq![]
    } else {
        let p = static_words(ws.drop_last());
        if is_placeholder(ws.last()) {
            p
        } else {
            p.push(ws.last())
        }
    }
}

/// Some input word is more than 75% similar to `w`.
pub open spec fn word_heard(inputs: Seq<Seq<char>>, w: Seq<char>) -> bool {
    exists|i: int| 0 <= i < inputs.len() && #[trigger] similarity_spec(inputs[i], w).above(75)
}

/// How many of the words `ws` some input word is more than 75% similar to.
pub open spec fn count_heard(inputs: Seq<Seq<char>>, ws: Seq<Seq<char>>) -> nat
    decreases ws.len(),
{
    if ws.len() == 0 {
        0
    } else {
        count_heard(inputs, ws.drop_last()) + if word_heard(inputs, ws.last()) {
            1nat
        } else {
            0nat
        }
    }
}

/// How well the spoken words matched a command phrase with placeholders:
/// `matched` of its `static_words` non-placeholder words were heard.
#[derive(Clone, Copy, Debug, PartialEq, Eq)]
pub struct TemplateMatch {
    pub matched: usize,
    pub static_words: usize,
}

/// The outcome of matching the spoken words `inputs` against the command
/// phrase words `cmd`: none when the phrase has no placeholder, only
/// placeholders, or nothing was said, or when fewer than 80% of its other
/// words were heard; else the counts, whose ratio is the score.
pub open spec fn template_outcome(inputs: Seq<Seq<char>>, cmd: Seq<Seq<char>>) -> Option<
    TemplateMatch,
> {
    let st = static_words(cmd);
    if st.len() == cmd.len() || st.len() == 0 || inputs.len() == 0 {
        None
    } else {
        let m = count_heard(inputs, st);
        if 100 * m >= 80 * st.len() {
            Some(TemplateMatch { matched: m as usize, static_words: st.len() as usize })
        } else {
            None
        }
    }
}

/// Whether `w` is a placeholder word.
fn placeholder(w: &Vec<char>) -> (r: bool)
    ensures
        r == is_placeholder(w@),
{
    w.len() > 0 && w[0] == '{' && w[w.len() - 1] == '}'
}

/// Whether some input word is more than 75% similar to `w`.
fn heard(inputs: &[Vec<char>], w: &Vec<char>) -> (r: bool)
    ensures
        r == word_heard(words_view(inputs@), w@),
{
    let ghost iv = words_view(inputs@);
    for i in 0..inputs.len()
        invariant
            iv == words_view(inputs@),
            forall|k: int| 0 <= k < i ==> !#[trigger] similarity_spec(iv[k], w@).above(75),
    {
        let s = similarity(&inputs[i], w);
        assert(iv[i as int] == inputs@[i as int]@);
        if similarity_above(s, 75) {
            return true;
        }
    }
    false
}

/// Matches the spoken words `input_words` against the words `cmd_words` of a
/// command phrase that may hold placeholders such as `{name}`.
pub fn template_phrase_match(input_words: &[Vec<char>], cmd_words: &[Vec<char>]) -> (r: Option<
    TemplateMatch,
>)
    ensures
        r == template_outcome(words_view(input_words@), words_view(cmd_words@)),
        r matches Some(m) ==> 100 * m.matched >= 80 * m.static_words && m.matched <= m.static_words
            && 0 < m.static_words < cmd_words@.len() && input_words@.len() > 0,
{
    proof {
        lemma_template_outcome_by_words(words_view(input_words@), words_view(cmd_words@));
    }
    let ghost iv = words_view(input_words@);
    let ghost cv = words_view(cmd_words@);
    let mut n_static: usize = 0;
    let mut matched: usize = 0;
    let n = cmd_words.len();
    for k in 0..n
        invariant
            n == cmd_words@.len(),
            cv == words_view(cmd_words@),
            iv == words_view(input_words@),
            n_static == static_words(cv.take(k as int)).len(),
            n_static <= k,
            matched == count_heard(iv, static_words(cv.take(k as int))),
            matched <= n_static,
    {
        let w = &cmd_words[k];
        assert(cv.take(k + 1).drop_last() =~= cv.take(k as int));
        assert(cv.take(k + 1).last() == w@);
        if !placeholder(w) {
            let ghost st = static_words(cv.take(k as int));
            assert(static_words(cv.take(k + 1)).drop_last() =~= st);
            if heard(input_words, w) {
                matched = matched + 1;
            }
            n_static = n_static + 1;
        }
    }
    assert(cv.take(n as int) =~= cv);
    if n_static == n || n_static == 0 || input_words.len() == 0 {
        None
    } else if 100 * (matched as u128) >= 80 * (n_static as u128) {
        Some(TemplateMatch { matched, static_words: n_static })
    } else {
        None
    }
}

/// The best similarity of `w` to one of the words `ws`: the first of the
/// highest, none when `ws` is empty.
pub open spec fn best_similarity(w: Seq<char>, ws: Seq<Seq<char>>) -> Option<Similarity>
    decreases ws.len(),
{
    if ws.len() == 0 {
        None
    } else {
        let prev = best_similarity(w, ws.drop_last());
        let s = similarity_spec(w, ws.last());
        match prev {
            Some(b) => if b.less_than(s) {
                Some(s)
            } else {
                Some(b)
            },
            None => Some(s),
        }
    }
}

/// For one spoken word, its best similarity to a command word when that is
/// above 70%, else none.
pub open spec fn word_overlap_entry(w: Seq<char>, ws: Seq<Seq<char>>) -> Option<Similarity> {
    match best_similarity(w, ws) {
        Some(b) => if b.above(70) {
            Some(b)
        } else {
            None
        },
        None => None,
    }
}

/// For each spoken word, its best similarity to one of the command phrase's
/// words when that exceeds 70%; the word-overlap score sums these.
pub fn word_overlap_matches(input_words: &[Vec<char>], cmd_words: &[Vec<char>]) -> (r: Vec<
    Option<Similarity>,
>)
    ensures
        r@.len() == input_words@.len(),
        forall|i: int|
            0 <= i < r@.len() ==> #[trigger] r@[i] == word_overlap_entry(
                input_words@[i]@,
                words_view(cmd_words@),
            ),
{
    let ghost cv = words_view(cmd_words@);
    let mut r: Vec<Option<Similarity>> = Vec::new();
    for i in 0..input_words.len()
        invariant
            cv == words_view(cmd_words@),
            r@.len() == i,
            forall|k: int|
                0 <= k < i ==> #[trigger] r@[k] == word_overlap_entry(input_words@[k]@, cv),
    {
        let w = &input_words[i];
        let mut best: Option<Similarity> = None;
        for j in 0..cmd_words.len()
            invariant
                cv == words_view(cmd_words@),
                best == best_similarity(w@, cv.take(j as int)),
                best matches Some(b) ==> b.wf(),
        {
            assert(cv.take(j + 1).drop_last() =~= cv.take(j as int));
            assert(cv.take(j + 1).last() == cmd_words@[j as int]@);
            let s = similarity(w, &cmd_words[j]);
            best = match best {
                Some(b) => if similarity_less(b, s) {
                    Some(s)
                } else {
                    Some(b)
                },
                None => Some(s),
            };
        }
        assert(cv.take(cmd_words@.len() as int) =~= cv);
        let entry = match best {
            Some(b) => if similarity_above(b, 70) {
                Some(b)
            } else {
                None
            },
            None => None,
        };
        r.push(entry);
    }
    r
}

/// The position of the first score of at least `perfect`.
pub open spec fn first_perfect(scores: Seq<u64>, perfect: u64) -> Option<int>
    decreases scores.len(),
{
    if scores.len() == 0 {
        None
    } else {
        match first_perfect(scores.drop_last(), perfect) {
            Some(i) => Some(i),
            None => if scores.last() >= perfect {
                Some(scores.len() - 1)
            } else {
                None
            },
        }
    }
}

/// The position of the first highest score above `threshold`.
pub open spec fn first_best_above(scores: Seq<u64>, threshold: u64) -> Option<int>
    decreases scores.len(),
{
    if scores.len() == 0 {
        None
    } else {
        let prev = first_best_above(scores.drop_last(), threshold);
        let bar = match prev {
            Some(i) => scores[i],
            None => threshold,
        };
        if scores.last() > bar {
            Some(scores.len() - 1)
        } else {
            prev
        }
    }
}

/// The candidate chosen among scored candidates: the first with a perfect
/// score, else the first with the highest score above the threshold.
pub open spec fn chosen_candidate(scores: Seq<u64>, threshold: u64, perfect: u64) -> Option<int> {
    match first_perfect(scores, perfect) {
        Some(i) => Some(i),
        None => first_best_above(scores, threshold),
    }
}

/// A chosen candidate scores above the threshold or reaches `perfect`.
proof fn lemma_chosen_scores(scores: Seq<u64>, threshold: u64, perfect: u64)
    ensures
        first_perfect(scores, perfect) matches Some(i) ==> 0 <= i < scores.len() && scores[i]
            >= perfect,
        first_best_above(scores, threshold) matches Some(i) ==> 0 <= i < scores.len() && scores[i]
            > threshold,
    decreases scores.len(),
{
    if scores.len() > 0 {
        lemma_chosen_scores(scores.drop_last(), threshold, perfect);
    }
}

/// Chooses among the candidate phrases, scored in order: the first whose
/// score reaches `perfect` wins at once; otherwise the first with the highest
/// score above `threshold`, if any. Scores are compared as integers that
/// order them as the scores themselves are ordered.
pub fn pick_command_match(scores: &[u64], threshold: u64, perfect: u64) -> (r: Option<usize>)
    ensures
        r matches Some(i) ==> i < scores@.len(),
        (match r {
            Some(i) => Some(i as int),
            None => None,
        }) == chosen_candidate(scores@, threshold, perfect),
        r matches Some(i) ==> scores@[i as int] >= perfect || scores@[i as int] > threshold,
{
    proof {
        lemma_chosen_scores(scores@, threshold, perfect);
    }
    let mut best = threshold;
    let mut result: Option<usize> = None;
    for i in 0..scores.len()
        invariant
            first_perfect(scores@.take(i as int), perfect) is None,
            (match result {
                Some(k) => Some(k as int),
                None => None,
            }) == first_best_above(scores@.take(i as int), threshold),
            result matches Some(k) ==> k < i && best == scores@[k as int],
            result is None ==> best == threshold,
    {
        assert(scores@.take(i + 1).drop_last() =~= scores@.take(i as int));
        assert(scores@.take(i + 1).last() == scores@[i as int]);
        let s = scores[i];
        if s >= perfect {
            proof {
                lemma_first_perfect_prefix(scores@, perfect, i + 1);
            }
            return Some(i);
        }
        if s > best {
            best = s;
            result = Some(i);
        }
    }
    assert(scores@.take(scores@.len() as int) =~= scores@);
    result
}

proof fn lemma_first_perfect_prefix(s: Seq<u64>, perfect: u64, m: int)
    requires
        0 <= m <= s.len(),
        first_perfect(s.take(m), perfect) is Some,
    ensures
        first_perfect(s, perfect) == first_perfect(s.take(m), perfect),
    decreases s.len() - m,
{
    if m < s.len() {
        assert(s.take(m + 1).drop_last() =~= s.take(m));
        lemma_first_perfect_prefix(s, perfect, m + 1);
    } else {
        assert(s.take(m) =~= s);
    }
}

/// Spoken word lists holding the same words hear the same command words.
proof fn lemma_count_heard_same_words(i1: Seq<Seq<char>>, i2: Seq<Seq<char>>, ws: Seq<Seq<char>>)
    requires
        i1.to_set() == i2.to_set(),
    ensures
        count_heard(i1, ws) == count_heard(i2, ws),
    decreases ws.len(),
{
    if ws.len() > 0 {
        lemma_count_heard_same_words(i1, i2, ws.drop_last());
        let w = ws.last();
        assert(word_heard(i1, w) == word_heard(i2, w)) by {
            if word_heard(i1, w) {
                let i = choose|i: int| 0 <= i < i1.len() && #[trigger] similarity_spec(i1[i], w).above(75);
                assert(i1.to_set().contains(i1[i]));
                assert(i2.contains(i1[i]));
                let j = choose|j: int| 0 <= j < i2.len() && i2[j] == i1[i];
                assert(similarity_spec(i2[j], w).above(75));
            }
            if word_heard(i2, w) {
                let j = choose|j: int| 0 <= j < i2.len() && #[trigger] similarity_spec(i2[j], w).above(75);
                assert(i2.to_set().contains(i2[j]));
                assert(i1.contains(i2[j]));
                let i = choose|i: int| 0 <= i < i1.len() && i1[i] == i2[j];
                assert(similarity_spec(i1[i], w).above(75));
            }
        }
    }
}

/// Law: the order in which words were spoken, and how often each was, does
/// not matter to a template match: spoken word lists that hold the same
/// words (a permutation of one another, for one) give the same outcome.
pub proof fn lemma_template_ignores_word_order(
    i1: Seq<Seq<char>>,
    i2: Seq<Seq<char>>,
    cmd: Seq<Seq<char>>,
)
    requires
        i1.to_set() == i2.to_set(),
    ensures
        template_outcome(i1, cmd) == template_outcome(i2, cmd),
{
    lemma_count_heard_same_words(i1, i2, static_words(cmd));
    if i1.len() > 0 {
        assert(i1.to_set().contains(i1[0]));
        assert(i2.contains(i1[0]));
    }
    if i2.len() > 0 {
        assert(i2.to_set().contains(i2[0]));
        assert(i1.contains(i2[0]));
    }
}

/// More spoken words hear at least as many command words.
proof fn lemma_count_heard_grows(i1: Seq<Seq<char>>, i2: Seq<Seq<char>>, ws: Seq<Seq<char>>)
    ensures
        count_heard(i1, ws) <= count_heard(i1 + i2, ws),
    decreases ws.len(),
{
    if ws.len() > 0 {
        lemma_count_heard_grows(i1, i2, ws.drop_last());
        let w = ws.last();
        if word_heard(i1, w) {
            let i = choose|i: int| 0 <= i < i1.len() && #[trigger] similarity_spec(i1[i], w).above(75);
            assert((i1 + i2)[i] == i1[i]);
            assert(similarity_spec((i1 + i2)[i], w).above(75));
        }
    }
}

/// Law: saying more words never lowers a template match. Where the words
/// `i1` match the command phrase `cmd`, the words `i1` followed by `i2` match
/// it too, with at least as many of its words heard out of the same number.
/// (The phrase is one that fits in memory: no more words than a `usize` counts.)
pub proof fn lemma_template_more_words(i1: Seq<Seq<char>>, i2: Seq<Seq<char>>, cmd: Seq<Seq<char>>)
    requires
        cmd.len() <= usize::MAX,
    ensures
        template_outcome(i1, cmd) matches Some(m1) ==> (template_outcome(i1 + i2, cmd) matches Some(
            m2,
        ) && m2.static_words == m1.static_words && m2.matched >= m1.matched),
{
    let st = static_words(cmd);
    lemma_count_heard_grows(i1, i2, st);
    lemma_count_heard_bounded(i1, st);
    lemma_count_heard_bounded(i1 + i2, st);
    lemma_static_words_bounded(cmd);
}

/// A phrase has no more non-placeholder words than words.
proof fn lemma_static_words_bounded(ws: Seq<Seq<char>>)
    ensures
        static_words(ws).len() <= ws.len(),
    decreases ws.len(),
{
    if ws.len() > 0 {
        lemma_static_words_bounded(ws.drop_last());
    }
}

/// No more words are heard than there are.
proof fn lemma_count_heard_bounded(inputs: Seq<Seq<char>>, ws: Seq<Seq<char>>)
    ensures
        count_heard(inputs, ws) <= ws.len(),
    decreases ws.len(),
{
    if ws.len() > 0 {
        lemma_count_heard_bounded(inputs, ws.drop_last());
    }
}

/// The non-placeholder words are the words that do not both start with '{'
/// and end with '}'.
proof fn lemma_static_words_filter(ws: Seq<Seq<char>>)
    ensures
        static_words(ws) == ws.filter(|w: Seq<char>| !(w.len() > 0 && w[0] == '{' && w.last() == '}')),
    decreases ws.len(),
{
    reveal(Seq::filter);
    if ws.len() > 0 {
        lemma_static_words_filter(ws.drop_last());
    }
}

/// The heard words are those to which some input word is more than 75%
/// similar.
proof fn lemma_count_heard_filter(inputs: Seq<Seq<char>>, ws: Seq<Seq<char>>)
    ensures
        count_heard(inputs, ws) == ws.filter(
            |w: Seq<char>|
                exists|i: int| 0 <= i < inputs.len() && #[trigger] similarity_spec(inputs[i], w).above(75),
        ).len(),
    decreases ws.len(),
{
    reveal(Seq::filter);
    if ws.len() > 0 {
        lemma_count_heard_filter(inputs, ws.drop_last());
    }
}

/// Law: the outcome of a template match, in terms of the words alone. With
/// `st` the command words that are not placeholders (a placeholder starts
/// with '{' and ends with '}') and `m` the number of them to which some spoken
/// word is more than 75% similar: there is no outcome when the phrase has no
/// placeholder, no other word, or nothing was said, or when fewer than 80% of
/// `st` were heard; else the outcome is `m` out of `st`. A match therefore
/// always has at least 80% of its words heard.
pub proof fn lemma_template_outcome_by_words(inputs: Seq<Seq<char>>, cmd: Seq<Seq<char>>)
    ensures
        ({
            let st = cmd.filter(|w: Seq<char>| !(w.len() > 0 && w[0] == '{' && w.last() == '}'));
            let m = st.filter(
                |w: Seq<char>|
                    exists|i: int|
                        0 <= i < inputs.len() && #[trigger] similarity_spec(inputs[i], w).above(75),
            ).len();
            template_outcome(inputs, cmd) == if st.len() == cmd.len() || st.len() == 0 || inputs.len()
                == 0 {
                None
            } else if 100 * m >= 80 * st.len() {
                Some(TemplateMatch { matched: m as usize, static_words: st.len() as usize })
            } else {
                None
            }
        }),
        cmd.len() <= usize::MAX ==> (template_outcome(inputs, cmd) matches Some(t) ==> 100 * t.matched
            >= 80 * t.static_words && t.matched <= t.static_words && 0 < t.static_words < cmd.len()
            && inputs.len() > 0),
{
    lemma_static_words_filter(cmd);
    lemma_count_heard_filter(inputs, static_words(cmd));
    lemma_count_heard_bounded(inputs, static_words(cmd));
    lemma_static_words_bounded(cmd);
}

/// Similarities compare as fractions: being no larger is transitive.
proof fn lemma_not_less_trans(a: Similarity, b: Similarity, c: Similarity)
    requires
        !b.less_than(a),
        !c.less_than(b),
    ensures
        !c.less_than(a),
{
    let (an, ad, bn, bd, cn, cd) = (a.num(), a.den(), b.num(), b.den(), c.num(), c.den());
    assert(ad > 0 && bd > 0 && cd > 0);
    assert(an * cd <= cn * ad) by (nonlinear_arith)
        requires
            an * bd <= bn * ad,
            bn * cd <= cn * bd,
            ad > 0,
            bd > 0,
            cd > 0,
    {
        assert(an * bd * cd <= bn * ad * cd);
        assert(bn * cd * ad <= cn * bd * ad);
    }
}

/// A similarity no larger than one at most 70% is at most 70%.
proof fn lemma_not_above_below(a: Similarity, b: Similarity)
    requires
        !b.less_than(a),
        100 * b.num() <= 70 * b.den(),
    ensures
        100 * a.num() <= 70 * a.den(),
{
    let (an, ad, bn, bd) = (a.num(), a.den(), b.num(), b.den());
    assert(ad > 0 && bd > 0);
    assert(100 * an <= 70 * ad) by (nonlinear_arith)
        requires
            an * bd <= bn * ad,
            100 * bn <= 70 * bd,
            ad > 0,
            bd > 0,
    {
        assert(100 * an * bd <= 100 * bn * ad);
        assert(100 * bn * ad <= 70 * bd * ad);
    }
}

/// The best similarity is one of the similarities and none is larger.
proof fn lemma_best_similarity_max(w: Seq<char>, ws: Seq<Seq<char>>)
    ensures
        ws.len() == 0 <==> best_similarity(w, ws) is None,
        best_similarity(w, ws) matches Some(b) ==> (exists|k: int|
            0 <= k < ws.len() && b == similarity_spec(w, #[trigger] ws[k])) && forall|k: int|
            0 <= k < ws.len() ==> !b.less_than(similarity_spec(w, #[trigger] ws[k])),
    decreases ws.len(),
{
    if ws.len() > 0 {
        let d = ws.drop_last();
        lemma_best_similarity_max(w, d);
        let sl = similarity_spec(w, ws.last());
        assert(ws[ws.len() - 1] == ws.last());
        match best_similarity(w, d) {
            Some(b0) => {
                let k0 = choose|k: int| 0 <= k < d.len() && b0 == similarity_spec(w, #[trigger] d[k]);
                assert(ws[k0] == d[k0]);
                if b0.less_than(sl) {
                    assert forall|k: int| 0 <= k < ws.len() implies !sl.less_than(
                        similarity_spec(w, #[trigger] ws[k]),
                    ) by {
                        if k < d.len() {
                            assert(ws[k] == d[k]);
                            assert(!b0.less_than(similarity_spec(w, d[k])));
                            assert(!sl.less_than(b0)) by (nonlinear_arith)
                                requires
                                    b0.num() * sl.den() < sl.num() * b0.den(),
                            {
                            }
                            lemma_not_less_trans(similarity_spec(w, d[k]), b0, sl);
                        } else {
                            assert(!sl.less_than(sl)) by (nonlinear_arith);
                        }
                    }
                } else {
                    assert forall|k: int| 0 <= k < ws.len() implies !b0.less_than(
                        similarity_spec(w, #[trigger] ws[k]),
                    ) by {
                        if k < d.len() {
                            assert(ws[k] == d[k]);
                        }
                    }
                }
            },
            None => {
                assert(d.len() == 0);
                assert(!sl.less_than(sl)) by (nonlinear_arith);
            },
        }
    }
}

/// Law: a spoken word counts towards the word-overlap score with its best
/// similarity to a command word, and only when that similarity is above 70
/// percent: an entry is one of its similarities, above 70%, with none
/// larger; there is no entry exactly when no command word is more than 70%
/// similar to it.
pub proof fn lemma_word_overlap_entry_by_threshold(w: Seq<char>, ws: Seq<Seq<char>>)
    ensures
        word_overlap_entry(w, ws) matches Some(b) ==> 100 * b.num() > 70 * b.den() && (exists|k: int|
            0 <= k < ws.len() && b == similarity_spec(w, #[trigger] ws[k])) && forall|k: int|
            0 <= k < ws.len() ==> !b.less_than(similarity_spec(w, #[trigger] ws[k])),
        word_overlap_entry(w, ws) is None <==> forall|k: int|
            0 <= k < ws.len() ==> 100 * similarity_spec(w, #[trigger] ws[k]).num() <= 70
                * similarity_spec(w, ws[k]).den(),
{
    lemma_best_similarity_max(w, ws);
    match best_similarity(w, ws) {
        Some(b) => {
            if 100 * b.num() <= 70 * b.den() {
                assert forall|k: int| 0 <= k < ws.len() implies 100 * similarity_spec(
                    w,
                    #[trigger] ws[k],
                ).num() <= 70 * similarity_spec(w, ws[k]).den() by {
                    lemma_not_above_below(similarity_spec(w, ws[k]), b);
                }
            } else {
                let k = choose|k: int| 0 <= k < ws.len() && b == similarity_spec(w, #[trigger] ws[k]);
                assert(!(100 * similarity_spec(w, ws[k]).num() <= 70 * similarity_spec(w, ws[k]).den()));
            }
        },
        None => {},
    }
}

} // verus!
