//! The BPE trainer: splits a corpus into words, initializes the vocabulary
//! from the symbols in first-appearance order, and repeatedly folds the
//! most frequent adjacent symbol pair (ties broken lexicographically) into
//! a new symbol, up to a requested merge count.

use vstd::prelude::*;
use vstd::string::StrSliceExecFns;
use vstd::string::StringExecFns;
use crate::chars::is_ws;
use crate::chars::is_ws_char;
use crate::chars::lex_lt;
use crate::chars::lemma_lex_lt_irrefl;
use crate::chars::lemma_lex_lt_total;
use crate::chars::lemma_lex_lt_trans;
use crate::chars::str_lex_lt;
use crate::errors::TokenizerError;
use crate::model::add_symbol_if_new;
use crate::model::BpeModel;
use crate::reduce::apply_merges;
use crate::reduce::reduce;
use crate::symbols::eow;
use crate::symbols::eow_string;

verus! {

// ---------------------------------------------------------------------
// Words of a corpus
// ---------------------------------------------------------------------
/// The symbols of one word: one symbol per codepoint, then the marker.
pub open spec fn word_syms(w: Seq<char>) -> Seq<Seq<char>> {
    Seq::new(w.len(), |i: int| seq![w[i]]).push(eow())
}

/// The length of the maximal non-whitespace prefix.
pub open spec fn word_len_prefix(s: Seq<char>) -> nat
    decreases s.len(),
{
    if s.len() == 0 || is_ws(s[0]) {
        0
    } else {
        1 + word_len_prefix(s.drop_first())
    }
}

/// The non-whitespace prefix is no longer than the text.
pub proof fn lemma_word_len_le(s: Seq<char>)
    ensures
        word_len_prefix(s) <= s.len(),
    decreases s.len(),
{
    if s.len() > 0 && !is_ws(s[0]) {
        lemma_word_len_le(s.drop_first());
    }
}

/// The corpus split on whitespace, each word turned into its symbols.
pub open spec fn spec_words(s: Seq<char>) -> Seq<Seq<Seq<char>>>
    decreases s.len(),
{
    if s.len() == 0 {
        Seq::empty()
    } else if is_ws(s[0]) {
        spec_words(s.drop_first())
    } else {
        let wl = word_len_prefix(s) as int;
        proof {
            lemma_word_len_le(s);
        }
        seq![word_syms(s.take(wl))] + spec_words(s.skip(wl))
    }
}

// ---------------------------------------------------------------------
// Counting adjacent pairs
// ---------------------------------------------------------------------
/// The number of adjacent positions in one word.
pub open spec fn adj_count(w: Seq<Seq<char>>) -> nat {
    if w.len() == 0 {
        0
    } else {
        (w.len() - 1) as nat
    }
}

/// The number of adjacent positions across all words.
pub open spec fn total_adj(words: Seq<Seq<Seq<char>>>) -> nat
    decreases words.len(),
{
    if words.len() == 0 {
        0
    } else {
        adj_count(words[0]) + total_adj(words.drop_first())
    }
}

/// The number of (possibly overlapping) adjacent occurrences of a pair in
/// one word.
pub open spec fn count_in_word(w: Seq<Seq<char>>, p: (Seq<char>, Seq<char>)) -> nat
    decreases w.len(),
{
    if w.len() < 2 {
        0
    } else {
        (if w[0] == p.0 && w[1] == p.1 {
            1nat
        } else {
            0nat
        }) + count_in_word(w.drop_first(), p)
    }
}

/// The frequency of an adjacent pair across all words.
pub open spec fn pair_count(words: Seq<Seq<Seq<char>>>, p: (Seq<char>, Seq<char>)) -> nat
    decreases words.len(),
{
    if words.len() == 0 {
        0
    } else {
        count_in_word(words[0], p) + pair_count(words.drop_first(), p)
    }
}

/// Whether any word still has an adjacent pair at all.
pub open spec fn has_pair(words: Seq<Seq<Seq<char>>>) -> bool {
    exists|i: int| 0 <= i < words.len() && words[i].len() >= 2
}

/// A pair occurs in a word at most once per adjacent position.
pub proof fn lemma_ciw_le_adj(w: Seq<Seq<char>>, p: (Seq<char>, Seq<char>))
    ensures
        count_in_word(w, p) <= adj_count(w),
    decreases w.len(),
{
    if w.len() >= 2 {
        lemma_ciw_le_adj(w.drop_first(), p);
    }
}

/// A pair's frequency is bounded by the number of adjacent positions.
pub proof fn lemma_pc_le_total(words: Seq<Seq<Seq<char>>>, p: (Seq<char>, Seq<char>))
    ensures
        pair_count(words, p) <= total_adj(words),
    decreases words.len(),
{
    if words.len() > 0 {
        lemma_ciw_le_adj(words[0], p);
        lemma_pc_le_total(words.drop_first(), p);
    }
}

/// Counting over a prefix of a word never exceeds counting over the word.
pub proof fn lemma_ciw_take_le(w: Seq<Seq<char>>, p: (Seq<char>, Seq<char>), m: int)
    requires
        0 <= m <= w.len(),
    ensures
        count_in_word(w.take(m), p) <= count_in_word(w, p),
    decreases m,
{
    if m < 2 {
    } else {
        assert(w.take(m).drop_first() =~= w.drop_first().take(m - 1));
        assert(w.take(m)[0] == w[0] && w.take(m)[1] == w[1]);
        lemma_ciw_take_le(w.drop_first(), p, m - 1);
    }
}

/// Extending the counted prefix by one position adds exactly that
/// position's match.
pub proof fn lemma_ciw_take_step(w: Seq<Seq<char>>, p: (Seq<char>, Seq<char>), s: int)
    requires
        0 <= s,
        s + 1 < w.len(),
    ensures
        count_in_word(w.take(s + 2), p) == count_in_word(w.take(s + 1), p) + (if w[s] == p.0
            && w[s + 1] == p.1 {
            1nat
        } else {
            0nat
        }),
    decreases s,
{
    if s == 0 {
        assert(w.take(2)[0] == w[0] && w.take(2)[1] == w[1]);
        assert(w.take(2).drop_first() =~= w.drop_first().take(1));
        assert(count_in_word(w.drop_first().take(1), p) == 0);
        assert(count_in_word(w.take(1), p) == 0);
    } else {
        assert(w.take(s + 2).drop_first() =~= w.drop_first().take(s + 1));
        assert(w.take(s + 1).drop_first() =~= w.drop_first().take(s));
        assert(w.take(s + 2)[0] == w[0] && w.take(s + 1)[0] == w[0]);
        if w.take(s + 2).len() >= 2 {
            assert(w.take(s + 2)[1] == w[1]);
        }
        if w.take(s + 1).len() >= 2 {
            assert(w.take(s + 1)[1] == w[1]);
        }
        lemma_ciw_take_step(w.drop_first(), p, s - 1);
        assert(w.drop_first()[s - 1] == w[s] && w.drop_first()[s] == w[s + 1]);
    }
}

/// Adding the next whole word to the counted prefix adds that word's count.
pub proof fn lemma_pc_take_snoc(words: Seq<Seq<Seq<char>>>, p: (Seq<char>, Seq<char>), n: int)
    requires
        0 <= n < words.len(),
    ensures
        pair_count(words.take(n + 1), p) == pair_count(words.take(n), p) + count_in_word(
            words[n],
            p,
        ),
    decreases n,
{
    if n == 0 {
        assert(words.take(1)[0] == words[0]);
        assert(words.take(1).drop_first() =~= words.drop_first().take(0));
        assert(pair_count(words.take(1).drop_first(), p) == 0);
        assert(pair_count(words.take(0), p) == 0);
    } else {
        assert(words.take(n + 1).drop_first() =~= words.drop_first().take(n));
        assert(words.take(n).drop_first() =~= words.drop_first().take(n - 1));
        assert(words.take(n + 1)[0] == words[0] && words.take(n)[0] == words[0]);
        lemma_pc_take_snoc(words.drop_first(), p, n - 1);
        assert(words.drop_first()[n - 1] == words[n]);
    }
}

/// Counting over a prefix of the words never exceeds the full count.
pub proof fn lemma_pc_take_le(words: Seq<Seq<Seq<char>>>, p: (Seq<char>, Seq<char>), n: int)
    requires
        0 <= n <= words.len(),
    ensures
        pair_count(words.take(n), p) <= pair_count(words, p),
    decreases n,
{
    if n == 0 {
        assert(pair_count(words.take(0), p) == 0);
    } else {
        assert(words.take(n).drop_first() =~= words.drop_first().take(n - 1));
        assert(words.take(n)[0] == words[0]);
        lemma_pc_take_le(words.drop_first(), p, n - 1);
    }
}

/// A pair with a positive frequency certifies that some word still has an
/// adjacent pair.
pub proof fn lemma_pc_pos_has_pair(words: Seq<Seq<Seq<char>>>, p: (Seq<char>, Seq<char>))
    requires
        pair_count(words, p) >= 1,
    ensures
        has_pair(words),
    decreases words.len(),
{
    if words.len() > 0 {
        if count_in_word(words[0], p) >= 1 {
            assert(words[0].len() >= 2);
        } else {
            lemma_pc_pos_has_pair(words.drop_first(), p);
            let i = choose|i: int| 0 <= i < words.drop_first().len() && words.drop_first()[
                i
            ].len() >= 2;
            assert(words[i + 1].len() >= 2);
        }
    }
}

/// The whole count is at least any single word's count.
pub proof fn lemma_pc_ge_word(words: Seq<Seq<Seq<char>>>, p: (Seq<char>, Seq<char>), i: int)
    requires
        0 <= i < words.len(),
    ensures
        pair_count(words, p) >= count_in_word(words[i], p),
    decreases i,
{
    if i > 0 {
        lemma_pc_ge_word(words.drop_first(), p, i - 1);
        assert(words.drop_first()[i - 1] == words[i]);
    }
}

// ---------------------------------------------------------------------
// The order on pairs used to break frequency ties
// ---------------------------------------------------------------------
/// The tie-breaking order: by the concatenated pair lexicographically,
/// then by the left component.
pub open spec fn pair_lt(p: (Seq<char>, Seq<char>), q: (Seq<char>, Seq<char>)) -> bool {
    lex_lt(p.0 + p.1, q.0 + q.1) || (p.0 + p.1 == q.0 + q.1 && lex_lt(p.0, q.0))
}

/// The tie-breaking order is irreflexive.
pub proof fn lemma_pair_lt_irrefl(p: (Seq<char>, Seq<char>))
    ensures
        !pair_lt(p, p),
{
    lemma_lex_lt_irrefl(p.0 + p.1);
    lemma_lex_lt_irrefl(p.0);
}

/// The tie-breaking order is transitive.
pub proof fn lemma_pair_lt_trans(
    p: (Seq<char>, Seq<char>),
    q: (Seq<char>, Seq<char>),
    r: (Seq<char>, Seq<char>),
)
    requires
        pair_lt(p, q),
        pair_lt(q, r),
    ensures
        pair_lt(p, r),
{
    if lex_lt(p.0 + p.1, q.0 + q.1) && lex_lt(q.0 + q.1, r.0 + r.1) {
        lemma_lex_lt_trans(p.0 + p.1, q.0 + q.1, r.0 + r.1);
    } else if p.0 + p.1 == q.0 + q.1 && q.0 + q.1 == r.0 + r.1 {
        lemma_lex_lt_trans(p.0, q.0, r.0);
    }
}

/// Any two distinct pairs are ordered one way or the other.
pub proof fn lemma_pair_lt_total(p: (Seq<char>, Seq<char>), q: (Seq<char>, Seq<char>))
    ensures
        p == q || pair_lt(p, q) || pair_lt(q, p),
{
    lemma_lex_lt_total(p.0 + p.1, q.0 + q.1);
    if p.0 + p.1 == q.0 + q.1 {
        lemma_lex_lt_total(p.0, q.0);
        if p.0 == q.0 {
            assert((p.0 + p.1).len() == p.0.len() + p.1.len());
            assert((q.0 + q.1).len() == q.0.len() + q.1.len());
            assert(p.1.len() == q.1.len());
            assert forall|i: int| 0 <= i < p.1.len() implies p.1[i] == q.1[i] by {
                assert((p.0 + p.1)[p.0.len() + i] == p.1[i]);
                assert((q.0 + q.1)[q.0.len() + i] == q.1[i]);
            }
            assert(p.1 =~= q.1);
            assert(p == (p.0, p.1));
            assert(q == (q.0, q.1));
        }
    }
}

/// The best pair: frequency at least one, no pair more frequent, and
/// first in the tie-breaking order among the equally frequent.
pub open spec fn is_best_pair(words: Seq<Seq<Seq<char>>>, p: (Seq<char>, Seq<char>)) -> bool {
    &&& pair_count(words, p) >= 1
    &&& forall|q: (Seq<char>, Seq<char>)|
        pair_count(words, q) >= 1 && q != p ==> (pair_count(words, q) < pair_count(words, p) || (
        pair_count(words, q) == pair_count(words, p) && pair_lt(p, q)))
}

/// At most one pair is best.
pub proof fn lemma_is_best_unique(
    words: Seq<Seq<Seq<char>>>,
    p: (Seq<char>, Seq<char>),
    q: (Seq<char>, Seq<char>),
)
    requires
        is_best_pair(words, p),
        is_best_pair(words, q),
    ensures
        p == q,
{
    if p != q {
        assert(pair_count(words, p) == pair_count(words, q));
        assert(pair_lt(p, q));
        assert(pair_lt(q, p));
        lemma_pair_lt_trans(p, q, p);
        lemma_pair_lt_irrefl(p);
    }
}

/// The pair that training selects at one step.
pub open spec fn best_pair(words: Seq<Seq<Seq<char>>>) -> (Seq<char>, Seq<char>) {
    choose|p: (Seq<char>, Seq<char>)| is_best_pair(words, p)
}

// ---------------------------------------------------------------------
// The training recursion
// ---------------------------------------------------------------------
/// One word after all occurrences of the selected pair are folded,
/// rescanning from the start after each replacement.
pub open spec fn merge_word(w: Seq<Seq<char>>, p: (Seq<char>, Seq<char>)) -> Seq<Seq<char>> {
    reduce(seq![p], w)
}

/// Every word after the selected pair is folded.
pub open spec fn merge_all(words: Seq<Seq<Seq<char>>>, p: (Seq<char>, Seq<char>)) -> Seq<
    Seq<Seq<char>>,
> {
    Seq::new(words.len(), |i: int| merge_word(words[i], p))
}

/// The merge rules that training learns: up to `fuel` rules, stopping
/// early when no adjacent pair is left.
pub open spec fn train_merges(words: Seq<Seq<Seq<char>>>, fuel: nat) -> Seq<(Seq<char>, Seq<char>)>
    decreases fuel,
{
    if fuel == 0 || !has_pair(words) {
        Seq::empty()
    } else {
        let p = best_pair(words);
        seq![p] + train_merges(merge_all(words, p), (fuel - 1) as nat)
    }
}

/// Training learns at most as many rules as it has fuel, and none when no
/// pair exists.
pub proof fn lemma_train_merges_len(words: Seq<Seq<Seq<char>>>, fuel: nat)
    ensures
        train_merges(words, fuel).len() <= fuel,
        !has_pair(words) ==> train_merges(words, fuel).len() == 0,
    decreases fuel,
{
    if fuel > 0 && has_pair(words) {
        lemma_train_merges_len(merge_all(words, best_pair(words)), (fuel - 1) as nat);
    }
}

// ---------------------------------------------------------------------
// The vocabulary that training builds
// ---------------------------------------------------------------------
/// Registers each symbol of a word in first-appearance order.
pub open spec fn add_unique(acc: Seq<Seq<char>>, syms: Seq<Seq<char>>) -> Seq<Seq<char>>
    decreases syms.len(),
{
    if syms.len() == 0 {
        acc
    } else {
        add_unique(add_symbol_if_new(acc, syms[0]), syms.drop_first())
    }
}

/// Registers each word's symbols in first-appearance order.
pub open spec fn add_unique_words(acc: Seq<Seq<char>>, words: Seq<Seq<Seq<char>>>) -> Seq<
    Seq<char>,
>
    decreases words.len(),
{
    if words.len() == 0 {
        acc
    } else {
        add_unique_words(add_unique(acc, words[0]), words.drop_first())
    }
}

/// The initial vocabulary of a word list.
pub open spec fn init_vocab(words: Seq<Seq<Seq<char>>>) -> Seq<Seq<char>> {
    add_unique_words(Seq::empty(), words)
}

/// Registers the concatenated symbol of each merge rule in learn order.
pub open spec fn add_merges_vocab(
    vocab: Seq<Seq<char>>,
    merges: Seq<(Seq<char>, Seq<char>)>,
) -> Seq<Seq<char>>
    decreases merges.len(),
{
    if merges.len() == 0 {
        vocab
    } else {
        add_merges_vocab(add_symbol_if_new(vocab, merges[0].0 + merges[0].1), merges.drop_first())
    }
}

/// Registering one more rule's symbol at the end.
pub proof fn lemma_amv_snoc(
    vocab: Seq<Seq<char>>,
    merges: Seq<(Seq<char>, Seq<char>)>,
    p: (Seq<char>, Seq<char>),
)
    ensures
        add_merges_vocab(vocab, merges.push(p)) == add_symbol_if_new(
            add_merges_vocab(vocab, merges),
            p.0 + p.1,
        ),
    decreases merges.len(),
{
    if merges.len() == 0 {
        assert(merges.push(p)[0] == p);
        assert(merges.push(p).drop_first() =~= Seq::<(Seq<char>, Seq<char>)>::empty());
        assert(add_merges_vocab(
            add_symbol_if_new(vocab, p.0 + p.1),
            Seq::<(Seq<char>, Seq<char>)>::empty(),
        ) == add_symbol_if_new(vocab, p.0 + p.1));
    } else {
        assert(merges.push(p)[0] == merges[0]);
        assert(merges.push(p).drop_first() =~= merges.drop_first().push(p));
        lemma_amv_snoc(add_symbol_if_new(vocab, merges[0].0 + merges[0].1), merges.drop_first(), p);
    }
}

/// The merge rules learned from a corpus with a given merge budget.
pub open spec fn spec_train_merges(corpus: Seq<char>, n: nat) -> Seq<(Seq<char>, Seq<char>)> {
    train_merges(spec_words(corpus), n)
}

/// The vocabulary learned from a corpus with a given merge budget: the
/// corpus symbols in first-appearance order, then each merged symbol in
/// learn order.
pub open spec fn spec_train_vocab(corpus: Seq<char>, n: nat) -> Seq<Seq<char>> {
    add_merges_vocab(init_vocab(spec_words(corpus)), spec_train_merges(corpus, n))
}

// ---------------------------------------------------------------------
// Supporting lemmas for the executable trainer
// ---------------------------------------------------------------------
/// A stretch of non-whitespace characters closed off by whitespace or the
/// end is exactly the word prefix of its suffix.
pub proof fn lemma_word_len_window(s: Seq<char>, i: int, j: int)
    requires
        0 <= i <= j <= s.len(),
        forall|k: int| i <= k < j ==> !is_ws(s[k]),
        j < s.len() ==> is_ws(s[j]),
    ensures
        word_len_prefix(s.skip(i)) == j - i,
    decreases j - i,
{
    let t = s.skip(i);
    if i == j {
        if j < s.len() {
            assert(t[0] == s[i]);
        }
    } else {
        assert(t[0] == s[i]);
        assert(!is_ws(t[0]));
        assert(t.drop_first() =~= s.skip(i + 1));
        lemma_word_len_window(s, i + 1, j);
    }
}

/// The words of a corpus have no more adjacent positions than the corpus
/// has characters.
pub proof fn lemma_total_adj_spec_words(s: Seq<char>)
    ensures
        total_adj(spec_words(s)) <= s.len(),
    decreases s.len(),
{
    if s.len() == 0 {
    } else if is_ws(s[0]) {
        lemma_total_adj_spec_words(s.drop_first());
    } else {
        let wl = word_len_prefix(s) as int;
        lemma_word_len_le(s);
        lemma_total_adj_spec_words(s.skip(wl));
        let w = word_syms(s.take(wl));
        let rest = spec_words(s.skip(wl));
        assert((seq![w] + rest).len() >= 1);
        assert((seq![w] + rest)[0] == w);
        assert((seq![w] + rest).drop_first() =~= rest);
        assert(total_adj(seq![w] + rest) == adj_count(w) + total_adj(rest));
        assert(adj_count(w) == wl);
        assert(word_len_prefix(s) >= 1);
        assert(s.skip(wl).len() == s.len() - wl);
    }
}

/// The total number of adjacent positions does not grow when every word
/// shrinks or stays.
pub proof fn lemma_total_adj_mono(a: Seq<Seq<Seq<char>>>, b: Seq<Seq<Seq<char>>>)
    requires
        a.len() == b.len(),
        forall|i: int| 0 <= i < a.len() ==> b[i].len() <= a[i].len(),
    ensures
        total_adj(b) <= total_adj(a),
    decreases a.len(),
{
    if a.len() > 0 {
        assert(forall|i: int|
            0 <= i < a.drop_first().len() ==> b.drop_first()[i] == b[i + 1] && a.drop_first()[i]
                == a[i + 1]);
        lemma_total_adj_mono(a.drop_first(), b.drop_first());
    }
}

// ---------------------------------------------------------------------
// The trainer
// ---------------------------------------------------------------------
/// A BPE trainer with a fixed merge budget.
pub struct BpeTrainer {
    /// How many merge rules to learn at most.
    pub num_merges: usize,
}

impl BpeTrainer {
    /// A trainer that will learn at most the given number of merges.
    pub fn new(num_merges: usize) -> (t: BpeTrainer)
        ensures
            t.num_merges == num_merges,
    {
        BpeTrainer { num_merges }
    }

    /// Splits the corpus on whitespace; each word becomes one symbol per
    /// codepoint plus the end-of-word marker.
    fn preprocess(&self, corpus: &str) -> (words: Vec<Vec<String>>)
        ensures
            words.deep_view() == spec_words(corpus@),
            total_adj(words.deep_view()) <= usize::MAX,
    {
        let n = corpus.unicode_len();
        let mut words: Vec<Vec<String>> = Vec::new();
        let mut i: usize = 0;
        proof {
            assert(corpus@.skip(0) =~= corpus@);
            assert(words.deep_view() =~= Seq::<Seq<Seq<char>>>::empty());
            assert(Seq::<Seq<Seq<char>>>::empty() + spec_words(corpus@) =~= spec_words(corpus@));
        }
        while i < n
            invariant
                i <= n,
                n == corpus@.len(),
                spec_words(corpus@) == words.deep_view() + spec_words(corpus@.skip(i as int)),
            decreases n - i,
        {
            let ghost rest = corpus@.skip(i as int);
            if is_ws_char(corpus.get_char(i)) {
                i = i + 1;
                proof {
                    assert(rest[0] == corpus@[i - 1]);
                    assert(rest.drop_first() =~= corpus@.skip(i as int));
                }
            } else {
                let mut j = i + 1;
                while j < n && !is_ws_char(corpus.get_char(j))
                    invariant
                        i < j <= n,
                        n == corpus@.len(),
                        forall|k: int| i <= k < j ==> !is_ws(corpus@[k]),
                    decreases n - j,
                {
                    j = j + 1;
                }
                proof {
                    lemma_word_len_window(corpus@, i as int, j as int);
                }
                let mut word: Vec<String> = Vec::new();
                let mut k = i;
                proof {
                    assert(word.deep_view() =~= Seq::<Seq<char>>::empty());
                }
                while k < j
                    invariant
                        i <= k <= j <= n,
                        n == corpus@.len(),
                        word.deep_view() =~= Seq::new((k - i) as nat, |t: int| seq![corpus@[i + t]]),
                    decreases j - k,
                {
                    let ghost wprev = word.deep_view();
                    let piece = corpus.substring_char(k, k + 1);
                    word.push(piece.to_owned());
                    proof {
                        assert(piece@ =~= seq![corpus@[k as int]]);
                        assert(word.deep_view() =~= wprev.push(piece@));
                        assert(word.deep_view() =~= Seq::new(
                            (k + 1 - i) as nat,
                            |t: int| seq![corpus@[i + t]],
                        ));
                    }
                    k = k + 1;
                }
                let ghost wpart = word.deep_view();
                word.push(eow_string());
                proof {
                    assert(word.deep_view() =~= wpart.push(eow()));
                    let wseq = corpus@.subrange(i as int, j as int);
                    assert(word.deep_view() =~= word_syms(wseq));
                }
                let ghost prevwords = words.deep_view();
                words.push(word);
                let ghost i0 = i as int;
                i = j;
                proof {
                    let wl = word_len_prefix(rest) as int;
                    assert(wl == j - i0);
                    assert(rest.take(wl) =~= corpus@.subrange(i0, j as int));
                    assert(rest.skip(wl) =~= corpus@.skip(i as int));
                    assert(!is_ws(rest[0]));
                    assert(spec_words(rest) == seq![word_syms(rest.take(wl))] + spec_words(
                        rest.skip(wl),
                    ));
                    assert(words.deep_view() =~= prevwords.push(word_syms(rest.take(wl))));
                    assert(spec_words(rest.skip(wl)) == spec_words(corpus@.skip(i as int)));
                    assert(words.deep_view() + spec_words(corpus@.skip(i as int))
                        =~= prevwords.push(word_syms(rest.take(wl))) + spec_words(rest.skip(wl)));
                    assert(prevwords.push(word_syms(rest.take(wl))) + spec_words(rest.skip(wl))
                        =~= prevwords + (seq![word_syms(rest.take(wl))] + spec_words(
                        rest.skip(wl),
                    )));
                    assert(words.deep_view() + spec_words(corpus@.skip(i as int))
                        =~= prevwords + spec_words(rest));
                }
            }
        }
        proof {
            assert(corpus@.skip(n as int).len() == 0);
            assert(spec_words(corpus@.skip(n as int)) =~= Seq::<Seq<Seq<char>>>::empty());
            assert(words.deep_view() =~= spec_words(corpus@));
            lemma_total_adj_spec_words(corpus@);
        }
        words
    }

    /// Registers every distinct symbol of the words in the model's
    /// vocabulary, in first-appearance order.
    fn initialize_vocab(&self, model: &mut BpeModel, words: &Vec<Vec<String>>) -> (r: Result<
        (),
        TokenizerError,
    >)
        ensures
            r is Ok,
            final(model).vocab_view() == add_unique_words(old(model).vocab_view(), words.deep_view()),
            final(model).merges == old(model).merges,
            old(model).wf() ==> final(model).wf(),
    {
        let ghost wdv = words.deep_view();
        let ghost target = add_unique_words(old(model).vocab_view(), wdv);
        let mut wi: usize = 0;
        proof {
            assert(wdv.skip(0) =~= wdv);
        }
        while wi < words.len()
            invariant
                wi <= words@.len(),
                wdv == words.deep_view(),
                target == add_unique_words(old(model).vocab_view(), wdv),
                add_unique_words(model.vocab_view(), wdv.skip(wi as int)) == target,
                model.merges == old(model).merges,
                old(model).wf() ==> model.wf(),
            decreases words@.len() - wi,
        {
            let ghost wrest = wdv.skip(wi as int);
            let ghost word = wdv[wi as int];
            proof {
                assert(wrest[0] == word);
                assert(wrest.drop_first() =~= wdv.skip(wi + 1));
                assert(word.skip(0) =~= word);
            }
            let mut si: usize = 0;
            while si < words[wi].len()
                invariant
                    wi < words@.len(),
                    si <= words@[wi as int]@.len(),
                    wdv == words.deep_view(),
                    word == wdv[wi as int],
                    word.len() == words@[wi as int]@.len(),
                    target == add_unique_words(old(model).vocab_view(), wdv),
                    add_unique_words(
                        add_unique(model.vocab_view(), word.skip(si as int)),
                        wdv.skip(wi + 1),
                    ) == target,
                    model.merges == old(model).merges,
                    old(model).wf() ==> model.wf(),
                decreases words@[wi as int]@.len() - si,
            {
                let ghost srest = word.skip(si as int);
                let sym = words[wi][si].clone();
                proof {
                    assert(word[si as int] == words@[wi as int]@[si as int]@);
                    assert(sym@ == srest[0]);
                    assert(srest.drop_first() =~= word.skip(si + 1));
                }
                model.add_symbol(sym);
                si = si + 1;
            }
            proof {
                assert(word.skip(word.len() as int).len() == 0);
                assert(add_unique(model.vocab_view(), word.skip(word.len() as int))
                    == model.vocab_view());
            }
            wi = wi + 1;
        }
        proof {
            assert(wdv.skip(wdv.len() as int).len() == 0);
        }
        Ok(())
    }

    /// Counts the frequency of every adjacent symbol pair across all
    /// words, as an association list keyed by pair, in first-appearance
    /// order.
    fn count_pairs(&self, words: &Vec<Vec<String>>) -> (counts: Vec<((String, String), usize)>)
        requires
            total_adj(words.deep_view()) <= usize::MAX,
        ensures
            forall|k: int|
                0 <= k < counts.deep_view().len() ==> counts.deep_view()[k].1 as nat == pair_count(
                    words.deep_view(),
                    counts.deep_view()[k].0,
                ) && counts.deep_view()[k].1 >= 1,
            forall|k1: int, k2: int|
                0 <= k1 < k2 < counts.deep_view().len() ==> counts.deep_view()[k1].0
                    != counts.deep_view()[k2].0,
            forall|p: (Seq<char>, Seq<char>)|
                pair_count(words.deep_view(), p) >= 1 ==> key_in(counts.deep_view(), p),
    {
        let ghost wdv = words.deep_view();
        let mut counts: Vec<((String, String), usize)> = Vec::new();
        let mut wi: usize = 0;
        proof {
            assert(counts.deep_view().len() == 0);
            assert forall|p: (Seq<char>, Seq<char>)| inner_count(wdv, 0, 0, p) == 0nat by {
                assert(wdv.take(0).len() == 0);
                assert(pair_count(wdv.take(0), p) == 0);
                assert(count_in_word(wdv[0].take(0), p) == 0);
            }
        }
        while wi < words.len()
            invariant
                wi <= words@.len(),
                wdv == words.deep_view(),
                total_adj(wdv) <= usize::MAX,
                counts_ok(counts.deep_view(), wdv, wi as int, 0),
            decreases words@.len() - wi,
        {
            let lw = words[wi].len();
            let ghost word = wdv[wi as int];
            proof {
                assert(words@[wi as int].deep_view() == word);
                assert(word.len() == lw);
            }
            if lw >= 1 {
                proof {
                    assert forall|p: (Seq<char>, Seq<char>)|
                        #[trigger] inner_count(wdv, wi as int, 1, p) == inner_count(
                        wdv,
                        wi as int,
                        0,
                        p,
                    ) by {
                        assert(count_in_word(word.take(1), p) == 0);
                        assert(count_in_word(word.take(0), p) == 0);
                    }
                }
                let mut si: usize = 0;
                while si + 1 < lw
                    invariant
                        wi < words@.len(),
                        si + 1 <= lw,
                        lw == words@[wi as int]@.len(),
                        wdv == words.deep_view(),
                        word == wdv[wi as int],
                        word.len() == lw,
                        total_adj(wdv) <= usize::MAX,
                        counts_ok(counts.deep_view(), wdv, wi as int, si + 1),
                    decreases lw - si,
                {
                    let ghost cprev = counts.deep_view();
                    let ghost q = (word[si as int], word[si + 1]);
                    proof {
                        assert(word[si as int] == words@[wi as int]@[si as int]@);
                        assert(word[si + 1] == words@[wi as int]@[si + 1]@);
                        lemma_ciw_take_step(word, q, si as int);
                        assert(inner_count(wdv, wi as int, si + 2, q) == inner_count(
                            wdv,
                            wi as int,
                            si + 1,
                            q,
                        ) + 1nat);
                        assert forall|p: (Seq<char>, Seq<char>)| p != q implies #[trigger] inner_count(
                            wdv,
                            wi as int,
                            si + 2,
                            p,
                        ) == inner_count(wdv, wi as int, si + 1, p) by {
                            lemma_ciw_take_step(word, p, si as int);
                            if word[si as int] == p.0 && word[si + 1] == p.1 {
                                assert(p == (p.0, p.1));
                                assert(q == (q.0, q.1));
                            }
                        }
                        // the new running count stays within the total
                        lemma_ciw_take_le(word, q, si + 2);
                        lemma_pc_take_snoc(wdv, q, wi as int);
                        lemma_pc_take_le(wdv, q, wi + 1);
                        lemma_pc_le_total(wdv, q);
                        assert(inner_count(wdv, wi as int, si + 2, q) <= usize::MAX);
                    }
                    match find_pair(&counts, &words[wi][si], &words[wi][si + 1]) {
                        Some(ci) => {
                            let c = counts[ci].1;
                            let lcl = counts[ci].0.0.clone();
                            let rcl = counts[ci].0.1.clone();
                            proof {
                                assert(cprev[ci as int].1 as nat == inner_count(
                                    wdv,
                                    wi as int,
                                    si + 1,
                                    q,
                                ));
                            }
                            counts[ci] = ((lcl, rcl), c + 1);
                            proof {
                                assert(counts.deep_view() =~= cprev.update(
                                    ci as int,
                                    (q, (c + 1) as usize),
                                ));
                                assert forall|p: (Seq<char>, Seq<char>)|
                                    inner_count(wdv, wi as int, si + 2, p) >= 1 implies key_in(
                                    counts.deep_view(),
                                    p,
                                ) by {
                                    if p == q {
                                        assert(counts.deep_view()[ci as int].0 == p);
                                    } else if key_in(cprev, p) {
                                        let kk = choose|kk: int|
                                            0 <= kk < cprev.len() && cprev[kk].0 == p;
                                        assert(counts.deep_view()[kk].0 == p);
                                    }
                                }
                            }
                        },
                        None => {
                            let lcl = words[wi][si].clone();
                            let rcl = words[wi][si + 1].clone();
                            counts.push(((lcl, rcl), 1));
                            proof {
                                assert(counts.deep_view() =~= cprev.push((q, 1usize)));
                                assert(!key_in(cprev, q));
                                if inner_count(wdv, wi as int, si + 1, q) >= 1 {
                                    assert(key_in(cprev, q));
                                }
                                assert(inner_count(wdv, wi as int, si + 1, q) == 0nat);
                                assert forall|p: (Seq<char>, Seq<char>)|
                                    inner_count(wdv, wi as int, si + 2, p) >= 1 implies key_in(
                                    counts.deep_view(),
                                    p,
                                ) by {
                                    if p == q {
                                        assert(counts.deep_view()[cprev.len() as int].0 == p);
                                    } else if key_in(cprev, p) {
                                        let kk = choose|kk: int|
                                            0 <= kk < cprev.len() && cprev[kk].0 == p;
                                        assert(counts.deep_view()[kk].0 == p);
                                    }
                                }
                            }
                        },
                    }
                    si = si + 1;
                }
                proof {
                    assert(si + 1 == lw);
                    assert(word.take(lw as int) =~= word);
                    assert forall|p: (Seq<char>, Seq<char>)|
                        inner_count(wdv, wi + 1, 0, p) == inner_count(
                        wdv,
                        wi as int,
                        lw as int,
                        p,
                    ) by {
                        lemma_pc_take_snoc(wdv, p, wi as int);
                        if wi + 1 < wdv.len() {
                            assert(count_in_word(wdv[wi + 1].take(0), p) == 0);
                        } else {
                            assert(count_in_word(wdv[wi + 1].take(0), p) == 0);
                        }
                    }
                }
            } else {
                proof {
                    assert forall|p: (Seq<char>, Seq<char>)|
                        inner_count(wdv, wi + 1, 0, p) == inner_count(wdv, wi as int, 0, p) by {
                        lemma_pc_take_snoc(wdv, p, wi as int);
                        assert(count_in_word(word, p) == 0);
                        assert(count_in_word(word.take(0), p) == 0);
                        assert(count_in_word(wdv[wi + 1].take(0), p) == 0);
                    }
                }
            }
            wi = wi + 1;
        }
        proof {
            assert(wdv.take(wdv.len() as int) =~= wdv);
            assert forall|p: (Seq<char>, Seq<char>)|
                inner_count(wdv, wdv.len() as int, 0, p) == pair_count(wdv, p) by {
                assert(count_in_word(wdv[wdv.len() as int].take(0), p) == 0);
            }
        }
        counts
    }
}

/// Whether a pair stands among the keys of the association list.
pub open spec fn key_in(
    cdv: Seq<((Seq<char>, Seq<char>), usize)>,
    p: (Seq<char>, Seq<char>),
) -> bool {
    exists|k: int| 0 <= k < cdv.len() && cdv[k].0 == p
}

/// The frequency of a pair over the words before `wi` plus the first
/// `cut` symbols of word `wi`.
pub open spec fn inner_count(
    words: Seq<Seq<Seq<char>>>,
    wi: int,
    cut: int,
    p: (Seq<char>, Seq<char>),
) -> nat {
    pair_count(words.take(wi), p) + count_in_word(words[wi].take(cut), p)
}

/// The association list faithfully counts the pairs processed so far:
/// every key's count is right and at least one, keys are distinct, and
/// every processed pair is a key.
pub open spec fn counts_ok(
    cdv: Seq<((Seq<char>, Seq<char>), usize)>,
    words: Seq<Seq<Seq<char>>>,
    wi: int,
    cut: int,
) -> bool {
    &&& forall|k: int|
        0 <= k < cdv.len() ==> (#[trigger] cdv[k]).1 as nat == inner_count(words, wi, cut, cdv[k].0)
            && cdv[k].1 >= 1
    &&& forall|k1: int, k2: int| 0 <= k1 < k2 < cdv.len() ==> cdv[k1].0 != cdv[k2].0
    &&& forall|p: (Seq<char>, Seq<char>)| inner_count(words, wi, cut, p) >= 1 ==> key_in(cdv, p)
}

/// Finds the index of a pair among the keys of the association list.
fn find_pair(counts: &Vec<((String, String), usize)>, l: &String, r: &String) -> (res: Option<
    usize,
>)
    ensures
        match res {
            Some(k) => k < counts.deep_view().len() && counts.deep_view()[k as int].0 == (l@, r@),
            None => !key_in(counts.deep_view(), (l@, r@)),
        },
{
    let ghost cdv = counts.deep_view();
    let mut k: usize = 0;
    while k < counts.len()
        invariant
            k <= counts@.len(),
            cdv == counts.deep_view(),
            forall|j: int| 0 <= j < k ==> cdv[j].0 != (l@, r@),
        decreases counts@.len() - k,
    {
        if counts[k].0.0 == *l && counts[k].0.1 == *r {
            proof {
                assert(cdv[k as int].0 == (counts@[k as int].0.0@, counts@[k as int].0.1@));
                assert(cdv[k as int].0 == (l@, r@));
            }
            return Some(k);
        }
        proof {
            assert(cdv[k as int].0 == (counts@[k as int].0.0@, counts@[k as int].0.1@));
            let p = (l@, r@);
            assert(p.0 == l@ && p.1 == r@);
            if cdv[k as int].0 == p {
                assert(counts@[k as int].0.0@ == l@ && counts@[k as int].0.1@ == r@);
            }
        }
        k = k + 1;
    }
    proof {
        if key_in(cdv, (l@, r@)) {
            let j = choose|j: int| 0 <= j < cdv.len() && cdv[j].0 == (l@, r@);
            assert(cdv[j].0 != (l@, r@));
        }
    }
    None
}

/// Compares two pairs in the tie-breaking order.
fn pair_lt_exec(p: &(String, String), q: &(String, String)) -> (r: bool)
    ensures
        r == pair_lt((p.0@, p.1@), (q.0@, q.1@)),
{
    let cp = p.0.clone().concat(p.1.as_str());
    let cq = q.0.clone().concat(q.1.as_str());
    if str_lex_lt(cp.as_str(), cq.as_str()) {
        true
    } else if cp == cq {
        str_lex_lt(p.0.as_str(), q.0.as_str())
    } else {
        false
    }
}

/// Finds the entry with the highest count, breaking count ties by the
/// pair order.
fn best_index(counts: &Vec<((String, String), usize)>) -> (b: usize)
    requires
        counts.deep_view().len() >= 1,
        forall|k1: int, k2: int|
            0 <= k1 < k2 < counts.deep_view().len() ==> counts.deep_view()[k1].0
                != counts.deep_view()[k2].0,
    ensures
        b < counts.deep_view().len(),
        forall|j: int|
            0 <= j < counts.deep_view().len() && j != b ==> ((#[trigger] counts.deep_view()[j]).1
                < counts.deep_view()[b as int].1 || (counts.deep_view()[j].1
                == counts.deep_view()[b as int].1 && pair_lt(
                counts.deep_view()[b as int].0,
                counts.deep_view()[j].0,
            ))),
{
    let ghost cdv = counts.deep_view();
    let mut b: usize = 0;
    let mut i: usize = 1;
    while i < counts.len()
        invariant
            cdv == counts.deep_view(),
            cdv.len() >= 1,
            forall|k1: int, k2: int| 0 <= k1 < k2 < cdv.len() ==> cdv[k1].0 != cdv[k2].0,
            b < i <= cdv.len(),
            forall|j: int|
                0 <= j < i && j != b ==> ((#[trigger] cdv[j]).1 < cdv[b as int].1 || (cdv[j].1
                    == cdv[b as int].1 && pair_lt(cdv[b as int].0, cdv[j].0))),
        decreases counts@.len() - i,
    {
        proof {
            assert(cdv[i as int].0 == (counts@[i as int].0.0@, counts@[i as int].0.1@));
            assert(cdv[b as int].0 == (counts@[b as int].0.0@, counts@[b as int].0.1@));
        }
        let ci = counts[i].1;
        let cb = counts[b].1;
        if ci > cb {
            proof {
                assert forall|j: int|
                    0 <= j < i + 1 && j != i as int implies ((#[trigger] cdv[j]).1
                    < cdv[i as int].1 || (cdv[j].1 == cdv[i as int].1 && pair_lt(
                    cdv[i as int].0,
                    cdv[j].0,
                ))) by {
                    if j != b {
                        assert(cdv[j].1 <= cdv[b as int].1);
                    }
                }
            }
            b = i;
        } else if ci == cb {
            let ghost pb = cdv[b as int].0;
            let ghost pi = cdv[i as int].0;
            if pair_lt_exec(&counts[i].0, &counts[b].0) {
                proof {
                    assert(pair_lt(pi, pb));
                    assert forall|j: int|
                        0 <= j < i + 1 && j != i as int implies ((#[trigger] cdv[j]).1
                        < cdv[i as int].1 || (cdv[j].1 == cdv[i as int].1 && pair_lt(
                        cdv[i as int].0,
                        cdv[j].0,
                    ))) by {
                        if j == b as int {
                        } else if cdv[j].1 == cdv[b as int].1 {
                            lemma_pair_lt_trans(pi, pb, cdv[j].0);
                        }
                    }
                }
                b = i;
            } else {
                proof {
                    assert(!pair_lt(pi, pb));
                    assert(pi != pb);
                    lemma_pair_lt_total(pi, pb);
                    assert(pair_lt(pb, pi));
                }
            }
        }
        i = i + 1;
    }
    b
}

impl BpeTrainer {
    /// Rewrites every word, folding each occurrence of the selected pair
    /// into its concatenation, rescanning from the start of the word after
    /// each replacement.
    fn merge_pair(&self, pair: &(String, String), words: &mut Vec<Vec<String>>)
        ensures
            final(words).deep_view() == merge_all(old(words).deep_view(), (pair.0@, pair.1@)),
    {
        let ghost wdv0 = old(words).deep_view();
        let ghost pv = (pair.0@, pair.1@);
        let mut rules: Vec<(String, String)> = Vec::new();
        rules.push((pair.0.clone(), pair.1.clone()));
        proof {
            assert(rules.deep_view() =~= seq![pv]);
        }
        let mut wi: usize = 0;
        while wi < words.len()
            invariant
                wi <= words@.len(),
                words@.len() == wdv0.len(),
                wdv0 == old(words).deep_view(),
                pv == (pair.0@, pair.1@),
                rules.deep_view() == seq![pv],
                forall|j: int| 0 <= j < wi ==> words.deep_view()[j] == merge_word(wdv0[j], pv),
                forall|j: int| wi <= j < wdv0.len() ==> words.deep_view()[j] == wdv0[j],
            decreases words@.len() - wi,
        {
            let ghost before = words.deep_view();
            apply_merges(&rules, &mut words[wi]);
            proof {
                assert(words.deep_view()[wi as int] == reduce(seq![pv], before[wi as int]));
                assert(forall|j: int|
                    0 <= j < wdv0.len() && j != wi as int ==> words.deep_view()[j] == before[j]);
                assert forall|j: int| 0 <= j < wi + 1 implies words.deep_view()[j] == merge_word(
                    wdv0[j],
                    pv,
                ) by {
                    if j < wi as int {
                        assert(words.deep_view()[j] == before[j]);
                    } else {
                        assert(before[wi as int] == wdv0[wi as int]);
                    }
                }
            }
            wi = wi + 1;
        }
        proof {
            assert(words.deep_view() =~= merge_all(wdv0, pv));
        }
    }

    /// Trains a model: the corpus is split into words, the vocabulary is
    /// seeded with every distinct symbol in first-appearance order, and up
    /// to the requested number of merges the most frequent adjacent pair
    /// (ties broken by the pair order) is folded and recorded. Stops early
    /// when no adjacent pair is left; never fails.
    pub fn train(&self, corpus: &str) -> (r: Result<BpeModel, TokenizerError>)
        ensures
            r is Ok,
            r matches Ok(m) ==> m.merges_view() == spec_train_merges(
                corpus@,
                self.num_merges as nat,
            ) && m.vocab_view() == spec_train_vocab(corpus@, self.num_merges as nat) && m.wf(),
    {
        let mut words = self.preprocess(corpus);
        let ghost words0 = words.deep_view();
        let ghost n = self.num_merges as nat;
        let ghost full = train_merges(words0, n);
        let mut model = BpeModel::new();
        match self.initialize_vocab(&mut model, &words) {
            Ok(()) => {},
            Err(e) => {
                return Err(e);
            },
        }
        proof {
            assert(model.vocab_view() == init_vocab(words0));
            assert(model.merges_view() =~= Seq::<(Seq<char>, Seq<char>)>::empty());
            assert(add_merges_vocab(model.vocab_view(), model.merges_view())
                == model.vocab_view());
            assert(model.merges_view() + train_merges(words.deep_view(), n) =~= full);
        }
        let mut step: usize = 0;
        while step < self.num_merges
            invariant
                step <= self.num_merges,
                n == self.num_merges as nat,
                words0 == spec_words(corpus@),
                full == train_merges(words0, n),
                model.merges_view() + train_merges(words.deep_view(), (n - step) as nat) == full,
                model.vocab_view() == add_merges_vocab(init_vocab(words0), model.merges_view()),
                total_adj(words.deep_view()) <= total_adj(words0),
                total_adj(words0) <= usize::MAX,
                model.wf(),
            decreases self.num_merges - step,
        {
            let ghost cur = words.deep_view();
            let counts = self.count_pairs(&words);
            let ghost cdv = counts.deep_view();
            if counts.len() == 0 {
                proof {
                    if has_pair(cur) {
                        let i = choose|i: int| 0 <= i < cur.len() && cur[i].len() >= 2;
                        let q = (cur[i][0], cur[i][1]);
                        assert(count_in_word(cur[i], q) >= 1);
                        lemma_pc_ge_word(cur, q, i);
                        assert(key_in(cdv, q));
                        let kk = choose|kk: int| 0 <= kk < cdv.len() && cdv[kk].0 == q;
                        assert(false);
                    }
                    assert(train_merges(cur, (n - step) as nat) =~= Seq::<(
                        Seq<char>,
                        Seq<char>,
                    )>::empty());
                    assert(model.merges_view() + train_merges(cur, (n - step) as nat)
                        =~= model.merges_view());
                    assert(model.merges_view() == full);
                }
                return Ok(model);
            }
            let bi = best_index(&counts);
            let best = (counts[bi].0.0.clone(), counts[bi].0.1.clone());
            let ghost bp = (best.0@, best.1@);
            proof {
                assert(cdv[bi as int].0 == (counts@[bi as int].0.0@, counts@[bi as int].0.1@));
                assert(bp == cdv[bi as int].0);
                assert(pair_count(cur, bp) == cdv[bi as int].1 as nat);
                assert forall|q: (Seq<char>, Seq<char>)|
                    pair_count(cur, q) >= 1 && q != bp implies (pair_count(cur, q) < pair_count(
                    cur,
                    bp,
                ) || (pair_count(cur, q) == pair_count(cur, bp) && pair_lt(bp, q))) by {
                    assert(key_in(cdv, q));
                    let kk = choose|kk: int| 0 <= kk < cdv.len() && cdv[kk].0 == q;
                    assert(cdv[kk].1 as nat == pair_count(cur, q));
                    assert(kk != bi as int);
                }
                assert(is_best_pair(cur, bp));
                assert(is_best_pair(cur, best_pair(cur)));
                lemma_is_best_unique(cur, bp, best_pair(cur));
                assert(best_pair(cur) == bp);
                lemma_pc_pos_has_pair(cur, bp);
                assert(has_pair(cur));
                assert(n - step >= 1);
                assert(train_merges(cur, (n - step) as nat) == seq![bp] + train_merges(
                    merge_all(cur, bp),
                    (n - step - 1) as nat,
                ));
            }
            self.merge_pair(&best, &mut words);
            let ghost oldm = model.merges_view();
            let ghost oldv = model.vocab_view();
            model.add_merge(best);
            step = step + 1;
            proof {
                assert(model.merges_view() == oldm.push(bp));
                lemma_amv_snoc(init_vocab(words0), oldm, bp);
                assert(model.vocab_view() == add_merges_vocab(
                    init_vocab(words0),
                    model.merges_view(),
                ));
                assert(words.deep_view() == merge_all(cur, bp));
                assert(model.merges_view() + train_merges(words.deep_view(), (n - step) as nat)
                    =~= oldm + (seq![bp] + train_merges(merge_all(cur, bp), (n - step) as nat)));
                assert(oldm + train_merges(cur, (n - step + 1) as nat) == full);
                assert(model.merges_view() + train_merges(words.deep_view(), (n - step) as nat)
                    == full);
                assert forall|j: int|
                    0 <= j < cur.len() implies (#[trigger] merge_all(cur, bp)[j]).len()
                    <= cur[j].len() by {
                    crate::reduce::lemma_reduce_len(seq![bp], cur[j]);
                }
                lemma_total_adj_mono(cur, merge_all(cur, bp));
            }
        }
        proof {
            if step == self.num_merges {
                assert(train_merges(words.deep_view(), (n - step) as nat)
                    =~= Seq::<(Seq<char>, Seq<char>)>::empty());
                assert(model.merges_view() + train_merges(words.deep_view(), (n - step) as nat)
                    =~= model.merges_view());
            }
            assert(model.merges_view() == full);
        }
        Ok(model)
    }
}

} // verus!
