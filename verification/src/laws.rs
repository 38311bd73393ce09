//! The library's laws: round trip, vocabulary bijection, merge count
//! bound, determinism of training, and idempotence of encoding, each
//! proved over the spec functions that the public contracts use.

use vstd::prelude::*;
use crate::chars::is_ws;
use crate::model::distinct_syms;
use crate::model::first_bad_id;
use crate::model::first_missing;
use crate::model::lemma_first_bad_id;
use crate::model::lemma_first_missing;
use crate::model::syms_of_ids;
use crate::model::add_symbol_if_new;
use crate::model::BpeModel;
use crate::reduce::lemma_reduce_cat;
use crate::reduce::lemma_reduce_in_vocab;
use crate::reduce::lemma_reduce_noop;
use crate::reduce::pair_applicable;
use crate::reduce::reduce;
use crate::symbols::cat_syms;
use crate::symbols::eow;
use crate::symbols::lemma_cat_syms_append;
use crate::symbols::lemma_cat_syms_single;
use crate::symbols::lemma_sym_id;
use crate::symbols::replace_eow;
use crate::symbols::sym_id;
use crate::symbols::tokens_of;
use crate::symbols::trim_end;
use crate::symbols::trim_start;
use crate::symbols::trim_ws;
use crate::symbols::vocab_has;
use crate::trainer::add_merges_vocab;
use crate::trainer::has_pair;
use crate::trainer::lemma_train_merges_len;
use crate::trainer::spec_train_merges;
use crate::trainer::spec_train_vocab;
use crate::trainer::spec_words;

verus! {

/// What a sequence of single-codepoint symbols spells out is the text
/// itself.
proof fn lemma_cat_singletons(t: Seq<char>)
    ensures
        cat_syms(Seq::new(t.len(), |i: int| seq![t[i]])) == t,
    decreases t.len(),
{
    let syms = Seq::new(t.len(), |i: int| seq![t[i]]);
    if t.len() == 0 {
        assert(cat_syms(syms) =~= t);
    } else {
        let rest = t.drop_first();
        lemma_cat_singletons(rest);
        assert(syms.drop_first() =~= Seq::new(rest.len(), |i: int| seq![rest[i]]));
        assert(syms[0] == seq![t[0]]);
        assert(seq![t[0]] + rest =~= t);
    }
}

/// The initial segmentation of a text spells out the text followed by the
/// end-of-word marker.
proof fn lemma_cat_tokens(t: Seq<char>)
    ensures
        cat_syms(tokens_of(t)) == t + eow(),
{
    let base = Seq::new(t.len(), |i: int| seq![t[i]]);
    assert(tokens_of(t) =~= base + seq![eow()]);
    lemma_cat_syms_append(base, seq![eow()]);
    lemma_cat_syms_single(eow());
    lemma_cat_singletons(t);
}

/// Whether the end-of-word marker occurs in a text at a position.
pub open spec fn marker_at(s: Seq<char>, i: int) -> bool {
    0 <= i && i + 4 <= s.len() && s.subrange(i, i + 4) == eow()
}

/// Replacing markers in a text that contains none, followed by one
/// marker, turns exactly that marker into a space.
proof fn lemma_replace_no_marker(s: Seq<char>)
    requires
        forall|i: int| !marker_at(s, i),
    ensures
        replace_eow(s + eow()) == s + seq![' '],
    decreases s.len(),
{
    let whole = s + eow();
    if s.len() == 0 {
        assert(whole =~= eow());
        assert(whole.len() == 4);
        assert(whole.subrange(0, 4) =~= eow());
        assert(whole.skip(4).len() == 0);
        assert(replace_eow(whole) == seq![' '] + replace_eow(whole.skip(4)));
        assert(replace_eow(whole.skip(4)) =~= Seq::<char>::empty());
        assert(seq![' '] + Seq::<char>::empty() =~= s + seq![' ']);
    } else {
        if whole.subrange(0, 4) == eow() {
            if s.len() >= 4 {
                assert(!marker_at(s, 0));
                assert(whole.subrange(0, 4) =~= s.subrange(0int, 0int + 4));
                assert(false);
            } else {
                let l = s.len() as int;
                assert(whole.subrange(0, 4)[l] == eow()[0]);
                assert(whole.subrange(0, 4)[l] == eow()[l]);
                assert(eow()[0] == '<');
                assert(eow()[1] == '/' && eow()[2] == 'w' && eow()[3] == '>');
                assert(false);
            }
        }
        assert(whole[0] == s[0]);
        assert(whole.skip(1) =~= s.drop_first() + eow());
        let rest = s.drop_first();
        assert forall|i: int| !marker_at(rest, i) by {
            if 0 <= i && i + 4 <= rest.len() {
                assert(!marker_at(s, i + 1));
                assert(rest.subrange(i, i + 4) =~= s.subrange(i + 1, (i + 1) + 4));
            }
        }
        lemma_replace_no_marker(rest);
        assert(replace_eow(whole) == seq![whole[0]] + replace_eow(whole.skip(1)));
        assert(seq![s[0]] + (rest + seq![' ']) =~= s + seq![' ']);
    }
}

/// Trimming a text with untrimmed ends, followed by one space, removes
/// exactly that space.
proof fn lemma_trim_append_space(s: Seq<char>)
    requires
        s.len() == 0 || (!is_ws(s[0]) && !is_ws(s[s.len() - 1])),
    ensures
        trim_ws(s + seq![' ']) == s,
{
    let whole = s + seq![' '];
    if s.len() == 0 {
        assert(whole.len() == 1);
        assert(whole[0] == ' ');
        assert(is_ws(whole[0]));
        assert(whole.drop_first().len() == 0);
        assert(trim_start(whole) == trim_start(whole.drop_first()));
        assert(trim_start(whole.drop_first()) == whole.drop_first());
        assert(trim_end(whole.drop_first()) == whole.drop_first());
        assert(whole.drop_first() =~= s);
    } else {
        assert(whole[0] == s[0]);
        assert(!is_ws(whole[0]));
        assert(trim_start(whole) == whole);
        assert(whole.last() == ' ');
        assert(is_ws(whole.last()));
        assert(whole.drop_last() =~= s);
        assert(trim_end(whole) == trim_end(s));
        assert(s.last() == s[s.len() - 1]);
        assert(trim_end(s) == s);
    }
}

/// Round trip: when every codepoint of the text, and the end-of-word
/// marker, are in the vocabulary, every rule's merged symbol is
/// registered, the text does not contain the marker, and its ends carry
/// no whitespace, then encoding succeeds, decoding its ids succeeds, and
/// the decoded text is the original text.
pub proof fn lemma_round_trip(
    merges: Seq<(Seq<char>, Seq<char>)>,
    vocab: Seq<Seq<char>>,
    text: Seq<char>,
    ids: Seq<u32>,
)
    requires
        forall|q: int| 0 <= q < merges.len() ==> vocab_has(vocab, merges[q].0 + merges[q].1),
        forall|i: int| 0 <= i < text.len() ==> vocab_has(vocab, seq![text[i]]),
        vocab_has(vocab, eow()),
        forall|i: int| !marker_at(text, i),
        text.len() > 0 ==> !is_ws(text[0]) && !is_ws(text[text.len() - 1]),
        ids.len() == reduce(merges, tokens_of(text)).len(),
        forall|k: int|
            0 <= k < ids.len() ==> ids[k] as int == sym_id(
                vocab,
                reduce(merges, tokens_of(text))[k],
            ),
    ensures
        first_missing(vocab, reduce(merges, tokens_of(text))) == -1,
        first_bad_id(ids, vocab.len()) == -1,
        trim_ws(replace_eow(cat_syms(syms_of_ids(vocab, ids)))) == text,
{
    let toks = tokens_of(text);
    let red = reduce(merges, toks);
    assert forall|k: int| 0 <= k < toks.len() implies vocab_has(vocab, toks[k]) by {
        if k < text.len() {
            assert(toks[k] == seq![text[k]]);
        } else {
            assert(toks[k] == eow());
        }
    }
    lemma_reduce_in_vocab(merges, toks, vocab);
    assert forall|k: int| 0 <= k < red.len() implies sym_id(vocab, red[k]) >= 0 by {
        lemma_sym_id(vocab, red[k]);
    }
    lemma_first_missing(vocab, red);
    assert forall|k: int| 0 <= k < ids.len() implies ids[k] < vocab.len() by {
        lemma_sym_id(vocab, red[k]);
    }
    lemma_first_bad_id(ids, vocab.len());
    assert forall|k: int| 0 <= k < ids.len() implies syms_of_ids(vocab, ids)[k] == red[k] by {
        lemma_sym_id(vocab, red[k]);
        assert(vocab[sym_id(vocab, red[k])] == red[k]);
    }
    assert(syms_of_ids(vocab, ids) =~= red);
    lemma_reduce_cat(merges, toks);
    lemma_cat_tokens(text);
    assert(cat_syms(syms_of_ids(vocab, ids)) == text + eow());
    lemma_replace_no_marker(text);
    lemma_trim_append_space(text);
}

/// Vocabulary bijection: while no symbol is registered twice, looking up
/// the symbol of any id returns that id, and the symbol found for any id
/// that a lookup returns is the symbol looked up.
pub proof fn lemma_vocab_bijection(vocab: Seq<Seq<char>>)
    requires
        distinct_syms(vocab),
    ensures
        forall|id: int| 0 <= id < vocab.len() ==> sym_id(vocab, vocab[id]) == id,
        forall|s: Seq<char>|
            sym_id(vocab, s) >= 0 ==> sym_id(vocab, s) < vocab.len() && vocab[sym_id(vocab, s)]
                == s,
{
    assert forall|id: int| 0 <= id < vocab.len() implies sym_id(vocab, vocab[id]) == id by {
        lemma_sym_id(vocab, vocab[id]);
        let r = sym_id(vocab, vocab[id]);
        assert(r != -1);
        if r < id {
            assert(vocab[r] == vocab[id]);
            assert(false);
        }
        if r > id {
            assert(vocab[id] != vocab[id]);
        }
    }
    assert forall|s: Seq<char>| sym_id(vocab, s) >= 0 implies sym_id(vocab, s) < vocab.len()
        && vocab[sym_id(vocab, s)] == s by {
        lemma_sym_id(vocab, s);
    }
}

/// Merge count bound: training learns at most the requested number of
/// merges, and none at all on a corpus with no adjacent pair, without
/// ever failing.
pub proof fn lemma_merge_count_bound(corpus: Seq<char>, n: nat)
    ensures
        spec_train_merges(corpus, n).len() <= n,
        !has_pair(spec_words(corpus)) ==> spec_train_merges(corpus, n).len() == 0,
{
    lemma_train_merges_len(spec_words(corpus), n);
}

/// Determinism: two models trained on the same corpus with the same merge
/// budget — that is, two models meeting `train`'s postcondition for the
/// same inputs — have identical merge sequences and identical
/// vocabularies.
pub proof fn lemma_train_deterministic(corpus: Seq<char>, n: nat, m1: BpeModel, m2: BpeModel)
    requires
        m1.merges_view() == spec_train_merges(corpus, n),
        m1.vocab_view() == spec_train_vocab(corpus, n),
        m2.merges_view() == spec_train_merges(corpus, n),
        m2.vocab_view() == spec_train_vocab(corpus, n),
    ensures
        m1.merges_view() == m2.merges_view(),
        m1.vocab_view() == m2.vocab_view(),
{
}

/// Idempotence of encoding: on a text already fully reduced — no adjacent
/// pair of its initial segmentation matches any learned rule — the merge
/// reduction returns the segmentation unchanged, exactly as a single
/// scan pass would leave it.
pub proof fn lemma_encode_fully_reduced(merges: Seq<(Seq<char>, Seq<char>)>, text: Seq<char>)
    requires
        forall|q: int| 0 <= q < merges.len() ==> !pair_applicable(tokens_of(text), merges[q]),
    ensures
        reduce(merges, tokens_of(text)) == tokens_of(text),
{
    lemma_reduce_noop(merges, tokens_of(text));
}

/// A symbol once registered stays registered.
proof fn lemma_asin_mono(vocab: Seq<Seq<char>>, s: Seq<char>, x: Seq<char>)
    requires
        vocab_has(vocab, x),
    ensures
        vocab_has(add_symbol_if_new(vocab, s), x),
{
    let j = choose|j: int| 0 <= j < vocab.len() && vocab[j] == x;
    assert(add_symbol_if_new(vocab, s)[j] == x);
}

/// Registering the merged symbols keeps everything already registered.
proof fn lemma_amv_mono(
    vocab: Seq<Seq<char>>,
    merges: Seq<(Seq<char>, Seq<char>)>,
    x: Seq<char>,
)
    requires
        vocab_has(vocab, x),
    ensures
        vocab_has(add_merges_vocab(vocab, merges), x),
    decreases merges.len(),
{
    if merges.len() > 0 {
        lemma_asin_mono(vocab, merges[0].0 + merges[0].1, x);
        lemma_amv_mono(
            add_symbol_if_new(vocab, merges[0].0 + merges[0].1),
            merges.drop_first(),
            x,
        );
    }
}

/// After registering the merged symbols, each rule's merged symbol is in
/// the vocabulary.
pub proof fn lemma_amv_closure(vocab: Seq<Seq<char>>, merges: Seq<(Seq<char>, Seq<char>)>)
    ensures
        forall|q: int|
            0 <= q < merges.len() ==> vocab_has(
                add_merges_vocab(vocab, merges),
                merges[q].0 + merges[q].1,
            ),
    decreases merges.len(),
{
    if merges.len() > 0 {
        let c0 = merges[0].0 + merges[0].1;
        let v1 = add_symbol_if_new(vocab, c0);
        assert(vocab_has(v1, c0)) by {
            if !vocab_has(vocab, c0) {
                assert(v1[vocab.len() as int] == c0);
            } else {
                let j = choose|j: int| 0 <= j < vocab.len() && vocab[j] == c0;
                assert(v1[j] == c0);
            }
        }
        lemma_amv_mono(v1, merges.drop_first(), c0);
        lemma_amv_closure(v1, merges.drop_first());
        assert forall|q: int| 0 <= q < merges.len() implies vocab_has(
            add_merges_vocab(vocab, merges),
            merges[q].0 + merges[q].1,
        ) by {
            if q > 0 {
                assert(merges.drop_first()[q - 1] == merges[q]);
            }
        }
    }
}

/// A trained model's vocabulary contains every merged symbol of its rules:
/// the closure that the round-trip law asks of a model.
pub proof fn lemma_trained_closure(corpus: Seq<char>, n: nat)
    ensures
        forall|q: int|
            0 <= q < spec_train_merges(corpus, n).len() ==> vocab_has(
                spec_train_vocab(corpus, n),
                spec_train_merges(corpus, n)[q].0 + spec_train_merges(corpus, n)[q].1,
            ),
{
    lemma_amv_closure(
        crate::trainer::init_vocab(spec_words(corpus)),
        spec_train_merges(corpus, n),
    );
}

} // verus!
