//! The trained BPE model: the learned merge rules in priority order, and
//! the vocabulary as a bijection between symbols and sequentially assigned
//! ids, with encoding and decoding over it.

use vstd::prelude::*;
use vstd::string::StrSliceExecFns;
use vstd::string::StringExecFns;
use crate::chars::dec_digits;
use crate::chars::u32_to_string;
use crate::errors::TokenizerError;
use crate::reduce::apply_merges;
use crate::reduce::reduce;
use crate::symbols::cat_syms;
use crate::symbols::eow_string;
use crate::symbols::find_symbol;
use crate::symbols::lemma_sym_id;
use crate::symbols::replace_eow;
use crate::symbols::replace_marker;
use crate::symbols::sym_id;
use crate::symbols::tokens_of;
use crate::symbols::trim_str;
use crate::symbols::trim_ws;
use crate::symbols::vocab_has;

verus! {

/// A trained BPE model. The symbol with id `i` stands at index `i` of
/// `vocab`, so the vector is at once the vocabulary and its inverse;
/// a symbol's id is the index of its first occurrence.
pub struct BpeModel {
    /// Learned merge rules, earliest first; a rule's position is its
    /// priority at encoding time.
    pub merges: Vec<(String, String)>,
    /// Symbols by id, in order of first registration.
    pub vocab: Vec<String>,
}

/// Registers a symbol at the next sequential id unless it is already
/// present, so that the symbol-id mapping stays a bijection.
pub open spec fn add_symbol_if_new(vocab: Seq<Seq<char>>, s: Seq<char>) -> Seq<Seq<char>> {
    if vocab_has(vocab, s) {
        vocab
    } else {
        vocab.push(s)
    }
}

/// The symbol-id mapping is a bijection: no symbol occurs twice.
pub open spec fn distinct_syms(vocab: Seq<Seq<char>>) -> bool {
    forall|i: int, j: int| 0 <= i < j < vocab.len() ==> vocab[i] != vocab[j]
}

/// The index of the first symbol of the sequence that is absent from the
/// vocabulary, or -1 when all are present.
pub open spec fn first_missing(vocab: Seq<Seq<char>>, syms: Seq<Seq<char>>) -> int
    decreases syms.len(),
{
    if syms.len() == 0 {
        -1
    } else if sym_id(vocab, syms[0]) < 0 {
        0
    } else {
        let r = first_missing(vocab, syms.drop_first());
        if r < 0 {
            -1
        } else {
            r + 1
        }
    }
}

/// `first_missing` is -1 exactly when every symbol is present, and
/// otherwise the index of the first absent one.
pub proof fn lemma_first_missing(vocab: Seq<Seq<char>>, syms: Seq<Seq<char>>)
    ensures
        first_missing(vocab, syms) == -1 <==> (forall|k: int|
            0 <= k < syms.len() ==> sym_id(vocab, syms[k]) >= 0),
        first_missing(vocab, syms) != -1 ==> 0 <= first_missing(vocab, syms) < syms.len()
            && sym_id(vocab, syms[first_missing(vocab, syms)]) < 0 && (forall|k: int|
            0 <= k < first_missing(vocab, syms) ==> sym_id(vocab, syms[k]) >= 0),
    decreases syms.len(),
{
    if syms.len() == 0 {
    } else if sym_id(vocab, syms[0]) < 0 {
    } else {
        lemma_first_missing(vocab, syms.drop_first());
        let tail = syms.drop_first();
        assert(forall|k: int| 0 <= k < tail.len() ==> tail[k] == syms[k + 1]);
        if first_missing(vocab, tail) == -1 {
            assert forall|k: int| 0 <= k < syms.len() implies sym_id(vocab, syms[k]) >= 0 by {
                if k > 0 {
                    assert(syms[k] == tail[k - 1]);
                }
            }
        } else {
            let r = first_missing(vocab, tail);
            assert(syms[r + 1] == tail[r]);
            assert forall|k: int| 0 <= k < r + 1 implies sym_id(vocab, syms[k]) >= 0 by {
                if k > 0 {
                    assert(syms[k] == tail[k - 1]);
                }
            }
        }
    }
}

/// The index of the first id with no symbol (at or beyond the vocabulary's
/// length), or -1 when every id is mapped.
pub open spec fn first_bad_id(ids: Seq<u32>, vlen: nat) -> int
    decreases ids.len(),
{
    if ids.len() == 0 {
        -1
    } else if ids[0] >= vlen {
        0
    } else {
        let r = first_bad_id(ids.drop_first(), vlen);
        if r < 0 {
            -1
        } else {
            r + 1
        }
    }
}

/// `first_bad_id` is -1 exactly when every id is mapped, and otherwise the
/// index of the first unmapped one.
pub proof fn lemma_first_bad_id(ids: Seq<u32>, vlen: nat)
    ensures
        first_bad_id(ids, vlen) == -1 <==> (forall|k: int| 0 <= k < ids.len() ==> ids[k] < vlen),
        first_bad_id(ids, vlen) != -1 ==> 0 <= first_bad_id(ids, vlen) < ids.len()
            && ids[first_bad_id(ids, vlen)] >= vlen && (forall|k: int|
            0 <= k < first_bad_id(ids, vlen) ==> ids[k] < vlen),
    decreases ids.len(),
{
    if ids.len() == 0 {
    } else if ids[0] >= vlen {
    } else {
        lemma_first_bad_id(ids.drop_first(), vlen);
        let tail = ids.drop_first();
        assert(forall|k: int| 0 <= k < tail.len() ==> tail[k] == ids[k + 1]);
        if first_bad_id(tail, vlen) == -1 {
            assert forall|k: int| 0 <= k < ids.len() implies ids[k] < vlen by {
                if k > 0 {
                    assert(ids[k] == tail[k - 1]);
                }
            }
        } else {
            let r = first_bad_id(tail, vlen);
            assert(ids[r + 1] == tail[r]);
            assert forall|k: int| 0 <= k < r + 1 implies ids[k] < vlen by {
                if k > 0 {
                    assert(ids[k] == tail[k - 1]);
                }
            }
        }
    }
}

/// The symbols named by a sequence of ids, each id mapped through the
/// vocabulary.
pub open spec fn syms_of_ids(vocab: Seq<Seq<char>>, ids: Seq<u32>) -> Seq<Seq<char>> {
    Seq::new(ids.len(), |k: int| vocab[ids[k] as int])
}

/// The message of the error raised when a symbol is absent from the
/// vocabulary.
pub open spec fn encode_err_view(s: Seq<char>) -> Seq<char> {
    "Token '"@ + s + "' not in vocabulary"@
}

/// The message of the error raised when an id has no symbol.
pub open spec fn decode_err_view(id: u32) -> Seq<char> {
    "ID '"@ + dec_digits(id as nat) + "' not found"@
}

impl BpeModel {
    /// The learned merge rules as pairs of symbol views.
    pub open spec fn merges_view(&self) -> Seq<(Seq<char>, Seq<char>)> {
        self.merges.deep_view()
    }

    /// The vocabulary as a sequence of symbol views, indexed by id.
    pub open spec fn vocab_view(&self) -> Seq<Seq<char>> {
        self.vocab.deep_view()
    }

    /// Well-formedness: the symbol-id mapping is a bijection.
    pub open spec fn wf(&self) -> bool {
        distinct_syms(self.vocab_view())
    }

    /// The fully reduced symbol sequence that encoding derives from a text.
    pub open spec fn encoded_syms(&self, text: Seq<char>) -> Seq<Seq<char>> {
        reduce(self.merges_view(), tokens_of(text))
    }

    /// The text that decoding derives from a sequence of ids: the named
    /// symbols spelled out, markers replaced by spaces, ends trimmed.
    pub open spec fn decoded_text(&self, ids: Seq<u32>) -> Seq<char> {
        trim_ws(replace_eow(cat_syms(syms_of_ids(self.vocab_view(), ids))))
    }

    /// An empty model: no merge rules, no symbols.
    pub fn new() -> (m: BpeModel)
        ensures
            m.merges_view() == Seq::<(Seq<char>, Seq<char>)>::empty(),
            m.vocab_view() == Seq::<Seq<char>>::empty(),
            m.merges@.len() == 0,
            m.vocab@.len() == 0,
            m.wf(),
    {
        let m = BpeModel { merges: Vec::new(), vocab: Vec::new() };
        proof {
            assert(m.merges_view() =~= Seq::<(Seq<char>, Seq<char>)>::empty());
            assert(m.vocab_view() =~= Seq::<Seq<char>>::empty());
        }
        m
    }

    /// Registers a symbol directly, at the next sequential id, unless it is
    /// already present.
    pub fn add_symbol(&mut self, s: String)
        ensures
            final(self).vocab_view() == add_symbol_if_new(old(self).vocab_view(), s@),
            final(self).merges == old(self).merges,
            old(self).wf() ==> final(self).wf(),
    {
        let ghost oldv = self.vocab_view();
        match find_symbol(&self.vocab, &s) {
            Some(_) => {
                proof {
                    lemma_sym_id(oldv, s@);
                }
            },
            None => {
                proof {
                    lemma_sym_id(oldv, s@);
                }
                self.vocab.push(s);
                proof {
                    assert(self.vocab_view() =~= oldv.push(s@));
                    if distinct_syms(oldv) {
                        assert forall|i: int, j: int|
                            0 <= i < j < self.vocab_view().len() implies self.vocab_view()[i]
                            != self.vocab_view()[j] by {
                            if j < oldv.len() {
                            } else {
                                assert(self.vocab_view()[j] == s@);
                                assert(!vocab_has(oldv, s@));
                            }
                        }
                    }
                }
            },
        }
    }

    /// Appends a merge rule, keeping learn order, and registers the
    /// concatenated symbol in the vocabulary at the next sequential id
    /// unless it is already present.
    pub fn add_merge(&mut self, pair: (String, String))
        ensures
            final(self).merges_view() == old(self).merges_view().push((pair.0@, pair.1@)),
            final(self).vocab_view() == add_symbol_if_new(
                old(self).vocab_view(),
                pair.0@ + pair.1@,
            ),
            old(self).wf() ==> final(self).wf(),
    {
        let ghost oldm = self.merges_view();
        let merged = pair.0.clone().concat(pair.1.as_str());
        self.add_symbol(merged);
        self.merges.push(pair);
        proof {
            assert(self.merges_view() =~= oldm.push((pair.0@, pair.1@)));
        }
    }

    /// Encodes a text: one symbol per codepoint plus the end-of-word
    /// marker, reduced by the learned rules in priority order, then each
    /// symbol looked up in the vocabulary. Fails on the first symbol
    /// absent from the vocabulary, naming it; no partial result is
    /// returned.
    pub fn encode(&self, text: &str) -> (r: Result<Vec<u32>, TokenizerError>)
        requires
            self.vocab@.len() < 0x1_0000_0000,
        ensures
            r is Ok <==> first_missing(self.vocab_view(), self.encoded_syms(text@)) == -1,
            r matches Ok(ids) ==> ids@.len() == self.encoded_syms(text@).len() && (forall|k: int|
                0 <= k < ids@.len() ==> ids@[k] as int == sym_id(
                    self.vocab_view(),
                    self.encoded_syms(text@)[k],
                )),
            r matches Err(e) ==> ({
                let j = first_missing(self.vocab_view(), self.encoded_syms(text@));
                &&& j >= 0
                &&& e matches TokenizerError::VocabError(m) && m@ == encode_err_view(
                    self.encoded_syms(text@)[j],
                )
            }),
    {
        let ghost vdv = self.vocab_view();
        let n = text.unicode_len();
        let mut toks: Vec<String> = Vec::new();
        let mut i: usize = 0;
        while i < n
            invariant
                i <= n,
                n == text@.len(),
                toks.deep_view() =~= Seq::new(i as nat, |k: int| seq![text@[k]]),
            decreases n - i,
        {
            let ghost tprev = toks.deep_view();
            let piece = text.substring_char(i, i + 1);
            let owned = piece.to_owned();
            toks.push(owned);
            proof {
                assert(piece@ =~= seq![text@[i as int]]);
                assert(toks.deep_view() =~= tprev.push(piece@));
                assert(toks.deep_view() =~= Seq::new((i + 1) as nat, |k: int| seq![text@[k]]));
            }
            i = i + 1;
        }
        let ghost tfull = toks.deep_view();
        toks.push(eow_string());
        proof {
            assert(toks.deep_view() =~= tfull.push(crate::symbols::eow()));
            assert(toks.deep_view() =~= tokens_of(text@));
        }
        apply_merges(&self.merges, &mut toks);
        let ghost red = self.encoded_syms(text@);
        proof {
            assert(toks.deep_view() == red);
        }
        let mut ids: Vec<u32> = Vec::new();
        let mut k: usize = 0;
        while k < toks.len()
            invariant
                k <= toks@.len(),
                toks.deep_view() == red,
                red == self.encoded_syms(text@),
                vdv == self.vocab_view(),
                self.vocab@.len() < 0x1_0000_0000,
                ids@.len() == k,
                forall|j: int| 0 <= j < k ==> sym_id(vdv, red[j]) >= 0,
                forall|j: int| 0 <= j < k ==> ids@[j] as int == sym_id(vdv, red[j]),
            decreases toks@.len() - k,
        {
            proof {
                assert(toks.deep_view()[k as int] == toks@[k as int]@);
            }
            match find_symbol(&self.vocab, &toks[k]) {
                Some(id) => {
                    ids.push(id as u32);
                },
                None => {
                    let msg = String::from_str("Token '").concat(toks[k].as_str()).concat(
                        "' not in vocabulary",
                    );
                    proof {
                        lemma_first_missing(vdv, red);
                        let j = first_missing(vdv, red);
                        assert(sym_id(vdv, red[k as int]) < 0);
                        if j == -1 {
                            assert(sym_id(vdv, red[k as int]) >= 0);
                        }
                        if 0 <= j < k as int {
                            assert(sym_id(vdv, red[j]) >= 0);
                        }
                        if j > k as int {
                            assert(sym_id(vdv, red[k as int]) >= 0);
                        }
                        assert(j == k as int);
                        assert(msg@ == encode_err_view(red[j]));
                    }
                    return Err(TokenizerError::VocabError(msg));
                },
            }
            k = k + 1;
        }
        proof {
            lemma_first_missing(vdv, red);
        }
        Ok(ids)
    }

    /// Decodes a sequence of ids: each id mapped to its symbol, the
    /// symbols spelled out in order, every end-of-word marker replaced by
    /// a single space, and leading and trailing whitespace trimmed. Fails
    /// on the first id with no symbol, naming it; no partial result is
    /// returned.
    pub fn decode(&self, ids: &[u32]) -> (r: Result<String, TokenizerError>)
        ensures
            r is Ok <==> first_bad_id(ids@, self.vocab_view().len()) == -1,
            r matches Ok(s) ==> s@ == self.decoded_text(ids@),
            r matches Err(e) ==> ({
                let j = first_bad_id(ids@, self.vocab_view().len());
                &&& j >= 0
                &&& e matches TokenizerError::VocabError(m) && m@ == decode_err_view(ids@[j])
            }),
    {
        let ghost vdv = self.vocab_view();
        let mut joined = String::new();
        let mut k: usize = 0;
        proof {
            assert(syms_of_ids(vdv, ids@.take(0)) =~= Seq::<Seq<char>>::empty());
            assert(joined@ =~= cat_syms(syms_of_ids(vdv, ids@.take(0))));
        }
        while k < ids.len()
            invariant
                k <= ids@.len(),
                vdv == self.vocab_view(),
                forall|j: int| 0 <= j < k ==> ids@[j] < vdv.len(),
                joined@ == cat_syms(syms_of_ids(vdv, ids@.take(k as int))),
            decreases ids@.len() - k,
        {
            let id = ids[k] as usize;
            if id < self.vocab.len() {
                joined.append(self.vocab[id].as_str());
                proof {
                    assert(self.vocab@[id as int]@ == vdv[id as int]);
                    let pre = syms_of_ids(vdv, ids@.take(k as int));
                    let nxt = syms_of_ids(vdv, ids@.take(k + 1));
                    assert(nxt =~= pre + seq![vdv[ids@[k as int] as int]]);
                    crate::symbols::lemma_cat_syms_append(pre, seq![vdv[ids@[k as int] as int]]);
                    crate::symbols::lemma_cat_syms_single(vdv[ids@[k as int] as int]);
                    assert(joined@ == cat_syms(nxt));
                }
            } else {
                let msg = String::from_str("ID '").concat(u32_to_string(ids[k]).as_str()).concat(
                    "' not found",
                );
                proof {
                    lemma_first_bad_id(ids@, vdv.len());
                    let j = first_bad_id(ids@, vdv.len());
                    assert(ids@[k as int] >= vdv.len());
                    if j == -1 {
                        assert(ids@[k as int] < vdv.len());
                    }
                    if 0 <= j < k as int {
                        assert(ids@[j] < vdv.len());
                    }
                    if j > k as int {
                        assert(ids@[k as int] < vdv.len());
                    }
                    assert(j == k as int);
                    assert(msg@ == decode_err_view(ids@[j]));
                }
                return Err(TokenizerError::VocabError(msg));
            }
            k = k + 1;
        }
        proof {
            lemma_first_bad_id(ids@, vdv.len());
            assert(ids@.take(k as int) =~= ids@);
        }
        let replaced = replace_marker(joined.as_str());
        let trimmed = trim_str(replaced.as_str());
        Ok(trimmed)
    }
}

} // verus!
