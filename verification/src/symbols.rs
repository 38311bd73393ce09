//! Symbols and symbol sequences: the end-of-word marker, the initial
//! segmentation of text into one symbol per codepoint, lookup of a symbol's
//! id in a vocabulary, and the marker-replacement and trimming steps of
//! decoding.

use vstd::prelude::*;
use vstd::string::StrSliceExecFns;
use vstd::string::StringExecFns;
use crate::chars::is_ws;
use crate::chars::is_ws_char;

verus! {

/// The end-of-word marker appended to every word.
pub open spec fn eow() -> Seq<char> {
    seq!['<', '/', 'w', '>']
}

/// Builds the end-of-word marker as a string.
pub fn eow_string() -> (r: String)
    ensures
        r@ == eow(),
{
    proof {
        reveal_strlit("</w>");
    }
    let r: &str = "</w>";
    proof {
        assert(r@ =~= eow());
    }
    r.to_owned()
}

/// The initial segmentation of a text: one symbol per codepoint, then the
/// end-of-word marker.
pub open spec fn tokens_of(text: Seq<char>) -> Seq<Seq<char>> {
    Seq::new(text.len(), |i: int| seq![text[i]]).push(eow())
}

/// Whether a vocabulary contains a symbol.
pub open spec fn vocab_has(vocab: Seq<Seq<char>>, s: Seq<char>) -> bool {
    exists|j: int| 0 <= j < vocab.len() && vocab[j] == s
}

/// The id of a symbol: the index of its first occurrence in the vocabulary,
/// or -1 when it is absent.
pub open spec fn sym_id(vocab: Seq<Seq<char>>, s: Seq<char>) -> int
    decreases vocab.len(),
{
    if vocab.len() == 0 {
        -1
    } else if vocab[0] == s {
        0
    } else {
        let r = sym_id(vocab.drop_first(), s);
        if r < 0 {
            -1
        } else {
            r + 1
        }
    }
}

/// `sym_id` returns -1 exactly when the symbol is absent, and otherwise
/// the index of the symbol's first occurrence.
pub proof fn lemma_sym_id(vocab: Seq<Seq<char>>, s: Seq<char>)
    ensures
        sym_id(vocab, s) == -1 <==> !vocab_has(vocab, s),
        sym_id(vocab, s) != -1 ==> 0 <= sym_id(vocab, s) < vocab.len() && vocab[sym_id(vocab, s)]
            == s && (forall|j: int| 0 <= j < sym_id(vocab, s) ==> vocab[j] != s),
    decreases vocab.len(),
{
    if vocab.len() == 0 {
    } else if vocab[0] == s {
    } else {
        lemma_sym_id(vocab.drop_first(), s);
        let tail = vocab.drop_first();
        assert(forall|j: int| 0 <= j < tail.len() ==> tail[j] == vocab[j + 1]);
        if sym_id(tail, s) == -1 {
            assert forall|j: int| 0 <= j < vocab.len() implies vocab[j] != s by {
                if j > 0 {
                    assert(vocab[j] == tail[j - 1]);
                }
            }
        } else {
            let r = sym_id(tail, s);
            assert(vocab[r + 1] == tail[r]);
            assert forall|j: int| 0 <= j < r + 1 implies vocab[j] != s by {
                if j > 0 {
                    assert(vocab[j] == tail[j - 1]);
                }
            }
        }
    }
}

/// Finds the id of a symbol in the vocabulary by linear search.
pub fn find_symbol(vocab: &Vec<String>, s: &String) -> (r: Option<usize>)
    ensures
        match r {
            Some(i) => i < vocab@.len() && sym_id(vocab.deep_view(), s@) == i as int,
            None => sym_id(vocab.deep_view(), s@) == -1,
        },
{
    let ghost vdv = vocab.deep_view();
    let mut i: usize = 0;
    while i < vocab.len()
        invariant
            i <= vocab@.len(),
            vdv == vocab.deep_view(),
            forall|j: int| 0 <= j < i ==> vdv[j] != s@,
        decreases vocab@.len() - i,
    {
        if vocab[i] == *s {
            proof {
                assert(vdv[i as int] == vocab@[i as int]@);
                assert(vdv[i as int] == s@);
                lemma_sym_id(vdv, s@);
                let r = sym_id(vdv, s@);
                assert(r != -1);
                if r < i as int {
                    assert(vdv[r] != s@);
                }
                if r > i as int {
                    assert(vdv[i as int] != s@);
                }
            }
            return Some(i);
        }
        proof {
            assert(vdv[i as int] == vocab@[i as int]@);
        }
        i = i + 1;
    }
    proof {
        assert(forall|j: int| 0 <= j < vdv.len() ==> vdv[j] != s@);
        lemma_sym_id(vdv, s@);
    }
    None
}

/// The concatenation of a sequence of symbols.
pub open spec fn cat_syms(syms: Seq<Seq<char>>) -> Seq<char>
    decreases syms.len(),
{
    if syms.len() == 0 {
        Seq::empty()
    } else {
        syms[0] + cat_syms(syms.drop_first())
    }
}

/// Concatenation distributes over appending symbol sequences.
pub proof fn lemma_cat_syms_append(a: Seq<Seq<char>>, b: Seq<Seq<char>>)
    ensures
        cat_syms(a + b) == cat_syms(a) + cat_syms(b),
    decreases a.len(),
{
    if a.len() == 0 {
        assert(a + b =~= b);
        assert(cat_syms(a) + cat_syms(b) =~= cat_syms(b));
    } else {
        lemma_cat_syms_append(a.drop_first(), b);
        assert((a + b).drop_first() =~= a.drop_first() + b);
        assert((a + b)[0] == a[0]);
        assert(a[0] + (cat_syms(a.drop_first()) + cat_syms(b)) =~= (a[0] + cat_syms(
            a.drop_first(),
        )) + cat_syms(b));
    }
}

/// The concatenation of a single symbol is that symbol.
pub proof fn lemma_cat_syms_single(s: Seq<char>)
    ensures
        cat_syms(seq![s]) == s,
{
    let one = seq![s];
    assert(one.len() == 1);
    assert(one[0] == s);
    assert(one.drop_first() =~= Seq::<Seq<char>>::empty());
    assert(cat_syms(one.drop_first()) =~= Seq::<char>::empty());
    assert(cat_syms(one) == s + cat_syms(one.drop_first()));
    assert(s + Seq::<char>::empty() =~= s);
}

/// Replaces every (leftmost-first, non-overlapping) occurrence of the
/// end-of-word marker with a single space.
pub open spec fn replace_eow(s: Seq<char>) -> Seq<char>
    decreases s.len(),
{
    if s.len() == 0 {
        Seq::empty()
    } else if s.len() >= 4 && s.subrange(0, 4) == eow() {
        seq![' '] + replace_eow(s.skip(4))
    } else {
        seq![s[0]] + replace_eow(s.skip(1))
    }
}

/// Removes leading whitespace.
pub open spec fn trim_start(s: Seq<char>) -> Seq<char>
    decreases s.len(),
{
    if s.len() > 0 && is_ws(s[0]) {
        trim_start(s.drop_first())
    } else {
        s
    }
}

/// Removes trailing whitespace.
pub open spec fn trim_end(s: Seq<char>) -> Seq<char>
    decreases s.len(),
{
    if s.len() > 0 && is_ws(s.last()) {
        trim_end(s.drop_last())
    } else {
        s
    }
}

/// Removes leading and trailing whitespace.
pub open spec fn trim_ws(s: Seq<char>) -> Seq<char> {
    trim_end(trim_start(s))
}

/// Trimming the start removes exactly the maximal whitespace prefix.
pub proof fn lemma_trim_start_skip(s: Seq<char>, a: int)
    requires
        0 <= a <= s.len(),
        forall|j: int| 0 <= j < a ==> is_ws(s[j]),
        a < s.len() ==> !is_ws(s[a]),
    ensures
        trim_start(s) == s.skip(a),
    decreases a,
{
    if a == 0 {
        assert(s.skip(0) =~= s);
    } else {
        let t = s.drop_first();
        assert(forall|j: int| 0 <= j < a - 1 ==> t[j] == s[j + 1] && is_ws(s[j + 1]));
        lemma_trim_start_skip(t, a - 1);
        assert(t.skip(a - 1) =~= s.skip(a));
    }
}

/// Trimming the end removes exactly the maximal whitespace suffix.
pub proof fn lemma_trim_end_take(s: Seq<char>, b: int)
    requires
        0 <= b <= s.len(),
        forall|j: int| b <= j < s.len() ==> is_ws(s[j]),
        b > 0 ==> !is_ws(s[b - 1]),
    ensures
        trim_end(s) == s.take(b),
    decreases s.len() - b,
{
    if b == s.len() {
        assert(s.take(b) =~= s);
    } else {
        assert(is_ws(s.last()));
        let t = s.drop_last();
        assert(forall|j: int| b <= j < t.len() ==> t[j] == s[j]);
        lemma_trim_end_take(t, b);
        assert(t.take(b) =~= s.take(b));
    }
}

/// Replaces every occurrence of the end-of-word marker in a string with a
/// single space.
pub fn replace_marker(s: &str) -> (r: String)
    ensures
        r@ == replace_eow(s@),
{
    let n = s.unicode_len();
    let mut out = String::new();
    let mut i: usize = 0;
    proof {
        assert(s@.skip(0) =~= s@);
        assert(out@ + replace_eow(s@) =~= replace_eow(s@));
    }
    while i < n
        invariant
            i <= n,
            n == s@.len(),
            replace_eow(s@) == out@ + replace_eow(s@.skip(i as int)),
        decreases n - i,
    {
        let ghost rest = s@.skip(i as int);
        let marker = n - i >= 4 && s.get_char(i) == '<' && s.get_char(i + 1) == '/' && s.get_char(
            i + 2,
        ) == 'w' && s.get_char(i + 3) == '>';
        if marker {
            proof {
                assert(rest.subrange(0, 4) =~= eow());
                reveal_strlit(" ");
                assert(" "@ =~= seq![' ']);
            }
            out.append(" ");
            i = i + 4;
            proof {
                assert(rest.skip(4) =~= s@.skip(i as int));
                assert(out@ + replace_eow(s@.skip(i as int)) =~= replace_eow(s@));
            }
        } else {
            proof {
                if rest.len() >= 4 && rest.subrange(0, 4) == eow() {
                    assert(rest.subrange(0, 4)[0] == s@[i as int]);
                    assert(rest.subrange(0, 4)[1] == s@[i + 1]);
                    assert(rest.subrange(0, 4)[2] == s@[i + 2]);
                    assert(rest.subrange(0, 4)[3] == s@[i + 3]);
                    assert(false);
                }
            }
            let piece = s.substring_char(i, i + 1);
            out.append(piece);
            i = i + 1;
            proof {
                assert(piece@ =~= seq![rest[0]]);
                assert(rest.skip(1) =~= s@.skip(i as int));
                assert(out@ + replace_eow(s@.skip(i as int)) =~= replace_eow(s@));
            }
        }
    }
    proof {
        assert(s@.skip(n as int).len() == 0);
        assert(out@ =~= replace_eow(s@));
    }
    out
}

/// Removes leading and trailing whitespace from a string.
pub fn trim_str(s: &str) -> (r: String)
    ensures
        r@ == trim_ws(s@),
{
    let n = s.unicode_len();
    let mut a: usize = 0;
    while a < n && is_ws_char(s.get_char(a))
        invariant
            a <= n,
            n == s@.len(),
            forall|j: int| 0 <= j < a ==> is_ws(s@[j]),
        decreases n - a,
    {
        a = a + 1;
    }
    proof {
        lemma_trim_start_skip(s@, a as int);
    }
    if a == n {
        let empty = String::new();
        proof {
            assert(s@.skip(a as int).len() == 0);
            assert(trim_end(s@.skip(a as int)) == s@.skip(a as int));
            assert(empty@ =~= s@.skip(a as int));
        }
        return empty;
    }
    let mut b: usize = n;
    while b > a + 1 && is_ws_char(s.get_char(b - 1))
        invariant
            a < b <= n,
            n == s@.len(),
            forall|j: int| b <= j < n ==> is_ws(s@[j]),
        decreases b,
    {
        b = b - 1;
    }
    // the first symbol is not whitespace, so if the scan stopped at a + 1
    // with a whitespace character there, it would have stopped earlier
    let r = s.substring_char(a, b);
    proof {
        let rest = s@.skip(a as int);
        assert(!is_ws(rest[0]));
        assert(forall|j: int| b - a <= j < rest.len() ==> rest[j] == s@[j + a] && is_ws(
            s@[j + a],
        ));
        assert(rest[b - a - 1] == s@[b - 1]);
        lemma_trim_end_take(rest, b - a);
        assert(rest.take(b - a) =~= s@.subrange(a as int, b as int));
    }
    r.to_owned()
}

} // verus!
