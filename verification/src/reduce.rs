//! Priority-ordered merge reduction: repeatedly apply, among all learned
//! rules that match some adjacent position, the rule that was learned
//! earliest, at its leftmost match, until no rule matches.

use vstd::prelude::*;
use vstd::string::StringExecFns;
use crate::symbols::cat_syms;
use crate::symbols::lemma_cat_syms_append;
use crate::symbols::lemma_cat_syms_single;
use crate::symbols::vocab_has;

verus! {

/// Whether a rule's pair of symbols stands adjacent at position `i`.
pub open spec fn pair_matches_at(
    toks: Seq<Seq<char>>,
    p: (Seq<char>, Seq<char>),
    i: int,
) -> bool {
    0 <= i && i + 1 < toks.len() && toks[i] == p.0 && toks[i + 1] == p.1
}

/// Whether a rule matches anywhere in the sequence.
pub open spec fn pair_applicable(toks: Seq<Seq<char>>, p: (Seq<char>, Seq<char>)) -> bool {
    exists|i: int| pair_matches_at(toks, p, i)
}

/// The leftmost position at or after `i` where the pair matches, or -1.
pub open spec fn match_from(toks: Seq<Seq<char>>, p: (Seq<char>, Seq<char>), i: int) -> int
    decreases toks.len() - i,
{
    if i < 0 || i + 1 >= toks.len() {
        -1
    } else if toks[i] == p.0 && toks[i + 1] == p.1 {
        i
    } else {
        match_from(toks, p, i + 1)
    }
}

/// The leftmost position where the pair matches, or -1.
pub open spec fn match_pos(toks: Seq<Seq<char>>, p: (Seq<char>, Seq<char>)) -> int {
    match_from(toks, p, 0)
}

/// `match_from` finds the leftmost match at or after its start, and -1
/// exactly when there is none.
pub proof fn lemma_match_from(toks: Seq<Seq<char>>, p: (Seq<char>, Seq<char>), i: int)
    requires
        0 <= i,
    ensures
        match_from(toks, p, i) == -1 ==> forall|j: int|
            i <= j ==> !pair_matches_at(toks, p, j),
        match_from(toks, p, i) != -1 ==> i <= match_from(toks, p, i) && pair_matches_at(
            toks,
            p,
            match_from(toks, p, i),
        ) && (forall|j: int| i <= j < match_from(toks, p, i) ==> !pair_matches_at(toks, p, j)),
    decreases toks.len() - i,
{
    if i + 1 >= toks.len() {
    } else if toks[i] == p.0 && toks[i + 1] == p.1 {
    } else {
        lemma_match_from(toks, p, i + 1);
    }
}

/// The index of the earliest-learned rule, at or after `r`, that matches
/// somewhere, or -1.
pub open spec fn rule_from(
    rules: Seq<(Seq<char>, Seq<char>)>,
    toks: Seq<Seq<char>>,
    r: int,
) -> int
    decreases rules.len() - r,
{
    if r < 0 || r >= rules.len() {
        -1
    } else if pair_applicable(toks, rules[r]) {
        r
    } else {
        rule_from(rules, toks, r + 1)
    }
}

/// The index of the earliest-learned rule that matches somewhere, or -1.
pub open spec fn first_rule(rules: Seq<(Seq<char>, Seq<char>)>, toks: Seq<Seq<char>>) -> int {
    rule_from(rules, toks, 0)
}

/// `rule_from` finds the earliest applicable rule at or after its start,
/// and -1 exactly when there is none.
pub proof fn lemma_rule_from(rules: Seq<(Seq<char>, Seq<char>)>, toks: Seq<Seq<char>>, r: int)
    requires
        0 <= r,
    ensures
        rule_from(rules, toks, r) == -1 ==> forall|q: int|
            r <= q < rules.len() ==> !pair_applicable(toks, rules[q]),
        rule_from(rules, toks, r) != -1 ==> r <= rule_from(rules, toks, r) < rules.len()
            && pair_applicable(toks, rules[rule_from(rules, toks, r)]) && (forall|q: int|
            r <= q < rule_from(rules, toks, r) ==> !pair_applicable(toks, rules[q])),
    decreases rules.len() - r,
{
    if r >= rules.len() {
    } else if pair_applicable(toks, rules[r]) {
    } else {
        lemma_rule_from(rules, toks, r + 1);
    }
}

/// The sequence after merging the two symbols at positions `i` and `i + 1`
/// into their concatenation.
pub open spec fn apply_merge_at(toks: Seq<Seq<char>>, i: int) -> Seq<Seq<char>> {
    toks.subrange(0, i) + seq![toks[i] + toks[i + 1]] + toks.subrange(i + 2, toks.len() as int)
}

/// The fully reduced symbol sequence: apply the earliest-learned applicable
/// rule at its leftmost match, and repeat until no rule applies.
pub open spec fn reduce(rules: Seq<(Seq<char>, Seq<char>)>, toks: Seq<Seq<char>>) -> Seq<
    Seq<char>,
>
    decreases toks.len(),
{
    let r = first_rule(rules, toks);
    if r < 0 {
        toks
    } else {
        let i = match_pos(toks, rules[r]);
        proof {
            lemma_rule_from(rules, toks, 0);
            lemma_match_from(toks, rules[r], 0);
        }
        reduce(rules, apply_merge_at(toks, i))
    }
}

/// A single reduction step does not change what the symbols spell out.
pub proof fn lemma_apply_merge_cat(toks: Seq<Seq<char>>, i: int)
    requires
        0 <= i,
        i + 1 < toks.len(),
    ensures
        cat_syms(apply_merge_at(toks, i)) == cat_syms(toks),
{
    let n = toks.len() as int;
    let pre = toks.subrange(0, i);
    let mid = seq![toks[i] + toks[i + 1]];
    let suf = toks.subrange(i + 2, n);
    lemma_cat_syms_append(pre + mid, suf);
    lemma_cat_syms_append(pre, mid);
    lemma_cat_syms_single(toks[i] + toks[i + 1]);
    let two = seq![toks[i]] + seq![toks[i + 1]];
    lemma_cat_syms_append(pre + two, suf);
    lemma_cat_syms_append(pre, two);
    lemma_cat_syms_append(seq![toks[i]], seq![toks[i + 1]]);
    lemma_cat_syms_single(toks[i]);
    lemma_cat_syms_single(toks[i + 1]);
    assert(pre + two + suf =~= toks);
    assert(cat_syms(apply_merge_at(toks, i)) =~= cat_syms(toks));
}

/// Reduction does not change what the symbols spell out.
pub proof fn lemma_reduce_cat(rules: Seq<(Seq<char>, Seq<char>)>, toks: Seq<Seq<char>>)
    ensures
        cat_syms(reduce(rules, toks)) == cat_syms(toks),
    decreases toks.len(),
{
    let r = first_rule(rules, toks);
    if r >= 0 {
        lemma_rule_from(rules, toks, 0);
        lemma_match_from(toks, rules[r], 0);
        let i = match_pos(toks, rules[r]);
        lemma_apply_merge_cat(toks, i);
        lemma_reduce_cat(rules, apply_merge_at(toks, i));
    }
}

/// Reduction never lengthens the sequence.
pub proof fn lemma_reduce_len(rules: Seq<(Seq<char>, Seq<char>)>, toks: Seq<Seq<char>>)
    ensures
        reduce(rules, toks).len() <= toks.len(),
    decreases toks.len(),
{
    let r = first_rule(rules, toks);
    if r >= 0 {
        lemma_rule_from(rules, toks, 0);
        lemma_match_from(toks, rules[r], 0);
        let i = match_pos(toks, rules[r]);
        lemma_reduce_len(rules, apply_merge_at(toks, i));
    }
}

/// When no rule matches anywhere, reduction leaves the sequence unchanged.
pub proof fn lemma_reduce_noop(rules: Seq<(Seq<char>, Seq<char>)>, toks: Seq<Seq<char>>)
    requires
        forall|q: int| 0 <= q < rules.len() ==> !pair_applicable(toks, rules[q]),
    ensures
        reduce(rules, toks) == toks,
{
    lemma_rule_from(rules, toks, 0);
    if first_rule(rules, toks) >= 0 {
        assert(false);
    }
}

/// If every starting symbol and every rule's merged symbol is in the
/// vocabulary, every symbol of the reduced sequence is too.
pub proof fn lemma_reduce_in_vocab(
    rules: Seq<(Seq<char>, Seq<char>)>,
    toks: Seq<Seq<char>>,
    vocab: Seq<Seq<char>>,
)
    requires
        forall|q: int| 0 <= q < rules.len() ==> vocab_has(vocab, rules[q].0 + rules[q].1),
        forall|k: int| 0 <= k < toks.len() ==> vocab_has(vocab, toks[k]),
    ensures
        forall|k: int|
            0 <= k < reduce(rules, toks).len() ==> vocab_has(vocab, reduce(rules, toks)[k]),
    decreases toks.len(),
{
    let r = first_rule(rules, toks);
    if r >= 0 {
        lemma_rule_from(rules, toks, 0);
        lemma_match_from(toks, rules[r], 0);
        let i = match_pos(toks, rules[r]);
        let next = apply_merge_at(toks, i);
        assert forall|k: int| 0 <= k < next.len() implies vocab_has(vocab, next[k]) by {
            if k < i {
                assert(next[k] == toks[k]);
            } else if k == i {
                assert(next[k] == toks[i] + toks[i + 1]);
                assert(toks[i] == rules[r].0 && toks[i + 1] == rules[r].1);
            } else {
                assert(next[k] == toks[k + 1]);
            }
        }
        lemma_reduce_in_vocab(rules, next, vocab);
        assert(reduce(rules, toks) == reduce(rules, next));
    }
}

/// Finds the leftmost position where the pair stands adjacent.
fn find_match(toks: &Vec<String>, left: &String, right: &String) -> (r: Option<usize>)
    ensures
        match r {
            Some(i) => i + 1 < toks@.len() && match_pos(toks.deep_view(), (left@, right@)) == i
                as int,
            None => match_pos(toks.deep_view(), (left@, right@)) == -1,
        },
{
    let ghost tdv = toks.deep_view();
    let ghost p = (left@, right@);
    let mut i: usize = 0;
    while i < toks.len() && i + 1 < toks.len()
        invariant
            tdv == toks.deep_view(),
            p == (left@, right@),
            i <= toks@.len(),
            forall|j: int| 0 <= j < i ==> !pair_matches_at(tdv, p, j),
        decreases toks@.len() - i,
    {
        if toks[i] == *left && toks[i + 1] == *right {
            proof {
                assert(tdv[i as int] == toks@[i as int]@);
                assert(tdv[i + 1] == toks@[i + 1]@);
                assert(pair_matches_at(tdv, p, i as int));
                lemma_match_from(tdv, p, 0);
                let m = match_pos(tdv, p);
                if m == -1 {
                    assert(!pair_matches_at(tdv, p, i as int));
                }
                if 0 <= m < i as int {
                    assert(!pair_matches_at(tdv, p, m));
                }
                if m > i as int {
                    assert(!pair_matches_at(tdv, p, i as int));
                }
            }
            return Some(i);
        }
        proof {
            assert(tdv[i as int] == toks@[i as int]@);
            assert(tdv[i + 1] == toks@[i + 1]@);
        }
        i = i + 1;
    }
    proof {
        assert(forall|j: int| #![auto] !(0 <= j && j + 1 < tdv.len()) ==> !pair_matches_at(tdv, p, j));
        assert(forall|j: int| 0 <= j < i ==> !pair_matches_at(tdv, p, j));
        assert(forall|j: int| !pair_matches_at(tdv, p, j));
        lemma_match_from(tdv, p, 0);
        if match_pos(tdv, p) != -1 {
            assert(pair_matches_at(tdv, p, match_pos(tdv, p)));
        }
    }
    None
}

/// Finds the earliest-learned rule that matches somewhere, with its
/// leftmost match position.
fn find_first_rule(rules: &Vec<(String, String)>, toks: &Vec<String>) -> (r: Option<(
    usize,
    usize,
)>)
    ensures
        match r {
            Some(pair) => pair.0 < rules@.len() && pair.1 + 1 < toks@.len() && first_rule(
                rules.deep_view(),
                toks.deep_view(),
            ) == pair.0 as int && match_pos(
                toks.deep_view(),
                rules.deep_view()[pair.0 as int],
            ) == pair.1 as int,
            None => first_rule(rules.deep_view(), toks.deep_view()) == -1,
        },
{
    let ghost rdv = rules.deep_view();
    let ghost tdv = toks.deep_view();
    let mut q: usize = 0;
    while q < rules.len()
        invariant
            rdv == rules.deep_view(),
            tdv == toks.deep_view(),
            q <= rules@.len(),
            forall|j: int| 0 <= j < q ==> !pair_applicable(tdv, rdv[j]),
        decreases rules@.len() - q,
    {
        proof {
            assert(rdv[q as int] == (rules@[q as int].0@, rules@[q as int].1@));
        }
        match find_match(toks, &rules[q].0, &rules[q].1) {
            Some(i) => {
                proof {
                    lemma_match_from(tdv, rdv[q as int], 0);
                    assert(pair_matches_at(tdv, rdv[q as int], i as int));
                    lemma_rule_from(rdv, tdv, 0);
                    let f = first_rule(rdv, tdv);
                    if f == -1 {
                        assert(!pair_applicable(tdv, rdv[q as int]));
                    }
                    if 0 <= f < q as int {
                        assert(!pair_applicable(tdv, rdv[f]));
                    }
                    if f > q as int {
                        assert(!pair_applicable(tdv, rdv[q as int]));
                    }
                }
                return Some((q, i));
            },
            None => {
                proof {
                    lemma_match_from(tdv, rdv[q as int], 0);
                    if pair_applicable(tdv, rdv[q as int]) {
                        let j = choose|j: int| pair_matches_at(tdv, rdv[q as int], j);
                        assert(!pair_matches_at(tdv, rdv[q as int], j));
                    }
                }
            },
        }
        q = q + 1;
    }
    proof {
        lemma_rule_from(rdv, tdv, 0);
        let f = first_rule(rdv, tdv);
        if f != -1 {
            assert(!pair_applicable(tdv, rdv[f]));
        }
    }
    None
}

/// Applies the learned rules to a symbol sequence until none matches,
/// always preferring the earliest-learned applicable rule at its leftmost
/// match.
pub fn apply_merges(rules: &Vec<(String, String)>, toks: &mut Vec<String>)
    ensures
        final(toks).deep_view() == reduce(rules.deep_view(), old(toks).deep_view()),
{
    let ghost rdv = rules.deep_view();
    let ghost orig = toks.deep_view();
    proof {
        assert(orig == old(toks).deep_view());
    }
    loop
        invariant
            rdv == rules.deep_view(),
            orig == old(toks).deep_view(),
            reduce(rdv, toks.deep_view()) == reduce(rdv, orig),
        decreases toks@.len(),
    {
        let ghost prev = toks.deep_view();
        match find_first_rule(rules, toks) {
            None => {
                proof {
                    assert(reduce(rdv, prev) == prev);
                }
                return ;
            },
            Some((q, i)) => {
                let n = toks.len();
                proof {
                    lemma_rule_from(rdv, prev, 0);
                    lemma_match_from(prev, rdv[q as int], 0);
                    assert(pair_matches_at(prev, rdv[q as int], i as int));
                    assert(i + 1 < n);
                }
                let merged = rules[q].0.clone().concat(rules[q].1.as_str());
                proof {
                    assert(merged@ == rdv[q as int].0 + rdv[q as int].1);
                }
                toks[i] = merged;
                toks.remove(i + 1);
                proof {
                    assert(rdv[q as int].0 == prev[i as int] && rdv[q as int].1 == prev[i + 1]);
                    assert(toks.deep_view() =~= apply_merge_at(prev, i as int));
                    assert(reduce(rdv, prev) == reduce(rdv, apply_merge_at(prev, i as int)));
                }
            },
        }
    }
}

} // verus!
