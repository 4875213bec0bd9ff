//! Anagram classes: the canonical sorted-letter key of a word, and the
//! index that groups the filtered dictionary by that key.
//!
//! Two words are anagrams exactly when their letters form the same
//! multiset, and that holds exactly when their sorted-letter keys are
//! equal ([`lemma_anagram_key`]).

use vstd::multiset::Multiset;
use vstd::prelude::*;
use vstd::relations::{sorted_by, total_ordering};
use vstd::seq_lib::lemma_sorted_unique;

use crate::letters::{chars_of, str_eq, string_of};
use crate::state::{matches_spec, GuessState};

verus! {

/// Code-point order on characters.
pub open spec fn char_le(a: char, b: char) -> bool {
    a as u32 <= b as u32
}

/// Inserts `c` into its place in an ascending sequence, from the back.
pub open spec fn insert_sorted(s: Seq<char>, c: char) -> Seq<char>
    decreases s.len(),
{
    if s.len() == 0 {
        seq![c]
    } else if char_le(s.last(), c) {
        s.push(c)
    } else {
        insert_sorted(s.drop_last(), c).push(s.last())
    }
}

/// The canonical anagram key of a word: its letters in ascending
/// code-point order.
pub open spec fn sorted_of(w: Seq<char>) -> Seq<char>
    decreases w.len(),
{
    if w.len() == 0 {
        Seq::empty()
    } else {
        insert_sorted(sorted_of(w.drop_last()), w.last())
    }
}

proof fn lemma_insert_sorted(s: Seq<char>, c: char)
    ensures
        insert_sorted(s, c).to_multiset() == s.to_multiset().insert(c),
        sorted_by(s, |a: char, b: char| char_le(a, b)) ==> sorted_by(
            insert_sorted(s, c),
            |a: char, b: char| char_le(a, b),
        ),
        insert_sorted(s, c).len() == s.len() + 1,
    decreases s.len(),
{
    broadcast use vstd::seq_lib::group_to_multiset_ensures;

    let leq = |a: char, b: char| char_le(a, b);
    if s.len() == 0 {
        assert(seq![c] =~= Seq::<char>::empty().push(c));
        assert(Seq::<char>::empty().push(c).to_multiset() =~= Seq::<char>::empty().to_multiset().insert(c));
        assert(Seq::<char>::empty().to_multiset() =~= Multiset::<char>::empty());
        assert(sorted_by(seq![c], leq));
    } else if char_le(s.last(), c) {
        assert(s.push(c).to_multiset() =~= s.to_multiset().insert(c));
        if sorted_by(s, leq) {
            assert forall|a: int, b: int| 0 <= a < b < s.push(c).len() implies leq(
                s.push(c)[a],
                s.push(c)[b],
            ) by {
                if b < s.len() as int {
                } else {
                    if a < s.len() as int - 1 {
                        assert(leq(s[a], s.last()));
                    }
                }
            }
        }
    } else {
        lemma_insert_sorted(s.drop_last(), c);
        let inner = insert_sorted(s.drop_last(), c);
        assert(inner.push(s.last()).to_multiset() =~= inner.to_multiset().insert(s.last()));
        assert(s =~= s.drop_last().push(s.last()));
        assert(s.drop_last().push(s.last()).to_multiset() =~= s.drop_last().to_multiset().insert(
            s.last(),
        ));
        assert(inner.push(s.last()).to_multiset() =~= s.to_multiset().insert(c));
        if sorted_by(s, leq) {
            assert(sorted_by(s.drop_last(), leq));
            assert(sorted_by(inner, leq));
            // every element of `inner` is a former element of
            // `s.drop_last()`, or `c`; both lie at or below `s.last()`
            assert forall|a: int, b: int| 0 <= a < b < inner.push(s.last()).len() implies leq(
                inner.push(s.last())[a],
                inner.push(s.last())[b],
            ) by {
                if b < inner.len() as int {
                } else {
                    assert(inner.to_multiset().contains(inner[a]));
                    if inner[a] == c {
                        assert(leq(c, s.last()));
                    } else {
                        assert(s.drop_last().to_multiset().contains(inner[a]));
                        let w = choose|w: int|
                            0 <= w < s.drop_last().len() && s.drop_last()[w] == inner[a];
                        assert(s[w] == inner[a]);
                        assert(leq(s[w], s.last()));
                    }
                }
            }
        }
    }
}

/// The sorted key keeps exactly the letters of the word, in ascending
/// order.
pub proof fn lemma_sorted_of(w: Seq<char>)
    ensures
        sorted_of(w).to_multiset() == w.to_multiset(),
        sorted_by(sorted_of(w), |a: char, b: char| char_le(a, b)),
        sorted_of(w).len() == w.len(),
    decreases w.len(),
{
    broadcast use vstd::seq_lib::group_to_multiset_ensures;

    if w.len() == 0 {
        assert(sorted_by(Seq::<char>::empty(), |a: char, b: char| char_le(a, b)));
    } else {
        lemma_sorted_of(w.drop_last());
        lemma_insert_sorted(sorted_of(w.drop_last()), w.last());
        assert(w =~= w.drop_last().push(w.last()));
        assert(w.drop_last().push(w.last()).to_multiset() =~= w.drop_last().to_multiset().insert(
            w.last(),
        ));
    }
}

/// Two words have the same anagram key exactly when their letters form
/// the same multiset — that is, when they are anagrams.
pub proof fn lemma_anagram_key(w1: Seq<char>, w2: Seq<char>)
    ensures
        (sorted_of(w1) == sorted_of(w2)) <==> (w1.to_multiset() == w2.to_multiset()),
{
    lemma_sorted_of(w1);
    lemma_sorted_of(w2);
    let leq = |a: char, b: char| char_le(a, b);
    assert(total_ordering(leq)) by {
        assert forall|a: char, b: char| #[trigger] leq(a, b) && #[trigger] leq(b, a) implies a
            == b by {
            assert(a as u32 == b as u32);
            vstd::utf8::char_u32_cast(a, a as u32);
            vstd::utf8::char_u32_cast(b, b as u32);
        }
        assert(forall|a: char| #[trigger] leq(a, a));
        assert(forall|a: char, b: char, c: char|
            #[trigger] leq(a, b) && #[trigger] leq(b, c) ==> leq(a, c));
        assert(forall|a: char, b: char| #[trigger] leq(a, b) || #[trigger] leq(b, a));
    }
    if w1.to_multiset() == w2.to_multiset() {
        lemma_sorted_unique(sorted_of(w1), sorted_of(w2), leq);
    }
}

/// The letters of the word sorted ascending into a canonical string:
/// the word's anagram key.
pub fn sort_letters(word: &str) -> (r: String)
    ensures
        r@ == sorted_of(word@),
{
    let chars = chars_of(word);
    let mut out: Vec<char> = Vec::new();
    let mut i: usize = 0;
    proof {
        assert(word@.take(0) =~= Seq::<char>::empty());
    }
    while i < chars.len()
        invariant
            chars@ == word@,
            i <= chars@.len(),
            out@ == sorted_of(word@.take(i as int)),
        decreases chars@.len() - i,
    {
        let c = chars[i];
        let ghost before = out@;
        // scan from the back for the insertion point
        let mut p: usize = out.len();
        proof {
            assert(before.take(p as int) =~= before);
            assert(before.skip(p as int) =~= Seq::<char>::empty());
            assert(insert_sorted(before, c) =~= insert_sorted(before.take(p as int), c)
                + before.skip(p as int));
        }
        while p > 0 && (out[p - 1] as u32) > (c as u32)
            invariant
                out@ == before,
                p <= out@.len(),
                insert_sorted(before, c) == insert_sorted(before.take(p as int), c)
                    + before.skip(p as int),
            decreases p,
        {
            proof {
                let q = p as int;
                assert(before.take(q).last() == before[q - 1]);
                assert(before.take(q).drop_last() =~= before.take(q - 1));
                assert(insert_sorted(before.take(q), c) == insert_sorted(
                    before.take(q - 1),
                    c,
                ).push(before[q - 1]));
                assert(before.skip(q - 1) =~= seq![before[q - 1]] + before.skip(q));
                assert(insert_sorted(before.take(q - 1), c).push(before[q - 1]) + before.skip(q)
                    =~= insert_sorted(before.take(q - 1), c) + before.skip(q - 1));
            }
            p -= 1;
        }
        proof {
            let q = p as int;
            if p == 0 {
                assert(before.take(0) =~= Seq::<char>::empty());
                assert(insert_sorted(Seq::<char>::empty(), c) =~= seq![c]);
            } else {
                assert(before.take(q).last() == before[q - 1]);
                assert(char_le(before[q - 1], c));
                assert(insert_sorted(before.take(q), c) == before.take(q).push(c));
            }
            assert(insert_sorted(before, c) =~= before.insert(q, c));
        }
        out.insert(p, c);
        proof {
            assert(word@.take(i as int + 1).drop_last() =~= word@.take(i as int));
            assert(word@.take(i as int + 1).last() == word@[i as int]);
        }
        i += 1;
    }
    proof {
        assert(word@.take(chars@.len() as int) =~= word@);
    }
    string_of(&out)
}

/// The filtered dictionary grouped by anagram key: `keys` and `groups`
/// run in parallel, each group holding the distinct words that share
/// the key at the same slot.
pub struct CandidateIndex {
    pub keys: Vec<String>,
    pub groups: Vec<Vec<String>>,
}

/// Does a group hold this word?
pub open spec fn group_has(g: Seq<String>, w: Seq<char>) -> bool {
    exists|a: int| 0 <= a < g.len() && g[a]@ == w
}

impl CandidateIndex {
    /// Well-formedness: keys are pairwise distinct, each group is
    /// non-empty and duplicate-free, and every member's sorted-letter
    /// key is the group's key.
    pub open spec fn wf(self) -> bool {
        &&& self.keys@.len() == self.groups@.len()
        &&& forall|a: int, b: int|
            0 <= a < b < self.keys@.len() ==> self.keys@[a]@ != self.keys@[b]@
        &&& forall|k: int| 0 <= k < self.groups@.len() ==> self.groups@[k]@.len() > 0
        &&& forall|k: int, a: int, b: int|
            0 <= k < self.groups@.len() && 0 <= a < b < self.groups@[k]@.len()
                ==> self.groups@[k]@[a]@ != self.groups@[k]@[b]@
        &&& forall|k: int, a: int|
            0 <= k < self.groups@.len() && 0 <= a < self.groups@[k]@.len() ==> sorted_of(
                #[trigger] self.groups@[k]@[a]@,
            ) == self.keys@[k]@
    }

    /// Does any group hold this word?
    pub open spec fn contains_word(self, w: Seq<char>) -> bool {
        exists|k: int| 0 <= k < self.groups@.len() && group_has(#[trigger] self.groups@[k]@, w)
    }
}

/// Finds the slot of `key` among the keys, if any.
fn find_key(keys: &Vec<String>, key: &str) -> (r: Option<usize>)
    ensures
        match r {
            Some(k) => k < keys@.len() && keys@[k as int]@ == key@,
            None => forall|k: int| 0 <= k < keys@.len() ==> keys@[k]@ != key@,
        },
{
    let mut k: usize = 0;
    while k < keys.len()
        invariant
            k <= keys@.len(),
            forall|j: int| 0 <= j < k ==> keys@[j]@ != key@,
        decreases keys@.len() - k,
    {
        if str_eq(keys[k].as_str(), key) {
            return Some(k);
        }
        k += 1;
    }
    None
}

/// Does this group hold the word already?
fn group_contains(g: &Vec<String>, w: &str) -> (r: bool)
    ensures
        r == group_has(g@, w@),
{
    let mut a: usize = 0;
    while a < g.len()
        invariant
            a <= g@.len(),
            forall|j: int| 0 <= j < a ==> g@[j]@ != w@,
        decreases g@.len() - a,
    {
        if str_eq(g[a].as_str(), w) {
            assert(group_has(g@, w@)) by {
                assert(g@[a as int]@ == w@);
            }
            return true;
        }
        a += 1;
    }
    proof {
        if group_has(g@, w@) {
            let j = choose|j: int| 0 <= j < g@.len() && g@[j]@ == w@;
            assert(false);
        }
    }
    false
}

/// Builds the anagram index of the dictionary words that satisfy the
/// constraint state: a word stands in the index exactly when it occurs
/// in `words` and the matcher accepts it; it stands under its sorted-
/// letter key, once, however often the dictionary repeats it.
pub fn build_index(words: &Vec<String>, state: &GuessState) -> (idx: CandidateIndex)
    ensures
        idx.wf(),
        forall|w: Seq<char>|
            idx.contains_word(w) <==> exists|i: int|
                0 <= i < words@.len() && (#[trigger] words@[i]@) == w && matches_spec(state@, w),
{
    let mut idx = CandidateIndex { keys: Vec::new(), groups: Vec::new() };
    let mut i: usize = 0;
    while i < words.len()
        invariant
            i <= words@.len(),
            idx.wf(),
            forall|w: Seq<char>|
                idx.contains_word(w) <==> exists|j: int|
                    0 <= j < i && (#[trigger] words@[j]@) == w && matches_spec(state@, w),
        decreases words@.len() - i,
    {
        let ghost prev = idx;
        let word = &words[i];
        if state.accepts(word.as_str()) {
            let key = sort_letters(word.as_str());
            match find_key(&idx.keys, key.as_str()) {
                Some(k) => {
                    if !group_contains(&idx.groups[k], word.as_str()) {
                        let ghost oldg = idx.groups@[k as int]@;
                        idx.groups[k].push(word.clone());
                        proof {
                            assert(idx.groups@[k as int]@ == oldg.push(*word));
                            assert(idx.wf()) by {
                                assert(forall|a: int|
                                    0 <= a < oldg.len() ==> idx.groups@[k as int]@[a]
                                        == oldg[a]);
                            }
                            assert forall|w: Seq<char>| idx.contains_word(w) implies (
                            prev.contains_word(w) || w == word@) by {
                                let kk = choose|kk: int|
                                    0 <= kk < idx.groups@.len() && group_has(
                                        idx.groups@[kk]@,
                                        w,
                                    );
                                if kk == k as int {
                                    let a = choose|a: int|
                                        0 <= a < idx.groups@[kk]@.len()
                                            && idx.groups@[kk]@[a]@ == w;
                                    if a < oldg.len() {
                                        assert(group_has(prev.groups@[kk]@, w));
                                    }
                                } else {
                                    assert(group_has(prev.groups@[kk]@, w));
                                }
                            }
                            assert(idx.contains_word(word@)) by {
                                assert(idx.groups@[k as int]@[oldg.len() as int]@ == word@);
                                assert(group_has(idx.groups@[k as int]@, word@));
                            }
                            assert forall|w: Seq<char>| prev.contains_word(w) implies
                            idx.contains_word(w) by {
                                let kk = choose|kk: int|
                                    0 <= kk < prev.groups@.len() && group_has(
                                        prev.groups@[kk]@,
                                        w,
                                    );
                                if kk == k as int {
                                    let a = choose|a: int|
                                        0 <= a < oldg.len() && oldg[a]@ == w;
                                    assert(idx.groups@[kk]@[a]@ == w);
                                }
                                assert(group_has(idx.groups@[kk]@, w));
                            }
                        }
                    } else {
                        proof {
                            assert(idx.contains_word(word@)) by {
                                assert(group_has(idx.groups@[k as int]@, word@));
                            }
                        }
                    }
                },
                None => {
                    let mut g: Vec<String> = Vec::new();
                    g.push(word.clone());
                    idx.keys.push(key);
                    idx.groups.push(g);
                    proof {
                        let n = prev.groups@.len() as int;
                        assert(idx.groups@[n]@ =~= seq![*word]);
                        assert(idx.groups@[n]@[0]@ == word@);
                        assert(idx.wf()) by {
                            assert(forall|k: int|
                                0 <= k < n ==> idx.groups@[k] == prev.groups@[k]);
                            assert(forall|k: int|
                                0 <= k < n ==> idx.keys@[k] == prev.keys@[k]);
                        }
                        assert forall|w: Seq<char>| idx.contains_word(w) implies (
                        prev.contains_word(w) || w == word@) by {
                            let kk = choose|kk: int|
                                0 <= kk < idx.groups@.len() && group_has(idx.groups@[kk]@, w);
                            if kk < n {
                                assert(group_has(prev.groups@[kk]@, w));
                            }
                        }
                        assert(idx.contains_word(word@)) by {
                            assert(group_has(idx.groups@[n]@, word@));
                        }
                        assert forall|w: Seq<char>| prev.contains_word(w) implies
                        idx.contains_word(w) by {
                            let kk = choose|kk: int|
                                0 <= kk < prev.groups@.len() && group_has(prev.groups@[kk]@, w);
                            assert(group_has(idx.groups@[kk]@, w));
                        }
                    }
                },
            }
        }
        proof {
            assert forall|w: Seq<char>| idx.contains_word(w) implies exists|j: int|
                0 <= j < i + 1 && (#[trigger] words@[j]@) == w && matches_spec(state@, w) by {
                if prev.contains_word(w) {
                    let j = choose|j: int|
                        0 <= j < i && (#[trigger] words@[j]@) == w && matches_spec(state@, w);
                    assert(words@[j]@ == w);
                } else {
                    assert(words@[i as int]@ == w);
                }
            }
            assert forall|w: Seq<char>|
                (exists|j: int|
                    0 <= j < i + 1 && (#[trigger] words@[j]@) == w && matches_spec(
                        state@,
                        w,
                    )) implies idx.contains_word(w) by {
                let j = choose|j: int|
                    0 <= j < i + 1 && (#[trigger] words@[j]@) == w && matches_spec(state@, w);
                if j < i {
                    assert(prev.contains_word(w));
                }
            }
        }
        i += 1;
    }
    idx
}

} // verus!