//! The next-guess predictor.
//!
//! Each still-valid word is described by binary letter-presence
//! features. A single-split decision stump trained with an entropy
//! criterion and pairwise-distinct row labels picks the feature whose
//! split maximises information gain; for such features the gain grows
//! exactly as the split gets more balanced, so the chosen letter is one
//! whose presence-count is closest to half the candidate pool
//! ([`best_split`]). Among candidates containing that letter and made
//! of pairwise-distinct letters, the suggestion is a word of maximal
//! anagram-class size.

use vstd::prelude::*;

use crate::anagram::{sort_letters, sorted_of, CandidateIndex};
use crate::letters::{contains_char, str_contains_char};

verus! {

/// How many of the words contain the letter `c`.
pub open spec fn letter_count(ws: Seq<String>, c: char) -> int {
    ws.filter(|s: String| s@.contains(c)).len() as int
}

/// How far the letter `c` is from splitting the words into two equal
/// halves: the absolute difference between the words that contain it
/// and the words that do not. For binary features with pairwise
/// distinct labels, entropy gain is maximal exactly where this is
/// minimal.
pub open spec fn imbalance(ws: Seq<String>, c: char) -> int {
    let d = 2 * letter_count(ws, c) - ws.len();
    if d < 0 {
        -d
    } else {
        d
    }
}

/// A word whose letters are pairwise distinct.
pub open spec fn distinct_chars(w: Seq<char>) -> bool {
    forall|a: int, b: int| 0 <= a < b < w.len() ==> w[a] != w[b]
}

/// The size of the anagram class of `w` in the index; 0 when the index
/// has no class for its key.
pub open spec fn class_size(idx: CandidateIndex, w: Seq<char>) -> int {
    if exists|k: int| 0 <= k < idx.keys@.len() && (#[trigger] idx.keys@[k]@) == sorted_of(w) {
        let k = choose|k: int| 0 <= k < idx.keys@.len() && (#[trigger] idx.keys@[k]@) == sorted_of(w);
        idx.groups@[k]@.len() as int
    } else {
        0
    }
}

/// The distinct letters appearing anywhere across the words, each one
/// exactly once; callers rely only on the set, not on the order.
pub fn distinct_letters(words: &Vec<String>) -> (r: Vec<char>)
    ensures
        r@.no_duplicates(),
        forall|c: char|
            r@.contains(c) <==> exists|i: int|
                0 <= i < words@.len() && (#[trigger] words@[i]@).contains(c),
{
    let mut r: Vec<char> = Vec::new();
    let mut i: usize = 0;
    while i < words.len()
        invariant
            i <= words@.len(),
            r@.no_duplicates(),
            forall|c: char|
                r@.contains(c) <==> exists|j: int|
                    0 <= j < i && (#[trigger] words@[j]@).contains(c),
        decreases words@.len() - i,
    {
        let w = &words[i];
        let n = w.as_str().unicode_len();
        let mut p: usize = 0;
        while p < n
            invariant
                i < words@.len(),
                w == &words@[i as int],
                n == w@.len(),
                p <= n,
                r@.no_duplicates(),
                forall|c: char|
                    r@.contains(c) <==> (exists|j: int|
                        0 <= j < i && (#[trigger] words@[j]@).contains(c)) || w@.take(
                        p as int,
                    ).contains(c),
            decreases n - p,
        {
            let c = w.as_str().get_char(p);
            let ghost before = r@;
            if !contains_char(&r, c) {
                r.push(c);
                proof {
                    assert forall|d: char| r@.contains(d) implies (before.contains(d) || d
                        == c) by {
                        let q = choose|q: int| 0 <= q < r@.len() && r@[q] == d;
                        if q < before.len() {
                            assert(before[q] == d);
                        }
                    }
                    assert(r@.no_duplicates()) by {
                        assert(forall|q: int| 0 <= q < before.len() ==> r@[q] == before[q]);
                    }
                    assert(r@.contains(c)) by {
                        assert(r@[before.len() as int] == c);
                    }
                    assert forall|d: char| before.contains(d) implies r@.contains(d) by {
                        let q = choose|q: int| 0 <= q < before.len() && before[q] == d;
                        assert(r@[q] == d);
                    }
                }
            }
            proof {
                assert(w@.take(p as int + 1) =~= w@.take(p as int).push(w@[p as int]));
                assert forall|d: char| w@.take(p as int + 1).contains(d) implies (w@.take(
                    p as int,
                ).contains(d) || d == w@[p as int]) by {
                    let q = choose|q: int|
                        0 <= q < w@.take(p as int + 1).len() && #[trigger] w@.take(
                            p as int + 1,
                        )[q] == d;
                    if q < p as int {
                        assert(w@.take(p as int)[q] == d);
                    }
                }
                assert(w@.take(p as int).contains(w@[p as int]) || r@.contains(w@[p as int]));
                assert(w@.take(p as int + 1).contains(w@[p as int])) by {
                    assert(w@.take(p as int + 1)[p as int] == w@[p as int]);
                }
                assert forall|d: char| w@.take(p as int).contains(d) implies w@.take(
                    p as int + 1,
                ).contains(d) by {
                    let q = choose|q: int|
                        0 <= q < w@.take(p as int).len() && w@.take(p as int)[q] == d;
                    assert(w@.take(p as int + 1)[q] == d);
                }
                assert forall|d: char|
                    r@.contains(d) <==> ((exists|j: int|
                        0 <= j < i && (#[trigger] words@[j]@).contains(d)) || w@.take(
                        p as int + 1,
                    ).contains(d)) by {
                    if r@.contains(d) {
                        if before.contains(d) {
                        } else {
                            let q = choose|q: int| 0 <= q < r@.len() && r@[q] == d;
                            assert(q == before.len());
                            assert(d == w@[p as int]);
                        }
                    }
                    if (exists|j: int| 0 <= j < i && (#[trigger] words@[j]@).contains(d))
                        || w@.take(p as int + 1).contains(d) {
                        if before.contains(d) {
                            let q = choose|q: int| 0 <= q < before.len() && before[q] == d;
                            assert(r@[q] == d);
                        } else {
                            assert(w@.take(p as int + 1).contains(d));
                            if w@.take(p as int).contains(d) {
                            } else {
                                let q = choose|q: int|
                                    0 <= q < w@.take(p as int + 1).len() && #[trigger] w@.take(
                                        p as int + 1,
                                    )[q] == d;
                                assert(q == p as int);
                                assert(d == w@[p as int]);
                            }
                        }
                    }
                }
            }
            p += 1;
        }
        proof {
            assert(w@.take(n as int) =~= w@);
            assert forall|c: char|
                ((exists|j: int| 0 <= j < i && (#[trigger] words@[j]@).contains(c)) || w@.contains(
                    c,
                )) implies (exists|j: int|
                0 <= j < i + 1 && (#[trigger] words@[j]@).contains(c)) by {
                if w@.contains(c) {
                    assert(words@[i as int]@.contains(c));
                }
            }
        }
        i += 1;
    }
    r
}

/// How many of the words contain the letter `c`; the executable form
/// of [`letter_count`].
fn count_containing(words: &Vec<String>, c: char) -> (r: usize)
    ensures
        r == letter_count(words@, c),
{
    let ghost pred = |s: String| s@.contains(c);
    let mut r: usize = 0;
    let mut i: usize = 0;
    proof {
        assert(words@.take(0) =~= Seq::<String>::empty());
        assert(Seq::<String>::empty().filter(pred) =~= Seq::<String>::empty());
    }
    while i < words.len()
        invariant
            i <= words@.len(),
            pred == (|s: String| s@.contains(c)),
            r == words@.take(i as int).filter(pred).len(),
            r <= i,
        decreases words@.len() - i,
    {
        proof {
            words@.take(i as int).lemma_filter_push(words@[i as int], pred);
            assert(words@.take(i as int).push(words@[i as int]) =~= words@.take(i as int + 1));
        }
        if str_contains_char(words[i].as_str(), c) {
            r += 1;
        }
        i += 1;
    }
    proof {
        assert(words@.take(words@.len() as int) =~= words@);
    }
    r
}

/// The imbalance of letter `c` over the words; the executable form of
/// [`imbalance`].
fn imbalance_of(words: &Vec<String>, c: char) -> (r: usize)
    ensures
        r == imbalance(words@, c),
{
    let n = words.len();
    let cnt = count_containing(words, c);
    proof {
        words@.lemma_filter_len(|s: String| s@.contains(c));
    }
    if cnt >= n - cnt {
        cnt - (n - cnt)
    } else {
        (n - cnt) - cnt
    }
}

/// The root split of the decision stump: the slot of a letter whose
/// presence most evenly bisects the candidate pool — for binary
/// features with pairwise-distinct labels, the entropy-optimal root
/// split. Among equally balanced letters the earliest slot is chosen.
/// `None` exactly when there are no features to split on.
pub fn best_split(words: &Vec<String>, letters: &Vec<char>) -> (r: Option<usize>)
    ensures
        r is None <==> letters@.len() == 0,
        r matches Some(j) ==> {
            &&& j < letters@.len()
            &&& forall|k: int|
                0 <= k < letters@.len() ==> imbalance(words@, letters@[j as int]) <= imbalance(
                    words@,
                    #[trigger] letters@[k],
                )
            &&& forall|k: int|
                0 <= k < j ==> imbalance(words@, #[trigger] letters@[k]) > imbalance(
                    words@,
                    letters@[j as int],
                )
        },
{
    if letters.len() == 0 {
        return None;
    }
    let mut best: usize = 0;
    let mut best_imb = imbalance_of(words, letters[0]);
    let mut k: usize = 1;
    while k < letters.len()
        invariant
            1 <= k <= letters@.len(),
            best < k,
            best_imb == imbalance(words@, letters@[best as int]),
            forall|q: int|
                0 <= q < k ==> best_imb <= imbalance(words@, #[trigger] letters@[q]),
            forall|q: int|
                0 <= q < best ==> imbalance(words@, #[trigger] letters@[q]) > best_imb,
        decreases letters@.len() - k,
    {
        let imb = imbalance_of(words, letters[k]);
        if imb < best_imb {
            best = k;
            best_imb = imb;
        }
        k += 1;
    }
    Some(best)
}

/// Is this word made of pairwise-distinct letters?
fn has_distinct_chars(w: &str) -> (r: bool)
    ensures
        r == distinct_chars(w@),
{
    let n = w.unicode_len();
    let mut a: usize = 0;
    while a < n
        invariant
            n == w@.len(),
            a <= n,
            forall|x: int, y: int| 0 <= x < y < n && x < a ==> w@[x] != w@[y],
        decreases n - a,
    {
        let c = w.get_char(a);
        let mut b: usize = a + 1;
        while b < n
            invariant
                n == w@.len(),
                a < b || b == a + 1,
                a < n,
                b <= n,
                c == w@[a as int],
                forall|y: int| a < y < b ==> w@[y] != c,
            decreases n - b,
        {
            if w.get_char(b) == c {
                proof {
                    assert(!distinct_chars(w@)) by {
                        assert(w@[a as int] == w@[b as int]);
                    }
                }
                return false;
            }
            b += 1;
        }
        a += 1;
    }
    true
}

/// The candidates that contain the split letter and are made of
/// pairwise-distinct letters: the pool the suggestion is drawn from.
pub fn viable_guesses(words: &Vec<String>, letter: char) -> (r: Vec<String>)
    ensures
        r@ == words@.filter(|s: String| s@.contains(letter) && distinct_chars(s@)),
{
    let ghost pred = |s: String| s@.contains(letter) && distinct_chars(s@);
    let mut r: Vec<String> = Vec::new();
    let mut i: usize = 0;
    proof {
        assert(words@.take(0) =~= Seq::<String>::empty());
        assert(Seq::<String>::empty().filter(pred) =~= Seq::<String>::empty());
    }
    while i < words.len()
        invariant
            i <= words@.len(),
            pred == (|s: String| s@.contains(letter) && distinct_chars(s@)),
            r@ == words@.take(i as int).filter(pred),
        decreases words@.len() - i,
    {
        proof {
            words@.take(i as int).lemma_filter_push(words@[i as int], pred);
            assert(words@.take(i as int).push(words@[i as int]) =~= words@.take(i as int + 1));
        }
        if str_contains_char(words[i].as_str(), letter) && has_distinct_chars(words[i].as_str()) {
            r.push(words[i].clone());
        }
        i += 1;
    }
    proof {
        assert(words@.take(words@.len() as int) =~= words@);
    }
    r
}

/// The executable form of [`class_size`]: the size of the word's
/// anagram class in the index, 0 when the key is absent.
pub fn class_size_of(idx: &CandidateIndex, w: &str) -> (r: usize)
    requires
        idx.wf(),
    ensures
        r == class_size(*idx, w@),
{
    let key = sort_letters(w);
    let mut k: usize = 0;
    while k < idx.keys.len()
        invariant
            idx.wf(),
            key@ == sorted_of(w@),
            k <= idx.keys@.len(),
            forall|q: int| 0 <= q < k ==> idx.keys@[q]@ != key@,
        decreases idx.keys@.len() - k,
    {
        if crate::letters::str_eq(idx.keys[k].as_str(), key.as_str()) {
            proof {
                let k0 = choose|q: int|
                    0 <= q < idx.keys@.len() && (#[trigger] idx.keys@[q]@) == sorted_of(w@);
                assert(k0 == k as int);
            }
            return idx.groups[k].len();
        }
        k += 1;
    }
    proof {
        if exists|q: int| 0 <= q < idx.keys@.len() && (#[trigger] idx.keys@[q]@) == sorted_of(w@) {
            let q = choose|q: int|
                0 <= q < idx.keys@.len() && (#[trigger] idx.keys@[q]@) == sorted_of(w@);
            assert(false);
        }
    }
    0
}

/// The candidate of maximal anagram-class size, taking the last of
/// several maximal ones; `None` exactly when there are no candidates.
pub fn pick_richest(cands: &Vec<String>, idx: &CandidateIndex) -> (r: Option<String>)
    requires
        idx.wf(),
    ensures
        r is None <==> cands@.len() == 0,
        r matches Some(w) ==> exists|i: int|
            {
                &&& 0 <= i < cands@.len()
                &&& (#[trigger] cands@[i]) == w
                &&& forall|j: int|
                    0 <= j < cands@.len() ==> class_size(*idx, #[trigger] cands@[j]@) <= class_size(
                        *idx,
                        w@,
                    )
                &&& forall|j: int|
                    i < j < cands@.len() ==> class_size(*idx, #[trigger] cands@[j]@) < class_size(
                        *idx,
                        w@,
                    )
            },
{
    if cands.len() == 0 {
        return None;
    }
    let mut best: usize = 0;
    let mut best_size = class_size_of(idx, cands[0].as_str());
    let mut j: usize = 1;
    while j < cands.len()
        invariant
            idx.wf(),
            1 <= j <= cands@.len(),
            best < j,
            best_size == class_size(*idx, cands@[best as int]@),
            forall|q: int|
                0 <= q < j ==> class_size(*idx, #[trigger] cands@[q]@) <= best_size,
            forall|q: int|
                best < q < j ==> class_size(*idx, #[trigger] cands@[q]@) < best_size,
        decreases cands@.len() - j,
    {
        let size = class_size_of(idx, cands[j].as_str());
        if size >= best_size {
            best = j;
            best_size = size;
        }
        j += 1;
    }
    let w = cands[best].clone();
    proof {
        assert(cands@[best as int] == w);
    }
    Some(w)
}

/// What the predictor decided: the most discriminating letter, and the
/// suggested next guess, if any.
pub struct Prediction {
    /// The root-split letter, `None` when no letters occur at all.
    pub letter: Option<char>,
    /// A viable guess of maximal anagram-class size, `None` when no
    /// candidate contains the split letter without repeating a letter.
    pub suggestion: Option<String>,
}

/// The whole predictor: derives the letter-presence features of the
/// still-valid words, picks the entropy-optimal root split, and
/// suggests a next guess among the candidates that contain the split
/// letter and repeat no letter, preferring maximal anagram-class size.
pub fn predict(words: &Vec<String>, idx: &CandidateIndex) -> (p: Prediction)
    requires
        idx.wf(),
    ensures
        (p.letter is None) <==> (forall|i: int| 0 <= i < words@.len() ==> (#[trigger] words@[i]@).len() == 0),
        p.letter matches Some(c) ==> {
            &&& exists|i: int| 0 <= i < words@.len() && (#[trigger] words@[i]@).contains(c)
            &&& forall|d: char|
                (exists|i: int| 0 <= i < words@.len() && (#[trigger] words@[i]@).contains(d))
                    ==> imbalance(words@, c) <= imbalance(words@, d)
            &&& (p.suggestion is None <==> words@.filter(
                |s: String| s@.contains(c) && distinct_chars(s@),
            ).len() == 0)
            &&& (p.suggestion matches Some(w) ==> {
                let viable = words@.filter(|s: String| s@.contains(c) && distinct_chars(s@));
                viable.contains(w) && forall|j: int|
                    0 <= j < viable.len() ==> class_size(*idx, (#[trigger] viable[j])@)
                        <= class_size(*idx, w@)
            })
        },
        p.letter is None ==> p.suggestion is None,
{
    let letters = distinct_letters(words);
    proof {
        if letters@.len() == 0 {
            assert forall|i: int| 0 <= i < words@.len() implies (#[trigger] words@[i]@).len()
                == 0 by {
                if words@[i]@.len() > 0 {
                    assert(words@[i]@.contains(words@[i]@[0]));
                    assert(letters@.contains(words@[i]@[0]));
                }
            }
        } else {
            assert(letters@.contains(letters@[0]));
        }
    }
    match best_split(words, &letters) {
        None => Prediction { letter: None, suggestion: None },
        Some(j) => {
            let c = letters[j];
            proof {
                assert(letters@.contains(c)) by {
                    assert(letters@[j as int] == c);
                }
                assert forall|d: char|
                    (exists|i: int|
                        0 <= i < words@.len() && (#[trigger] words@[i]@).contains(
                            d,
                        )) implies imbalance(words@, c) <= imbalance(words@, d) by {
                    assert(letters@.contains(d));
                    let q = choose|q: int| 0 <= q < letters@.len() && letters@[q] == d;
                    assert(imbalance(words@, letters@[j as int]) <= imbalance(
                        words@,
                        letters@[q],
                    ));
                }
            }
            let cands = viable_guesses(words, c);
            let suggestion = pick_richest(&cands, idx);
            proof {
                if cands@.len() > 0 {
                    let w = suggestion->Some_0;
                    let i = choose|i: int|
                        {
                            &&& 0 <= i < cands@.len()
                            &&& (#[trigger] cands@[i]) == w
                            &&& forall|q: int|
                                0 <= q < cands@.len() ==> class_size(
                                    *idx,
                                    #[trigger] cands@[q]@,
                                ) <= class_size(*idx, w@)
                            &&& forall|q: int|
                                i < q < cands@.len() ==> class_size(
                                    *idx,
                                    #[trigger] cands@[q]@,
                                ) < class_size(*idx, w@)
                        };
                    assert(cands@.contains(w)) by {
                        assert(cands@[i] == w);
                    }
                }
            }
            Prediction { letter: Some(c), suggestion }
        },
    }
}

} // verus!