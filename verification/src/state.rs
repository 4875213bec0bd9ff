//! The feedback codec and the constraint matcher.
//!
//! A guess history is a comma-separated list of tokens, one per past
//! guess. Scanning a token left to right with a running position
//! counter:
//! * `?` followed by `X` — the letter `X` (case-folded) is present in
//!   the target but not at the current position;
//! * an upper-case letter `X` — the target has `X` (case-folded) at
//!   exactly the current position;
//! * any other character `x` — the letter is absent from the target
//!   entirely (and, redundantly, forbidden at the current position).
//!
//! The accumulated knowledge is a [`GuessState`]; its mathematical
//! model is a [`ConstraintModel`]. Matching a candidate word against
//! the model is the pure predicate [`matches_spec`].

use vstd::prelude::*;

use crate::letters::{contains_char, is_upper, is_upper_char, lower, lower_char, str_contains_char};

verus! {

/// The mathematical model of an accumulated constraint set.
#[verifier::ext_equal]
pub struct ConstraintModel {
    /// Position -> letter required exactly there.
    pub exact: Map<int, char>,
    /// Position -> letters forbidden there.
    pub exactly_not: Map<int, Set<char>>,
    /// Letters that must occur somewhere in a candidate.
    pub must_contain: Set<char>,
    /// Letters that must occur nowhere in a candidate.
    pub does_not_contain: Set<char>,
}

/// The model with no knowledge at all.
pub open spec fn empty_model() -> ConstraintModel {
    ConstraintModel {
        exact: Map::empty(),
        exactly_not: Map::empty(),
        must_contain: Set::empty(),
        does_not_contain: Set::empty(),
    }
}

/// Adds `c` to the set of letters forbidden at position `idx`.
pub open spec fn forbid_at(m: ConstraintModel, idx: int, c: char) -> ConstraintModel {
    let prev = if m.exactly_not.dom().contains(idx) {
        m.exactly_not[idx]
    } else {
        Set::empty()
    };
    ConstraintModel { exactly_not: m.exactly_not.insert(idx, prev.insert(c)), ..m }
}

/// A token is well formed when no `?` stands as its last character:
/// each `?` must consume the following character as its letter.
pub open spec fn token_ok(t: Seq<char>) -> bool
    decreases t.len(),
{
    if t.len() == 0 {
        true
    } else if t[0] == '?' {
        t.len() >= 2 && token_ok(t.skip(2))
    } else {
        token_ok(t.skip(1))
    }
}

/// Folds one token into the model, scanning from position `idx`.
pub open spec fn decode_token(m: ConstraintModel, t: Seq<char>, idx: int) -> ConstraintModel
    decreases t.len(),
{
    if t.len() == 0 {
        m
    } else if t[0] == '?' {
        if t.len() < 2 {
            m
        } else {
            let c = lower(t[1]);
            let m1 = ConstraintModel { must_contain: m.must_contain.insert(c), ..m };
            decode_token(forbid_at(m1, idx, c), t.skip(2), idx + 1)
        }
    } else if is_upper(t[0]) {
        let m1 = ConstraintModel { exact: m.exact.insert(idx, lower(t[0])), ..m };
        decode_token(m1, t.skip(1), idx + 1)
    } else {
        let m1 = ConstraintModel { does_not_contain: m.does_not_contain.insert(t[0]), ..m };
        decode_token(forbid_at(m1, idx, lower(t[0])), t.skip(1), idx + 1)
    }
}

/// The position of the first comma of `s`, or `-1` when there is none.
pub open spec fn find_comma(s: Seq<char>) -> int
    decreases s.len(),
{
    if s.len() == 0 {
        -1
    } else if s[0] == ',' {
        0
    } else {
        let r = find_comma(s.drop_first());
        if r < 0 {
            -1
        } else {
            r + 1
        }
    }
}

pub proof fn lemma_find_comma(s: Seq<char>)
    ensures
        -1 <= find_comma(s) < s.len(),
        find_comma(s) >= 0 ==> s[find_comma(s)] == ',',
        forall|j: int| 0 <= j < s.len() && (find_comma(s) == -1 || j < find_comma(s)) ==> s[j] != ',',
    decreases s.len(),
{
    if s.len() > 0 && s[0] != ',' {
        lemma_find_comma(s.drop_first());
        assert(forall|j: int| 1 <= j < s.len() ==> s[j] == s.drop_first()[j - 1]);
    }
}

/// Splits a history string on commas. The empty string yields one
/// empty token.
pub open spec fn split_history(s: Seq<char>) -> Seq<Seq<char>>
    decreases s.len(),
{
    let i = find_comma(s);
    if i < 0 || i >= s.len() {
        seq![s]
    } else {
        seq![s.take(i)] + split_history(s.skip(i + 1))
    }
}

/// How a split grows when one character is appended: a comma opens a
/// new empty token, any other character extends the last token.
pub proof fn lemma_split_push(s: Seq<char>, c: char)
    ensures
        split_history(s).len() >= 1,
        c == ',' ==> split_history(s.push(c)) == split_history(s).push(Seq::<char>::empty()),
        c != ',' ==> split_history(s.push(c)) == split_history(s).update(
            split_history(s).len() - 1,
            split_history(s).last().push(c),
        ),
    decreases s.len(),
{
    lemma_find_comma(s);
    lemma_find_comma(s.push(c));
    let i = find_comma(s);
    let t = s.push(c);
    if i < 0 {
        // `s` has no comma.
        if c == ',' {
            assert(find_comma(t) == s.len() as int) by {
                lemma_find_comma_append(s, c);
            }
            assert(t.take(s.len() as int) =~= s);
            assert(t.skip(s.len() as int + 1) =~= Seq::<char>::empty());
            assert(find_comma(Seq::<char>::empty()) == -1);
            assert(split_history(Seq::<char>::empty()) =~~= seq![Seq::<char>::empty()]);
            assert(split_history(t) =~~= seq![s] + seq![Seq::<char>::empty()]);
            assert(split_history(t) =~~= split_history(s).push(Seq::<char>::empty()));
        } else {
            assert(find_comma(t) == -1) by {
                lemma_find_comma_append(s, c);
            }
            assert(split_history(t) =~~= split_history(s).update(0, split_history(s).last().push(c)));
        }
    } else {
        // `s` splits as `s.take(i)`, comma, `s.skip(i + 1)`.
        assert(find_comma(t) == i) by {
            lemma_find_comma_append(s, c);
        }
        assert(t.take(i) =~= s.take(i));
        assert(t.skip(i + 1) =~= s.skip(i + 1).push(c));
        lemma_split_push(s.skip(i + 1), c);
        if c == ',' {
            assert(split_history(t) =~~= split_history(s).push(Seq::<char>::empty()));
        } else {
            assert(split_history(s).len() == 1 + split_history(s.skip(i + 1)).len());
            assert(split_history(s).last() == split_history(s.skip(i + 1)).last());
            assert(split_history(t) =~~= split_history(s).update(
                split_history(s).len() - 1,
                split_history(s).last().push(c),
            ));
        }
    }
}

/// Appending one character moves the first comma only when the string
/// had none and the new character is itself a comma.
proof fn lemma_find_comma_append(s: Seq<char>, c: char)
    ensures
        find_comma(s) >= 0 ==> find_comma(s.push(c)) == find_comma(s),
        find_comma(s) < 0 && c == ',' ==> find_comma(s.push(c)) == s.len() as int,
        find_comma(s) < 0 && c != ',' ==> find_comma(s.push(c)) < 0,
    decreases s.len(),
{
    if s.len() == 0 {
        assert(s.push(c)[0] == c);
        assert(s.push(c).len() == 1);
        if c != ',' {
            assert(s.push(c).drop_first() =~= Seq::<char>::empty());
            assert(find_comma(Seq::<char>::empty()) == -1);
        }
    } else {
        assert(s.push(c)[0] == s[0]);
        if s[0] != ',' {
            assert(s.push(c).drop_first() =~= s.drop_first().push(c));
            lemma_find_comma_append(s.drop_first(), c);
        }
    }
}

/// Folds a sequence of tokens, left to right, into the model.
pub open spec fn decode_tokens(ts: Seq<Seq<char>>) -> ConstraintModel
    decreases ts.len(),
{
    if ts.len() == 0 {
        empty_model()
    } else {
        decode_token(decode_tokens(ts.drop_last()), ts.last(), 0)
    }
}

/// The constraint model of a whole history string.
pub open spec fn decode_history(s: Seq<char>) -> ConstraintModel {
    decode_tokens(split_history(s))
}

/// A history string is well formed when every one of its tokens is.
pub open spec fn history_ok_spec(s: Seq<char>) -> bool {
    forall|k: int|
        0 <= k < split_history(s).len() ==> token_ok(#[trigger] split_history(s)[k])
}

/// Does the word pass the positional checks at position `i`? An exact
/// constraint decides alone; otherwise the letter must be neither
/// forbidden at `i` nor globally absent.
pub open spec fn position_ok(m: ConstraintModel, w: Seq<char>, i: int) -> bool {
    if m.exact.dom().contains(i) {
        m.exact[i] == w[i]
    } else {
        !(m.exactly_not.dom().contains(i) && m.exactly_not[i].contains(w[i]))
            && !m.does_not_contain.contains(w[i])
    }
}

/// The constraint matcher: a pure function of the model and the word.
/// Every position must pass its checks and every letter of
/// `must_contain` must occur somewhere in the word.
pub open spec fn matches_spec(m: ConstraintModel, w: Seq<char>) -> bool {
    (forall|i: int| 0 <= i < w.len() ==> position_ok(m, w, i)) && (forall|c: char|
        m.must_contain.contains(c) ==> w.contains(c))
}

/// The views of a sequence of character vectors.
pub open spec fn seqs_of(ts: Seq<Vec<char>>) -> Seq<Seq<char>> {
    Seq::new(ts.len(), |i: int| ts[i]@)
}

/// The accumulated knowledge from all past guesses, as plain vectors:
/// `exact` and `exactly_not` are indexed by position (absent positions
/// padded with `None` or an empty row), the two letter sets are kept as
/// unordered vectors. Its mathematical model is [`ConstraintModel`].
#[derive(Debug, Clone)]
pub struct GuessState {
    pub exact: Vec<Option<char>>,
    pub exactly_not: Vec<Vec<char>>,
    pub must_contain: Vec<char>,
    pub does_not_contain: Vec<char>,
}

impl View for GuessState {
    type V = ConstraintModel;

    open spec fn view(&self) -> ConstraintModel {
        ConstraintModel {
            exact: Map::new(
                |i: int| 0 <= i < self.exact@.len() && self.exact@[i] is Some,
                |i: int| self.exact@[i]->Some_0,
            ),
            exactly_not: Map::new(
                |i: int| 0 <= i < self.exactly_not@.len() && self.exactly_not@[i]@.len() > 0,
                |i: int| self.exactly_not@[i]@.to_set(),
            ),
            must_contain: self.must_contain@.to_set(),
            does_not_contain: self.does_not_contain@.to_set(),
        }
    }
}

impl Default for GuessState {
    /// A state with no knowledge: its model is [`empty_model`].
    fn default() -> (r: GuessState)
        ensures
            r@ == empty_model(),
    {
        let r = GuessState {
            exact: Vec::new(),
            exactly_not: Vec::new(),
            must_contain: Vec::new(),
            does_not_contain: Vec::new(),
        };
        proof {
            assert(Seq::<char>::empty().to_set() =~= Set::<char>::empty());
            assert(r@ =~~= empty_model());
        }
        r
    }
}

/// Grows `v` with `None` entries until index `idx` is in range.
fn pad_options(v: &mut Vec<Option<char>>, idx: usize)
    ensures
        final(v)@.len() > idx as int,
        old(v)@.len() <= final(v)@.len(),
        forall|i: int|
            0 <= i < final(v)@.len() ==> final(v)@[i] == (if i < old(v)@.len() {
                old(v)@[i]
            } else {
                None
            }),
{
    while v.len() <= idx
        invariant
            old(v)@.len() <= v@.len(),
            forall|i: int|
                0 <= i < v@.len() ==> v@[i] == (if i < old(v)@.len() {
                    old(v)@[i]
                } else {
                    None
                }),
        decreases idx + 1 - v@.len(),
    {
        v.push(None);
    }
}

/// Grows `v` with empty rows until index `idx` is in range.
fn pad_rows(v: &mut Vec<Vec<char>>, idx: usize)
    ensures
        final(v)@.len() > idx as int,
        old(v)@.len() <= final(v)@.len(),
        forall|i: int| 0 <= i < old(v)@.len() ==> final(v)@[i] == old(v)@[i],
        forall|i: int| old(v)@.len() <= i < final(v)@.len() ==> final(v)@[i]@ =~= Seq::<char>::empty(),
{
    while v.len() <= idx
        invariant
            old(v)@.len() <= v@.len(),
            forall|i: int| 0 <= i < old(v)@.len() ==> v@[i] == old(v)@[i],
            forall|i: int| old(v)@.len() <= i < v@.len() ==> v@[i]@ =~= Seq::<char>::empty(),
        decreases idx + 1 - v@.len(),
    {
        v.push(Vec::new());
    }
}

impl GuessState {
    /// Records that `c` must occur somewhere in the target.
    fn add_must(&mut self, c: char)
        ensures
            final(self)@ == (ConstraintModel {
                must_contain: old(self)@.must_contain.insert(c),
                ..old(self)@
            }),
    {
        self.must_contain.push(c);
        proof {
            old(self).must_contain@.lemma_push_to_set_commute(c);
            assert(self@ =~~= (ConstraintModel {
                must_contain: old(self)@.must_contain.insert(c),
                ..old(self)@
            }));
        }
    }

    /// Records that `c` occurs nowhere in the target.
    fn add_absent(&mut self, c: char)
        ensures
            final(self)@ == (ConstraintModel {
                does_not_contain: old(self)@.does_not_contain.insert(c),
                ..old(self)@
            }),
    {
        self.does_not_contain.push(c);
        proof {
            old(self).does_not_contain@.lemma_push_to_set_commute(c);
            assert(self@ =~~= (ConstraintModel {
                does_not_contain: old(self)@.does_not_contain.insert(c),
                ..old(self)@
            }));
        }
    }

    /// Records that position `idx` holds exactly the letter `c`.
    fn set_exact(&mut self, idx: usize, c: char)
        ensures
            final(self)@ == (ConstraintModel {
                exact: old(self)@.exact.insert(idx as int, c),
                ..old(self)@
            }),
    {
        pad_options(&mut self.exact, idx);
        proof {
            assert(self@ =~~= old(self)@);
        }
        let ghost mid = *self;
        self.exact[idx] = Some(c);
        proof {
            assert(self@ =~~= (ConstraintModel {
                exact: mid@.exact.insert(idx as int, c),
                ..mid@
            }));
        }
    }

    /// Records that position `idx` does not hold the letter `c`.
    fn forbid(&mut self, idx: usize, c: char)
        ensures
            final(self)@ == forbid_at(old(self)@, idx as int, c),
    {
        pad_rows(&mut self.exactly_not, idx);
        proof {
            assert(self@ =~~= old(self)@);
        }
        let ghost mid = *self;
        self.exactly_not[idx].push(c);
        proof {
            mid.exactly_not@[idx as int]@.lemma_push_to_set_commute(c);
            assert(mid.exactly_not@[idx as int]@.len() == 0
                ==> mid.exactly_not@[idx as int]@.to_set() =~= Set::<char>::empty());
            assert(self@ =~~= forbid_at(mid@, idx as int, c));
        }
    }
}

/// Splits a history string on commas into its guess tokens.
pub(crate) fn split_tokens(s: &str) -> (ts: Vec<Vec<char>>)
    ensures
        seqs_of(ts@) == split_history(s@),
{
    let n = s.unicode_len();
    let mut done: Vec<Vec<char>> = Vec::new();
    let mut cur: Vec<char> = Vec::new();
    let mut i: usize = 0;
    proof {
        assert(s@.take(0) =~= Seq::<char>::empty());
        assert(find_comma(Seq::<char>::empty()) == -1);
        assert(seqs_of(done@).push(cur@) =~~= split_history(s@.take(0)));
    }
    while i < n
        invariant
            n == s@.len(),
            i <= n,
            seqs_of(done@).push(cur@) == split_history(s@.take(i as int)),
        decreases n - i,
    {
        let c = s.get_char(i);
        proof {
            lemma_split_push(s@.take(i as int), c);
            assert(s@.take(i as int).push(c) =~= s@.take(i as int + 1));
        }
        if c == ',' {
            done.push(cur);
            cur = Vec::new();
            proof {
                assert(seqs_of(done@).push(cur@) =~~= split_history(s@.take(i as int + 1)));
            }
        } else {
            cur.push(c);
            proof {
                assert(seqs_of(done@).push(cur@) =~~= split_history(s@.take(i as int + 1)));
            }
        }
        i += 1;
    }
    proof {
        assert(s@.take(n as int) =~= s@);
    }
    done.push(cur);
    proof {
        assert(seqs_of(done@) =~~= split_history(s@));
    }
    done
}

/// Is this token well formed, that is, does no `?` stand last?
fn token_ok_exec(t: &Vec<char>) -> (r: bool)
    ensures
        r == token_ok(t@),
{
    let mut j: usize = 0;
    proof {
        assert(t@.skip(0) =~= t@);
    }
    while j < t.len()
        invariant
            j <= t@.len(),
            token_ok(t@) == token_ok(t@.skip(j as int)),
        decreases t@.len() - j,
    {
        proof {
            assert(t@.skip(j as int)[0] == t@[j as int]);
        }
        if t[j] == '?' {
            if j + 1 >= t.len() {
                return false;
            }
            proof {
                assert(t@.skip(j as int).skip(2) =~= t@.skip(j as int + 2));
            }
            j += 2;
        } else {
            proof {
                assert(t@.skip(j as int).skip(1) =~= t@.skip(j as int + 1));
            }
            j += 1;
        }
    }
    proof {
        assert(t@.skip(j as int) =~= Seq::<char>::empty());
    }
    true
}

/// Is every token of the history well formed? Exactly the inputs on
/// which this holds are accepted by [`GuessState::parse`].
pub fn history_ok(s: &str) -> (r: bool)
    ensures
        r == history_ok_spec(s@),
{
    let tokens = split_tokens(s);
    let mut k: usize = 0;
    while k < tokens.len()
        invariant
            seqs_of(tokens@) == split_history(s@),
            k <= tokens@.len(),
            forall|j: int| 0 <= j < k ==> token_ok(#[trigger] split_history(s@)[j]),
        decreases tokens@.len() - k,
    {
        let ok = token_ok_exec(&tokens[k]);
        proof {
            assert(tokens@[k as int]@ == split_history(s@)[k as int]);
        }
        if !ok {
            return false;
        }
        k += 1;
    }
    true
}

impl GuessState {
    /// Decodes a guess-history string into the accumulated constraint
    /// set, folding the tokens left to right. The input must be well
    /// formed ([`history_ok`]): a token whose last character is an
    /// unconsumed `?` has no letter to pair with it.
    pub fn parse(state: &str) -> (r: GuessState)
        requires
            history_ok_spec(state@),
        ensures
            r@ == decode_history(state@),
    {
        let tokens = split_tokens(state);
        let mut st = GuessState::default();
        let ghost all = seqs_of(tokens@);
        proof {
            assert(all.take(0) =~= Seq::<Seq<char>>::empty());
        }
        let mut k: usize = 0;
        while k < tokens.len()
            invariant
                all == seqs_of(tokens@),
                all == split_history(state@),
                history_ok_spec(state@),
                k <= tokens@.len(),
                st@ == decode_tokens(all.take(k as int)),
            decreases tokens@.len() - k,
        {
            let t = &tokens[k];
            let ghost m0 = st@;
            proof {
                assert(t@ == split_history(state@)[k as int]);
                assert(token_ok(t@));
                assert(t@.skip(0) =~= t@);
            }
            let n = t.len();
            let mut j: usize = 0;
            let mut idx: usize = 0;
            while j < n
                invariant
                    n == t@.len(),
                    j <= n,
                    idx <= j,
                    token_ok(t@.skip(j as int)),
                    decode_token(st@, t@.skip(j as int), idx as int) == decode_token(m0, t@, 0),
                decreases n - j,
            {
                let c = t[j];
                proof {
                    assert(t@.skip(j as int)[0] == t@[j as int]);
                }
                if c == '?' {
                    proof {
                        assert(t@.skip(j as int).len() >= 2);
                        assert(t@.skip(j as int)[1] == t@[j as int + 1]);
                        assert(t@.skip(j as int).skip(2) =~= t@.skip(j as int + 2));
                    }
                    let d = lower_char(t[j + 1]);
                    st.add_must(d);
                    st.forbid(idx, d);
                    j += 2;
                } else if is_upper_char(c) {
                    proof {
                        assert(t@.skip(j as int).skip(1) =~= t@.skip(j as int + 1));
                    }
                    let d = lower_char(c);
                    st.set_exact(idx, d);
                    j += 1;
                } else {
                    proof {
                        assert(t@.skip(j as int).skip(1) =~= t@.skip(j as int + 1));
                    }
                    let d = lower_char(c);
                    st.add_absent(c);
                    st.forbid(idx, d);
                    j += 1;
                }
                idx += 1;
            }
            proof {
                assert(t@.skip(j as int) =~= Seq::<char>::empty());
                assert(st@ == decode_token(m0, t@, 0));
                assert(all.take(k as int + 1).drop_last() =~= all.take(k as int));
                assert(all.take(k as int + 1).last() == t@);
            }
            k += 1;
        }
        proof {
            assert(all.take(tokens@.len() as int) =~= all);
        }
        st
    }

    /// The constraint matcher, borrowing the state: a pure function of
    /// the model and the word, [`matches_spec`].
    pub fn accepts(&self, word: &str) -> (r: bool)
        ensures
            r == matches_spec(self@, word@),
    {
        let n = word.unicode_len();
        let mut i: usize = 0;
        while i < n
            invariant
                n == word@.len(),
                i <= n,
                forall|j: int| 0 <= j < i ==> position_ok(self@, word@, j),
            decreases n - i,
        {
            let c = word.get_char(i);
            let ex: Option<char> = if i < self.exact.len() {
                self.exact[i]
            } else {
                None
            };
            match ex {
                Some(a) => {
                    if a != c {
                        proof {
                            assert(!position_ok(self@, word@, i as int));
                        }
                        return false;
                    }
                },
                None => {
                    if i < self.exactly_not.len() && contains_char(&self.exactly_not[i], c) {
                        proof {
                            assert(self.exactly_not@[i as int]@.len() > 0);
                            assert(!position_ok(self@, word@, i as int));
                        }
                        return false;
                    }
                    if contains_char(&self.does_not_contain, c) {
                        proof {
                            assert(!position_ok(self@, word@, i as int));
                        }
                        return false;
                    }
                },
            }
            i += 1;
        }
        let mut k: usize = 0;
        while k < self.must_contain.len()
            invariant
                n == word@.len(),
                forall|j: int| 0 <= j < word@.len() ==> position_ok(self@, word@, j),
                k <= self.must_contain@.len(),
                forall|j: int| 0 <= j < k ==> word@.contains(#[trigger] self.must_contain@[j]),
            decreases self.must_contain@.len() - k,
        {
            let c = self.must_contain[k];
            if !str_contains_char(word, c) {
                proof {
                    assert(self@.must_contain.contains(c));
                }
                return false;
            }
            k += 1;
        }
        proof {
            assert forall|c: char| self@.must_contain.contains(c) implies word@.contains(c) by {
                let j = choose|j: int|
                    0 <= j < self.must_contain@.len() && self.must_contain@[j] == c;
                assert(word@.contains(self.must_contain@[j]));
            }
        }
        true
    }

    /// The constraint matcher, consuming the state; see [`Self::accepts`].
    pub fn matches(self, word: &str) -> (r: bool)
        ensures
            r == matches_spec(self@, word@),
    {
        self.accepts(word)
    }
}

/// A history of one comma-free token decodes as that single token,
/// scanned from position 0.
pub proof fn lemma_single_token_history(t: Seq<char>)
    requires
        forall|i: int| 0 <= i < t.len() ==> t[i] != ',',
    ensures
        decode_history(t) == decode_token(empty_model(), t, 0),
{
    lemma_find_comma(t);
    assert(find_comma(t) == -1);
    assert(split_history(t) =~~= seq![t]);
    assert(seq![t].drop_last() =~= Seq::<Seq<char>>::empty());
    assert(decode_tokens(Seq::<Seq<char>>::empty()) == empty_model());
    assert(seq![t].last() == t);
}

/// Law: the matcher is a pure function of the constraint set and the
/// word — equal inputs give equal verdicts, however often it is asked.
pub proof fn lemma_matches_deterministic(
    m1: ConstraintModel,
    m2: ConstraintModel,
    w1: Seq<char>,
    w2: Seq<char>,
)
    requires
        m1 == m2,
        w1 == w2,
    ensures
        matches_spec(m1, w1) == matches_spec(m2, w2),
{
}

/// Decoding a token from position `idx` leaves every position below
/// `idx` untouched, in both position maps.
proof fn lemma_decode_low_positions(m: ConstraintModel, t: Seq<char>, idx: int, p: int)
    requires
        p < idx,
    ensures
        decode_token(m, t, idx).exact.dom().contains(p) == m.exact.dom().contains(p),
        m.exact.dom().contains(p) ==> decode_token(m, t, idx).exact[p] == m.exact[p],
        decode_token(m, t, idx).exactly_not.dom().contains(p) == m.exactly_not.dom().contains(p),
        m.exactly_not.dom().contains(p) ==> decode_token(m, t, idx).exactly_not[p]
            == m.exactly_not[p],
    decreases t.len(),
{
    if t.len() == 0 {
    } else if t[0] == '?' {
        if t.len() >= 2 {
            let c = lower(t[1]);
            let m1 = ConstraintModel { must_contain: m.must_contain.insert(c), ..m };
            lemma_decode_low_positions(forbid_at(m1, idx, c), t.skip(2), idx + 1, p);
        }
    } else if is_upper(t[0]) {
        let m1 = ConstraintModel { exact: m.exact.insert(idx, lower(t[0])), ..m };
        lemma_decode_low_positions(m1, t.skip(1), idx + 1, p);
    } else {
        let m1 = ConstraintModel { does_not_contain: m.does_not_contain.insert(t[0]), ..m };
        lemma_decode_low_positions(forbid_at(m1, idx, lower(t[0])), t.skip(1), idx + 1, p);
    }
}

/// Law: a comma-free token opening with an upper-case letter, parsed
/// alone, pins that letter at position 0. Every word whose first
/// letter is the fold of that letter passes the positional check at
/// position 0, independent of what the rest of the token records and
/// of the word's other letters.
pub proof fn lemma_exact_first_position(t: Seq<char>, w: Seq<char>)
    requires
        t.len() > 0,
        is_upper(t[0]),
        forall|i: int| 0 <= i < t.len() ==> t[i] != ',',
        w.len() > 0,
        w[0] == lower(t[0]),
    ensures
        position_ok(decode_history(t), w, 0),
{
    lemma_single_token_history(t);
    let m1 = ConstraintModel {
        exact: empty_model().exact.insert(0, lower(t[0])),
        ..empty_model()
    };
    assert(decode_token(empty_model(), t, 0) == decode_token(m1, t.skip(1), 1));
    lemma_decode_low_positions(m1, t.skip(1), 1, 0);
    assert(m1.exact.dom().contains(0));
}

/// Law: the token `?` plus a letter, parsed alone, rejects every
/// candidate carrying that letter (case-folded) at position 0 and
/// every candidate lacking it entirely, and accepts every candidate
/// that carries it at some other position only.
pub proof fn lemma_misplaced_token(c: char, w: Seq<char>)
    requires
        c != ',',
    ensures
        ({
            let m = decode_history(seq!['?', c]);
            let lc = lower(c);
            &&& (w.len() > 0 && w[0] == lc ==> !matches_spec(m, w))
            &&& (!w.contains(lc) ==> !matches_spec(m, w))
            &&& (w.contains(lc) && (w.len() == 0 || w[0] != lc) ==> matches_spec(m, w))
        }),
{
    let t = seq!['?', c];
    let lc = lower(c);
    assert(t.len() == 2 && t[0] == '?' && t[1] == c);
    lemma_single_token_history(t);
    assert(t.skip(2) =~= Seq::<char>::empty());
    let m1 = ConstraintModel {
        must_contain: empty_model().must_contain.insert(lc),
        ..empty_model()
    };
    let m = forbid_at(m1, 0, lc);
    assert(decode_token(m, t.skip(2), 1) == m);
    assert(decode_token(empty_model(), t, 0) == m);
    assert(m.must_contain.contains(lc));
    assert(m.exactly_not.dom().contains(0) && m.exactly_not[0].contains(lc));
    assert(forall|i: int| #[trigger] m.exact.dom().contains(i) == false);
    assert(forall|i: int| i != 0 ==> #[trigger] m.exactly_not.dom().contains(i) == false);
    assert(forall|d: char| #[trigger] m.does_not_contain.contains(d) == false);
    if w.len() > 0 && w[0] == lc {
        assert(m.exactly_not[0].contains(w[0]));
        assert(!position_ok(m, w, 0));
        assert(!matches_spec(m, w));
    }
    if w.contains(lc) && (w.len() == 0 || w[0] != lc) {
        assert forall|i: int| 0 <= i < w.len() implies position_ok(m, w, i) by {
            if i == 0 {
                assert(m.exactly_not[0] == Set::<char>::empty().insert(lc));
                assert(!m.exactly_not[0].contains(w[0]));
            }
        }
        assert forall|d: char| m.must_contain.contains(d) implies w.contains(d) by {
            assert(d == lc);
        }
        assert(matches_spec(m, w));
    }
}

/// Law: a letter recorded as globally absent rejects every candidate
/// containing it anywhere — provided no exact constraint pins that
/// same letter somewhere, which would make the constraint set
/// contradictory and its behaviour undefined.
pub proof fn lemma_absent_letter(m: ConstraintModel, w: Seq<char>, z: char)
    requires
        m.does_not_contain.contains(z),
        forall|i: int| #[trigger] m.exact.dom().contains(i) ==> m.exact[i] != z,
        w.contains(z),
    ensures
        !matches_spec(m, w),
{
    let i = choose|i: int| 0 <= i < w.len() && w[i] == z;
    assert(!position_ok(m, w, i));
}

/// Law: decoding accumulates knowledge monotonically — a token never
/// retracts a recorded letter: the two letter sets only grow, exact
/// positions stay pinned (a later token may re-pin one to another
/// letter), and positional exclusions are kept.
pub proof fn lemma_decode_monotonic(m: ConstraintModel, t: Seq<char>, idx: int)
    ensures
        forall|c: char|
            m.must_contain.contains(c) ==> decode_token(m, t, idx).must_contain.contains(c),
        forall|c: char|
            m.does_not_contain.contains(c) ==> decode_token(
                m,
                t,
                idx,
            ).does_not_contain.contains(c),
        forall|i: int|
            #[trigger] m.exact.dom().contains(i) ==> decode_token(m, t, idx).exact.dom().contains(
                i,
            ),
        forall|i: int, c: char|
            m.exactly_not.dom().contains(i) && #[trigger] m.exactly_not[i].contains(c)
                ==> decode_token(m, t, idx).exactly_not.dom().contains(i) && decode_token(
                m,
                t,
                idx,
            ).exactly_not[i].contains(c),
    decreases t.len(),
{
    if t.len() == 0 {
    } else {
        let m2 = if t[0] == '?' {
            if t.len() < 2 {
                m
            } else {
                let c = lower(t[1]);
                forbid_at(ConstraintModel { must_contain: m.must_contain.insert(c), ..m }, idx, c)
            }
        } else if is_upper(t[0]) {
            ConstraintModel { exact: m.exact.insert(idx, lower(t[0])), ..m }
        } else {
            forbid_at(
                ConstraintModel { does_not_contain: m.does_not_contain.insert(t[0]), ..m },
                idx,
                lower(t[0]),
            )
        };
        let rest = if t[0] == '?' {
            t.skip(2)
        } else {
            t.skip(1)
        };
        if t[0] == '?' && t.len() < 2 {
        } else {
            lemma_decode_monotonic(m2, rest, idx + 1);
            assert(decode_token(m, t, idx) == decode_token(m2, rest, idx + 1));
            assert forall|c: char| m.must_contain.contains(c) implies decode_token(
                m,
                t,
                idx,
            ).must_contain.contains(c) by {
                assert(m2.must_contain.contains(c));
            }
            assert forall|c: char| m.does_not_contain.contains(c) implies decode_token(
                m,
                t,
                idx,
            ).does_not_contain.contains(c) by {
                assert(m2.does_not_contain.contains(c));
            }
            assert forall|i: int| #[trigger] m.exact.dom().contains(i) implies decode_token(
                m,
                t,
                idx,
            ).exact.dom().contains(i) by {
                assert(m2.exact.dom().contains(i));
            }
            assert forall|i: int, c: char|
                m.exactly_not.dom().contains(i) && #[trigger] m.exactly_not[i].contains(
                    c,
                ) implies decode_token(m, t, idx).exactly_not.dom().contains(i) && decode_token(
                m,
                t,
                idx,
            ).exactly_not[i].contains(c) by {
                assert(m2.exactly_not.dom().contains(i) && m2.exactly_not[i].contains(c));
            }
        }
    }
}

/// Law: the empty history string decodes to the empty model, and the
/// empty model accepts every word.
pub proof fn lemma_empty_history()
    ensures
        decode_history(Seq::<char>::empty()) == empty_model(),
        forall|w: Seq<char>| #[trigger] matches_spec(empty_model(), w),
{
    let e = Seq::<char>::empty();
    assert(find_comma(e) == -1);
    assert(split_history(e) =~~= seq![e]);
    assert(seq![e].drop_last() =~= Seq::<Seq<char>>::empty());
    assert(decode_tokens(Seq::<Seq<char>>::empty()) == empty_model());
    assert(seq![e].last() == e);
    assert(decode_tokens(seq![e]) == decode_token(empty_model(), e, 0));
    assert(decode_token(empty_model(), e, 0) == empty_model());
    assert forall|w: Seq<char>| #[trigger] matches_spec(empty_model(), w) by {
        assert(forall|i: int| 0 <= i < w.len() ==> position_ok(empty_model(), w, i));
    }
}

} // verus!
