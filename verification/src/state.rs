//! The shared game state and its guess-commit rule.  One state holds the
//! current word, the matcher derived from it, the immutable dictionary and
//! the growing set of already used words.  A guess is committed atomically:
//! all four checks and the mutation happen against one snapshot, and a
//! rejected guess leaves the state untouched.

use vstd::prelude::*;

use crate::matcher::continuation_match;
use crate::matcher::SuffixMatcher;
use crate::protocol::str_eq;
use rand::Rng;

verus! {

/// The set of words (as character sequences) held by a vector of strings.
pub open spec fn word_set(v: Seq<String>) -> Set<Seq<char>> {
    Set::new(|w: Seq<char>| exists|i: int| 0 <= i < v.len() && v[i]@ == w)
}

/// The words among the first `n` entries of `v` that are long enough for
/// play: at least three characters.  Length is counted in characters, not
/// bytes, so a multi-byte character counts once.
pub open spec fn eligible_upto(v: Seq<String>, n: int) -> Set<Seq<char>> {
    Set::new(|w: Seq<char>| w.len() >= 3 && exists|i: int| 0 <= i < n && v[i]@ == w)
}

/// The words of `v` that are long enough for play.
pub open spec fn eligible_set(v: Seq<String>) -> Set<Seq<char>> {
    eligible_upto(v, v.len() as int)
}

/// No two entries of `v` hold the same word.
pub open spec fn no_dup_words(v: Seq<String>) -> bool {
    forall|i: int, j: int| 0 <= i < j < v.len() ==> #[trigger] v[i]@ != #[trigger] v[j]@
}

/// The guess-commit rule: a guess is accepted against a state snapshot iff
/// it differs from the current word, has not been used before, is in the
/// dictionary, and continues the current word.
pub open spec fn spec_accepts(
    word: Seq<char>,
    used: Set<Seq<char>>,
    dict: Set<Seq<char>>,
    guess: Seq<char>,
) -> bool {
    &&& guess != word
    &&& !used.contains(guess)
    &&& dict.contains(guess)
    &&& continuation_match(word, guess)
}

proof fn lemma_word_set_push(v: Seq<String>, s: String)
    ensures
        word_set(v.push(s)) == word_set(v).insert(s@),
{
    assert forall|ww: Seq<char>| word_set(v.push(s)).contains(ww) implies word_set(v).insert(
        s@,
    ).contains(ww) by {
        let k = choose|k: int| 0 <= k < v.push(s).len() && v.push(s)[k]@ == ww;
        if k < v.len() {
            assert(v[k]@ == ww);
        } else {
            assert(ww == s@);
        }
    }
    assert forall|ww: Seq<char>| word_set(v).insert(s@).contains(ww) implies word_set(
        v.push(s),
    ).contains(ww) by {
        if ww == s@ {
            assert(v.push(s)[v.len() as int]@ == ww);
        } else {
            let k = choose|k: int| 0 <= k < v.len() && v[k]@ == ww;
            assert(v.push(s)[k]@ == ww);
        }
    }
    assert(word_set(v.push(s)) =~= word_set(v).insert(s@));
}

proof fn lemma_eligible_upto_step(v: Seq<String>, n: int)
    requires
        0 <= n < v.len(),
    ensures
        v[n]@.len() >= 3 ==> eligible_upto(v, n + 1) == eligible_upto(v, n).insert(v[n]@),
        v[n]@.len() < 3 ==> eligible_upto(v, n + 1) == eligible_upto(v, n),
{
    if v[n]@.len() >= 3 {
        assert forall|ww: Seq<char>| eligible_upto(v, n + 1).contains(ww) implies eligible_upto(
            v,
            n,
        ).insert(v[n]@).contains(ww) by {
            let i = choose|i: int| 0 <= i < n + 1 && v[i]@ == ww;
            if i < n {
                assert(eligible_upto(v, n).contains(ww));
            }
        }
        assert forall|ww: Seq<char>| eligible_upto(v, n).insert(v[n]@).contains(ww)
            implies eligible_upto(v, n + 1).contains(ww) by {
            if ww == v[n]@ {
                assert(0 <= n < n + 1 && v[n]@ == ww);
            } else {
                let i = choose|i: int| 0 <= i < n && v[i]@ == ww;
                assert(0 <= i < n + 1 && v[i]@ == ww);
            }
        }
        assert(eligible_upto(v, n + 1) =~= eligible_upto(v, n).insert(v[n]@));
    } else {
        assert forall|ww: Seq<char>| eligible_upto(v, n + 1).contains(ww) implies eligible_upto(
            v,
            n,
        ).contains(ww) by {
            let i = choose|i: int| 0 <= i < n + 1 && v[i]@ == ww;
            assert(i < n);
        }
        assert forall|ww: Seq<char>| eligible_upto(v, n).contains(ww) implies eligible_upto(
            v,
            n + 1,
        ).contains(ww) by {
            let i = choose|i: int| 0 <= i < n && v[i]@ == ww;
            assert(0 <= i < n + 1 && v[i]@ == ww);
        }
        assert(eligible_upto(v, n + 1) =~= eligible_upto(v, n));
    }
}

/// Whether `words` holds the word `w`.
fn contains_word(words: &Vec<String>, w: &str) -> (r: bool)
    ensures
        r == word_set(words@).contains(w@),
{
    let n = words.len();
    let mut i: usize = 0;
    while i < n
        invariant
            i <= n,
            n == words@.len(),
            forall|x: int| 0 <= x < i ==> (#[trigger] words@[x]@) != w@,
        decreases n - i,
    {
        if str_eq(words[i].as_str(), w) {
            proof {
                assert(0 <= i < words@.len() && words@[i as int]@ == w@);
            }
            return true;
        }
        i = i + 1;
    }
    proof {
        if word_set(words@).contains(w@) {
            let x = choose|x: int| 0 <= x < words@.len() && words@[x]@ == w@;
            assert(false);
        }
    }
    false
}

/// Keep the eligible words (at least three characters long), first
/// occurrence of each.
fn filter_eligible(words: &Vec<String>) -> (dict: Vec<String>)
    ensures
        word_set(dict@) == eligible_set(words@),
        forall|i: int| 0 <= i < dict@.len() ==> (#[trigger] dict@[i]@).len() >= 3,
        no_dup_words(dict@),
{
    let n = words.len();
    let mut dict: Vec<String> = Vec::new();
    let mut i: usize = 0;
    proof {
        assert forall|ww: Seq<char>| !(word_set(dict@).contains(ww)) by {
            if word_set(dict@).contains(ww) {
                let k = choose|k: int| 0 <= k < dict@.len() && dict@[k]@ == ww;
            }
        }
        assert forall|ww: Seq<char>| !(eligible_upto(words@, 0).contains(ww)) by {
            if eligible_upto(words@, 0).contains(ww) {
                let k = choose|k: int| 0 <= k < 0 && words@[k]@ == ww;
            }
        }
        assert(word_set(dict@) =~= eligible_upto(words@, 0));
    }
    while i < n
        invariant
            i <= n,
            n == words@.len(),
            forall|x: int| 0 <= x < dict@.len() ==> (#[trigger] dict@[x]@).len() >= 3,
            no_dup_words(dict@),
            word_set(dict@) == eligible_upto(words@, i as int),
        decreases n - i,
    {
        let w = &words[i];
        let long_enough = w.as_str().unicode_len() >= 3;
        if long_enough && !contains_word(&dict, w.as_str()) {
            let ghost dict_old = dict@;
            dict.push(w.clone());
            proof {
                lemma_word_set_push(dict_old, words@[i as int]);
                assert(dict@ == dict_old.push(words@[i as int]));
                lemma_eligible_upto_step(words@, i as int);
                assert forall|a: int, b: int| 0 <= a < b < dict@.len() implies #[trigger] dict@[a]@
                    != #[trigger] dict@[b]@ by {
                    if b < dict_old.len() {
                        assert(dict_old[a]@ != dict_old[b]@);
                    } else {
                        assert(dict@[b]@ == w@);
                        assert(dict_old[a]@ == dict@[a]@);
                        assert(!word_set(dict_old).contains(w@));
                        assert(0 <= a < dict_old.len() && dict_old[a]@ == dict_old[a]@);
                    }
                }
            }
        } else {
            proof {
                lemma_eligible_upto_step(words@, i as int);
                if long_enough {
                    assert(word_set(dict@).contains(words@[i as int]@));
                    assert(eligible_upto(words@, i as int).insert(words@[i as int]@)
                        =~= eligible_upto(words@, i as int));
                }
            }
        }
        i = i + 1;
    }
    dict
}

/// Relies on rand's `Rng::gen_range` over `0..n`: the range is non-empty,
/// and the drawn value lies below `n`.
#[verifier::external_body]
fn random_below(n: usize) -> (r: usize)
    requires
        n > 0,
    ensures
        r < n,
{
    rand::thread_rng().gen_range(0..n)
}

/// Why a game state could not be created.
#[derive(Debug, Clone, PartialEq, Eq)]
pub enum StateError {
    /// No word of the given list is long enough for play.
    EmptyDictionary,
    /// The requested initial word is not an eligible dictionary word.
    WordNotEligible,
}

/// The single shared mutable record of a game: current word, its derived
/// matcher, the immutable dictionary, and the words used so far.
pub struct ServerState {
    word: String,
    matcher: SuffixMatcher,
    dictionary: Vec<String>,
    used_words: Vec<String>,
}

impl ServerState {
    /// The current word.
    pub closed spec fn word_view(&self) -> Seq<char> {
        self.word@
    }

    /// The dictionary, as a set of words.
    pub closed spec fn dict_view(&self) -> Set<Seq<char>> {
        word_set(self.dictionary@)
    }

    /// The words used so far, as a set.
    pub closed spec fn used_view(&self) -> Set<Seq<char>> {
        word_set(self.used_words@)
    }

    /// The internal invariant: the matcher is in sync with the current
    /// word, the dictionary is non-empty, duplicate-free, holds only words
    /// of at least three characters, and holds the current word.
    pub closed spec fn wf(&self) -> bool {
        &&& self.matcher.wf()
        &&& self.matcher.target_seq() == self.word@
        &&& self.dictionary@.len() > 0
        &&& forall|i: int|
            0 <= i < self.dictionary@.len() ==> (#[trigger] self.dictionary@[i]@).len() >= 3
        &&& no_dup_words(self.dictionary@)
        &&& no_dup_words(self.used_words@)
        &&& word_set(self.dictionary@).contains(self.word@)
    }

    /// Whether a guess would be accepted against the current snapshot.
    pub open spec fn accepts(&self, guess: Seq<char>) -> bool {
        spec_accepts(self.word_view(), self.used_view(), self.dict_view(), guess)
    }

    /// Assemble a state whose current word is a dictionary member.
    fn from_parts(dict: Vec<String>, word: String) -> (s: ServerState)
        requires
            dict@.len() > 0,
            forall|i: int| 0 <= i < dict@.len() ==> (#[trigger] dict@[i]@).len() >= 3,
            no_dup_words(dict@),
            word_set(dict@).contains(word@),
        ensures
            s.wf(),
            s.word_view() == word@,
            s.dict_view() == word_set(dict@),
            s.used_view() == Set::<Seq<char>>::empty(),
    {
        let m = SuffixMatcher::new(word.as_str());
        let s = ServerState { word, matcher: m, dictionary: dict, used_words: Vec::new() };
        proof {
            assert forall|ww: Seq<char>| !(word_set(s.used_words@).contains(ww)) by {
                if word_set(s.used_words@).contains(ww) {
                    let k = choose|k: int| 0 <= k < s.used_words@.len() && s.used_words@[k]@ == ww;
                }
            }
            assert(word_set(s.used_words@) =~= Set::<Seq<char>>::empty());
        }
        s
    }

    /// Build the state from a raw word list: keep the words of at least
    /// three characters (counted in characters, not bytes), fail if none
    /// is left, and start from a uniformly chosen dictionary word with no
    /// word used yet.
    pub fn new(words: Vec<String>) -> (r: Result<ServerState, StateError>)
        ensures
            ({
                match r {
                    Ok(s) => s.wf() && s.dict_view() == eligible_set(words@) && s.used_view()
                        == Set::<Seq<char>>::empty() && s.dict_view().contains(s.word_view()),
                    Err(e) => e == StateError::EmptyDictionary && eligible_set(words@)
                        == Set::<Seq<char>>::empty(),
                }
            }),
    {
        let dict = filter_eligible(&words);
        if dict.len() == 0 {
            proof {
                assert forall|ww: Seq<char>| !(eligible_set(words@).contains(ww)) by {
                    if eligible_set(words@).contains(ww) {
                        assert(word_set(dict@).contains(ww));
                        let k = choose|k: int| 0 <= k < dict@.len() && dict@[k]@ == ww;
                    }
                }
                assert(eligible_set(words@) =~= Set::<Seq<char>>::empty());
            }
            return Err(StateError::EmptyDictionary);
        }
        let i = random_below(dict.len());
        let w = dict[i].clone();
        proof {
            assert(0 <= i < dict@.len() && dict@[i as int]@ == w@);
        }
        Ok(Self::from_parts(dict, w))
    }

    /// Build the state from a raw word list with the initial word fixed;
    /// fails exactly when that word is not an eligible dictionary word.
    pub fn new_with_word(words: Vec<String>, initial: &str) -> (r: Result<ServerState, StateError>)
        ensures
            ({
                match r {
                    Ok(s) => s.wf() && s.dict_view() == eligible_set(words@) && s.used_view()
                        == Set::<Seq<char>>::empty() && s.word_view() == initial@
                        && eligible_set(words@).contains(initial@),
                    Err(e) => e == StateError::WordNotEligible && !eligible_set(words@).contains(
                        initial@,
                    ),
                }
            }),
    {
        let dict = filter_eligible(&words);
        if contains_word(&dict, initial) {
            proof {
                let k = choose|k: int| 0 <= k < dict@.len() && dict@[k]@ == initial@;
                assert(dict@.len() > 0);
            }
            let w = initial.to_owned();
            Ok(Self::from_parts(dict, w))
        } else {
            Err(StateError::WordNotEligible)
        }
    }

    /// The current word, for a reader.
    pub fn current_word(&self) -> (w: String)
        ensures
            w@ == self.word_view(),
    {
        self.word.clone()
    }

    /// Evaluate and possibly commit one guess against the current
    /// snapshot.  The guess is accepted iff it differs from the current
    /// word, was never used, is a dictionary word, and continues the
    /// current word; on acceptance it joins the used words and becomes the
    /// new current word (so a successful commit always changes the word),
    /// and on rejection the state is left untouched.
    pub fn try_accept(&mut self, guess: &str) -> (accepted: bool)
        requires
            old(self).wf(),
        ensures
            final(self).wf(),
            accepted == old(self).accepts(guess@),
            final(self).dict_view() == old(self).dict_view(),
            accepted ==> final(self).word_view() == guess@
                && final(self).used_view() == old(self).used_view().insert(guess@)
                && final(self).word_view() != old(self).word_view()
                && final(self).used_view().contains(final(self).word_view()),
            !accepted ==> final(self).word_view() == old(self).word_view()
                && final(self).used_view() == old(self).used_view(),
    {
        let not_same = !str_eq(self.word.as_str(), guess);
        let not_used = !contains_word(&self.used_words, guess);
        let in_dict = contains_word(&self.dictionary, guess);
        let matches_suffix = self.matcher.try_match(guess);
        let accept = not_same && not_used && in_dict && matches_suffix;
        if accept {
            let ghost used_old = self.used_words@;
            self.used_words.push(guess.to_owned());
            self.matcher = SuffixMatcher::new(guess);
            self.word = guess.to_owned();
            proof {
                lemma_word_set_push(used_old, self.used_words@[used_old.len() as int]);
                assert(self.used_words@ == used_old.push(self.used_words@[used_old.len() as int]));
                assert forall|a: int, b: int|
                    0 <= a < b < self.used_words@.len() implies #[trigger] self.used_words@[a]@
                    != #[trigger] self.used_words@[b]@ by {
                    if b < used_old.len() {
                        assert(used_old[a]@ != used_old[b]@);
                    } else {
                        assert(self.used_words@[b]@ == guess@);
                        assert(!word_set(used_old).contains(guess@));
                        assert(0 <= a < used_old.len() && used_old[a]@ == self.used_words@[a]@);
                    }
                }
            }
        }
        accept
    }
}

/// The word after a serialized run of guesses: each guess is evaluated
/// against the snapshot current at its own step and, if accepted, becomes
/// the word and joins the used set for the rest of the run.
pub open spec fn run_word(
    word: Seq<char>,
    used: Set<Seq<char>>,
    dict: Set<Seq<char>>,
    gs: Seq<Seq<char>>,
) -> Seq<char>
    decreases gs.len(),
{
    if gs.len() == 0 {
        word
    } else if spec_accepts(word, used, dict, gs.first()) {
        run_word(gs.first(), used.insert(gs.first()), dict, gs.drop_first())
    } else {
        run_word(word, used, dict, gs.drop_first())
    }
}

/// The used set after a serialized run of guesses.
pub open spec fn run_used(
    word: Seq<char>,
    used: Set<Seq<char>>,
    dict: Set<Seq<char>>,
    gs: Seq<Seq<char>>,
) -> Set<Seq<char>>
    decreases gs.len(),
{
    if gs.len() == 0 {
        used
    } else if spec_accepts(word, used, dict, gs.first()) {
        run_used(gs.first(), used.insert(gs.first()), dict, gs.drop_first())
    } else {
        run_used(word, used, dict, gs.drop_first())
    }
}

/// The set of guesses accepted during a serialized run.
pub open spec fn run_accepted(
    word: Seq<char>,
    used: Set<Seq<char>>,
    dict: Set<Seq<char>>,
    gs: Seq<Seq<char>>,
) -> Set<Seq<char>>
    decreases gs.len(),
{
    if gs.len() == 0 {
        Set::<Seq<char>>::empty()
    } else if spec_accepts(word, used, dict, gs.first()) {
        run_accepted(gs.first(), used.insert(gs.first()), dict, gs.drop_first()).insert(gs.first())
    } else {
        run_accepted(word, used, dict, gs.drop_first())
    }
}

/// Appending one more guess to a serialized run: the new guess is accepted
/// exactly when it passes the four commit checks against the snapshot the
/// run so far has left, and the run's word, used set and accepted set
/// change accordingly and only then.
pub proof fn lemma_run_snoc(
    word: Seq<char>,
    used: Set<Seq<char>>,
    dict: Set<Seq<char>>,
    gs: Seq<Seq<char>>,
    g: Seq<char>,
)
    ensures
        spec_accepts(run_word(word, used, dict, gs), run_used(word, used, dict, gs), dict, g)
            ==> run_word(word, used, dict, gs.push(g)) == g
            && run_used(word, used, dict, gs.push(g)) == run_used(word, used, dict, gs).insert(g)
            && run_accepted(word, used, dict, gs.push(g)) == run_accepted(word, used, dict, gs).insert(g),
        !spec_accepts(run_word(word, used, dict, gs), run_used(word, used, dict, gs), dict, g)
            ==> run_word(word, used, dict, gs.push(g)) == run_word(word, used, dict, gs)
            && run_used(word, used, dict, gs.push(g)) == run_used(word, used, dict, gs)
            && run_accepted(word, used, dict, gs.push(g)) == run_accepted(word, used, dict, gs),
    decreases gs.len(),
{
    if gs.len() == 0 {
        let e = Seq::<Seq<char>>::empty();
        assert(gs.push(g).first() == g);
        assert(gs.push(g).drop_first() =~= e);
        assert(run_word(word, used, dict, gs) == word);
        assert(run_used(word, used, dict, gs) == used);
        assert(run_accepted(word, used, dict, gs) == Set::<Seq<char>>::empty());
        assert(run_word(g, used.insert(g), dict, e) == g);
        assert(run_used(g, used.insert(g), dict, e) == used.insert(g));
        assert(run_accepted(g, used.insert(g), dict, e) == Set::<Seq<char>>::empty());
        assert(run_word(word, used, dict, e) == word);
        assert(run_used(word, used, dict, e) == used);
        assert(run_accepted(word, used, dict, e) == Set::<Seq<char>>::empty());
        if spec_accepts(word, used, dict, g) {
            assert(run_word(word, used, dict, gs.push(g)) == g);
            assert(run_used(word, used, dict, gs.push(g)) == used.insert(g));
            assert(run_accepted(word, used, dict, gs.push(g)) == Set::<Seq<char>>::empty().insert(
                g,
            ));
        } else {
            assert(run_word(word, used, dict, gs.push(g)) == word);
            assert(run_used(word, used, dict, gs.push(g)) == used);
            assert(run_accepted(word, used, dict, gs.push(g)) == Set::<Seq<char>>::empty());
        }
    } else {
        let g0 = gs.first();
        assert(gs.push(g).first() == g0);
        assert(gs.push(g).drop_first() =~= gs.drop_first().push(g));
        if spec_accepts(word, used, dict, g0) {
            lemma_run_snoc(g0, used.insert(g0), dict, gs.drop_first(), g);
        } else {
            lemma_run_snoc(word, used, dict, gs.drop_first(), g);
        }
    }
}

/// Accounting for a serialized run: the used set afterwards is exactly the
/// initial used set plus the accepted words, and no accepted word was in
/// the initial used set — a word is never accepted twice.
pub proof fn lemma_run_accounting(
    word: Seq<char>,
    used: Set<Seq<char>>,
    dict: Set<Seq<char>>,
    gs: Seq<Seq<char>>,
)
    ensures
        run_used(word, used, dict, gs) == used.union(run_accepted(word, used, dict, gs)),
        forall|w: Seq<char>|
            #[trigger] run_accepted(word, used, dict, gs).contains(w) ==> !used.contains(w),
    decreases gs.len(),
{
    if gs.len() == 0 {
        assert(run_used(word, used, dict, gs) =~= used.union(run_accepted(word, used, dict, gs)));
    } else {
        let g0 = gs.first();
        if spec_accepts(word, used, dict, g0) {
            lemma_run_accounting(g0, used.insert(g0), dict, gs.drop_first());
            assert(run_used(word, used, dict, gs) =~= used.union(
                run_accepted(word, used, dict, gs),
            ));
            assert forall|w: Seq<char>| #[trigger] run_accepted(word, used, dict, gs).contains(w)
                implies !used.contains(w) by {
                if w != g0 {
                    assert(run_accepted(g0, used.insert(g0), dict, gs.drop_first()).contains(w));
                }
            }
        } else {
            lemma_run_accounting(word, used, dict, gs.drop_first());
        }
    }
}

/// The guess at step `n` of a serialized run is accepted exactly when it
/// passes the four commit checks against the snapshot current at its own
/// step, and only an accepted guess moves the word and the used set.
pub proof fn lemma_run_step(
    word: Seq<char>,
    used: Set<Seq<char>>,
    dict: Set<Seq<char>>,
    gs: Seq<Seq<char>>,
    n: int,
)
    requires
        0 <= n < gs.len(),
    ensures
        spec_accepts(
            run_word(word, used, dict, gs.take(n)),
            run_used(word, used, dict, gs.take(n)),
            dict,
            gs[n],
        ) ==> run_word(word, used, dict, gs.take(n + 1)) == gs[n]
            && run_used(word, used, dict, gs.take(n + 1))
                == run_used(word, used, dict, gs.take(n)).insert(gs[n])
            && run_accepted(word, used, dict, gs.take(n + 1))
                == run_accepted(word, used, dict, gs.take(n)).insert(gs[n]),
        !spec_accepts(
            run_word(word, used, dict, gs.take(n)),
            run_used(word, used, dict, gs.take(n)),
            dict,
            gs[n],
        ) ==> run_word(word, used, dict, gs.take(n + 1)) == run_word(word, used, dict, gs.take(n))
            && run_used(word, used, dict, gs.take(n + 1)) == run_used(word, used, dict, gs.take(n))
            && run_accepted(word, used, dict, gs.take(n + 1))
                == run_accepted(word, used, dict, gs.take(n)),
{
    assert(gs.take(n + 1) =~= gs.take(n).push(gs[n]));
    lemma_run_snoc(word, used, dict, gs.take(n), gs[n]);
}

/// The used set of a serialized run only grows as the run goes on.
pub proof fn lemma_run_used_monotone(
    word: Seq<char>,
    used: Set<Seq<char>>,
    dict: Set<Seq<char>>,
    gs: Seq<Seq<char>>,
    m: int,
    m2: int,
)
    requires
        0 <= m <= m2 <= gs.len(),
    ensures
        run_used(word, used, dict, gs.take(m)).subset_of(run_used(word, used, dict, gs.take(m2))),
    decreases m2 - m,
{
    if m < m2 {
        lemma_run_used_monotone(word, used, dict, gs, m, m2 - 1);
        assert(gs.take(m2) =~= gs.take(m2 - 1).push(gs[m2 - 1]));
        lemma_run_snoc(word, used, dict, gs.take(m2 - 1), gs[m2 - 1]);
        assert forall|w: Seq<char>| run_used(word, used, dict, gs.take(m)).contains(w)
            implies #[trigger] run_used(word, used, dict, gs.take(m2)).contains(w) by {
            assert(run_used(word, used, dict, gs.take(m2 - 1)).contains(w));
        }
    }
}

/// Serializability of commits: a successful evaluation at step `i` of a
/// serialized run puts its guess into every later used-word snapshot,
/// while that guess was absent from the snapshot it was itself evaluated
/// against — so two serialized successful commits never observe the same
/// used-word snapshot.
pub proof fn lemma_no_repeated_observation(
    word: Seq<char>,
    used: Set<Seq<char>>,
    dict: Set<Seq<char>>,
    gs: Seq<Seq<char>>,
    i: int,
    j: int,
)
    requires
        0 <= i < j <= gs.len(),
        spec_accepts(
            run_word(word, used, dict, gs.take(i)),
            run_used(word, used, dict, gs.take(i)),
            dict,
            gs[i],
        ),
    ensures
        run_used(word, used, dict, gs.take(j)).contains(gs[i]),
        !run_used(word, used, dict, gs.take(i)).contains(gs[i]),
        run_used(word, used, dict, gs.take(j)) != run_used(word, used, dict, gs.take(i)),
{
    assert(gs.take(i + 1) =~= gs.take(i).push(gs[i]));
    lemma_run_snoc(word, used, dict, gs.take(i), gs[i]);
    assert(run_used(word, used, dict, gs.take(i + 1)).contains(gs[i]));
    lemma_run_used_monotone(word, used, dict, gs, i + 1, j);
    assert(run_used(word, used, dict, gs.take(j)).contains(gs[i]));
}

} // verus!
