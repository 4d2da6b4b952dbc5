//! Candidate sets and per-letter feedback.
//!
//! A `Guess` is a membership vector over the dictionary: entry `i` is true
//! while word `i` is still a possible solution.  `FeedBack` classifies one
//! letter of a guessed word against an assumed true solution.

use vstd::prelude::*;
use crate::cache::FeedbackCache;

verus! {

/// Per-letter mark for a guessed word against an assumed solution.
#[derive(Clone, Copy, Debug, PartialEq, Eq, Structural)]
pub enum FeedBack {
    /// The letter does not occur in the solution.
    Black,
    /// The letter occurs in the solution, but not at this position.
    Yellow,
    /// The solution has exactly this letter at this position.
    Green,
}

/// The set of dictionary words still consistent with all feedback so far,
/// as a membership vector parallel to the dictionary.
pub struct Guess {
    possible_words: Vec<bool>,
}

impl View for Guess {
    type V = Seq<bool>;

    closed spec fn view(&self) -> Seq<bool> {
        self.possible_words@
    }
}

impl Clone for Guess {
    fn clone(&self) -> (r: Self)
        ensures
            r@ == self@,
    {
        let possible_words = self.possible_words.clone();
        assert(possible_words@ =~= self.possible_words@);
        Guess { possible_words }
    }
}

/// The character of `s` at position `j`, or `None` past the end.
pub open spec fn char_at(s: Seq<char>, j: int) -> Option<char> {
    if 0 <= j < s.len() {
        Some(s[j])
    } else {
        None
    }
}

/// The mark the evaluator gives position `i` of `word` against `solution`:
/// Green on an exact positional match, Yellow when the letter occurs
/// elsewhere in the solution, Black when it does not occur at all.
pub open spec fn feedback_at(word: Seq<char>, solution: Seq<char>, i: int) -> FeedBack {
    if solution.contains(word[i]) {
        if char_at(solution, i) == Some(word[i]) {
            FeedBack::Green
        } else {
            FeedBack::Yellow
        }
    } else {
        FeedBack::Black
    }
}

/// The whole feedback sequence for `word` against `solution`.
pub open spec fn feedback_spec(word: Seq<char>, solution: Seq<char>) -> Seq<FeedBack> {
    Seq::new(word.len(), |i: int| feedback_at(word, solution, i))
}

/// Every mark of `feedback` is Green.
pub open spec fn all_green(feedback: Seq<FeedBack>) -> bool {
    forall|j: int| 0 <= j < feedback.len() ==> feedback[j] == FeedBack::Green
}

/// What mark `fb` at position `j` demands of a candidate word `w`, for the
/// guessed word `word`.
pub open spec fn consistent_at(w: Seq<char>, word: Seq<char>, fb: FeedBack, j: int) -> bool {
    match fb {
        FeedBack::Black => char_at(w, j) != char_at(word, j),
        FeedBack::Green => char_at(w, j) == char_at(word, j),
        FeedBack::Yellow => exists|k: int|
            0 <= k < w.len() && k != j && Some(w[k]) == char_at(word, j),
    }
}

/// A candidate word `w` survives the whole `feedback` for guessed `word`.
pub open spec fn word_consistent(w: Seq<char>, word: Seq<char>, feedback: Seq<FeedBack>) -> bool {
    forall|j: int| 0 <= j < feedback.len() ==> consistent_at(w, word, #[trigger] feedback[j], j)
}

/// `i` is the first position of `dict` whose word reads `w`.
pub open spec fn is_first_match(dict: Seq<String>, w: Seq<char>, i: int) -> bool {
    &&& 0 <= i < dict.len()
    &&& dict[i]@ == w
    &&& forall|j: int| 0 <= j < i ==> dict[j]@ != w
}

/// The membership vector refinement yields: on all-Green feedback the
/// singleton at the first dictionary position of `word`; otherwise the
/// pointwise conjunction of the old membership with per-letter consistency.
pub open spec fn refine_spec(
    possible: Seq<bool>,
    word: Seq<char>,
    feedback: Seq<FeedBack>,
    dict: Seq<String>,
) -> Seq<bool> {
    if all_green(feedback) {
        Seq::new(dict.len(), |i: int| is_first_match(dict, word, i))
    } else {
        Seq::new(
            possible.len(),
            |i: int| possible[i] && word_consistent(dict[i]@, word, feedback),
        )
    }
}

/// How many entries of `s` are true.
pub open spec fn count_true(s: Seq<bool>) -> int
    decreases s.len(),
{
    if s.len() == 0 {
        0
    } else {
        count_true(s.drop_last()) + if s.last() {
            1int
        } else {
            0int
        }
    }
}

/// The dictionary words at the positions `possible` marks true, in
/// dictionary order.
pub open spec fn solutions_spec(possible: Seq<bool>, dict: Seq<String>) -> Seq<String>
    decreases possible.len(),
{
    if possible.len() == 0 {
        Seq::empty()
    } else {
        solutions_spec(possible.drop_last(), dict) + if possible.last() && possible.len() - 1
            < dict.len() {
            seq![dict[possible.len() - 1]]
        } else {
            Seq::empty()
        }
    }
}

/// Compares two string slices character by character.
pub fn str_eq(a: &str, b: &str) -> (r: bool)
    ensures
        r == (a@ == b@),
{
    let a_len = a.unicode_len();
    let b_len = b.unicode_len();
    if a_len != b_len {
        assert(a@ != b@);
        return false;
    }
    let mut i: usize = 0;
    while i < a_len
        invariant
            i <= a_len,
            a_len == a@.len(),
            a_len == b@.len(),
            forall|k: int| 0 <= k < i ==> a@[k] == b@[k],
        decreases a_len - i,
    {
        if a.get_char(i) != b.get_char(i) {
            return false;
        }
        i += 1;
    }
    assert(a@ =~= b@);
    true
}

/// The character of `s` at `j`, or `None` past the end; `len` is `s`'s
/// length in characters.
fn char_at_exec(s: &str, len: usize, j: usize) -> (r: Option<char>)
    requires
        len == s@.len(),
    ensures
        r == char_at(s@, j as int),
{
    if j < len {
        Some(s.get_char(j))
    } else {
        None
    }
}

impl FeedBack {
    /// Computes the feedback for `word` against `solution` directly,
    /// without consulting any cache.
    pub fn compute(word: &str, solution: &str) -> (r: Vec<FeedBack>)
        ensures
            r@ == feedback_spec(word@, solution@),
    {
        let word_len = word.unicode_len();
        let sol_len = solution.unicode_len();
        let mut r: Vec<FeedBack> = Vec::new();
        let mut i: usize = 0;
        while i < word_len
            invariant
                i <= word_len,
                word_len == word@.len(),
                sol_len == solution@.len(),
                r@.len() == i,
                forall|k: int| 0 <= k < i ==> r@[k] == feedback_at(word@, solution@, k),
            decreases word_len - i,
        {
            let c = word.get_char(i);
            let mut contains = false;
            let mut j: usize = 0;
            while j < sol_len
                invariant
                    j <= sol_len,
                    sol_len == solution@.len(),
                    contains == exists|k: int| 0 <= k < j && solution@[k] == c,
                decreases sol_len - j,
            {
                if solution.get_char(j) == c {
                    contains = true;
                }
                j += 1;
            }
            assert(contains == solution@.contains(c));
            let mark = if contains {
                if i < sol_len && solution.get_char(i) == c {
                    FeedBack::Green
                } else {
                    FeedBack::Yellow
                }
            } else {
                FeedBack::Black
            };
            assert(mark == feedback_at(word@, solution@, i as int));
            r.push(mark);
            i += 1;
        }
        assert(r@ =~= feedback_spec(word@, solution@));
        r
    }

    /// Looks the pair up in the cache and falls back to computing directly.
    /// A well-formed cache only holds entries that agree with the direct
    /// computation, so the result is the same either way.
    pub fn evaluate(word: &str, solution: &str, cache: &FeedbackCache) -> (r: Vec<FeedBack>)
        requires
            cache.wf(),
        ensures
            r@ == feedback_spec(word@, solution@),
    {
        match cache.lookup(word, solution) {
            Some(feedback) => feedback,
            None => FeedBack::compute(word, solution),
        }
    }
}

impl Guess {
    /// The initial candidate set: every dictionary word is still possible.
    pub fn new(dict: &Vec<String>) -> (r: Self)
        ensures
            r@.len() == dict@.len(),
            forall|i: int| 0 <= i < r@.len() ==> r@[i],
    {
        let possible_words = vec![true; dict.len()];
        Guess { possible_words }
    }

    /// Reads a membership vector from its compact string form: a character
    /// per dictionary word, `'1'` marking a still-possible word.
    pub fn from_string(possible_words: &str) -> (r: Self)
        ensures
            r@.len() == possible_words@.len(),
            forall|i: int| 0 <= i < r@.len() ==> r@[i] == (possible_words@[i] == '1'),
    {
        let len = possible_words.unicode_len();
        let mut v: Vec<bool> = Vec::new();
        let mut i: usize = 0;
        while i < len
            invariant
                i <= len,
                len == possible_words@.len(),
                v@.len() == i,
                forall|k: int| 0 <= k < i ==> v@[k] == (possible_words@[k] == '1'),
            decreases len - i,
        {
            v.push(possible_words.get_char(i) == '1');
            i += 1;
        }
        Guess { possible_words: v }
    }

    /// Writes the membership vector in its compact string form.
    pub fn to_string(&self) -> (r: String)
        ensures
            r@ == Seq::new(self@.len(), |i: int| if self@[i] { '1' } else { '0' }),
    {
        proof {
            reveal_strlit("1");
            reveal_strlit("0");
        }
        let mut r = String::new();
        let mut i: usize = 0;
        let len = self.possible_words.len();
        while i < len
            invariant
                i <= len,
                len == self@.len(),
                r@.len() == i,
                forall|k: int| 0 <= k < i ==> r@[k] == (if self@[k] { '1' } else { '0' }),
            decreases len - i,
        {
            proof {
                reveal_strlit("1");
                reveal_strlit("0");
            }
            if self.possible_words[i] {
                r.append("1");
            } else {
                r.append("0");
            }
            i += 1;
        }
        assert(r@ =~= Seq::new(self@.len(), |i: int| if self@[i] { '1' } else { '0' }));
        r
    }

    /// The still-possible words, in dictionary order.
    pub fn solutions(&self, dict: &Vec<String>) -> (r: Vec<String>)
        requires
            self@.len() <= dict@.len(),
        ensures
            r@ == solutions_spec(self@, dict@),
    {
        let mut r: Vec<String> = Vec::new();
        let mut i: usize = 0;
        let len = self.possible_words.len();
        while i < len
            invariant
                i <= len,
                len == self@.len(),
                self@.len() <= dict@.len(),
                r@ == solutions_spec(self@.take(i as int), dict@),
            decreases len - i,
        {
            proof {
                assert(self@.take(i + 1).drop_last() =~= self@.take(i as int));
                assert(self@.take(i + 1).last() == self@[i as int]);
            }
            if self.possible_words[i] {
                r.push(dict[i].clone());
            }
            i += 1;
        }
        proof {
            assert(self@.take(len as int) =~= self@);
        }
        r
    }

    /// How many words are still possible; 1 means a solved, terminal state.
    pub fn num_solutions(&self) -> (r: usize)
        ensures
            r == count_true(self@),
    {
        let mut count: usize = 0;
        let mut i: usize = 0;
        let len = self.possible_words.len();
        while i < len
            invariant
                i <= len,
                len == self@.len(),
                count <= i,
                count == count_true(self@.take(i as int)),
            decreases len - i,
        {
            proof {
                assert(self@.take(i + 1).drop_last() =~= self@.take(i as int));
                assert(self@.take(i + 1).last() == self@[i as int]);
            }
            if self.possible_words[i] {
                count += 1;
            }
            i += 1;
        }
        proof {
            assert(self@.take(len as int) =~= self@);
        }
        count
    }

    /// The length of the membership vector (the dictionary size it was
    /// built for).
    pub fn len(&self) -> (r: usize)
        ensures
            r == self@.len(),
    {
        self.possible_words.len()
    }

    /// Do the two candidate sets mark exactly the same words?
    pub fn same_as(&self, other: &Guess) -> (r: bool)
        ensures
            r == (self@ == other@),
    {
        if self.possible_words.len() != other.possible_words.len() {
            assert(self@ != other@);
            return false;
        }
        let n = self.possible_words.len();
        let mut i: usize = 0;
        while i < n
            invariant
                i <= n,
                n == self@.len(),
                n == other@.len(),
                forall|k: int| 0 <= k < i ==> self@[k] == other@[k],
            decreases n - i,
        {
            if self.possible_words[i] != other.possible_words[i] {
                return false;
            }
            i += 1;
        }
        assert(self@ =~= other@);
        true
    }

    /// Restricts the candidate set to the words consistent with `feedback`
    /// for the guessed `word`.  All-Green feedback collapses the set to the
    /// guessed word itself, which must then be present in the dictionary.
    pub fn refine(&self, word: &str, feedback: &Vec<FeedBack>, dict: &Vec<String>) -> (r: Self)
        requires
            self@.len() == dict@.len(),
            all_green(feedback@) ==> exists|i: int| 0 <= i < dict@.len() && dict@[i]@ == word@,
        ensures
            r@ == refine_spec(self@, word@, feedback@, dict@),
    {
        // is the feedback all Green?
        let mut green = true;
        let mut j: usize = 0;
        let fb_len = feedback.len();
        while j < fb_len
            invariant
                j <= fb_len,
                fb_len == feedback@.len(),
                green == forall|k: int| 0 <= k < j ==> feedback@[k] == FeedBack::Green,
            decreases fb_len - j,
        {
            if !(feedback[j] == FeedBack::Green) {
                green = false;
            }
            j += 1;
        }
        assert(green == all_green(feedback@));
        if green {
            // exact-match shortcut: only the guessed word survives
            let dict_len = dict.len();
            let mut idx: usize = 0;
            let mut found = false;
            while idx < dict_len && !found
                invariant
                    idx <= dict_len,
                    dict_len == dict@.len(),
                    forall|k: int| 0 <= k < idx ==> dict@[k]@ != word@,
                    found ==> idx < dict_len && dict@[idx as int]@ == word@,
                decreases dict_len - idx + (if found { 0int } else { 1int }),
            {
                if str_eq(dict[idx].as_str(), word) {
                    found = true;
                } else {
                    idx += 1;
                }
            }
            assert(found) by {
                if !found {
                    assert(forall|k: int| 0 <= k < dict@.len() ==> dict@[k]@ != word@);
                }
            }
            let mut v = vec![false; dict_len];
            v.set(idx, true);
            proof {
                assert forall|i: int| 0 <= i < dict@.len() implies v@[i] == is_first_match(
                    dict@,
                    word@,
                    i,
                ) by {
                    if i < idx {
                        assert(dict@[i]@ != word@);
                    } else if i > idx {
                        assert(dict@[idx as int]@ == word@);
                    }
                }
                assert(v@ =~= refine_spec(self@, word@, feedback@, dict@));
            }
            return Guess { possible_words: v };
        }
        let word_len = word.unicode_len();
        let mut v: Vec<bool> = Vec::new();
        let mut i: usize = 0;
        let len = self.possible_words.len();
        while i < len
            invariant
                i <= len,
                len == self@.len(),
                self@.len() == dict@.len(),
                word_len == word@.len(),
                v@.len() == i,
                forall|k: int|
                    0 <= k < i ==> v@[k] == (self@[k] && word_consistent(
                        dict@[k]@,
                        word@,
                        feedback@,
                    )),
            decreases len - i,
        {
            let keep = if self.possible_words[i] {
                word_consistent_exec(dict[i].as_str(), word, word_len, feedback)
            } else {
                false
            };
            v.push(keep);
            i += 1;
        }
        proof {
            assert(!all_green(feedback@));
            assert(v@ =~= refine_spec(self@, word@, feedback@, dict@));
        }
        Guess { possible_words: v }
    }
}

/// Does candidate word `w` survive every mark of `feedback` for guessed
/// `word`?  `word_len` is `word`'s length in characters.
fn word_consistent_exec(w: &str, word: &str, word_len: usize, feedback: &Vec<FeedBack>) -> (r:
    bool)
    requires
        word_len == word@.len(),
    ensures
        r == word_consistent(w@, word@, feedback@),
{
    let w_len = w.unicode_len();
    let fb_len = feedback.len();
    let mut j: usize = 0;
    while j < fb_len
        invariant
            j <= fb_len,
            fb_len == feedback@.len(),
            w_len == w@.len(),
            word_len == word@.len(),
            forall|k: int| 0 <= k < j ==> consistent_at(w@, word@, #[trigger] feedback@[k], k),
        decreases fb_len - j,
    {
        let ok = match feedback[j] {
            FeedBack::Black => {
                let a = char_at_exec(w, w_len, j);
                let b = char_at_exec(word, word_len, j);
                !opt_char_eq(a, b)
            },
            FeedBack::Green => {
                let a = char_at_exec(w, w_len, j);
                let b = char_at_exec(word, word_len, j);
                opt_char_eq(a, b)
            },
            FeedBack::Yellow => {
                if j < word_len {
                    let c = word.get_char(j);
                    let mut found = false;
                    let mut k: usize = 0;
                    while k < w_len
                        invariant
                            k <= w_len,
                            w_len == w@.len(),
                            j < word@.len(),
                            c == word@[j as int],
                            found == exists|m: int| 0 <= m < k && m != j && w@[m] == c,
                        decreases w_len - k,
                    {
                        if k != j && w.get_char(k) == c {
                            found = true;
                        }
                        k += 1;
                    }
                    assert(found == consistent_at(w@, word@, FeedBack::Yellow, j as int));
                    found
                } else {
                    assert(char_at(word@, j as int) is None);
                    false
                }
            },
        };
        if !ok {
            return false;
        }
        j += 1;
    }
    true
}

/// Equality of two optional characters.
fn opt_char_eq(a: Option<char>, b: Option<char>) -> (r: bool)
    ensures
        r == (a == b),
{
    match (a, b) {
        (Some(x), Some(y)) => x == y,
        (None, None) => true,
        _ => false,
    }
}

/// Feedback is a pure function of guess and solution, and a word evaluated
/// against itself comes back all-Green.
pub proof fn lemma_self_feedback_all_green(s: Seq<char>)
    ensures
        all_green(feedback_spec(s, s)),
{
    assert forall|j: int| 0 <= j < feedback_spec(s, s).len() implies feedback_spec(s, s)[j]
        == FeedBack::Green by {
        assert(s.contains(s[j]));
        assert(char_at(s, j) == Some(s[j]));
    }
}

/// A word of `solutions_spec` is exactly a dictionary word at a position the
/// membership vector marks true.
pub proof fn lemma_solutions_membership(p: Seq<bool>, dict: Seq<String>)
    requires
        p.len() <= dict.len(),
    ensures
        forall|w: String|
            #[trigger] solutions_spec(p, dict).contains(w) <==> exists|i: int|
                0 <= i < p.len() && p[i] && dict[i] == w,
    decreases p.len(),
{
    if p.len() == 0 {
        assert(forall|w: String| !solutions_spec(p, dict).contains(w));
    } else {
        lemma_solutions_membership(p.drop_last(), dict);
        let q = p.drop_last();
        let tail = if p.last() && p.len() - 1 < dict.len() {
            seq![dict[p.len() - 1]]
        } else {
            Seq::<String>::empty()
        };
        assert(solutions_spec(p, dict) == solutions_spec(q, dict) + tail);
        assert forall|w: String| #[trigger] solutions_spec(p, dict).contains(w) implies exists|
            i: int,
        | 0 <= i < p.len() && p[i] && dict[i] == w by {
            let j = choose|j: int| 0 <= j < solutions_spec(p, dict).len() && solutions_spec(
                p,
                dict,
            )[j] == w;
            if j < solutions_spec(q, dict).len() {
                assert(solutions_spec(q, dict).contains(w));
                let i = choose|i: int| 0 <= i < q.len() && q[i] && dict[i] == w;
                assert(p[i] == q[i]);
            } else {
                assert(p[p.len() - 1] && dict[p.len() - 1] == w);
            }
        }
        assert forall|w: String| (exists|i: int| 0 <= i < p.len() && p[i] && dict[i] == w)
            implies #[trigger] solutions_spec(p, dict).contains(w) by {
            let i = choose|i: int| 0 <= i < p.len() && p[i] && dict[i] == w;
            if i < p.len() - 1 {
                assert(q[i] && dict[i] == w);
                assert(solutions_spec(q, dict).contains(w));
                let j = choose|j: int| 0 <= j < solutions_spec(q, dict).len() && solutions_spec(
                    q,
                    dict,
                )[j] == w;
                assert(solutions_spec(p, dict)[j] == w);
            } else {
                assert(solutions_spec(p, dict).last() == w);
            }
        }
    }
}

/// Monotonic shrinkage: whatever the guessed word and feedback, the refined
/// candidate set's solutions are a subset of the starting set's.  On all-Green
/// feedback this asks that the guessed word's first dictionary position is
/// still possible; without that the collapse could resurrect a word already
/// ruled out.
pub proof fn lemma_refine_monotonic(
    possible: Seq<bool>,
    word: Seq<char>,
    feedback: Seq<FeedBack>,
    dict: Seq<String>,
)
    requires
        possible.len() == dict.len(),
        all_green(feedback) ==> forall|i: int|
            is_first_match(dict, word, i) ==> #[trigger] possible[i],
    ensures
        forall|w: String|
            #[trigger] solutions_spec(refine_spec(possible, word, feedback, dict), dict).contains(
                w,
            ) ==> solutions_spec(possible, dict).contains(w),
{
    let r = refine_spec(possible, word, feedback, dict);
    lemma_solutions_membership(r, dict);
    lemma_solutions_membership(possible, dict);
    assert forall|w: String| #[trigger] solutions_spec(r, dict).contains(w)
        implies solutions_spec(possible, dict).contains(w) by {
        let i = choose|i: int| 0 <= i < r.len() && r[i] && dict[i] == w;
        assert(possible[i]);
    }
}

/// All-Green collapse: when the guessed word equals the assumed solution,
/// refinement leaves exactly the guessed word, provided its first dictionary
/// position was still possible.
pub proof fn lemma_all_green_collapse(
    possible: Seq<bool>,
    word: Seq<char>,
    dict: Seq<String>,
    idx: int,
)
    requires
        possible.len() == dict.len(),
        is_first_match(dict, word, idx),
        possible[idx],
    ensures
        solutions_spec(refine_spec(possible, word, feedback_spec(word, word), dict), dict)
            =~= seq![dict[idx]],
{
    lemma_self_feedback_all_green(word);
    let fb = feedback_spec(word, word);
    let r = refine_spec(possible, word, fb, dict);
    assert forall|i: int| 0 <= i < r.len() implies r[i] == (i == idx) by {
        if i < idx {
            assert(dict[i]@ != word);
        } else if i > idx {
            assert(dict[idx]@ == word);
        }
    }
    lemma_singleton_solutions(r, dict, idx);
}

/// A membership vector true at exactly one position lists exactly that
/// dictionary word.
pub proof fn lemma_singleton_solutions(p: Seq<bool>, dict: Seq<String>, idx: int)
    requires
        p.len() <= dict.len(),
        0 <= idx < p.len(),
        forall|i: int| 0 <= i < p.len() ==> #[trigger] p[i] == (i == idx),
    ensures
        solutions_spec(p, dict) =~= seq![dict[idx]],
    decreases p.len(),
{
    if p.len() - 1 == idx {
        lemma_zero_solutions(p.drop_last(), dict);
    } else {
        lemma_singleton_solutions(p.drop_last(), dict, idx);
    }
}

/// A membership vector with no true entry lists no word.
pub proof fn lemma_zero_solutions(p: Seq<bool>, dict: Seq<String>)
    requires
        forall|i: int| 0 <= i < p.len() ==> !(#[trigger] p[i]),
    ensures
        solutions_spec(p, dict) =~= Seq::<String>::empty(),
    decreases p.len(),
{
    if p.len() > 0 {
        lemma_zero_solutions(p.drop_last(), dict);
    }
}

/// `num_solutions` counts exactly the words `solutions` lists.
pub proof fn lemma_count_matches_solutions(p: Seq<bool>, dict: Seq<String>)
    requires
        p.len() <= dict.len(),
    ensures
        solutions_spec(p, dict).len() == count_true(p),
    decreases p.len(),
{
    if p.len() > 0 {
        lemma_count_matches_solutions(p.drop_last(), dict);
    }
}

} // verus!
