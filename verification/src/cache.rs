//! The feedback cache: a lookup table from (guess word, solution word) to
//! per-letter feedback, well-formed when every stored entry agrees with the
//! direct evaluation.

use vstd::prelude::*;
use crate::guess::{FeedBack, feedback_spec, str_eq};

verus! {

/// One stored (word, solution) pair with its feedback.
struct CacheEntry {
    word: String,
    solution: String,
    feedback: Vec<FeedBack>,
}

/// A table of precomputed feedback entries.
pub struct FeedbackCache {
    entries: Vec<CacheEntry>,
}

impl FeedbackCache {
    /// Every entry agrees with the direct feedback evaluation.
    pub closed spec fn wf(&self) -> bool {
        forall|i: int|
            0 <= i < self.entries@.len() ==> (#[trigger] self.entries@[i].feedback@)
                == feedback_spec(self.entries@[i].word@, self.entries@[i].solution@)
    }

    /// How many entries the cache holds.
    pub closed spec fn spec_len(&self) -> nat {
        self.entries@.len()
    }

    /// Some stored entry answers the pair `(w, s)`.
    pub closed spec fn covers(&self, w: Seq<char>, s: Seq<char>) -> bool {
        exists|i: int|
            0 <= i < self.entries@.len() && (#[trigger] self.entries@[i]).word@ == w
                && self.entries@[i].solution@ == s
    }

    /// An empty cache.
    pub fn new() -> (r: Self)
        ensures
            r.wf(),
            r.spec_len() == 0,
            forall|w: Seq<char>, s: Seq<char>| !self_covers_trigger(r, w, s),
    {
        FeedbackCache { entries: Vec::new() }
    }

    /// How many entries the cache holds.
    pub fn len(&self) -> (r: usize)
        ensures
            r == self.spec_len(),
    {
        self.entries.len()
    }

    /// The stored feedback for `(word, solution)`: a hit exactly when some
    /// entry covers the pair, and then the direct evaluation's value.
    pub fn lookup(&self, word: &str, solution: &str) -> (r: Option<Vec<FeedBack>>)
        requires
            self.wf(),
        ensures
            r is Some <==> self.covers(word@, solution@),
            r is Some ==> r.unwrap()@ == feedback_spec(word@, solution@),
    {
        let n = self.entries.len();
        let mut i: usize = 0;
        while i < n
            invariant
                i <= n,
                n == self.entries@.len(),
                self.wf(),
                forall|k: int|
                    0 <= k < i ==> !((#[trigger] self.entries@[k]).word@ == word@
                        && self.entries@[k].solution@ == solution@),
            decreases n - i,
        {
            let entry = &self.entries[i];
            if str_eq(entry.word.as_str(), word) && str_eq(entry.solution.as_str(), solution) {
                let feedback = entry.feedback.clone();
                assert(feedback@ =~= entry.feedback@);
                assert(self.covers(word@, solution@));
                return Some(feedback);
            }
            i += 1;
        }
        assert(!self.covers(word@, solution@));
        None
    }

    /// Computes the feedback for the pair and stores it.
    pub fn insert_computed(&mut self, word: &str, solution: &str)
        requires
            old(self).wf(),
        ensures
            final(self).wf(),
            final(self).spec_len() == old(self).spec_len() + 1,
            forall|w: Seq<char>, s: Seq<char>|
                self_covers_trigger(*final(self), w, s) <==> (self_covers_trigger(
                    *old(self),
                    w,
                    s,
                ) || (w == word@ && s == solution@)),
    {
        let feedback = FeedBack::compute(word, solution);
        let entry = CacheEntry {
            word: String::from_str(word),
            solution: String::from_str(solution),
            feedback,
        };
        self.entries.push(entry);
        proof {
            let oe = old(self).entries@;
            assert(self.entries@.drop_last() =~= oe);
            assert forall|w: Seq<char>, s: Seq<char>| self_covers_trigger(*self, w, s) implies (
            self_covers_trigger(*old(self), w, s) || (w == word@ && s == solution@)) by {
                let i = choose|i: int|
                    0 <= i < self.entries@.len() && self.entries@[i].word@ == w
                        && self.entries@[i].solution@ == s;
                if i < oe.len() {
                    assert(oe[i] == self.entries@[i]);
                    assert(old(self).covers(w, s));
                }
            }
            assert forall|w: Seq<char>, s: Seq<char>| (self_covers_trigger(*old(self), w, s) || (
            w == word@ && s == solution@)) implies self_covers_trigger(*self, w, s) by {
                if old(self).covers(w, s) {
                    let i = choose|i: int|
                        0 <= i < oe.len() && oe[i].word@ == w && oe[i].solution@ == s;
                    assert(self.entries@[i] == oe[i]);
                    assert(self.covers(w, s));
                } else {
                    assert(self.entries@.last().word@ == word@);
                    assert(self.entries@[self.entries@.len() - 1].word@ == w);
                    assert(self.covers(w, s));
                }
            }
        }
    }

    /// Stores a supplied feedback sequence after checking it against the
    /// direct evaluation; a mismatched entry is rejected, which keeps the
    /// cache well-formed whatever the caller read from disk.
    pub fn insert(&mut self, word: &str, solution: &str, feedback: Vec<FeedBack>) -> (ok: bool)
        requires
            old(self).wf(),
        ensures
            final(self).wf(),
            ok == (feedback@ == feedback_spec(word@, solution@)),
            ok ==> final(self).spec_len() == old(self).spec_len() + 1,
            !ok ==> *final(self) == *old(self),
    {
        let expected = FeedBack::compute(word, solution);
        if feedback_vec_eq(&feedback, &expected) {
            let entry = CacheEntry {
                word: String::from_str(word),
                solution: String::from_str(solution),
                feedback,
            };
            self.entries.push(entry);
            true
        } else {
            false
        }
    }
}

/// A trigger shape for quantified statements about cache coverage.
pub open spec fn self_covers_trigger(c: FeedbackCache, w: Seq<char>, s: Seq<char>) -> bool {
    c.covers(w, s)
}

/// Element-wise equality of two feedback sequences.
pub fn feedback_vec_eq(a: &Vec<FeedBack>, b: &Vec<FeedBack>) -> (r: bool)
    ensures
        r == (a@ == b@),
{
    if a.len() != b.len() {
        assert(a@ != b@);
        return false;
    }
    let n = a.len();
    let mut i: usize = 0;
    while i < n
        invariant
            i <= n,
            n == a@.len(),
            n == b@.len(),
            forall|k: int| 0 <= k < i ==> a@[k] == b@[k],
        decreases n - i,
    {
        if !(a[i] == b[i]) {
            return false;
        }
        i += 1;
    }
    assert(a@ =~= b@);
    true
}

/// Fills a cache with the feedback of every (word, solution) pair of the
/// dictionary.
pub fn generate_cache(dict: &Vec<String>) -> (r: FeedbackCache)
    ensures
        r.wf(),
        r.spec_len() == dict@.len() * dict@.len(),
        forall|i: int, j: int|
            0 <= i < dict@.len() && 0 <= j < dict@.len() ==> self_covers_trigger(
                r,
                (#[trigger] dict@[i])@,
                (#[trigger] dict@[j])@,
            ),
{
    let mut cache = FeedbackCache::new();
    let n = dict.len();
    let mut i: usize = 0;
    while i < n
        invariant
            i <= n,
            n == dict@.len(),
            cache.wf(),
            cache.spec_len() == i * n,
            forall|a: int, b: int|
                0 <= a < i && 0 <= b < n ==> self_covers_trigger(
                    cache,
                    (#[trigger] dict@[a])@,
                    (#[trigger] dict@[b])@,
                ),
        decreases n - i,
    {
        let mut j: usize = 0;
        while j < n
            invariant
                i < n,
                j <= n,
                n == dict@.len(),
                cache.wf(),
                cache.spec_len() == i * n + j,
                forall|a: int, b: int|
                    0 <= a < i && 0 <= b < n ==> self_covers_trigger(
                        cache,
                        (#[trigger] dict@[a])@,
                        (#[trigger] dict@[b])@,
                    ),
                forall|b: int|
                    0 <= b < j ==> self_covers_trigger(cache, dict@[i as int]@, (
                    #[trigger] dict@[b])@),
            decreases n - j,
        {
            cache.insert_computed(dict[i].as_str(), dict[j].as_str());
            j += 1;
        }
        proof {
            assert((i + 1) * n == i * n + n) by (nonlinear_arith);
        }
        i += 1;
    }
    cache
}

/// The character the cache file writes for one feedback mark.
pub open spec fn mark_char(fb: FeedBack) -> char {
    match fb {
        FeedBack::Green => 'g',
        FeedBack::Yellow => 'y',
        FeedBack::Black => 'b',
    }
}

/// The feedback mark a cache-file character denotes, if it is one.
pub open spec fn mark_of_char(c: char) -> Option<FeedBack> {
    if c == 'g' {
        Some(FeedBack::Green)
    } else if c == 'y' {
        Some(FeedBack::Yellow)
    } else if c == 'b' {
        Some(FeedBack::Black)
    } else {
        None
    }
}

/// Writes a feedback sequence in the cache file's `g`/`y`/`b` form.
pub fn feedback_to_marks(feedback: &Vec<FeedBack>) -> (r: String)
    ensures
        r@ == Seq::new(feedback@.len(), |i: int| mark_char(feedback@[i])),
{
    proof {
        reveal_strlit("g");
        reveal_strlit("y");
        reveal_strlit("b");
    }
    let mut r = String::new();
    let n = feedback.len();
    let mut i: usize = 0;
    while i < n
        invariant
            i <= n,
            n == feedback@.len(),
            r@.len() == i,
            forall|k: int| 0 <= k < i ==> r@[k] == mark_char(feedback@[k]),
        decreases n - i,
    {
        proof {
            reveal_strlit("g");
            reveal_strlit("y");
            reveal_strlit("b");
        }
        match feedback[i] {
            FeedBack::Green => r.append("g"),
            FeedBack::Yellow => r.append("y"),
            FeedBack::Black => r.append("b"),
        }
        i += 1;
    }
    assert(r@ =~= Seq::new(feedback@.len(), |i: int| mark_char(feedback@[i])));
    r
}

/// Reads a `g`/`y`/`b` marks string back into feedback; any other character
/// makes the whole string invalid.
pub fn marks_from_string(s: &str) -> (r: Option<Vec<FeedBack>>)
    ensures
        r is Some <==> (forall|i: int| 0 <= i < s@.len() ==> mark_of_char(#[trigger] s@[i]) is Some),
        r is Some ==> r.unwrap()@ == Seq::new(s@.len(), |i: int| mark_of_char(s@[i]).unwrap()),
{
    let len = s.unicode_len();
    let mut v: Vec<FeedBack> = Vec::new();
    let mut i: usize = 0;
    while i < len
        invariant
            i <= len,
            len == s@.len(),
            v@.len() == i,
            forall|k: int| 0 <= k < i ==> mark_of_char(#[trigger] s@[k]) is Some,
            forall|k: int| 0 <= k < i ==> v@[k] == mark_of_char(s@[k]).unwrap(),
        decreases len - i,
    {
        let c = s.get_char(i);
        let fb = if c == 'g' {
            FeedBack::Green
        } else if c == 'y' {
            FeedBack::Yellow
        } else if c == 'b' {
            FeedBack::Black
        } else {
            return None;
        };
        v.push(fb);
        i += 1;
    }
    assert(v@ =~= Seq::new(s@.len(), |i: int| mark_of_char(s@[i]).unwrap()));
    Some(v)
}

} // verus!
