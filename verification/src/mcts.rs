//! The Monte Carlo tree search engine: one exploration refines the state
//! space for a fixed assumed solution through repeated selection, expansion,
//! rollout and backpropagation; the best root move is then read off the
//! aggregated statistics.
//!
//! Scores are exact fixed-point integers with `SCALE` as the unit, so the
//! selection policy is fully specified: the exploitation ratio plus an
//! exploration term `sqrt(2 * log2(parent visits) * ln 2 / visits)`, a UCB-style
//! rule with the logarithm taken at base-two floor precision.

use vstd::prelude::*;
use rand::Rng;
use crate::cache::FeedbackCache;
use crate::guess::{
    FeedBack, Guess, feedback_spec, lemma_count_matches_solutions, lemma_solutions_membership,
    refine_spec, solutions_spec,
};
use crate::math::{floor_log2, isqrt, spec_isqrt, spec_log2};
use crate::state::{KeyV, Node, NodeV, StateSpace, bump_node, engine_ready, node_compatible, sat_add};

verus! {

/// The fixed-point unit: scores are multiples of `1 / SCALE`.
pub const SCALE: u64 = 65536;

/// The natural logarithm of two in fixed-point form, `ln 2 * SCALE` rounded
/// down.
pub const LN2_FP: u64 = 45426;

/// The sentinel score of a never-visited node, `1000 * SCALE`: above any
/// score a visited node can reach, so unvisited children are preferred.
pub const UNVISITED_SCORE: u64 = 65536000;

/// The selection score of a node with the given statistics under a parent
/// with `parent_ns` visits, in fixed-point form, clamped at the integer
/// limit.
pub open spec fn score_spec(cs: u64, ns: u64, parent_ns: u64) -> int {
    if ns == 0 {
        UNVISITED_SCORE as int
    } else {
        let exploit_full = (cs as int * SCALE as int) / ns as int;
        let exploit = if exploit_full > u64::MAX as int {
            u64::MAX as int
        } else {
            exploit_full
        };
        let lg = if parent_ns >= 1 {
            spec_log2(parent_ns as int)
        } else {
            0
        };
        let inner = (2 * lg * LN2_FP as int * SCALE as int) / ns as int;
        let explore = spec_isqrt(inner);
        if exploit + explore > u64::MAX as int {
            u64::MAX as int
        } else {
            exploit + explore
        }
    }
}

impl Node {
    /// The node's selection score under a parent with
    /// `parent_num_simulation` visits.
    pub fn score(&self, parent_num_simulation: u64) -> (r: u64)
        ensures
            r as int == score_spec(
                self.cumulative_score,
                self.num_simulations,
                parent_num_simulation,
            ),
    {
        if self.num_simulations == 0 {
            return UNVISITED_SCORE;
        }
        let ns = self.num_simulations;
        proof {
            assert(self.cumulative_score as int * SCALE as int <= u128::MAX)
                by (nonlinear_arith)
                requires
                    self.cumulative_score <= u64::MAX,
                    SCALE == 65536,
            ;
        }
        let prod: u128 = (self.cumulative_score as u128) * (SCALE as u128);
        let q: u128 = prod / (ns as u128);
        let exploit: u64 = if q > u64::MAX as u128 {
            u64::MAX
        } else {
            q as u64
        };
        let lg: u64 = if parent_num_simulation >= 1 {
            floor_log2(parent_num_simulation)
        } else {
            0
        };
        let inner: u64 = 2 * lg * LN2_FP * SCALE / ns;
        let explore: u64 = isqrt(inner);
        exploit.saturating_add(explore)
    }
}

/// Relies on rand::Rng::gen_range: a uniformly random index below `n`.
#[verifier::external_body]
fn random_below(n: usize) -> (r: usize)
    requires
        n > 0,
    ensures
        r < n,
{
    rand::thread_rng().gen_range(0..n)
}

/// The mean score `c / n` reads as a not-a-number when nothing was ever
/// simulated.
pub open spec fn is_nan_ratio(c: u64, n: u64) -> bool {
    n == 0 && c == 0
}

/// The mean score `c / n` reads as infinite when score accrued without a
/// simulation count.
pub open spec fn is_inf_ratio(c: u64, n: u64) -> bool {
    n == 0 && c > 0
}

/// Is the mean score `c1 / n1` strictly greater than `c2 / n2`?  Exact
/// rational comparison, with a not-a-number never greater than or exceeded
/// by anything and an infinity above every finite mean.
pub open spec fn ratio_gt(c1: u64, n1: u64, c2: u64, n2: u64) -> bool {
    if is_nan_ratio(c1, n1) || is_nan_ratio(c2, n2) {
        false
    } else if is_inf_ratio(c1, n1) {
        !is_inf_ratio(c2, n2)
    } else if is_inf_ratio(c2, n2) {
        false
    } else {
        c1 as int * n2 as int > c2 as int * n1 as int
    }
}

/// Compares two mean scores exactly.
fn ratio_gt_exec(c1: u64, n1: u64, c2: u64, n2: u64) -> (r: bool)
    ensures
        r == ratio_gt(c1, n1, c2, n2),
{
    if n1 == 0 && c1 == 0 {
        false
    } else if n2 == 0 && c2 == 0 {
        false
    } else if n1 == 0 {
        !(n2 == 0)
    } else if n2 == 0 {
        false
    } else {
        proof {
            assert(c1 as int * n2 as int <= u128::MAX && c2 as int * n1 as int <= u128::MAX)
                by (nonlinear_arith)
                requires
                    c1 <= u64::MAX,
                    n2 <= u64::MAX,
                    c2 <= u64::MAX,
                    n1 <= u64::MAX,
            ;
        }
        (c1 as u128) * (n2 as u128) > (c2 as u128) * (n1 as u128)
    }
}

/// The index of the word with the greatest mean score among the first `n`
/// words, earlier words winning ties; `-1` while every mean so far reads as
/// a not-a-number.
pub open spec fn best_word_idx(
    ws: Seq<String>,
    m: Map<KeyV, NodeV>,
    g: Seq<bool>,
    n: int,
) -> int
    decreases n,
{
    if n <= 0 {
        -1
    } else {
        let prev = best_word_idx(ws, m, g, n - 1);
        let cur = m[(g, ws[n - 1]@)];
        if prev == -1 {
            if !is_nan_ratio(cur.cumulative_score, cur.num_simulations) {
                n - 1
            } else {
                -1
            }
        } else {
            let b = m[(g, ws[prev]@)];
            if ratio_gt(
                cur.cumulative_score,
                cur.num_simulations,
                b.cumulative_score,
                b.num_simulations,
            ) {
                n - 1
            } else {
                prev
            }
        }
    }
}

/// Picks, among the still-possible words, the one whose aggregated mean
/// score is greatest, earlier (dictionary-order) words winning ties; the
/// empty string when no word has a readable mean.
pub fn select_best_word(initial_guess: &Guess, state_space: &StateSpace, dict: &Vec<String>) -> (r:
    String)
    requires
        state_space.wf(),
        initial_guess@.len() <= dict@.len(),
        forall|i: int|
            0 <= i < solutions_spec(initial_guess@, dict@).len() ==> state_space@.contains_key(
                (initial_guess@, (#[trigger] solutions_spec(initial_guess@, dict@)[i])@),
            ),
    ensures
        ({
            let sols = solutions_spec(initial_guess@, dict@);
            let b = best_word_idx(sols, state_space@, initial_guess@, sols.len() as int);
            if b == -1 {
                r@ == Seq::<char>::empty()
            } else {
                r@ == sols[b]@
            }
        }),
{
    let words = initial_guess.solutions(dict);
    let ghost sols = solutions_spec(initial_guess@, dict@);
    let ghost m = state_space@;
    let n = words.len();
    let mut best: Option<usize> = None;
    let mut best_cs: u64 = 0;
    let mut best_ns: u64 = 0;
    let mut i: usize = 0;
    while i < n
        invariant
            i <= n,
            n == words@.len(),
            words@ == sols,
            m == state_space@,
            state_space.wf(),
            sols == solutions_spec(initial_guess@, dict@),
            forall|k: int|
                0 <= k < sols.len() ==> state_space@.contains_key(
                    (initial_guess@, (#[trigger] sols[k])@),
                ),
            best is None ==> best_word_idx(sols, m, initial_guess@, i as int) == -1,
            best is Some ==> {
                let bi = best.unwrap() as int;
                &&& 0 <= bi < i
                &&& best_word_idx(sols, m, initial_guess@, i as int) == bi
                &&& best_cs == m[(initial_guess@, sols[bi]@)].cumulative_score
                &&& best_ns == m[(initial_guess@, sols[bi]@)].num_simulations
            },
        decreases n - i,
    {
        let node = match state_space.get(initial_guess, words[i].as_str()) {
            Some(node) => node,
            None => {
                proof {
                    assert(state_space@.contains_key((initial_guess@, sols[i as int]@)));
                    assert(false);
                }
                return String::new();
            },
        };
        match best {
            None => {
                if !(node.num_simulations == 0 && node.cumulative_score == 0) {
                    best = Some(i);
                    best_cs = node.cumulative_score;
                    best_ns = node.num_simulations;
                }
            },
            Some(_) => {
                if ratio_gt_exec(node.cumulative_score, node.num_simulations, best_cs, best_ns) {
                    best = Some(i);
                    best_cs = node.cumulative_score;
                    best_ns = node.num_simulations;
                }
            },
        }
        i += 1;
    }
    match best {
        Some(bi) => words[bi].clone(),
        None => {
            let r = String::new();
            proof {
                assert(r@ =~= Seq::<char>::empty());
            }
            r
        },
    }
}


/// A word listed by `solutions` is a dictionary word, so it inherits the
/// dictionary's properties (in particular nonemptiness).
proof fn lemma_solution_is_dict_word(p: Seq<bool>, dict: Seq<String>, j: int)
    requires
        p.len() <= dict.len(),
        0 <= j < solutions_spec(p, dict).len(),
    ensures
        exists|i: int| 0 <= i < dict.len() && dict[i] == solutions_spec(p, dict)[j],
{
    lemma_solutions_membership(p, dict);
    assert(solutions_spec(p, dict).contains(solutions_spec(p, dict)[j]));
    let i = choose|i: int| 0 <= i < p.len() && p[i] && dict[i] == solutions_spec(p, dict)[j];
    assert(0 <= i < dict.len() && dict[i] == solutions_spec(p, dict)[j]);
}

/// A random playout: from `start`, guess uniformly random still-possible
/// words until one candidate remains or the turn limit is reached.  Each
/// step spends one turn, so a rollout halts within `max_guess - num_guess`
/// steps and never passes the turn limit it started under.
#[verifier::loop_isolation(false)]
fn rollout(
    start: Node,
    solution: &str,
    max_guess: u8,
    dict: &Vec<String>,
    cache: &FeedbackCache,
) -> (r: Node)
    requires
        cache.wf(),
        forall|i: int| 0 <= i < dict@.len() ==> (#[trigger] dict@[i])@.len() > 0,
        start.guess@.len() == dict@.len(),
    ensures
        r.guess@.len() == dict@.len(),
        r.num_guess >= start.num_guess,
        start.num_guess <= max_guess ==> r.num_guess <= max_guess,
{
    let mut sim = start;
    let mut rolling = true;
    while rolling
        invariant
            sim.guess@.len() == dict@.len(),
            sim.num_guess >= start.num_guess,
            start.num_guess <= max_guess ==> sim.num_guess <= max_guess,
        decreases max_guess as int - sim.num_guess as int, (if rolling {
            1int
        } else {
            0int
        }),
    {
        let cnt = sim.guess.num_solutions();
        if sim.num_guess < max_guess && cnt > 1 {
            let ws = sim.guess.solutions(dict);
            proof {
                lemma_count_matches_solutions(sim.guess@, dict@);
            }
            let k = random_below(ws.len());
            proof {
                lemma_solution_is_dict_word(sim.guess@, dict@, k as int);
            }
            let fb = FeedBack::evaluate(ws[k].as_str(), solution, cache);
            let next_guess = sim.guess.refine(ws[k].as_str(), &fb, dict);
            sim = Node {
                guess: next_guess,
                cumulative_score: 0,
                num_simulations: 0,
                num_guess: sim.num_guess + 1,
            };
        } else {
            rolling = false;
        }
    }
    sim
}


/// The key a path element names.
pub open spec fn path_key(e: (Guess, String)) -> KeyV {
    (e.0@, e.1@)
}

/// How many elements of the path name the key `k`.
pub open spec fn count_key(path: Seq<(Guess, String)>, k: KeyV) -> nat
    decreases path.len(),
{
    if path.len() == 0 {
        0
    } else {
        count_key(path.drop_last(), k) + if path_key(path.last()) == k {
            1nat
        } else {
            0nat
        }
    }
}

/// A node after `t` rollouts of `score` joined its statistics.
pub open spec fn bump_times(v: NodeV, score: u64, t: nat) -> NodeV
    decreases t,
{
    if t == 0 {
        v
    } else {
        bump_node(bump_times(v, score, (t - 1) as nat), score)
    }
}

/// Repeated rollouts keep the candidate set and turn index and never lower
/// the statistics.
pub proof fn lemma_bump_times_props(v: NodeV, score: u64, t: nat)
    ensures
        bump_times(v, score, t).guess == v.guess,
        bump_times(v, score, t).num_guess == v.num_guess,
        bump_times(v, score, t).num_simulations >= v.num_simulations,
        bump_times(v, score, t).cumulative_score >= v.cumulative_score,
    decreases t,
{
    if t > 0 {
        lemma_bump_times_props(v, score, (t - 1) as nat);
    }
}

/// A key no path element names is counted zero times.
pub proof fn lemma_count_key_zero(path: Seq<(Guess, String)>, k: KeyV)
    requires
        forall|i: int| 0 <= i < path.len() ==> path_key(#[trigger] path[i]) != k,
    ensures
        count_key(path, k) == 0,
    decreases path.len(),
{
    if path.len() > 0 {
        assert(forall|i: int|
            0 <= i < path.drop_last().len() ==> #[trigger] path.drop_last()[i] == path[i]);
        lemma_count_key_zero(path.drop_last(), k);
        assert(path_key(path[path.len() - 1]) != k);
    }
}

/// Walks a recorded path and adds the finished rollout to every node on it:
/// each named key's cumulative score grows by the score once per naming and
/// its visit count by one per naming, both saturating; every other node is
/// untouched.
#[verifier::loop_isolation(false)]
fn backpropagate(ss: &mut StateSpace, path: &Vec<(Guess, String)>, score: u64)
    requires
        old(ss).wf(),
        forall|i: int|
            0 <= i < path@.len() ==> old(ss)@.contains_key(path_key(#[trigger] path@[i])),
    ensures
        final(ss).wf(),
        final(ss)@.dom() == old(ss)@.dom(),
        forall|k: KeyV|
            old(ss)@.contains_key(k) ==> #[trigger] final(ss)@[k] == bump_times(
                old(ss)@[k],
                score,
                count_key(path@, k),
            ),
{
    let n = path.len();
    let mut i: usize = 0;
    proof {
        assert forall|k: KeyV| old(ss)@.contains_key(k) implies #[trigger] ss@[k] == bump_times(
            old(ss)@[k],
            score,
            count_key(path@.take(0), k),
        ) by {
            assert(path@.take(0).len() == 0);
        }
    }
    while i < n
        invariant
            i <= n,
            n == path@.len(),
            ss.wf(),
            ss@.dom() == old(ss)@.dom(),
            forall|k: KeyV|
                old(ss)@.contains_key(k) ==> #[trigger] ss@[k] == bump_times(
                    old(ss)@[k],
                    score,
                    count_key(path@.take(i as int), k),
                ),
        decreases n - i,
    {
        let g = &path[i].0;
        let w = &path[i].1;
        let ghost ki: KeyV = path_key(path@[i as int]);
        proof {
            assert(old(ss)@.contains_key(ki));
            assert(ss@.dom().contains(ki));
        }
        let ghost before = ss@;
        ss.add_visit(g, w.as_str(), score);
        proof {
            assert(ss@.dom() =~= before.dom());
            assert forall|k: KeyV| old(ss)@.contains_key(k) implies #[trigger] ss@[k]
                == bump_times(old(ss)@[k], score, count_key(path@.take(i + 1), k)) by {
                assert(path@.take(i + 1).drop_last() =~= path@.take(i as int));
                assert(path@.take(i + 1).last() == path@[i as int]);
                if k == ki {
                    assert(ss@[k] == bump_node(before[k], score));
                    assert(count_key(path@.take(i + 1), k) == count_key(
                        path@.take(i as int),
                        k,
                    ) + 1);
                } else {
                    assert(ss@[k] == before[k]);
                    assert(count_key(path@.take(i + 1), k) == count_key(
                        path@.take(i as int),
                        k,
                    ));
                }
            }
        }
        i += 1;
    }
    proof {
        assert(path@.take(n as int) =~= path@);
    }
}

/// The highest score one rollout of a search rooted at turn `root_ng` can
/// return: the turns still left, or zero when none are.
pub open spec fn score_cap(root_ng: u8, max_guess: u8) -> int {
    if root_ng <= max_guess {
        max_guess - root_ng
    } else {
        0
    }
}

/// What a finished position is worth: the turns saved on a win (exactly
/// one candidate left within the limit), zero otherwise.
pub open spec fn leaf_score_spec(count: int, num_guess: u8, max_guess: u8) -> u64 {
    if count == 1 && num_guess <= max_guess {
        (max_guess - num_guess) as u64
    } else {
        0
    }
}

/// Scores a finished position.
fn leaf_score(count: usize, num_guess: u8, max_guess: u8) -> (r: u64)
    ensures
        r == leaf_score_spec(count as int, num_guess, max_guess),
{
    if count == 1 && num_guess <= max_guess {
        (max_guess - num_guess) as u64
    } else {
        0
    }
}

/// One iteration of the search: select a path from the root, expand the
/// leaf's missing children, roll a random playout out, and add the outcome
/// to every node on the path.  The root takes exactly one rollout whose
/// score the remaining turn budget caps; every node already present keeps
/// its candidate set and turn index and only accumulates statistics.
#[verifier::loop_isolation(false)]
fn mcts_iterate(
    ss: &mut StateSpace,
    guess: &Guess,
    solution: &str,
    max_guess: u8,
    dict: &Vec<String>,
    cache: &FeedbackCache,
)
    requires
        old(ss).wf(),
        cache.wf(),
        guess@.len() == dict@.len(),
        forall|i: int| 0 <= i < dict@.len() ==> (#[trigger] dict@[i])@.len() > 0,
        old(ss)@.contains_key((guess@, Seq::<char>::empty())),
        old(ss)@[(guess@, Seq::<char>::empty())].guess == guess@,
        engine_ready(
            old(ss)@,
            dict@.len() as int,
            old(ss)@[(guess@, Seq::<char>::empty())].num_guess,
        ),
    ensures
        final(ss).wf(),
        engine_ready(
            final(ss)@,
            dict@.len() as int,
            old(ss)@[(guess@, Seq::<char>::empty())].num_guess,
        ),
        forall|k: KeyV| old(ss)@.contains_key(k) ==> final(ss)@.contains_key(k),
        forall|k: KeyV|
            old(ss)@.contains_key(k) ==> {
                &&& (#[trigger] final(ss)@[k]).guess == old(ss)@[k].guess
                &&& final(ss)@[k].num_guess == old(ss)@[k].num_guess
                &&& final(ss)@[k].num_simulations >= old(ss)@[k].num_simulations
                &&& final(ss)@[k].cumulative_score >= old(ss)@[k].cumulative_score
            },
        exists|s: u64|
            s <= score_cap(old(ss)@[(guess@, Seq::<char>::empty())].num_guess, max_guess)
                && final(ss)@[(guess@, Seq::<char>::empty())] == #[trigger] bump_node(
                old(ss)@[(guess@, Seq::<char>::empty())],
                s,
            ),
        forall|k: KeyV|
            final(ss)@.contains_key(k) && !old(ss)@.contains_key(k) ==> {
                &&& (#[trigger] final(ss)@[k]).guess == refine_spec(
                    k.0,
                    k.1,
                    feedback_spec(k.1, solution@),
                    dict@,
                )
                &&& final(ss)@[k].num_guess > old(ss)@[(
                    guess@,
                    Seq::<char>::empty(),
                )].num_guess
                &&& final(ss)@[k].num_simulations <= 1
            },
{
    let ghost root_key: KeyV = (guess@, Seq::<char>::empty());
    let ghost root_ng: u8 = old(ss)@[root_key].num_guess;
    let ghost dlen: int = dict@.len() as int;
    let empty_word: String = String::new();
    proof {
        assert(empty_word@ =~= Seq::<char>::empty());
    }
    // Selection: descend from the root along best-scoring children until a
    // terminal or unvisited node, or one with an unexpanded child.
    let root_node = match ss.get(guess, empty_word.as_str()) {
        Some(node) => node.clone(),
        None => {
            proof {
                assert(false);
            }
            return ;
        },
    };
    let mut current: Node = root_node;
    let mut path: Vec<(Guess, String)> = Vec::new();
    let mut fuel: usize = (max_guess as usize) + 1;
    let mut done = false;
    while !done && fuel > 0
        invariant
            ss@ == old(ss)@,
            current.guess@.len() == dict@.len(),
            current.num_guess >= root_ng,
            forall|j: int|
                0 <= j < path@.len() ==> ss@.contains_key(path_key(#[trigger] path@[j])),
            forall|j: int| 0 <= j < path@.len() ==> (#[trigger] path@[j]).1@.len() > 0,
        decreases fuel, (if done {
            0int
        } else {
            1int
        }),
    {
        let children = current.guess.solutions(dict);
        let nch = children.len();
        if nch <= 1 || current.num_simulations == 0 {
            done = true;
        } else {
            // the descent goes on only below a fully expanded node
            let mut all_present = true;
            let mut j: usize = 0;
            while j < nch
                invariant
                    j <= nch,
                    all_present ==> forall|k: int|
                        0 <= k < j ==> ss@.contains_key(
                            (current.guess@, (#[trigger] children@[k])@),
                        ),
                decreases nch - j,
            {
                if !ss.contains_key(&current.guess, children[j].as_str()) {
                    all_present = false;
                }
                j += 1;
            }
            if !all_present {
                done = true;
            } else {
                // descend into the child with the greatest selection score,
                // the first such child on a tie
                let parent_ns = current.num_simulations;
                let mut best_j: usize = 0;
                let mut best_score: u64 = match ss.get(&current.guess, children[0].as_str()) {
                    Some(node) => node.score(parent_ns),
                    None => {
                        proof {
                            assert(false);
                        }
                        return ;
                    },
                };
                let mut j: usize = 1;
                while j < nch
                    invariant
                        1 <= j <= nch,
                        best_j < nch,
                    decreases nch - j,
                {
                    let node = match ss.get(&current.guess, children[j].as_str()) {
                        Some(node) => node,
                        None => {
                            proof {
                                assert(false);
                            }
                            return ;
                        },
                    };
                    let sc = node.score(parent_ns);
                    if sc > best_score {
                        best_j = j;
                        best_score = sc;
                    }
                    j += 1;
                }
                let chosen_word: String = children[best_j].clone();
                let chosen = match ss.get(&current.guess, chosen_word.as_str()) {
                    Some(node) => node.clone(),
                    None => {
                        proof {
                            assert(false);
                        }
                        return ;
                    },
                };
                proof {
                    assert(node_compatible(
                        ss@[(current.guess@, chosen_word@)],
                        dlen,
                        root_ng,
                    ));
                    lemma_solution_is_dict_word(current.guess@, dict@, best_j as int);
                    let wi = choose|i: int|
                        0 <= i < dict@.len() && dict@[i] == solutions_spec(
                            current.guess@,
                            dict@,
                        )[best_j as int];
                    assert(chosen_word@ == dict@[wi]@);
                }
                path.push((current.guess.clone(), chosen_word));
                current = chosen;
                fuel = fuel - 1;
            }
        }
    }
    // Expansion and rollout
    let leaf = current;
    let score: u64;
    let leaf_count = leaf.guess.num_solutions();
    if leaf.num_guess < max_guess && leaf_count > 1 {
        let words = leaf.guess.solutions(dict);
        let nw = words.len();
        proof {
            lemma_count_matches_solutions(leaf.guess@, dict@);
        }
        // create the children the leaf does not yet have
        let mut j: usize = 0;
        while j < nw
            invariant
                j <= nw,
                ss.wf(),
                engine_ready(ss@, dlen, root_ng),
                forall|k: KeyV| #[trigger] old(ss)@.contains_key(k) ==> ss@.contains_key(k),
                forall|k: KeyV|
                    old(ss)@.contains_key(k) ==> #[trigger] ss@[k] == old(ss)@[k],
                forall|k: KeyV|
                    ss@.contains_key(k) && !old(ss)@.contains_key(k) ==> {
                        &&& (#[trigger] ss@[k]).guess == refine_spec(
                            k.0,
                            k.1,
                            feedback_spec(k.1, solution@),
                            dict@,
                        )
                        &&& ss@[k].num_guess == leaf.num_guess + 1
                        &&& ss@[k].num_simulations == 0
                        &&& ss@[k].cumulative_score == 0
                    },
                forall|k: int|
                    0 <= k < j ==> ss@.contains_key((leaf.guess@, (#[trigger] words@[k])@)),
                forall|j2: int|
                    0 <= j2 < path@.len() ==> ss@.contains_key(path_key(#[trigger] path@[j2])),
            decreases nw - j,
        {
            let ghost pre_step = ss@;
            proof {
                lemma_solution_is_dict_word(leaf.guess@, dict@, j as int);
                let wi = choose|i: int|
                    0 <= i < dict@.len() && dict@[i] == solutions_spec(leaf.guess@, dict@)[
                        j as int
                    ];
                assert(words@[j as int]@ == dict@[wi]@);
                assert(words@[j as int]@.len() > 0);
            }
            if !ss.contains_key(&leaf.guess, words[j].as_str()) {
                proof {
                    assert(!old(ss)@.contains_key((leaf.guess@, words@[j as int]@)));
                }
                let fb = FeedBack::evaluate(words[j].as_str(), solution, cache);
                let new_guess = leaf.guess.refine(words[j].as_str(), &fb, dict);
                let node = Node {
                    guess: new_guess,
                    cumulative_score: 0,
                    num_simulations: 0,
                    num_guess: leaf.num_guess + 1,
                };
                ss.insert(leaf.guess.clone(), words[j].clone(), node);
                proof {
                    let ghost nk: KeyV = (leaf.guess@, words@[j as int]@);
                    assert forall|k: KeyV| ss@.contains_key(k) implies node_compatible(
                        #[trigger] ss@[k],
                        dlen,
                        root_ng,
                    ) by {
                        if k != nk {
                            assert(pre_step.contains_key(k));
                        }
                    }
                    assert forall|k: KeyV| #[trigger] old(ss)@.contains_key(k)
                        implies ss@.contains_key(k) by {
                        assert(pre_step.contains_key(k));
                    }
                    assert forall|k: KeyV| old(ss)@.contains_key(k) implies #[trigger] ss@[k]
                        == old(ss)@[k] by {
                        assert(k != nk);
                        assert(pre_step.contains_key(k));
                        assert(pre_step[k] == old(ss)@[k]);
                    }
                }
            }
            j += 1;
        }
        // one child, chosen uniformly at random, enters the rollout
        let idx = random_below(nw);
        let child_word: String = words[idx].clone();
        let sim: Node = match ss.get(&leaf.guess, child_word.as_str()) {
            Some(node) => node.clone(),
            None => {
                proof {
                    assert(false);
                }
                return ;
            },
        };
        proof {
            assert(node_compatible(ss@[(leaf.guess@, child_word@)], dlen, root_ng));
            lemma_solution_is_dict_word(leaf.guess@, dict@, idx as int);
            let wi = choose|i: int|
                0 <= i < dict@.len() && dict@[i] == solutions_spec(leaf.guess@, dict@)[
                    idx as int
                ];
            assert(child_word@ == dict@[wi]@);
        }
        proof {
            assert(forall|j2: int|
                0 <= j2 < path@.len() ==> old(ss)@.contains_key(
                    path_key(#[trigger] path@[j2]),
                ));
        }
        let ghost sel_path = path@;
        path.push((leaf.guess.clone(), child_word));
        proof {
            assert(path@.drop_last() =~= sel_path);
            assert(forall|i: int|
                0 <= i < path@.len() - 1 ==> old(ss)@.contains_key(
                    path_key(#[trigger] path@[i]),
                ));
        }
        let sim = rollout(sim, solution, max_guess, dict, cache);
        let sim_count = sim.guess.num_solutions();
        score = leaf_score(sim_count, sim.num_guess, max_guess);
        proof {
            assert(sim.num_guess >= root_ng);
            assert(score <= score_cap(root_ng, max_guess));
        }
    } else {
        // the leaf is terminal or out of turns: score it directly
        score = leaf_score(leaf_count, leaf.num_guess, max_guess);
        proof {
            assert(leaf.num_guess >= root_ng);
            assert(score <= score_cap(root_ng, max_guess));
            assert(forall|i: int|
                0 <= i < path@.len() - 1 ==> old(ss)@.contains_key(
                    path_key(#[trigger] path@[i]),
                ));
        }
    }
    // Backpropagation: the root, then the recorded path; every path key
    // carries a nonempty word, so the root takes exactly the one rollout.
    proof {
        assert(ss@.contains_key(root_key));
        assert(ss@[root_key] == old(ss)@[root_key]);
    }
    let ghost pre_visit = ss@;
    ss.add_visit(guess, empty_word.as_str(), score);
    proof {
        assert(forall|j2: int|
            0 <= j2 < path@.len() ==> ss@.contains_key(path_key(#[trigger] path@[j2])));
    }
    let ghost pre_back = ss@;
    backpropagate(ss, &path, score);
    proof {
        assert forall|i: int| 0 <= i < path@.len() implies path_key(#[trigger] path@[i])
            != root_key by {
            assert(path@[i].1@.len() > 0);
        }
        lemma_count_key_zero(path@, root_key);
        assert(ss@[root_key] == pre_back[root_key]);
        assert(pre_back[root_key] == bump_node(old(ss)@[root_key], score));
        assert(ss@[root_key] == bump_node(old(ss)@[root_key], score));
        assert forall|k: KeyV| old(ss)@.contains_key(k) implies ss@.contains_key(k) && (
        #[trigger] ss@[k]).guess == old(ss)@[k].guess && ss@[k].num_guess == old(
            ss,
        )@[k].num_guess && ss@[k].num_simulations >= old(ss)@[k].num_simulations
            && ss@[k].cumulative_score >= old(ss)@[k].cumulative_score by {
            assert(pre_visit.contains_key(k));
            assert(pre_back.contains_key(k));
            assert(ss@[k] == bump_times(pre_back[k], score, count_key(path@, k)));
            lemma_bump_times_props(pre_back[k], score, count_key(path@, k));
            if k != root_key {
                assert(pre_back[k] == pre_visit[k]);
                assert(pre_visit[k] == old(ss)@[k]);
            }
        }
        assert forall|k: KeyV| ss@.contains_key(k) implies node_compatible(
            #[trigger] ss@[k],
            dlen,
            root_ng,
        ) by {
            assert(pre_back.contains_key(k));
            assert(pre_visit.contains_key(k));
            assert(node_compatible(pre_visit[k], dlen, root_ng));
            assert(ss@[k] == bump_times(pre_back[k], score, count_key(path@, k)));
            lemma_bump_times_props(pre_back[k], score, count_key(path@, k));
            if k == root_key {
            } else {
                assert(pre_back[k] == pre_visit[k]);
            }
        }
        assert forall|k: KeyV| ss@.contains_key(k) && !old(ss)@.contains_key(k) implies (
        #[trigger] ss@[k]).guess == refine_spec(k.0, k.1, feedback_spec(k.1, solution@), dict@)
            && ss@[k].num_guess > root_ng && ss@[k].num_simulations <= 1 by {
            assert(pre_back.contains_key(k));
            assert(pre_visit.contains_key(k));
            assert(k != root_key);
            assert(pre_back[k] == pre_visit[k]);
            assert(pre_visit[k].guess == refine_spec(
                k.0,
                k.1,
                feedback_spec(k.1, solution@),
                dict@,
            ));
            assert(pre_visit[k].num_guess == leaf.num_guess + 1);
            assert(pre_visit[k].num_simulations == 0);
            let c = count_key(path@, k);
            assert(ss@[k] == bump_times(pre_back[k], score, c));
            lemma_bump_times_props(pre_back[k], score, c);
            // every path element but possibly the last names an old key
            if path@.len() > 0 {
                assert forall|i: int| 0 <= i < path@.drop_last().len() implies path_key(
                    #[trigger] path@.drop_last()[i],
                ) != k by {
                    assert(path@.drop_last()[i] == path@[i]);
                    assert(old(ss)@.contains_key(path_key(path@[i])));
                }
                lemma_count_key_zero(path@.drop_last(), k);
                assert(c <= 1);
            } else {
                lemma_count_key_zero(path@, k);
            }
            if c == 0 {
                assert(ss@[k] == pre_back[k]);
            } else {
                assert(c == 1);
                assert(ss@[k] == bump_node(bump_times(pre_back[k], score, 0), score));
                assert(ss@[k].num_simulations == sat_add(0, 1));
            }
        }
    }
}

/// The visit count a persisted space already holds at the root key for
/// candidate set `g`, zero when absent.
pub open spec fn loaded_root_sims(m: Map<KeyV, NodeV>, g: Seq<bool>) -> u64 {
    if m.contains_key((g, Seq::<char>::empty())) {
        m[(g, Seq::<char>::empty())].num_simulations
    } else {
        0
    }
}

/// The cumulative score a persisted space already holds at the root key,
/// zero when absent.
pub open spec fn loaded_root_score(m: Map<KeyV, NodeV>, g: Seq<bool>) -> u64 {
    if m.contains_key((g, Seq::<char>::empty())) {
        m[(g, Seq::<char>::empty())].cumulative_score
    } else {
        0
    }
}

/// One full exploration against a fixed assumed solution: the root is put
/// in place keeping any statistics a loaded space already held, its missing
/// children are created, then the given number of search iterations run.
/// Every iteration backpropagates through the root, so the root's visit
/// count afterwards is the loaded count plus the iteration count exactly
/// (saturating), and its score gains at most the remaining turn budget per
/// iteration.  Every node already present keeps its candidate set and turn
/// index and only accumulates statistics (the root's own candidate set is
/// this search's); every still-possible word has a root child, and a child
/// created here holds the refined set at the next turn.
#[verifier::loop_isolation(false)]
pub fn explore_one_solution(
    state_space: StateSpace,
    guess: Guess,
    solution: &str,
    num_guess: u8,
    max_guess: u8,
    dict: &Vec<String>,
    num_iterations: usize,
    cache: &FeedbackCache,
) -> (r: StateSpace)
    requires
        state_space.wf(),
        cache.wf(),
        guess@.len() == dict@.len(),
        forall|i: int| 0 <= i < dict@.len() ==> (#[trigger] dict@[i])@.len() > 0,
        num_guess < 255,
        engine_ready(state_space@, dict@.len() as int, num_guess),
    ensures
        r.wf(),
        engine_ready(r@, dict@.len() as int, num_guess),
        forall|k: KeyV| state_space@.contains_key(k) ==> r@.contains_key(k),
        forall|k: KeyV|
            state_space@.contains_key(k) && k != (guess@, Seq::<char>::empty()) ==> {
                &&& (#[trigger] r@[k]).guess == state_space@[k].guess
                &&& r@[k].num_guess == state_space@[k].num_guess
                &&& r@[k].num_simulations >= state_space@[k].num_simulations
                &&& r@[k].cumulative_score >= state_space@[k].cumulative_score
            },
        r@.contains_key((guess@, Seq::<char>::empty())),
        r@[(guess@, Seq::<char>::empty())].guess == guess@,
        r@[(guess@, Seq::<char>::empty())].num_guess == num_guess,
        r@[(guess@, Seq::<char>::empty())].num_simulations == sat_add(
            loaded_root_sims(state_space@, guess@),
            num_iterations as u64,
        ),
        r@[(guess@, Seq::<char>::empty())].cumulative_score >= loaded_root_score(
            state_space@,
            guess@,
        ),
        r@[(guess@, Seq::<char>::empty())].cumulative_score as int <= loaded_root_score(
            state_space@,
            guess@,
        ) + num_iterations * score_cap(num_guess, max_guess),
        forall|i: int|
            0 <= i < solutions_spec(guess@, dict@).len() ==> r@.contains_key(
                (guess@, (#[trigger] solutions_spec(guess@, dict@)[i])@),
            ),
        forall|i: int|
            0 <= i < solutions_spec(guess@, dict@).len() && !state_space@.contains_key(
                (guess@, (#[trigger] solutions_spec(guess@, dict@)[i])@),
            ) ==> {
                &&& r@[(guess@, solutions_spec(guess@, dict@)[i]@)].guess == refine_spec(
                    guess@,
                    solutions_spec(guess@, dict@)[i]@,
                    feedback_spec(solutions_spec(guess@, dict@)[i]@, solution@),
                    dict@,
                )
                &&& r@[(guess@, solutions_spec(guess@, dict@)[i]@)].num_guess == num_guess + 1
            },
        forall|k: KeyV|
            r@.contains_key(k) && !state_space@.contains_key(k) && k != (
                guess@,
                Seq::<char>::empty(),
            ) ==> {
                &&& (#[trigger] r@[k]).guess == refine_spec(
                    k.0,
                    k.1,
                    feedback_spec(k.1, solution@),
                    dict@,
                )
                &&& r@[k].num_guess > num_guess
            },
{
    let ghost root_key: KeyV = (guess@, Seq::<char>::empty());
    let ghost base = state_space@;
    let ghost dlen: int = dict@.len() as int;
    let mut ss = state_space;
    let empty_word = String::new();
    proof {
        assert(empty_word@ =~= Seq::<char>::empty());
    }
    // the root keeps whatever statistics a persisted space already held;
    // its candidate set and turn index are this search's
    let base_stats: (u64, u64) = match ss.get(&guess, empty_word.as_str()) {
        Some(node) => (node.cumulative_score, node.num_simulations),
        None => (0u64, 0u64),
    };
    let base_score = base_stats.0;
    let base_sims = base_stats.1;
    proof {
        assert(base_score == loaded_root_score(base, guess@));
        assert(base_sims == loaded_root_sims(base, guess@));
    }
    let root = Node {
        guess: guess.clone(),
        cumulative_score: base_score,
        num_simulations: base_sims,
        num_guess,
    };
    ss.insert(guess.clone(), empty_word, root);
    proof {
        assert forall|k: KeyV| ss@.contains_key(k) implies node_compatible(
            #[trigger] ss@[k],
            dlen,
            num_guess,
        ) by {
            if k != root_key {
                assert(base.contains_key(k));
            }
        }
    }
    // one forced expansion of the root: a child per possible word, kept
    // when already present
    let words = guess.solutions(dict);
    let nw = words.len();
    let mut j: usize = 0;
    while j < nw
        invariant
            j <= nw,
            ss.wf(),
            engine_ready(ss@, dlen, num_guess),
            forall|k: KeyV| base.contains_key(k) ==> ss@.contains_key(k),
            forall|k: KeyV|
                base.contains_key(k) && k != root_key ==> #[trigger] ss@[k] == base[k],
            forall|k: int|
                0 <= k < j ==> ss@.contains_key((guess@, (#[trigger] words@[k])@)),
            forall|k: int|
                0 <= k < j && !base.contains_key((guess@, (#[trigger] words@[k])@)) ==> ss@[(
                    guess@,
                    words@[k]@,
                )].guess == refine_spec(
                    guess@,
                    words@[k]@,
                    feedback_spec(words@[k]@, solution@),
                    dict@,
                ) && ss@[(guess@, words@[k]@)].num_guess == num_guess + 1,
            forall|k: KeyV|
                #[trigger] ss@.contains_key(k) ==> base.contains_key(k) || k == root_key
                    || exists|k2: int| 0 <= k2 < j && k == (guess@, (#[trigger] words@[k2])@),
            forall|k: KeyV|
                ss@.contains_key(k) && !base.contains_key(k) && k != root_key ==> (
                #[trigger] ss@[k]).guess == refine_spec(
                    k.0,
                    k.1,
                    feedback_spec(k.1, solution@),
                    dict@,
                ) && ss@[k].num_guess == num_guess + 1,
            ss@.contains_key(root_key),
            ss@[root_key].guess == guess@,
            ss@[root_key].num_guess == num_guess,
            ss@[root_key].num_simulations == base_sims,
            ss@[root_key].cumulative_score == base_score,
        decreases nw - j,
    {
        let ghost pre_step = ss@;
        proof {
            lemma_solution_is_dict_word(guess@, dict@, j as int);
            let wi = choose|i: int|
                0 <= i < dict@.len() && dict@[i] == solutions_spec(guess@, dict@)[j as int];
            assert(words@[j as int]@ == dict@[wi]@);
            assert(words@[j as int]@.len() > 0);
        }
        if !ss.contains_key(&guess, words[j].as_str()) {
            proof {
                assert(!base.contains_key((guess@, words@[j as int]@)));
            }
            let fb = FeedBack::evaluate(words[j].as_str(), solution, cache);
            let new_guess = guess.refine(words[j].as_str(), &fb, dict);
            let node = Node {
                guess: new_guess,
                cumulative_score: 0,
                num_simulations: 0,
                num_guess: num_guess + 1,
            };
            ss.insert(guess.clone(), words[j].clone(), node);
            proof {
                assert((guess@, words@[j as int]@) != root_key);
                assert forall|k: KeyV| ss@.contains_key(k) implies node_compatible(
                    #[trigger] ss@[k],
                    dlen,
                    num_guess,
                ) by {
                    if k != (guess@, words@[j as int]@) {
                        assert(pre_step.contains_key(k));
                    }
                }
                assert forall|k: KeyV| ss@.contains_key(k) && !base.contains_key(k) && k
                    != root_key implies (#[trigger] ss@[k]).guess == refine_spec(
                    k.0,
                    k.1,
                    feedback_spec(k.1, solution@),
                    dict@,
                ) && ss@[k].num_guess == num_guess + 1 by {
                    if k != (guess@, words@[j as int]@) {
                        assert(pre_step.contains_key(k));
                        assert(ss@[k] == pre_step[k]);
                    }
                }
                assert forall|k: KeyV| #[trigger] ss@.contains_key(k) implies base.contains_key(
                    k,
                ) || k == root_key || exists|k2: int|
                    0 <= k2 < j + 1 && k == (guess@, (#[trigger] words@[k2])@) by {
                    if k == (guess@, words@[j as int]@) {
                        assert(k == (guess@, words@[j as int]@));
                    } else {
                        assert(pre_step.contains_key(k));
                        if !base.contains_key(k) && k != root_key {
                            let k2 = choose|k2: int|
                                0 <= k2 < j && k == (guess@, (words@[k2])@);
                            assert(k == (guess@, words@[k2]@));
                        }
                    }
                }
            }
        } else {
            proof {
                if !base.contains_key((guess@, words@[j as int]@)) {
                    let k2 = choose|k2: int|
                        0 <= k2 < j && (guess@, words@[j as int]@) == (guess@, (words@[k2])@);
                    assert(words@[k2]@ == words@[j as int]@);
                    assert(ss@[(guess@, words@[k2]@)].guess == refine_spec(
                        guess@,
                        words@[k2]@,
                        feedback_spec(words@[k2]@, solution@),
                        dict@,
                    ));
                }
            }
        }
        j += 1;
    }
    // the fixed iteration budget
    let ghost cap: int = score_cap(num_guess, max_guess);
    let mut iter: usize = 0;
    while iter < num_iterations
        invariant
            iter <= num_iterations,
            ss.wf(),
            engine_ready(ss@, dlen, num_guess),
            ss@.contains_key(root_key),
            ss@[root_key].guess == guess@,
            ss@[root_key].num_guess == num_guess,
            ss@[root_key].num_simulations == sat_add(base_sims, iter as u64),
            ss@[root_key].cumulative_score >= base_score,
            ss@[root_key].cumulative_score as int <= base_score + iter * cap,
            forall|k: KeyV| base.contains_key(k) ==> ss@.contains_key(k),
            forall|k: KeyV|
                base.contains_key(k) && k != root_key ==> {
                    &&& (#[trigger] ss@[k]).guess == base[k].guess
                    &&& ss@[k].num_guess == base[k].num_guess
                    &&& ss@[k].num_simulations >= base[k].num_simulations
                    &&& ss@[k].cumulative_score >= base[k].cumulative_score
                },
            forall|k: int|
                0 <= k < nw ==> ss@.contains_key((guess@, (#[trigger] words@[k])@)),
            forall|k: int|
                0 <= k < nw && !base.contains_key((guess@, (#[trigger] words@[k])@)) ==> ss@[(
                    guess@,
                    words@[k]@,
                )].guess == refine_spec(
                    guess@,
                    words@[k]@,
                    feedback_spec(words@[k]@, solution@),
                    dict@,
                ) && ss@[(guess@, words@[k]@)].num_guess == num_guess + 1,
            forall|k: KeyV|
                ss@.contains_key(k) && !base.contains_key(k) && k != root_key ==> (
                #[trigger] ss@[k]).guess == refine_spec(
                    k.0,
                    k.1,
                    feedback_spec(k.1, solution@),
                    dict@,
                ) && ss@[k].num_guess > num_guess,
        decreases num_iterations - iter,
    {
        let ghost pre = ss@;
        mcts_iterate(&mut ss, &guess, solution, max_guess, dict, cache);
        proof {
            let s = choose|s: u64|
                s <= score_cap(num_guess, max_guess) && ss@[root_key] == bump_node(
                    pre[root_key],
                    s,
                );
            assert(sat_add(sat_add(base_sims, iter as u64), 1) == sat_add(
                base_sims,
                (iter + 1) as u64,
            ));
            assert((iter + 1) * cap == iter * cap + cap) by (nonlinear_arith);
            assert(ss@[root_key].cumulative_score as int <= base_score + (iter + 1) * cap);
            assert forall|k: KeyV| ss@.contains_key(k) && !base.contains_key(k) && k != root_key
                implies (#[trigger] ss@[k]).guess == refine_spec(
                k.0,
                k.1,
                feedback_spec(k.1, solution@),
                dict@,
            ) && ss@[k].num_guess > num_guess by {
                if pre.contains_key(k) {
                    assert(ss@[k].guess == pre[k].guess);
                    assert(ss@[k].num_guess == pre[k].num_guess);
                }
            }
        }
        iter += 1;
    }
    ss
}

} // verus!
