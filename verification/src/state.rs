//! The state space: search statistics per (candidate set, word) key, with
//! merge across independent explorations and a line-per-node persistence
//! codec.

use vstd::prelude::*;
use crate::guess::Guess;
use crate::numtext::{
    dec_digits, digits_val, is_digit, is_u64_str, lemma_dec_digits_roundtrip,
    lemma_split_concat, lemma_split_no_comma, parse_u64, parse_u8, split_commas, split_spec,
    u64_to_string,
};

verus! {

/// Search statistics for one (candidate set, word) pair: the candidate set
/// after that guess, the accumulated rollout score, the number of rollouts
/// through the node, and the turn index at which the node is reached.
pub struct Node {
    pub guess: Guess,
    pub cumulative_score: u64,
    pub num_simulations: u64,
    pub num_guess: u8,
}

/// The ghost value of a `Node`.
pub ghost struct NodeV {
    pub guess: Seq<bool>,
    pub cumulative_score: u64,
    pub num_simulations: u64,
    pub num_guess: u8,
}

impl View for Node {
    type V = NodeV;

    open spec fn view(&self) -> NodeV {
        NodeV {
            guess: self.guess@,
            cumulative_score: self.cumulative_score,
            num_simulations: self.num_simulations,
            num_guess: self.num_guess,
        }
    }
}

impl Clone for Node {
    fn clone(&self) -> (r: Self)
        ensures
            r@ == self@,
    {
        Node {
            guess: self.guess.clone(),
            cumulative_score: self.cumulative_score,
            num_simulations: self.num_simulations,
            num_guess: self.num_guess,
        }
    }
}

/// A state-space key: the candidate set before the guess, and the guessed
/// word (empty for the root's pre-guess node).
pub type KeyV = (Seq<bool>, Seq<char>);

/// One stored key/node pair.
struct StateEntry {
    key_guess: Guess,
    key_word: String,
    node: Node,
}

/// The key of one entry.
spec fn entry_key(e: StateEntry) -> KeyV {
    (e.key_guess@, e.key_word@)
}

/// The map an entry sequence denotes, later entries overriding earlier ones.
spec fn entries_map(s: Seq<StateEntry>) -> Map<KeyV, NodeV>
    decreases s.len(),
{
    if s.len() == 0 {
        Map::empty()
    } else {
        entries_map(s.drop_last()).insert(entry_key(s.last()), s.last().node@)
    }
}

/// A mapping from (candidate set, word) to its search statistics.
pub struct StateSpace {
    entries: Vec<StateEntry>,
}

impl View for StateSpace {
    type V = Map<KeyV, NodeV>;

    closed spec fn view(&self) -> Map<KeyV, NodeV> {
        entries_map(self.entries@)
    }
}

/// A key is in the map exactly when some entry carries it.
proof fn lemma_entries_map_domain(s: Seq<StateEntry>)
    ensures
        forall|k: KeyV|
            #[trigger] entries_map(s).contains_key(k) <==> exists|i: int|
                0 <= i < s.len() && entry_key(s[i]) == k,
    decreases s.len(),
{
    if s.len() > 0 {
        let q = s.drop_last();
        lemma_entries_map_domain(q);
        assert(forall|i: int| 0 <= i < q.len() ==> #[trigger] q[i] == s[i]);
        assert forall|k: KeyV| #[trigger] entries_map(s).contains_key(k) implies exists|i: int|
            0 <= i < s.len() && entry_key(s[i]) == k by {
            if k == entry_key(s.last()) {
                assert(entry_key(s[s.len() - 1]) == k);
            } else {
                assert(entries_map(q).contains_key(k));
                let i = choose|i: int| 0 <= i < q.len() && entry_key(q[i]) == k;
                assert(entry_key(s[i]) == k);
            }
        }
        assert forall|k: KeyV| (exists|i: int| 0 <= i < s.len() && entry_key(s[i]) == k)
            implies #[trigger] entries_map(s).contains_key(k) by {
            let i = choose|i: int| 0 <= i < s.len() && entry_key(s[i]) == k;
            if i < s.len() - 1 {
                assert(entry_key(q[i]) == k);
                assert(exists|j: int| 0 <= j < q.len() && entry_key(q[j]) == k);
                assert(entries_map(q).contains_key(k));
            } else {
                assert(k == entry_key(s.last()));
            }
        }
    }
}

/// With distinct keys, the map's value at an entry's key is that entry's
/// node.
proof fn lemma_entries_map_get(s: Seq<StateEntry>, i: int)
    requires
        forall|a: int, b: int|
            0 <= a < b < s.len() ==> entry_key(s[a]) != entry_key(s[b]),
        0 <= i < s.len(),
    ensures
        entries_map(s).contains_key(entry_key(s[i])),
        entries_map(s)[entry_key(s[i])] == s[i].node@,
    decreases s.len(),
{
    if i == s.len() - 1 {
    } else {
        assert(forall|a: int, b: int|
            0 <= a < b < s.drop_last().len() ==> entry_key(s.drop_last()[a]) != entry_key(
                s.drop_last()[b],
            ));
        lemma_entries_map_get(s.drop_last(), i);
        assert(entry_key(s[i]) != entry_key(s.last()));
    }
}

/// With distinct keys, replacing entry `i` by one with the same key updates
/// just that key of the map.
proof fn lemma_entries_map_update(s: Seq<StateEntry>, i: int, e: StateEntry)
    requires
        forall|a: int, b: int|
            0 <= a < b < s.len() ==> entry_key(s[a]) != entry_key(s[b]),
        0 <= i < s.len(),
        entry_key(e) == entry_key(s[i]),
    ensures
        entries_map(s.update(i, e)) =~= entries_map(s).insert(entry_key(e), e.node@),
    decreases s.len(),
{
    let t = s.update(i, e);
    if i == s.len() - 1 {
        assert(t.drop_last() =~= s.drop_last());
        assert(t.last() == e);
    } else {
        assert(forall|a: int, b: int|
            0 <= a < b < s.drop_last().len() ==> entry_key(s.drop_last()[a]) != entry_key(
                s.drop_last()[b],
            ));
        lemma_entries_map_update(s.drop_last(), i, e);
        assert(t.drop_last() =~= s.drop_last().update(i, e));
        assert(t.last() == s.last());
        assert(entry_key(e) != entry_key(s.last()));
    }
}

impl StateSpace {
    /// No two entries carry the same key.
    pub closed spec fn wf(&self) -> bool {
        forall|a: int, b: int|
            0 <= a < b < self.entries@.len() ==> entry_key(self.entries@[a]) != entry_key(
                self.entries@[b],
            )
    }

    /// The stored key/value pairs in their storage order.
    pub closed spec fn entry_seq(&self) -> Seq<(KeyV, NodeV)> {
        self.entries@.map_values(|e: StateEntry| (entry_key(e), e.node@))
    }

    /// An empty state space.
    pub fn new() -> (r: Self)
        ensures
            r.wf(),
            r@ == Map::<KeyV, NodeV>::empty(),
            r.entry_seq().len() == 0,
    {
        StateSpace { entries: Vec::new() }
    }

    /// How many nodes the space holds.
    pub fn len(&self) -> (r: usize)
        ensures
            r == self.entry_seq().len(),
    {
        self.entries.len()
    }

    /// The index of the entry with key `(g, w)`, if one exists.
    fn find_index(&self, g: &Guess, w: &str) -> (r: Option<usize>)
        ensures
            r is Some ==> r.unwrap() < self.entries@.len() && entry_key(
                self.entries@[r.unwrap() as int],
            ) == (g@, w@),
            r is None ==> forall|i: int|
                0 <= i < self.entries@.len() ==> entry_key(#[trigger] self.entries@[i]) != (
                g@,
                w@,
            ),
    {
        let n = self.entries.len();
        let mut i: usize = 0;
        while i < n
            invariant
                i <= n,
                n == self.entries@.len(),
                forall|k: int|
                    0 <= k < i ==> entry_key(#[trigger] self.entries@[k]) != (g@, w@),
            decreases n - i,
        {
            let e = &self.entries[i];
            if e.key_guess.same_as(g) && crate::guess::str_eq(e.key_word.as_str(), w) {
                return Some(i);
            }
            i += 1;
        }
        None
    }

    /// The node stored under `(g, w)`, if any.
    pub fn get(&self, g: &Guess, w: &str) -> (r: Option<&Node>)
        requires
            self.wf(),
        ensures
            r is Some <==> self@.contains_key((g@, w@)),
            r is Some ==> r.unwrap()@ == self@[(g@, w@)],
    {
        proof {
            lemma_entries_map_domain(self.entries@);
        }
        match self.find_index(g, w) {
            Some(i) => {
                proof {
                    lemma_entries_map_get(self.entries@, i as int);
                }
                Some(&self.entries[i].node)
            },
            None => None,
        }
    }

    /// Is a node stored under `(g, w)`?
    pub fn contains_key(&self, g: &Guess, w: &str) -> (r: bool)
        requires
            self.wf(),
        ensures
            r == self@.contains_key((g@, w@)),
    {
        match self.get(g, w) {
            Some(_) => true,
            None => false,
        }
    }

    /// Stores `node` under `(g, w)`, replacing any earlier node there.
    pub fn insert(&mut self, g: Guess, w: String, node: Node)
        requires
            old(self).wf(),
        ensures
            final(self).wf(),
            final(self)@ == old(self)@.insert((g@, w@), node@),
    {
        let ghost old_entries = self.entries@;
        match self.find_index(&g, w.as_str()) {
            Some(i) => {
                let e = StateEntry { key_guess: g, key_word: w, node };
                proof {
                    lemma_entries_map_update(old_entries, i as int, e);
                }
                self.entries.set(i, e);
                proof {
                    assert forall|a: int, b: int|
                        0 <= a < b < self.entries@.len() implies entry_key(self.entries@[a])
                        != entry_key(self.entries@[b]) by {
                        if a != i && b != i {
                            assert(self.entries@[a] == old_entries[a]);
                            assert(self.entries@[b] == old_entries[b]);
                        }
                    }
                }
            },
            None => {
                let e = StateEntry { key_guess: g, key_word: w, node };
                self.entries.push(e);
                proof {
                    assert(self.entries@.drop_last() =~= old_entries);
                    assert forall|a: int, b: int|
                        0 <= a < b < self.entries@.len() implies entry_key(self.entries@[a])
                        != entry_key(self.entries@[b]) by {
                        if b == self.entries@.len() - 1 {
                            assert(self.entries@[a] == old_entries[a]);
                        } else {
                            assert(self.entries@[a] == old_entries[a]);
                            assert(self.entries@[b] == old_entries[b]);
                        }
                    }
                }
            },
        }
    }

    /// Adds one completed rollout to the node under `(g, w)`: the score joins
    /// the cumulative total and the visit count grows by one, both saturating
    /// at the integer limit.
    pub fn add_visit(&mut self, g: &Guess, w: &str, score: u64)
        requires
            old(self).wf(),
            old(self)@.contains_key((g@, w@)),
        ensures
            final(self).wf(),
            final(self)@ == old(self)@.insert(
                (g@, w@),
                bump_node(old(self)@[(g@, w@)], score),
            ),
    {
        proof {
            lemma_entries_map_domain(self.entries@);
        }
        let i = match self.find_index(g, w) {
            Some(i) => i,
            None => {
                proof {
                    assert(false);
                }
                0
            },
        };
        proof {
            lemma_entries_map_get(self.entries@, i as int);
        }
        let ghost old_entries = self.entries@;
        let old_entry = &self.entries[i];
        let node = Node {
            guess: old_entry.node.guess.clone(),
            cumulative_score: old_entry.node.cumulative_score.saturating_add(score),
            num_simulations: old_entry.node.num_simulations.saturating_add(1),
            num_guess: old_entry.node.num_guess,
        };
        let e = StateEntry {
            key_guess: old_entry.key_guess.clone(),
            key_word: old_entry.key_word.clone(),
            node,
        };
        proof {
            assert(entry_key(e) == entry_key(old_entries[i as int]));
            lemma_entries_map_update(old_entries, i as int, e);
        }
        self.entries.set(i, e);
        proof {
            assert forall|a: int, b: int|
                0 <= a < b < self.entries@.len() implies entry_key(self.entries@[a])
                != entry_key(self.entries@[b]) by {
                if a != i && b != i {
                    assert(self.entries@[a] == old_entries[a]);
                    assert(self.entries@[b] == old_entries[b]);
                }
            }
        }
    }
}

/// A node the search engine can work on: its candidate set is sized to the
/// dictionary and its turn index is at or past the search's starting turn.
pub open spec fn node_compatible(v: NodeV, dict_len: int, min_num_guess: u8) -> bool {
    v.guess.len() == dict_len && v.num_guess >= min_num_guess
}

/// Every node of the map is one the engine can work on.
pub open spec fn engine_ready(m: Map<KeyV, NodeV>, dict_len: int, min_num_guess: u8) -> bool {
    forall|k: KeyV|
        m.contains_key(k) ==> node_compatible(#[trigger] m[k], dict_len, min_num_guess)
}

impl StateSpace {
    /// Keeps exactly the nodes the search engine can work on, unchanged,
    /// and drops the rest; a loaded file of any shape becomes an
    /// engine-ready space.
    pub fn retain_compatible(&self, dict_len: usize, min_num_guess: u8) -> (r: StateSpace)
        requires
            self.wf(),
        ensures
            r.wf(),
            engine_ready(r@, dict_len as int, min_num_guess),
            forall|k: KeyV|
                #[trigger] r@.contains_key(k) <==> (self@.contains_key(k) && node_compatible(
                    self@[k],
                    dict_len as int,
                    min_num_guess,
                )),
            forall|k: KeyV| #[trigger] r@.contains_key(k) ==> r@[k] == self@[k],
    {
        proof {
            lemma_entries_map_domain(self.entries@);
        }
        let mut r = StateSpace::new();
        let n = self.entries.len();
        let mut i: usize = 0;
        while i < n
            invariant
                i <= n,
                n == self.entries@.len(),
                self.wf(),
                r.wf(),
                forall|j: int|
                    0 <= j < i ==> (r@.contains_key(entry_key(#[trigger] self.entries@[j]))
                        <==> node_compatible(
                        self.entries@[j].node@,
                        dict_len as int,
                        min_num_guess,
                    )),
                forall|j: int|
                    0 <= j < i && node_compatible(
                        self.entries@[j].node@,
                        dict_len as int,
                        min_num_guess,
                    ) ==> r@[entry_key(#[trigger] self.entries@[j])] == self.entries@[j].node@,
                forall|k: KeyV|
                    #[trigger] r@.contains_key(k) ==> exists|j: int|
                        0 <= j < i && entry_key(self.entries@[j]) == k,
            decreases n - i,
        {
            let ghost prev = r@;
            let e = &self.entries[i];
            if e.node.guess.len() == dict_len && e.node.num_guess >= min_num_guess {
                r.insert(e.key_guess.clone(), e.key_word.clone(), e.node.clone());
            }
            proof {
                assert forall|j: int| 0 <= j < i + 1 implies (r@.contains_key(
                    entry_key(#[trigger] self.entries@[j]),
                ) <==> node_compatible(
                    self.entries@[j].node@,
                    dict_len as int,
                    min_num_guess,
                )) by {
                    if j < i {
                        assert(entry_key(self.entries@[j]) != entry_key(self.entries@[i as int]));
                    }
                }
                assert forall|k: KeyV| #[trigger] r@.contains_key(k) implies exists|j: int|
                    0 <= j < i + 1 && entry_key(self.entries@[j]) == k by {
                    if k != entry_key(self.entries@[i as int]) {
                        assert(prev.contains_key(k));
                        let j = choose|j: int| 0 <= j < i && entry_key(self.entries@[j]) == k;
                        assert(entry_key(self.entries@[j]) == k);
                    } else {
                        assert(entry_key(self.entries@[i as int]) == k);
                    }
                }
            }
            i += 1;
        }
        proof {
            assert forall|k: KeyV| #[trigger] r@.contains_key(k) implies (self@.contains_key(k)
                && node_compatible(self@[k], dict_len as int, min_num_guess) && r@[k]
                == self@[k]) by {
                let j = choose|j: int| 0 <= j < n && entry_key(self.entries@[j]) == k;
                lemma_entries_map_get(self.entries@, j);
            }
            assert forall|k: KeyV| self@.contains_key(k) && node_compatible(
                self@[k],
                dict_len as int,
                min_num_guess,
            ) implies #[trigger] r@.contains_key(k) by {
                let j = choose|j: int| 0 <= j < n && entry_key(self.entries@[j]) == k;
                lemma_entries_map_get(self.entries@, j);
                assert(self.entries@[j].node@ == self@[k]);
            }
            assert forall|k: KeyV| r@.contains_key(k) implies node_compatible(
                #[trigger] r@[k],
                dict_len as int,
                min_num_guess,
            ) by {
            }
        }
        r
    }
}

/// Saturating addition on `u64`.
pub open spec fn sat_add(a: u64, b: u64) -> u64 {
    if a + b > u64::MAX {
        u64::MAX
    } else {
        (a + b) as u64
    }
}

/// One rollout of `score` added to a node's statistics.
pub open spec fn bump_node(v: NodeV, score: u64) -> NodeV {
    NodeV {
        guess: v.guess,
        cumulative_score: sat_add(v.cumulative_score, score),
        num_simulations: sat_add(v.num_simulations, 1),
        num_guess: v.num_guess,
    }
}

/// Two nodes under the same key merged: statistics are summed (saturating),
/// the candidate set and turn index come from the first.
pub open spec fn merge_node(a: NodeV, b: NodeV) -> NodeV {
    NodeV {
        guess: a.guess,
        cumulative_score: sat_add(a.cumulative_score, b.cumulative_score),
        num_simulations: sat_add(a.num_simulations, b.num_simulations),
        num_guess: a.num_guess,
    }
}

/// Two state-space maps merged key by key.
pub open spec fn merge_maps(m1: Map<KeyV, NodeV>, m2: Map<KeyV, NodeV>) -> Map<KeyV, NodeV> {
    Map::new(
        |k: KeyV| m1.contains_key(k) || m2.contains_key(k),
        |k: KeyV|
            if m1.contains_key(k) && m2.contains_key(k) {
                merge_node(m1[k], m2[k])
            } else if m1.contains_key(k) {
                m1[k]
            } else {
                m2[k]
            },
    )
}

/// A list of state-space maps folded together in order, starting empty.
pub open spec fn combine_spec(ms: Seq<Map<KeyV, NodeV>>) -> Map<KeyV, NodeV>
    decreases ms.len(),
{
    if ms.len() == 0 {
        Map::empty()
    } else {
        merge_maps(combine_spec(ms.drop_last()), ms.last())
    }
}

impl StateSpace {
    /// Merges every node of `other` into `self`, summing statistics on
    /// shared keys.
    pub fn merge_from(&mut self, other: &StateSpace)
        requires
            old(self).wf(),
            other.wf(),
        ensures
            final(self).wf(),
            final(self)@ == merge_maps(old(self)@, other@),
    {
        let n = other.entries.len();
        let mut j: usize = 0;
        proof {
            assert(self@ =~= merge_maps(old(self)@, entries_map(other.entries@.take(0))));
        }
        while j < n
            invariant
                j <= n,
                n == other.entries@.len(),
                other.wf(),
                self.wf(),
                self@ == merge_maps(old(self)@, entries_map(other.entries@.take(j as int))),
            decreases n - j,
        {
            let ghost prefix = other.entries@.take(j as int);
            let e = &other.entries[j];
            let ghost k = entry_key(*e);
            proof {
                assert(other.entries@.take(j + 1).drop_last() =~= prefix);
                assert(other.entries@.take(j + 1).last() == other.entries@[j as int]);
                lemma_entries_map_domain(prefix);
                assert(forall|i: int|
                    0 <= i < prefix.len() ==> entry_key(#[trigger] prefix[i]) == entry_key(
                        other.entries@[i],
                    ));
                assert(!entries_map(prefix).contains_key(k));
            }
            match self.get(&e.key_guess, e.key_word.as_str()) {
                Some(existing) => {
                    let node = Node {
                        guess: existing.guess.clone(),
                        cumulative_score: existing.cumulative_score.saturating_add(
                            e.node.cumulative_score,
                        ),
                        num_simulations: existing.num_simulations.saturating_add(
                            e.node.num_simulations,
                        ),
                        num_guess: existing.num_guess,
                    };
                    let g = e.key_guess.clone();
                    let w = e.key_word.clone();
                    self.insert(g, w, node);
                },
                None => {
                    let g = e.key_guess.clone();
                    let w = e.key_word.clone();
                    let node = e.node.clone();
                    self.insert(g, w, node);
                },
            }
            proof {
                assert(self@ =~= merge_maps(
                    old(self)@,
                    entries_map(other.entries@.take(j + 1)),
                ));
            }
            j += 1;
        }
        proof {
            assert(other.entries@.take(n as int) =~= other.entries@);
        }
    }
}

/// Folds a list of state spaces into one, merging statistics key by key;
/// the first space's node wins the non-statistic fields on shared keys.
pub fn combine_state_spaces(state_spaces: Vec<StateSpace>) -> (r: StateSpace)
    requires
        forall|i: int| 0 <= i < state_spaces@.len() ==> (#[trigger] state_spaces@[i]).wf(),
    ensures
        r.wf(),
        r@ == combine_spec(state_spaces@.map_values(|s: StateSpace| s@)),
{
    let mut acc = StateSpace::new();
    let n = state_spaces.len();
    let mut i: usize = 0;
    proof {
        assert(acc@ =~= combine_spec(
            state_spaces@.map_values(|s: StateSpace| s@).take(0),
        ));
    }
    while i < n
        invariant
            i <= n,
            n == state_spaces@.len(),
            forall|k: int| 0 <= k < n ==> (#[trigger] state_spaces@[k]).wf(),
            acc.wf(),
            acc@ == combine_spec(state_spaces@.map_values(|s: StateSpace| s@).take(i as int)),
        decreases n - i,
    {
        let ghost ms = state_spaces@.map_values(|s: StateSpace| s@);
        acc.merge_from(&state_spaces[i]);
        proof {
            assert(ms.take(i + 1).drop_last() =~= ms.take(i as int));
            assert(ms.take(i + 1).last() == state_spaces@[i as int]@);
        }
        i += 1;
    }
    proof {
        let ghost ms = state_spaces@.map_values(|s: StateSpace| s@);
        assert(ms.take(n as int) =~= ms);
    }
    acc
}

/// Statistics additivity under merge: on a key both spaces hold, the merged
/// cumulative score and simulation count are the sums of the two sides, as
/// long as those sums stay within the integer limit.
pub proof fn lemma_merge_adds(m1: Map<KeyV, NodeV>, m2: Map<KeyV, NodeV>, k: KeyV)
    requires
        m1.contains_key(k),
        m2.contains_key(k),
        m1[k].cumulative_score + m2[k].cumulative_score <= u64::MAX,
        m1[k].num_simulations + m2[k].num_simulations <= u64::MAX,
    ensures
        merge_maps(m1, m2).contains_key(k),
        merge_maps(m1, m2)[k].cumulative_score == m1[k].cumulative_score
            + m2[k].cumulative_score,
        merge_maps(m1, m2)[k].num_simulations == m1[k].num_simulations
            + m2[k].num_simulations,
{
}

/// Merging is commutative over the statistics, whenever shared keys agree on
/// the non-statistic fields (candidate set and turn index).
pub proof fn lemma_merge_commutative(m1: Map<KeyV, NodeV>, m2: Map<KeyV, NodeV>)
    requires
        forall|k: KeyV|
            m1.contains_key(k) && m2.contains_key(k) ==> (#[trigger] m1[k]).guess == m2[k].guess
                && m1[k].num_guess == m2[k].num_guess,
    ensures
        merge_maps(m1, m2) == merge_maps(m2, m1),
{
    assert(merge_maps(m1, m2) =~= merge_maps(m2, m1));
}

/// Merging is associative.
pub proof fn lemma_merge_associative(
    m1: Map<KeyV, NodeV>,
    m2: Map<KeyV, NodeV>,
    m3: Map<KeyV, NodeV>,
)
    ensures
        merge_maps(merge_maps(m1, m2), m3) == merge_maps(m1, merge_maps(m2, m3)),
{
    assert(merge_maps(merge_maps(m1, m2), m3) =~= merge_maps(m1, merge_maps(m2, m3)));
}

/// The compact membership string of a candidate set.
pub open spec fn bits_string(p: Seq<bool>) -> Seq<char> {
    Seq::new(p.len(), |i: int| if p[i] { '1' } else { '0' })
}

/// The membership vector a compact string denotes.
pub open spec fn bools_of(s: Seq<char>) -> Seq<bool> {
    Seq::new(s.len(), |i: int| s[i] == '1')
}

/// One persisted line: the key's membership string and word, then the
/// node's membership string, cumulative score, simulation count and turn
/// index, comma-separated.
pub open spec fn state_line_spec(k: KeyV, v: NodeV) -> Seq<char> {
    bits_string(k.0) + seq![','] + k.1 + seq![','] + bits_string(v.guess) + seq![',']
        + dec_digits(v.cumulative_score as int) + seq![','] + dec_digits(
        v.num_simulations as int,
    ) + seq![','] + dec_digits(v.num_guess as int)
}

/// What one persisted line denotes: `None` for a malformed line (under six
/// fields, or a numeric field that does not parse), which a load skips.
pub open spec fn parse_line_spec(line: Seq<char>) -> Option<(KeyV, NodeV)> {
    let f = split_spec(line);
    if f.len() >= 6 && is_u64_str(f[3]) && is_u64_str(f[4]) && is_u64_str(f[5]) && digits_val(
        f[5],
    ) <= u8::MAX {
        Some(
            (
                (bools_of(f[0]), f[1]),
                NodeV {
                    guess: bools_of(f[2]),
                    cumulative_score: digits_val(f[3]) as u64,
                    num_simulations: digits_val(f[4]) as u64,
                    num_guess: digits_val(f[5]) as u8,
                },
            ),
        )
    } else {
        None
    }
}

/// The map a sequence of persisted lines loads to, malformed lines skipped,
/// later lines overriding earlier ones on the same key.
pub open spec fn load_map(lines: Seq<Seq<char>>) -> Map<KeyV, NodeV>
    decreases lines.len(),
{
    if lines.len() == 0 {
        Map::empty()
    } else {
        match parse_line_spec(lines.last()) {
            Some(kv) => load_map(lines.drop_last()).insert(kv.0, kv.1),
            None => load_map(lines.drop_last()),
        }
    }
}

impl StateSpace {
    /// Renders every node as one persisted line, in storage order.
    pub fn to_lines(&self) -> (r: Vec<String>)
        ensures
            r@.len() == self.entry_seq().len(),
            forall|i: int|
                0 <= i < r@.len() ==> (#[trigger] r@[i])@ == state_line_spec(
                    self.entry_seq()[i].0,
                    self.entry_seq()[i].1,
                ),
    {
        let n = self.entries.len();
        let mut r: Vec<String> = Vec::new();
        let mut i: usize = 0;
        while i < n
            invariant
                i <= n,
                n == self.entries@.len(),
                r@.len() == i,
                forall|k: int|
                    0 <= k < i ==> (#[trigger] r@[k])@ == state_line_spec(
                        self.entry_seq()[k].0,
                        self.entry_seq()[k].1,
                    ),
            decreases n - i,
        {
            proof {
                reveal_strlit(",");
            }
            let ghost prev = r@;
            let e = &self.entries[i];
            let mut line = e.key_guess.to_string();
            line.append(",");
            line.append(e.key_word.as_str());
            line.append(",");
            line.append(e.node.guess.to_string().as_str());
            line.append(",");
            line.append(u64_to_string(e.node.cumulative_score).as_str());
            line.append(",");
            line.append(u64_to_string(e.node.num_simulations).as_str());
            line.append(",");
            line.append(u64_to_string(e.node.num_guess as u64).as_str());
            proof {
                assert(","@ =~= seq![',']);
                assert(line@ =~= state_line_spec(
                    self.entry_seq()[i as int].0,
                    self.entry_seq()[i as int].1,
                ));
            }
            r.push(line);
            proof {
                assert forall|k: int| 0 <= k < i + 1 implies (#[trigger] r@[k])@
                    == state_line_spec(self.entry_seq()[k].0, self.entry_seq()[k].1) by {
                    if k < i {
                        assert(r@[k] == prev[k]);
                    } else {
                        assert(r@[k] == line);
                    }
                }
            }
            i += 1;
        }
        r
    }
}

/// Reads one persisted line back into its key and node; `None` for a
/// malformed line.
pub fn parse_state_line(line: &str) -> (r: Option<(Guess, String, Node)>)
    ensures
        r is Some <==> parse_line_spec(line@) is Some,
        r is Some ==> parse_line_spec(line@) == Some(
            ((r.unwrap().0@, r.unwrap().1@), r.unwrap().2@),
        ),
{
    let fields = split_commas(line);
    proof {
        assert(forall|i: int|
            0 <= i < fields@.len() ==> fields.deep_view()[i] == (#[trigger] fields@[i])@);
    }
    if fields.len() < 6 {
        return None;
    }
    let key_guess = Guess::from_string(fields[0].as_str());
    let word = fields[1].clone();
    let node_guess = Guess::from_string(fields[2].as_str());
    let cumulative_score = match parse_u64(fields[3].as_str()) {
        Some(v) => v,
        None => {
            return None;
        },
    };
    let num_simulations = match parse_u64(fields[4].as_str()) {
        Some(v) => v,
        None => {
            return None;
        },
    };
    let num_guess = match parse_u8(fields[5].as_str()) {
        Some(v) => v,
        None => {
            return None;
        },
    };
    let node = Node { guess: node_guess, cumulative_score, num_simulations, num_guess };
    proof {
        let f = split_spec(line@);
        assert(key_guess@ =~= bools_of(f[0]));
        assert(node.guess@ =~= bools_of(f[2]));
        assert(word@ == f[1]);
    }
    Some((key_guess, word, node))
}

/// Rebuilds a state space from persisted lines, skipping malformed ones.
pub fn state_space_from_lines(lines: &Vec<String>) -> (r: StateSpace)
    ensures
        r.wf(),
        r@ == load_map(lines.deep_view()),
{
    let mut r = StateSpace::new();
    let n = lines.len();
    let mut i: usize = 0;
    proof {
        assert(lines.deep_view().take(0) =~= Seq::<Seq<char>>::empty());
        assert(r@ =~= load_map(lines.deep_view().take(0)));
    }
    while i < n
        invariant
            i <= n,
            n == lines@.len(),
            n == lines.deep_view().len(),
            r.wf(),
            r@ == load_map(lines.deep_view().take(i as int)),
        decreases n - i,
    {
        proof {
            assert(lines.deep_view().take(i + 1).drop_last() =~= lines.deep_view().take(
                i as int,
            ));
            assert(lines.deep_view().take(i + 1).last() == lines.deep_view()[i as int]);
            assert(lines.deep_view()[i as int] == lines@[i as int]@);
        }
        match parse_state_line(lines[i].as_str()) {
            Some((g, w, node)) => {
                r.insert(g, w, node);
            },
            None => {},
        }
        i += 1;
    }
    proof {
        assert(lines.deep_view().take(n as int) =~= lines.deep_view());
    }
    r
}

/// Rendering one node's line and reading it back restores the key and the
/// node exactly, as long as the key's word holds no comma (the separator
/// the format itself uses).
pub proof fn lemma_state_line_round_trip(k: KeyV, v: NodeV)
    requires
        forall|j: int| 0 <= j < k.1.len() ==> k.1[j] != ',',
    ensures
        parse_line_spec(state_line_spec(k, v)) == Some((k, v)),
{
    let b0 = bits_string(k.0);
    let w = k.1;
    let b2 = bits_string(v.guess);
    let d3 = dec_digits(v.cumulative_score as int);
    let d4 = dec_digits(v.num_simulations as int);
    let d5 = dec_digits(v.num_guess as int);
    lemma_dec_digits_roundtrip(v.cumulative_score as int);
    lemma_dec_digits_roundtrip(v.num_simulations as int);
    lemma_dec_digits_roundtrip(v.num_guess as int);
    assert(forall|j: int| 0 <= j < b0.len() ==> #[trigger] b0[j] != ',');
    assert(forall|j: int| 0 <= j < b2.len() ==> #[trigger] b2[j] != ',');
    assert(forall|j: int| 0 <= j < d3.len() ==> #[trigger] d3[j] != ',') by {
        assert(forall|j: int| 0 <= j < d3.len() ==> is_digit(#[trigger] d3[j]));
    }
    assert(forall|j: int| 0 <= j < d4.len() ==> #[trigger] d4[j] != ',') by {
        assert(forall|j: int| 0 <= j < d4.len() ==> is_digit(#[trigger] d4[j]));
    }
    assert(forall|j: int| 0 <= j < d5.len() ==> #[trigger] d5[j] != ',') by {
        assert(forall|j: int| 0 <= j < d5.len() ==> is_digit(#[trigger] d5[j]));
    }
    let line = state_line_spec(k, v);
    let tail5 = d5;
    let tail4 = d4 + seq![','] + tail5;
    let tail3 = d3 + seq![','] + tail4;
    let tail2 = b2 + seq![','] + tail3;
    let tail1 = w + seq![','] + tail2;
    assert(line =~= b0 + seq![','] + tail1);
    lemma_split_concat(b0, tail1);
    lemma_split_no_comma(b0);
    assert(tail1 =~= w + seq![','] + tail2);
    lemma_split_concat(w, tail2);
    lemma_split_no_comma(w);
    lemma_split_concat(b2, tail3);
    lemma_split_no_comma(b2);
    lemma_split_concat(d3, tail4);
    lemma_split_no_comma(d3);
    lemma_split_concat(d4, tail5);
    lemma_split_no_comma(d4);
    lemma_split_no_comma(d5);
    let f = split_spec(line);
    assert(f =~= seq![b0, w, b2, d3, d4, d5]);
    assert(is_u64_str(f[3]) && digits_val(f[3]) == v.cumulative_score);
    assert(is_u64_str(f[4]) && digits_val(f[4]) == v.num_simulations);
    assert(is_u64_str(f[5]) && digits_val(f[5]) == v.num_guess);
    assert(bools_of(f[0]) =~= k.0);
    assert(bools_of(f[2]) =~= v.guess);
    assert(parse_line_spec(line) == Some((k, v)));
}

/// The map of rendered lines for an entry sequence.
spec fn lines_of(s: Seq<StateEntry>) -> Seq<Seq<char>> {
    Seq::new(s.len(), |i: int| state_line_spec(entry_key(s[i]), s[i].node@))
}

proof fn lemma_load_lines_of(s: Seq<StateEntry>)
    requires
        forall|i: int, j: int|
            0 <= i < s.len() && 0 <= j < s[i].key_word@.len() ==> #[trigger] s[i].key_word@[j]
                != ',',
    ensures
        load_map(lines_of(s)) == entries_map(s),
    decreases s.len(),
{
    if s.len() > 0 {
        let q = s.drop_last();
        assert(forall|i: int| 0 <= i < q.len() ==> #[trigger] q[i] == s[i]);
        lemma_load_lines_of(q);
        let ls = lines_of(s);
        assert(ls.drop_last() =~= lines_of(q));
        assert(ls.last() == state_line_spec(entry_key(s.last()), s.last().node@));
        lemma_state_line_round_trip(entry_key(s.last()), s.last().node@);
        assert(load_map(ls) == load_map(lines_of(q)).insert(
            entry_key(s.last()),
            s.last().node@,
        ));
    } else {
        assert(lines_of(s) =~= Seq::<Seq<char>>::empty());
    }
}

impl StateSpace {
    /// Saving and loading restore the state space exactly: the lines
    /// `to_lines` renders load back, through `state_space_from_lines`, to
    /// this space's very map — as long as no key's word holds a comma, the
    /// separator the format itself uses.
    pub proof fn lemma_save_load_round_trip(&self)
        requires
            self.wf(),
            forall|i: int, j: int|
                0 <= i < self.entry_seq().len() && 0 <= j < self.entry_seq()[i].0.1.len()
                    ==> #[trigger] self.entry_seq()[i].0.1[j] != ',',
        ensures
            load_map(
                Seq::new(
                    self.entry_seq().len(),
                    |i: int| state_line_spec(self.entry_seq()[i].0, self.entry_seq()[i].1),
                ),
            ) == self@,
    {
        assert forall|i: int, j: int|
            0 <= i < self.entries@.len() && 0 <= j < self.entries@[i].key_word@.len()
            implies #[trigger] self.entries@[i].key_word@[j] != ',' by {
            assert(self.entry_seq()[i].0.1 == self.entries@[i].key_word@);
            assert(self.entry_seq()[i].0.1[j] != ',');
        }
        lemma_load_lines_of(self.entries@);
        assert(Seq::new(
            self.entry_seq().len(),
            |i: int| state_line_spec(self.entry_seq()[i].0, self.entry_seq()[i].1),
        ) =~= lines_of(self.entries@));
    }
}

} // verus!
