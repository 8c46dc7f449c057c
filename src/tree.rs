//! Search statistics: an arena of nodes shared through a table keyed by
//! position hash, so that transposed positions share one record.
//!
//! A node is addressed by its index in the arena; an edge of a node holds
//! a move and the index of the node it leads to. Index 0 is the root of
//! the search and is never entered in the hash table.

use vstd::prelude::*;
use std::collections::HashMap;
use crate::ucb::{ucb1, ucb1_spec};

verus! {

broadcast use vstd::std_specs::hash::group_hash_axioms;

/// The prior of a node as an exact fraction `num / den`.
#[derive(Clone, Copy, PartialEq, Eq, Debug, Structural)]
pub struct Prior {
    pub num: u128,
    pub den: u128,
}

/// An edge of the search graph: a move and the node it leads to.
pub struct Edge<M> {
    pub mv: M,
    pub child: usize,
}

/// A vertex of the search graph.
pub struct Node<M> {
    pub prior: Prior,
    /// Sum of backed-up values, in hundredths, from the side to move here.
    pub value_sum: i64,
    pub visits: u32,
    /// Set once, when the node is expanded; never empty once set.
    pub children: Option<Vec<Edge<M>>>,
}

impl<M> Node<M> {
    pub fn new(prior: Prior, value_sum: i64, visits: u32, children: Option<Vec<Edge<M>>>) -> (n: Node<M>)
        ensures
            n.prior == prior,
            n.value_sum == value_sum,
            n.visits == visits,
            n.children == children,
    {
        Node { prior, value_sum, visits, children }
    }
}

/// The score of a child for selection: `None` for a child never visited,
/// which ranks above every visited child.
pub type Score = Option<int>;

/// `a` ranks strictly above `b`.
pub open spec fn beats(a: Score, b: Score) -> bool {
    match (a, b) {
        (None, Some(_)) => true,
        (Some(x), Some(y)) => x > y,
        _ => false,
    }
}

/// The lowest of a sequence of move scores (zero when it is empty).
pub open spec fn min_score(s: Seq<i32>) -> int
    decreases s.len(),
{
    if s.len() == 0 {
        0
    } else if s.len() == 1 {
        s[0] as int
    } else {
        let m = min_score(s.drop_last());
        if (s.last() as int) < m {
            s.last() as int
        } else {
            m
        }
    }
}

/// A score lifted above the lowest one by one hundredth, so that it is positive.
pub open spec fn shifted(s: Seq<i32>, k: int) -> int {
    s[k] - min_score(s) + 1
}

/// The sum of the lifted scores of the first `n` moves.
pub open spec fn shifted_sum(s: Seq<i32>, n: nat) -> int
    decreases n,
{
    if n == 0 {
        0
    } else {
        shifted_sum(s, (n - 1) as nat) + shifted(s, n - 1)
    }
}

/// The prior given to the move at `k` among moves scored `s`.
pub open spec fn prior_at(s: Seq<i32>, k: int) -> Prior {
    Prior { num: shifted(s, k) as u128, den: shifted_sum(s, s.len()) as u128 }
}

/// One step of a descent: edge `edge` of node `parent`, leading to `child`.
#[derive(Clone, Copy, PartialEq, Eq, Debug, Structural)]
pub struct Step {
    pub parent: usize,
    pub edge: usize,
    pub child: usize,
}

/// How many steps of `path` lead to node `n`.
pub open spec fn occurrences(path: Seq<Step>, n: int) -> nat
    decreases path.len(),
{
    if path.len() == 0 {
        0
    } else {
        (if path[0].child == n { 1nat } else { 0nat }) + occurrences(path.drop_first(), n)
    }
}

/// `+1` at an even ply distance from the leaf, `-1` at an odd one.
pub open spec fn sign(d: nat) -> int {
    if d % 2 == 0 {
        1
    } else {
        -1
    }
}

pub open spec fn abs(v: int) -> int {
    if v < 0 {
        -v
    } else {
        v
    }
}

/// What backing up the leaf value `v` along `path` adds to node `n`: the
/// value, negated once per ply between the step and the leaf, at each step
/// that leads to `n`.
pub open spec fn contribution(path: Seq<Step>, n: int, v: int) -> int
    decreases path.len(),
{
    if path.len() == 0 {
        0
    } else {
        (if path[0].child == n { sign((path.len() - 1) as nat) * v } else { 0 }) + contribution(
            path.drop_first(),
            n,
            v,
        )
    }
}

/// The nodes of a search and the table from position hash to node index.
pub struct TranspositionTable<M> {
    pub nodes: Vec<Node<M>>,
    pub index: HashMap<u64, usize>,
}

/// The root's index in the arena.
pub const ROOT: usize = 0;

impl<M> TranspositionTable<M> {
    pub open spec fn len(&self) -> nat {
        self.nodes@.len()
    }

    pub open spec fn node(&self, i: int) -> Node<M> {
        self.nodes@[i]
    }

    /// The edges of node `i`, empty while it is not expanded.
    pub open spec fn edges(&self, i: int) -> Seq<Edge<M>> {
        match self.nodes@[i].children {
            Some(c) => c@,
            None => Seq::empty(),
        }
    }

    pub open spec fn is_expanded(&self, i: int) -> bool {
        self.nodes@[i].children is Some
    }

    /// The node that edge `e` of node `i` leads to.
    pub open spec fn child(&self, i: int, e: int) -> int {
        self.edges(i)[e].child as int
    }

    pub open spec fn wf(&self) -> bool {
        &&& self.nodes@.len() >= 1
        &&& forall|i: int|
            0 <= i < self.nodes@.len() && #[trigger] self.is_expanded(i) ==> self.edges(i).len() > 0
        &&& forall|i: int, e: int|
            0 <= i < self.nodes@.len() && 0 <= e < self.edges(i).len() ==> #[trigger] self.child(i, e)
                < self.nodes@.len()
        &&& forall|h: u64| #[trigger] self.index@.contains_key(h) ==> self.index@[h] < self.nodes@.len()
    }

    /// Some child of `i` has not been visited yet.
    pub open spec fn spec_has_unvisited_children(&self, i: int) -> bool {
        exists|e: int| 0 <= e < self.edges(i).len() && #[trigger] self.node(self.child(i, e)).visits == 0
    }

    /// The selection score of edge `e` of node `i`. A parent not yet
    /// visited gives no exploration bonus, as one with a single visit.
    pub open spec fn score(&self, i: int, e: int) -> Score {
        let c = self.node(self.child(i, e));
        let parent = self.node(i).visits;
        if c.visits == 0 {
            None
        } else {
            Some(ucb1_spec(c.visits as nat, c.value_sum as int, if parent == 0 { 1 } else { parent as nat }))
        }
    }

    /// Edge `e` is the first edge of `i` with the highest score.
    pub open spec fn is_best_child(&self, i: int, e: int) -> bool {
        &&& 0 <= e < self.edges(i).len()
        &&& forall|k: int| 0 <= k < e ==> beats(self.score(i, e), #[trigger] self.score(i, k))
        &&& forall|k: int| e < k < self.edges(i).len() ==> !beats(#[trigger] self.score(i, k), self.score(i, e))
    }

    /// Edge `e` is the first edge of `i` whose child has the most visits.
    pub open spec fn is_most_visited(&self, i: int, e: int) -> bool {
        &&& 0 <= e < self.edges(i).len()
        &&& forall|k: int| 0 <= k < e ==> #[trigger] self.node(self.child(i, k)).visits < self.node(self.child(i, e)).visits
        &&& forall|k: int| e < k < self.edges(i).len() ==> #[trigger] self.node(self.child(i, k)).visits <= self.node(self.child(i, e)).visits
    }

    /// The table and arena after node `i` of `old` was expanded with `moves`,
    /// scored `scores`, whose resulting positions hash to `hashes`.
    pub open spec fn expanded(
        old: &Self,
        new: &Self,
        i: int,
        moves: Seq<M>,
        scores: Seq<i32>,
        hashes: Seq<u64>,
    ) -> bool {
        &&& new.len() >= old.len()
        &&& forall|n: int| 0 <= n < old.len() && n != i ==> #[trigger] new.nodes@[n] == old.nodes@[n]
        &&& new.node(i).prior == old.node(i).prior
        &&& new.node(i).value_sum == old.node(i).value_sum
        &&& new.node(i).visits == old.node(i).visits
        &&& new.is_expanded(i)
        &&& new.edges(i).len() == moves.len()
        &&& forall|k: int| 0 <= k < moves.len() ==> #[trigger] new.edges(i)[k].mv == moves[k]
        // every hash is entered, to the child its move leads to
        &&& forall|k: int| 0 <= k < moves.len() ==> new.index@.contains_key(#[trigger] hashes[k])
            && new.index@[hashes[k]] == new.child(i, k)
        // entries already there are kept, and reused
        &&& forall|h: u64| #[trigger] old.index@.contains_key(h) ==> new.index@.contains_key(h)
            && new.index@[h] == old.index@[h]
        &&& forall|h: u64| #[trigger] new.index@.contains_key(h) ==> old.index@.contains_key(h)
            || hashes.contains(h)
        // a hash not in the table leads to a node new to the arena
        &&& forall|k: int| 0 <= k < moves.len() && !old.index@.contains_key(#[trigger] hashes[k])
            ==> new.child(i, k) >= old.len()
        // a hash met for the first time gets a fresh node with its prior
        &&& forall|k: int| 0 <= k < moves.len() && !old.index@.contains_key(#[trigger] hashes[k])
            && (forall|j: int| 0 <= j < k ==> hashes[j] != hashes[k]) ==> {
                &&& new.child(i, k) >= old.len()
                &&& new.node(new.child(i, k)) == Node::<M> {
                    prior: prior_at(scores, k),
                    value_sum: 0,
                    visits: 0,
                    children: None,
                }
            }
        &&& forall|n: int| old.len() <= n < new.len() ==> !(#[trigger] new.is_expanded(n))
            && new.node(n).visits == 0 && new.node(n).value_sum == 0
    }

    /// Expands node `i`: one edge per move, in order, each to the node that
    /// the table holds for the resulting position, or to a new node with the
    /// move's prior and no statistics.
    pub fn expand(&mut self, i: usize, moves: Vec<M>, scores: Vec<i32>, hashes: Vec<u64>)
        requires
            old(self).wf(),
            i < old(self).len(),
            !old(self).is_expanded(i as int),
            moves.len() > 0,
            scores.len() == moves.len(),
            hashes.len() == moves.len(),
            old(self).len() + moves.len() <= usize::MAX,
        ensures
            final(self).wf(),
            Self::expanded(old(self), final(self), i as int, moves@, scores@, hashes@),
    {
        let n = moves.len();
        let ghost all_moves = moves@;
        // lowest score
        let mut low: i32 = scores[0];
        let mut k: usize = 1;
        while k < n
            invariant
                n == scores@.len(),
                1 <= k <= n,
                low == min_score(scores@.subrange(0, k as int)),
            decreases n - k,
        {
            proof {
                assert(scores@.subrange(0, k + 1).drop_last() =~= scores@.subrange(0, k as int));
            }
            if scores[k] < low {
                low = scores[k];
            }
            k = k + 1;
        }
        assert(scores@.subrange(0, n as int) =~= scores@);
        proof {
            lemma_min_score_below(scores@);
        }
        // sum of lifted scores
        let mut total: u128 = 0;
        let mut k: usize = 0;
        while k < n
            invariant
                n == scores@.len(),
                n > 0,
                low == min_score(scores@),
                k <= n,
                total == shifted_sum(scores@, k as nat),
                total <= k * 0x2_0000_0000,
                forall|j: int| 0 <= j < n ==> 1 <= #[trigger] shifted(scores@, j) <= 0x2_0000_0000,
            decreases n - k,
        {
            assert(1 <= shifted(scores@, k as int) <= 0x2_0000_0000);
            assert(k * 0x2_0000_0000 + 0x2_0000_0000 <= 0x2_0000_0000_0000_0000_0000_0000);
            total = total + ((scores[k] as i64 - low as i64 + 1) as u128);
            k = k + 1;
        }
        // edges, entering new positions in the table
        let mut edges: Vec<Edge<M>> = Vec::new();
        let mut moves = moves;
        let ghost old_t = *self;
        let mut k: usize = 0;
        while k < n
            invariant
                n == scores@.len(),
                n == hashes@.len(),
                n == all_moves.len(),
                n > 0,
                k <= n,
                i < old_t.len(),
                old_t.wf(),
                !old_t.is_expanded(i as int),
                old_t.len() + n <= usize::MAX,
                low == min_score(scores@),
                total == shifted_sum(scores@, n as nat),
                forall|j: int| 0 <= j < n ==> 1 <= #[trigger] shifted(scores@, j) <= 0x2_0000_0000,
                moves@ == all_moves.subrange(k as int, n as int),
                old_t.len() <= self.len() <= old_t.len() + k,
                forall|m: int| 0 <= m < old_t.len() ==> #[trigger] self.nodes@[m] == old_t.nodes@[m],
                forall|m: int| old_t.len() <= m < self.len() ==> (#[trigger] self.nodes@[m]).children is None
                    && self.nodes@[m].visits == 0 && self.nodes@[m].value_sum == 0,
                edges@.len() == k,
                forall|j: int| 0 <= j < k ==> (#[trigger] edges@[j]).mv == all_moves[j]
                    && edges@[j].child < self.len(),
                forall|j: int| 0 <= j < k ==> self.index@.contains_key(#[trigger] hashes@[j])
                    && self.index@[hashes@[j]] == edges@[j].child,
                forall|h: u64| #[trigger] old_t.index@.contains_key(h) ==> self.index@.contains_key(h)
                    && self.index@[h] == old_t.index@[h],
                forall|h: u64| #[trigger] self.index@.contains_key(h) ==> old_t.index@.contains_key(h)
                    || exists|j: int| 0 <= j < k && hashes@[j] == h,
                forall|h: u64| #[trigger] self.index@.contains_key(h) ==> self.index@[h] < self.len(),
                forall|h: u64| #[trigger] self.index@.contains_key(h) && !old_t.index@.contains_key(h)
                    ==> self.index@[h] >= old_t.len(),
                forall|j: int| 0 <= j < k && !old_t.index@.contains_key(#[trigger] hashes@[j])
                    && (forall|j2: int| 0 <= j2 < j ==> hashes@[j2] != hashes@[j]) ==> {
                        &&& edges@[j].child >= old_t.len()
                        &&& self.node(edges@[j].child as int) == Node::<M> {
                            prior: prior_at(scores@, j),
                            value_sum: 0,
                            visits: 0,
                            children: None,
                        }
                    },
            decreases n - k,
        {
            let h = hashes[k];
            let ghost before = *self;
            let child: usize = match self.index.get(&h) {
                Some(c) => {
                    proof {
                        if !old_t.index@.contains_key(h) {
                            let j = choose|j: int| 0 <= j < k && hashes@[j] == h;
                            assert(hashes@[j] == h);
                        }
                    }
                    *c
                },
                None => {
                    proof {
                        assert forall|j: int| 0 <= j < k implies hashes@[j] != h by {
                            assert(self.index@.contains_key(hashes@[j]));
                        }
                    }
                    let c = self.nodes.len();
                    let prior = Prior { num: (scores[k] as i64 - low as i64 + 1) as u128, den: total };
                    let fresh = Node::new(prior, 0, 0, None);
                    self.nodes.push(fresh);
                    assert(self.nodes@[c as int] == fresh);
                    assert(!self.is_expanded(c as int));
                    self.index.insert(h, c);
                    c
                },
            };
            let mv = moves.remove(0);
            assert(mv == all_moves[k as int]);
            edges.push(Edge { mv, child });
            assert(moves@ =~= all_moves.subrange(k + 1, n as int));
            k = k + 1;
        }
        let ghost es = edges@;
        let ghost before = *self;
        self.nodes[i].children = Some(edges);
        assert(self.nodes@ == before.nodes@.update(i as int, self.nodes@[i as int]));
        assert(self.edges(i as int) == es);
        proof {
            assert forall|m: int, e: int|
                0 <= m < self.nodes@.len() && 0 <= e < self.edges(m).len() implies #[trigger] self.child(m, e)
                    < self.nodes@.len() by {
                if m < old_t.len() && m != i {
                    assert(self.nodes@[m] == old_t.nodes@[m]);
                    assert(old_t.child(m, e) < old_t.len());
                } else if m != i {
                    assert(self.nodes@[m].children is None);
                }
            }
            assert forall|m: int|
                0 <= m < self.nodes@.len() && #[trigger] self.is_expanded(m) implies self.edges(m).len() > 0 by {
                if m < old_t.len() && m != i {
                    assert(self.nodes@[m] == old_t.nodes@[m]);
                    assert(old_t.is_expanded(m));
                } else if m != i {
                    assert(self.nodes@[m].children is None);
                }
            }
            assert forall|h: u64| #[trigger] self.index@.contains_key(h) implies old_t.index@.contains_key(h)
                || hashes@.contains(h) by {
                if !old_t.index@.contains_key(h) {
                    let j = choose|j: int| 0 <= j < n && hashes@[j] == h;
                    assert(hashes@[j] == h);
                }
            }
        }
    }

    /// `new` is `old` after backing up the leaf value `v` along `path`.
    pub open spec fn backpropagated(old: &Self, new: &Self, path: Seq<Step>, v: int) -> bool {
        &&& new.len() == old.len()
        &&& new.index@ == old.index@
        &&& forall|n: int| 0 <= n < old.len() ==> {
            &&& (#[trigger] new.node(n)).prior == old.node(n).prior
            &&& new.node(n).children == old.node(n).children
            &&& new.node(n).visits == old.node(n).visits + occurrences(path, n)
            &&& new.node(n).value_sum == old.node(n).value_sum + contribution(path, n, v)
        }
    }

    /// Every node on `path` can take `path.len()` more visits and values
    /// of size `|v|` without leaving the range of its counters.
    pub open spec fn can_absorb(&self, path: Seq<Step>, v: int) -> bool {
        forall|j: int| 0 <= j < path.len() ==> {
            let c = #[trigger] path[j].child;
            &&& c < self.len()
            &&& self.node(c as int).visits + path.len() <= u32::MAX
            &&& abs(self.node(c as int).value_sum as int) + path.len() * abs(v) <= i64::MAX
        }
    }

    /// True iff backing up `v` along `path` keeps every counter in range.
    pub fn can_backpropagate(&self, path: &Vec<Step>, v: i64) -> (r: bool)
        ensures
            r == self.can_absorb(path@, v as int),
    {
        let len = path.len();
        let av: u128 = if v < 0 { (-(v as i128)) as u128 } else { v as u128 };
        assert((len as u128) * av <= 0x8000_0000_0000_0000_0000_0000_0000_0000u128) by (nonlinear_arith)
            requires
                len <= usize::MAX,
                av <= 0x8000_0000_0000_0000,
        ;
        let spread: u128 = (len as u128) * av;
        let mut j: usize = 0;
        while j < len
            invariant
                len == path@.len(),
                spread == len * abs(v as int),
                spread <= 0x8000_0000_0000_0000_0000_0000_0000_0000u128,
                av == abs(v as int),
                forall|m: int| 0 <= m < j ==> {
                    let c = #[trigger] path@[m].child;
                    &&& c < self.len()
                    &&& self.node(c as int).visits + path@.len() <= u32::MAX
                    &&& abs(self.node(c as int).value_sum as int) + path@.len() * abs(v as int) <= i64::MAX
                },
            decreases len - j,
        {
            let c = path[j].child;
            if c >= self.nodes.len() {
                return false;
            }
            let node = &self.nodes[c];
            if node.visits as u128 + len as u128 > u32::MAX as u128 {
                return false;
            }
            let w = node.value_sum;
            let aw: u128 = if w < 0 { (-(w as i128)) as u128 } else { w as u128 };
            if aw + spread > i64::MAX as u128 {
                return false;
            }
            j = j + 1;
        }
        true
    }

    /// Backs up the leaf value `v` along `path`, from the leaf towards the
    /// root: each node on it gains a visit and the value, which is negated
    /// at each ply.
    pub fn backpropagation(&mut self, path: &Vec<Step>, v: i64)
        requires
            old(self).wf(),
            old(self).can_absorb(path@, v as int),
            v > i64::MIN,
        ensures
            final(self).wf(),
            Self::backpropagated(old(self), final(self), path@, v as int),
    {
        let len = path.len();
        let ghost old_t = *self;
        let mut val: i64 = v;
        let mut i: usize = len;
        assert(path@.subrange(len as int, len as int) =~= Seq::<Step>::empty());
        while i > 0
            invariant
                len == path@.len(),
                i <= len,
                old_t.wf(),
                old_t.can_absorb(path@, v as int),
                v > i64::MIN,
                val == sign((len - i) as nat) * v,
                self.len() == old_t.len(),
                self.index@ == old_t.index@,
                forall|n: int| 0 <= n < old_t.len() ==> {
                    &&& (#[trigger] self.nodes@[n]).prior == old_t.node(n).prior
                    &&& self.nodes@[n].children == old_t.node(n).children
                    &&& self.nodes@[n].visits == old_t.node(n).visits + occurrences(
                        path@.subrange(i as int, len as int),
                        n,
                    )
                    &&& self.nodes@[n].value_sum == old_t.node(n).value_sum + contribution(
                        path@.subrange(i as int, len as int),
                        n,
                        v as int,
                    )
                },
            decreases i,
        {
            let p = i - 1;
            let c = path[p].child;
            let ghost suffix = path@.subrange(p as int, len as int);
            proof {
                assert(suffix.drop_first() =~= path@.subrange(i as int, len as int));
                assert(path@[p as int].child == c);
                lemma_contribution_bound(suffix, c as int, v as int);
                lemma_occurrences_le_len(suffix, c as int);
                vstd::arithmetic::mul::lemma_mul_inequality(
                    occurrences(suffix, c as int) as int,
                    len as int,
                    abs(v as int),
                );
                vstd::arithmetic::mul::lemma_mul_is_commutative(len as int, abs(v as int));
                vstd::arithmetic::mul::lemma_mul_is_commutative(occurrences(suffix, c as int) as int, abs(v as int));
            }
            let ghost before = *self;
            self.nodes[c].visits = self.nodes[c].visits + 1;
            self.nodes[c].value_sum = self.nodes[c].value_sum + val;
            proof {
                assert forall|n: int| 0 <= n < old_t.len() implies {
                    &&& (#[trigger] self.nodes@[n]).prior == old_t.node(n).prior
                    &&& self.nodes@[n].children == old_t.node(n).children
                    &&& self.nodes@[n].visits == old_t.node(n).visits + occurrences(suffix, n)
                    &&& self.nodes@[n].value_sum == old_t.node(n).value_sum + contribution(suffix, n, v as int)
                } by {
                }
            }
            val = -val;
            i = p;
        }
        assert(path@.subrange(0, len as int) =~= path@);
        proof {
            assert forall|m: int, e: int|
                0 <= m < self.nodes@.len() && 0 <= e < self.edges(m).len() implies #[trigger] self.child(m, e)
                    < self.nodes@.len() by {
                assert(self.nodes@[m].children == old_t.node(m).children);
                assert(old_t.child(m, e) < old_t.len());
            }
            assert forall|m: int|
                0 <= m < self.nodes@.len() && #[trigger] self.is_expanded(m) implies self.edges(m).len() > 0 by {
                assert(self.nodes@[m].children == old_t.node(m).children);
                assert(old_t.is_expanded(m));
            }
        }
    }

    /// `path` is a descent from `start`: each step leaves the node the
    /// previous one reached, along one of its edges.
    pub open spec fn is_descent(&self, start: int, path: Seq<Step>) -> bool {
        forall|j: int| 0 <= j < path.len() ==> {
            &&& (#[trigger] path[j]).parent == (if j == 0 { start } else { path[j - 1].child as int })
            &&& path[j].edge < self.edges(path[j].parent as int).len()
            &&& path[j].child == self.child(path[j].parent as int, path[j].edge as int)
        }
    }

    /// The node a descent from `start` ends at.
    pub open spec fn end_of(start: int, path: Seq<Step>) -> int {
        if path.len() == 0 {
            start
        } else {
            path.last().child as int
        }
    }

    /// Selection goes on below node `i`: it has been visited and has a
    /// child that has not.
    pub open spec fn descends_from(&self, i: int) -> bool {
        self.node(i).visits > 0 && self.spec_has_unvisited_children(i)
    }

    /// `path` is the descent that selection makes from `start`: it takes
    /// the best child while the node it stands on descends, and stops at
    /// the first node that does not.
    pub open spec fn selected(&self, start: int, path: Seq<Step>) -> bool {
        &&& self.is_descent(start, path)
        &&& forall|j: int| 0 <= j < path.len() ==> self.descends_from((#[trigger] path[j]).parent as int)
            && self.is_best_child(path[j].parent as int, path[j].edge as int)
        &&& !self.descends_from(Self::end_of(start, path))
    }

    /// Selection from `start`: follows the best child by UCB1 while the
    /// current node has been visited and has an unvisited child.
    pub fn selection(&self, start: usize) -> (path: Vec<Step>)
        requires
            self.wf(),
            start < self.len(),
        ensures
            self.selected(start as int, path@),
            forall|j: int| 0 <= j < path@.len() ==> (#[trigger] path@[j]).child < self.len(),
    {
        let mut path: Vec<Step> = Vec::new();
        let mut cur: usize = start;
        while self.nodes[cur].visits > 0 && self.has_unvisited_children(cur)
            invariant
                self.wf(),
                start < self.len(),
                cur < self.len(),
                cur == Self::end_of(start as int, path@),
                self.is_descent(start as int, path@),
                forall|j: int| 0 <= j < path@.len() ==> self.descends_from((#[trigger] path@[j]).parent as int)
                    && self.is_best_child(path@[j].parent as int, path@[j].edge as int),
                forall|j: int| 0 <= j < path@.len() ==> (#[trigger] path@[j]).child < self.len(),
            decreases (if self.node(cur as int).visits > 0 { 1int } else { 0int }),
        {
            let e = self.select_best_child(cur);
            let child = self.nodes[cur].children.as_ref().unwrap()[e].child;
            proof {
                assert(self.child(cur as int, e as int) < self.len());
                let w = choose|k: int|
                    0 <= k < self.edges(cur as int).len() && #[trigger] self.node(self.child(cur as int, k)).visits
                        == 0;
                assert(self.score(cur as int, w) is None);
                if self.node(child as int).visits != 0 {
                    assert(self.score(cur as int, e as int) is Some);
                    if w < e {
                        assert(beats(self.score(cur as int, e as int), self.score(cur as int, w)));
                    } else {
                        assert(!beats(self.score(cur as int, w), self.score(cur as int, e as int)));
                    }
                }
            }
            let ghost old_path = path@;
            path.push(Step { parent: cur, edge: e, child });
            proof {
                assert forall|j: int| 0 <= j < path@.len() implies {
                    &&& (#[trigger] path@[j]).parent == (if j == 0 { start as int } else { path@[j - 1].child as int })
                    &&& path@[j].edge < self.edges(path@[j].parent as int).len()
                    &&& path@[j].child == self.child(path@[j].parent as int, path@[j].edge as int)
                } by {
                    if j < old_path.len() {
                        assert(path@[j] == old_path[j]);
                    }
                }
            }
            cur = child;
        }
        path
    }

    /// True iff node `i` is expanded and one of its children has no visit.
    pub fn has_unvisited_children(&self, i: usize) -> (r: bool)
        requires
            self.wf(),
            i < self.len(),
        ensures
            r == self.spec_has_unvisited_children(i as int),
    {
        match &self.nodes[i].children {
            None => false,
            Some(children) => {
                let mut e: usize = 0;
                while e < children.len()
                    invariant
                        self.wf(),
                        i < self.len(),
                        self.nodes@[i as int].children == Some(*children),
                        e <= children@.len(),
                        forall|k: int| 0 <= k < e ==> #[trigger] self.node(self.child(i as int, k)).visits != 0,
                    decreases children@.len() - e,
                {
                    assert(self.child(i as int, e as int) < self.len());
                    if self.nodes[children[e].child].visits == 0 {
                        assert(self.node(self.child(i as int, e as int)).visits == 0);
                        return true;
                    }
                    e = e + 1;
                }
                false
            },
        }
    }

    fn edge_score(&self, i: usize, e: usize) -> (s: Option<i128>)
        requires
            self.wf(),
            i < self.len(),
            e < self.edges(i as int).len(),
        ensures
            match s {
                None => self.score(i as int, e as int) is None,
                Some(x) => self.score(i as int, e as int) == Some(x as int),
            },
    {
        let children = self.nodes[i].children.as_ref().unwrap();
        assert(self.child(i as int, e as int) < self.len());
        let c = &self.nodes[children[e].child];
        if c.visits == 0 {
            None
        } else {
            let parent = self.nodes[i].visits;
            Some(ucb1(c.visits, c.value_sum, if parent == 0 { 1 } else { parent }))
        }
    }

    /// The index of the first edge of `i` with the highest UCB1 score.
    pub fn select_best_child(&self, i: usize) -> (e: usize)
        requires
            self.wf(),
            i < self.len(),
            self.is_expanded(i as int),
        ensures
            self.is_best_child(i as int, e as int),
    {
        let n = self.nodes[i].children.as_ref().unwrap().len();
        let mut best: usize = 0;
        let mut best_score = self.edge_score(i, 0);
        let mut k: usize = 1;
        while k < n
            invariant
                self.wf(),
                i < self.len(),
                self.is_expanded(i as int),
                n == self.edges(i as int).len(),
                best < k <= n,
                match best_score {
                    None => self.score(i as int, best as int) is None,
                    Some(x) => self.score(i as int, best as int) == Some(x as int),
                },
                forall|m: int| 0 <= m < best ==> beats(self.score(i as int, best as int), #[trigger] self.score(i as int, m)),
                forall|m: int| best < m < k ==> !beats(#[trigger] self.score(i as int, m), self.score(i as int, best as int)),
            decreases n - k,
        {
            let s = self.edge_score(i, k);
            let better = match (s, best_score) {
                (None, Some(_)) => true,
                (Some(x), Some(y)) => x > y,
                _ => false,
            };
            if better {
                best = k;
                best_score = s;
            }
            k = k + 1;
        }
        best
    }

    /// The index of the first edge of `i` whose child has the most visits.
    pub fn best_move(&self, i: usize) -> (e: usize)
        requires
            self.wf(),
            i < self.len(),
            self.is_expanded(i as int),
        ensures
            self.is_most_visited(i as int, e as int),
    {
        let children = self.nodes[i].children.as_ref().unwrap();
        assert(self.child(i as int, 0) < self.len());
        let mut best: usize = 0;
        let mut most = self.nodes[children[0].child].visits;
        let mut k: usize = 1;
        while k < children.len()
            invariant
                self.wf(),
                i < self.len(),
                self.nodes@[i as int].children == Some(*children),
                best < k <= children@.len(),
                most == self.node(self.child(i as int, best as int)).visits,
                forall|m: int| 0 <= m < best ==> #[trigger] self.node(self.child(i as int, m)).visits < most,
                forall|m: int| best < m < k ==> #[trigger] self.node(self.child(i as int, m)).visits <= most,
            decreases children@.len() - k,
        {
            assert(self.child(i as int, k as int) < self.len());
            let v = self.nodes[children[k].child].visits;
            if v > most {
                best = k;
                most = v;
            }
            k = k + 1;
        }
        best
    }
}

/// The sum of the numerators of the priors of the first `n` moves.
pub open spec fn prior_num_sum(s: Seq<i32>, n: nat) -> int
    decreases n,
{
    if n == 0 {
        0
    } else {
        prior_num_sum(s, (n - 1) as nat) + prior_at(s, n - 1).num
    }
}

proof fn lemma_shifted_sum_bounds(s: Seq<i32>, n: nat)
    requires
        s.len() > 0,
        n <= s.len(),
        forall|k: int| 0 <= k < s.len() ==> 1 <= #[trigger] shifted(s, k) <= 0x2_0000_0000,
    ensures
        n <= shifted_sum(s, n) <= n * 0x2_0000_0000,
        prior_num_sum(s, n) == shifted_sum(s, n),
    decreases n,
{
    if n > 0 {
        lemma_shifted_sum_bounds(s, (n - 1) as nat);
        assert(1 <= shifted(s, n - 1) <= 0x2_0000_0000);
    }
}

/// The priors given at an expansion are all positive and sum to one: over
/// a common denominator, their numerators add up to it. This holds also
/// where every move has the same score.
pub proof fn lemma_priors_normalised(s: Seq<i32>)
    requires
        0 < s.len() <= usize::MAX,
    ensures
        prior_at(s, 0).den > 0,
        forall|k: int| 0 <= k < s.len() ==> (#[trigger] prior_at(s, k)).num > 0
            && prior_at(s, k).den == prior_at(s, 0).den,
        prior_num_sum(s, s.len()) == prior_at(s, 0).den,
{
    lemma_min_score_below(s);
    assert forall|k: int| 0 <= k < s.len() implies 1 <= #[trigger] shifted(s, k) <= 0x2_0000_0000 by {
        assert(min_score(s) <= s[k]);
        let w = choose|w: int| 0 <= w < s.len() && min_score(s) == #[trigger] s[w];
        assert(min_score(s) == s[w]);
    }
    lemma_shifted_sum_bounds(s, s.len());
}

/// Two expansions whose moves lead to positions of equal hash, by
/// whatever route, give both edges the same node: its statistics are one
/// record, whichever edge a later backpropagation goes through.
pub proof fn lemma_transpositions_share_node<M>(
    t0: TranspositionTable<M>,
    t1: TranspositionTable<M>,
    t2: TranspositionTable<M>,
    i1: int,
    moves1: Seq<M>,
    scores1: Seq<i32>,
    hashes1: Seq<u64>,
    i2: int,
    moves2: Seq<M>,
    scores2: Seq<i32>,
    hashes2: Seq<u64>,
    a: int,
    b: int,
)
    requires
        0 <= i1 < t0.len(),
        TranspositionTable::expanded(&t0, &t1, i1, moves1, scores1, hashes1),
        0 <= i2 < t1.len(),
        !t1.is_expanded(i2),
        TranspositionTable::expanded(&t1, &t2, i2, moves2, scores2, hashes2),
        0 <= a < moves1.len(),
        0 <= b < moves2.len(),
        hashes1[a] == hashes2[b],
    ensures
        t2.child(i1, a) == t2.child(i2, b),
{
    assert(t2.nodes@[i1] == t1.nodes@[i1]);
    assert(t1.index@.contains_key(hashes1[a]));
    assert(t2.index@[hashes2[b]] == t2.child(i2, b));
}

proof fn lemma_distinct_path(path: Seq<Step>, v: int, p: int)
    requires
        0 <= p < path.len(),
        forall|x: int, y: int| 0 <= x < y < path.len() ==> path[x].child != path[y].child,
    ensures
        occurrences(path, path[p].child as int) == 1,
        contribution(path, path[p].child as int, v) == sign((path.len() - 1 - p) as nat) * v,
    decreases path.len(),
{
    let n = path[p].child as int;
    let rest = path.drop_first();
    if p == 0 {
        lemma_absent(rest, n, v);
    } else {
        lemma_distinct_path(rest, v, p - 1);
        assert(rest[p - 1] == path[p]);
    }
}

pub(crate) proof fn lemma_absent(path: Seq<Step>, n: int, v: int)
    requires
        forall|x: int| 0 <= x < path.len() ==> path[x].child != n,
    ensures
        occurrences(path, n) == 0,
        contribution(path, n, v) == 0,
    decreases path.len(),
{
    if path.len() > 0 {
        lemma_absent(path.drop_first(), n, v);
    }
}

/// After one backpropagation of the leaf value `v` over a path whose nodes
/// are distinct, the node at step `p` has exactly one more visit, and its
/// value sum has grown by `v` negated once per ply between it and the leaf.
pub proof fn lemma_backpropagation_per_node<M>(
    old: TranspositionTable<M>,
    new: TranspositionTable<M>,
    path: Seq<Step>,
    v: int,
    p: int,
)
    requires
        TranspositionTable::backpropagated(&old, &new, path, v),
        forall|x: int, y: int| 0 <= x < y < path.len() ==> path[x].child != path[y].child,
        0 <= p < path.len(),
        path[p].child < old.len(),
    ensures
        new.node(path[p].child as int).visits == old.node(path[p].child as int).visits + 1,
        new.node(path[p].child as int).value_sum == old.node(path[p].child as int).value_sum + sign(
            (path.len() - 1 - p) as nat,
        ) * v,
{
    lemma_distinct_path(path, v, p);
    assert(new.node(path[p].child as int).visits == old.node(path[p].child as int).visits + occurrences(path, path[p].child as int));
}

proof fn lemma_occurrences_le_len(path: Seq<Step>, n: int)
    ensures
        occurrences(path, n) <= path.len(),
    decreases path.len(),
{
    if path.len() > 0 {
        lemma_occurrences_le_len(path.drop_first(), n);
    }
}

proof fn lemma_contribution_bound(path: Seq<Step>, n: int, v: int)
    ensures
        abs(contribution(path, n, v)) <= occurrences(path, n) * abs(v),
    decreases path.len(),
{
    if path.len() > 0 {
        lemma_contribution_bound(path.drop_first(), n, v);
        let o = occurrences(path.drop_first(), n);
        assert((o + 1) * abs(v) == o * abs(v) + abs(v)) by (nonlinear_arith);
    }
}

proof fn lemma_min_score_below(s: Seq<i32>)
    requires
        s.len() > 0,
    ensures
        forall|k: int| 0 <= k < s.len() ==> min_score(s) <= #[trigger] s[k],
        exists|k: int| 0 <= k < s.len() && min_score(s) == #[trigger] s[k],
    decreases s.len(),
{
    if s.len() > 1 {
        lemma_min_score_below(s.drop_last());
        let m = min_score(s.drop_last());
        assert forall|k: int| 0 <= k < s.len() implies min_score(s) <= #[trigger] s[k] by {
            if k < s.len() - 1 {
                assert(s.drop_last()[k] == s[k]);
            }
        }
        if (s.last() as int) >= m {
            let w = choose|k: int| 0 <= k < s.drop_last().len() && m == #[trigger] s.drop_last()[k];
            assert(s[w] == s.drop_last()[w]);
        } else {
            assert(min_score(s) == s[s.len() - 1]);
        }
    } else {
        assert(min_score(s) == s[0]);
    }
}

} // verus!
