//! The search: repeated selection, expansion and backpropagation from a
//! root position, under a wall-clock budget.

use vstd::prelude::*;
use std::collections::HashMap;
use shakmaty::{Chess, Move};
use crate::chess;
use crate::chess::{checkmate_of, legal_moves_of, played, white_to_move_of};
use crate::evaluate::{boards_of, evaluate, evaluate_move, material_spec};
use crate::time::Timer;
use crate::tree::{lemma_absent, Node, Prior, Step, TranspositionTable, ROOT};

verus! {

/// Why a search gave no move.
#[derive(Clone, Copy, PartialEq, Eq, Debug, Structural)]
pub enum SearchError {
    /// The root was never expanded: the root position has no legal move.
    NoResult,
}

/// The value of a leaf for the side to move there: a checkmate counts one
/// whole unit, another position without moves none, else its evaluation.
pub open spec fn leaf_value_spec(no_moves: bool, checkmate: bool, eval: int) -> int {
    if no_moves {
        if checkmate {
            100
        } else {
            0
        }
    } else {
        eval
    }
}

/// The value to back up from a leaf, in hundredths.
pub fn leaf_value(no_moves: bool, checkmate: bool, eval: i64) -> (r: i64)
    ensures
        r == leaf_value_spec(no_moves, checkmate, eval as int),
{
    if no_moves {
        if checkmate {
            100
        } else {
            0
        }
    } else {
        eval
    }
}

/// The scores that the move heuristic gives `n` moves: all zero.
pub open spec fn zero_scores(n: nat) -> Seq<i32> {
    Seq::new(n, |k: int| 0i32)
}

/// The position reached from `start` by playing the moves of the edges
/// that `path` takes in `t`.
pub open spec fn board_after(t: TranspositionTable<Move>, start: Chess, path: Seq<Step>) -> Chess
    decreases path.len(),
{
    if path.len() == 0 {
        start
    } else {
        let last = path.last();
        played(board_after(t, start, path.drop_last()), t.edges(last.parent as int)[last.edge as int].mv)
    }
}

/// The parts of one cycle of the search from root position `board`:
/// `sel` is the descent that selection makes from the root of `old`, and
/// `moves` the legal moves where it ends. `mid` is `old` with that node
/// expanded with `moves` if it has some and no children yet, else `old`.
/// `path` is `sel` and, where there are moves, one more step to the best
/// child of that node in `mid`. `new` is `mid` with the value `v` of the
/// position where `path` ends backed up along it.
pub open spec fn cycle_parts(
    old: TranspositionTable<Move>,
    new: TranspositionTable<Move>,
    board: Chess,
    sel: Seq<Step>,
    mid: TranspositionTable<Move>,
    path: Seq<Step>,
    v: int,
) -> bool {
    let leaf = TranspositionTable::<Move>::end_of(ROOT as int, sel);
    let moves = legal_moves_of(board_after(old, board, sel));
    &&& old.selected(ROOT as int, sel)
    &&& (moves.len() == 0 || old.is_expanded(leaf)) ==> mid == old
    &&& (moves.len() > 0 && !old.is_expanded(leaf)) ==> exists|hashes: Seq<u64>|
        TranspositionTable::expanded(&old, &mid, leaf, moves, zero_scores(moves.len()), hashes)
    &&& moves.len() == 0 ==> path == sel
    &&& moves.len() > 0 ==> exists|e: int|
        mid.is_best_child(leaf, e) && path == sel.push(
            Step { parent: leaf as usize, edge: e as usize, child: mid.child(leaf, e) as usize },
        )
    &&& v == leaf_value_of(
        if moves.len() == 0 {
            board_after(old, board, sel)
        } else {
            played(board_after(old, board, sel), mid.edges(leaf)[path.last().edge as int].mv)
        },
    )
    &&& TranspositionTable::backpropagated(&mid, &new, path, v)
}

/// The value backed up from the leaf position `pos`.
pub open spec fn leaf_value_of(pos: Chess) -> int {
    leaf_value_spec(
        legal_moves_of(pos).len() == 0,
        checkmate_of(pos),
        material_spec(boards_of(pos), white_to_move_of(pos)),
    )
}

/// `new` is `old` after one whole cycle of the search from `board`.
pub open spec fn one_cycle(old: TranspositionTable<Move>, new: TranspositionTable<Move>, board: Chess) -> bool {
    exists|sel: Seq<Step>, mid: TranspositionTable<Move>, path: Seq<Step>, v: int|
        #[trigger] cycle_parts(old, new, board, sel, mid, path, v)
}

/// `new` keeps every entry of `old`'s table, and the root's statistics.
pub open spec fn keeps_entries_and_root(old: TranspositionTable<Move>, new: TranspositionTable<Move>) -> bool {
    &&& new.len() >= old.len()
    &&& forall|h: u64| #[trigger] old.index@.contains_key(h) ==> new.index@.contains_key(h)
        && new.index@[h] == old.index@[h]
    &&& new.node(ROOT as int).visits == old.node(ROOT as int).visits
    &&& new.node(ROOT as int).value_sum == old.node(ROOT as int).value_sum
    &&& old.is_expanded(ROOT as int) ==> new.node(ROOT as int).children == old.node(ROOT as int).children
}

/// A search session: the root position and the table of its statistics,
/// whose node `ROOT` stands for the root position.
pub struct Game {
    pub board: Chess,
    pub trans_table: TranspositionTable<Move>,
}

impl Game {
    /// The table is well formed; no edge and no table entry leads back to
    /// the root; once expanded, the root has one edge per legal move of
    /// `board`, in order.
    pub open spec fn wf(&self) -> bool {
        let t = self.trans_table;
        let moves = legal_moves_of(self.board);
        &&& t.wf()
        &&& forall|h: u64| #[trigger] t.index@.contains_key(h) ==> t.index@[h] != ROOT
        &&& forall|n: int, e: int|
            0 <= n < t.len() && 0 <= e < t.edges(n).len() ==> #[trigger] t.child(n, e) != ROOT
        &&& t.is_expanded(ROOT as int) ==> {
            &&& t.edges(ROOT as int).len() == moves.len()
            &&& forall|e: int| 0 <= e < moves.len() ==> #[trigger] t.edges(ROOT as int)[e].mv == moves[e]
        }
    }

    /// A session over `board`, with a root visited once and nothing else.
    pub fn new(board: Chess) -> (g: Game)
        ensures
            g.wf(),
            g.board == board,
            g.trans_table.len() == 1,
            !g.trans_table.is_expanded(ROOT as int),
            g.trans_table.node(ROOT as int).visits == 1,
            g.trans_table.node(ROOT as int).value_sum == 0,
            g.trans_table.index@.is_empty(),
    {
        let root = Node::new(Prior { num: 1, den: 1 }, 0, 1, None);
        let mut nodes: Vec<Node<Move>> = Vec::new();
        nodes.push(root);
        let t = TranspositionTable { nodes, index: HashMap::new() };
        assert(t.index@ =~= Map::empty());
        Game { board, trans_table: t }
    }

    /// A session over the standard starting position.
    pub fn default() -> (g: Game)
        ensures
            g.wf(),
            g.trans_table.len() == 1,
            !g.trans_table.is_expanded(ROOT as int),
            g.trans_table.node(ROOT as int).visits == 1,
            g.trans_table.node(ROOT as int).value_sum == 0,
            g.trans_table.index@.is_empty(),
    {
        Game::new(chess::start_position())
    }

    /// The expansion step at node `leaf`, standing for `board`: where
    /// `board` has legal moves, `leaf` is expanded with them if it has no
    /// children yet (children already there stay as they are), and the
    /// step to its best child is returned; where it has none, nothing
    /// changes and `None` is returned.
    pub fn expansion_step(&mut self, board: &Chess, leaf: usize) -> (r: Option<Step>)
        requires
            old(self).wf(),
            leaf < old(self).trans_table.len(),
            leaf == ROOT ==> *board == old(self).board,
            old(self).trans_table.is_expanded(leaf as int) || old(self).trans_table.len()
                + legal_moves_of(*board).len() <= usize::MAX,
        ensures
            final(self).wf(),
            final(self).board == old(self).board,
            legal_moves_of(*board).len() == 0 ==> final(self).trans_table == old(self).trans_table,
            old(self).trans_table.is_expanded(leaf as int) ==> final(self).trans_table == old(self).trans_table,
            legal_moves_of(*board).len() > 0 && !old(self).trans_table.is_expanded(leaf as int) ==> exists|
                hashes: Seq<u64>,
            |
                TranspositionTable::expanded(
                    &old(self).trans_table,
                    &final(self).trans_table,
                    leaf as int,
                    legal_moves_of(*board),
                    zero_scores(legal_moves_of(*board).len()),
                    hashes,
                ),
            legal_moves_of(*board).len() == 0 <==> r is None,
            forall|st: Step| r == Some(st) ==> {
                &&& st.parent == leaf
                &&& final(self).trans_table.is_best_child(leaf as int, st.edge as int)
                &&& st.child == final(self).trans_table.child(leaf as int, st.edge as int)
            },
    {
        let moves = chess::legal_moves(board);
        if moves.len() == 0 {
            return None;
        }
        if self.trans_table.nodes[leaf].children.is_none() {
            let ghost t0 = self.trans_table;
            let n = moves.len();
            let mut scores: Vec<i32> = Vec::new();
            let mut hashes: Vec<u64> = Vec::new();
            let mut k: usize = 0;
            while k < n
                invariant
                    n == moves@.len(),
                    moves@ == legal_moves_of(*board),
                    k <= n,
                    scores@.len() == k,
                    hashes@.len() == k,
                    forall|j: int| 0 <= j < k ==> #[trigger] scores@[j] == 0i32,
                decreases n - k,
            {
                scores.push(evaluate_move(board, &moves[k]));
                let mut next = chess::copy_position(board);
                proof {
                    assert(legal_moves_of(*board).contains(moves@[k as int]));
                }
                chess::play(&mut next, &moves[k]);
                hashes.push(chess::zobrist(&next));
                k = k + 1;
            }
            let ghost h = hashes@;
            assert(scores@ =~= zero_scores(n as nat));
            let ghost mv = moves@;
            self.trans_table.expand(leaf, moves, scores, hashes);
            proof {
                let t1 = self.trans_table;
                assert(TranspositionTable::expanded(&t0, &t1, leaf as int, mv, zero_scores(n as nat), h));
                assert forall|hh: u64| #[trigger] t1.index@.contains_key(hh) implies t1.index@[hh] != ROOT by {
                    if !t0.index@.contains_key(hh) {
                        let k = choose|k: int| 0 <= k < h.len() && h[k] == hh;
                        assert(h[k] == hh);
                        assert(t1.child(leaf as int, k) >= t0.len());
                    }
                }
                assert forall|m: int, e: int|
                    0 <= m < t1.len() && 0 <= e < t1.edges(m).len() implies #[trigger] t1.child(m, e) != ROOT by {
                    if m == leaf {
                        if t0.index@.contains_key(h[e]) {
                            assert(t1.index@[h[e]] == t0.index@[h[e]]);
                        } else {
                            assert(t1.child(leaf as int, e) >= t0.len());
                        }
                    } else if m < t0.len() {
                        assert(t1.nodes@[m] == t0.nodes@[m]);
                        assert(t0.child(m, e) != ROOT);
                    } else {
                        assert(!t1.is_expanded(m));
                    }
                }
                if leaf != ROOT {
                    assert(t1.nodes@[ROOT as int] == t0.nodes@[ROOT as int]);
                }
            }
        }
        let e = self.trans_table.select_best_child(leaf);
        let child = self.trans_table.nodes[leaf].children.as_ref().unwrap()[e].child;
        Some(Step { parent: leaf, edge: e, child })
    }

    /// One cycle of the search from a scratch copy of the root position:
    /// selection, the expansion step where it stopped, and backpropagation
    /// of the leaf's value. Returns false when the cycle cannot complete:
    /// the arena is full, a counter would leave its range, or a move of the
    /// descent is not legal where it is played (which only a collision of
    /// position hashes can cause); no value is then backed up.
    #[verifier::rlimit(50)]
    pub fn iteration(&mut self) -> (more: bool)
        requires
            old(self).wf(),
        ensures
            final(self).wf(),
            final(self).board == old(self).board,
            keeps_entries_and_root(old(self).trans_table, final(self).trans_table),
            more ==> one_cycle(old(self).trans_table, final(self).trans_table, old(self).board),
            !more ==> forall|n: int| 0 <= n < old(self).trans_table.len() ==> {
                &&& (#[trigger] final(self).trans_table.node(n)).visits == old(self).trans_table.node(n).visits
                &&& final(self).trans_table.node(n).value_sum == old(self).trans_table.node(n).value_sum
            },
            ({
                let moves = legal_moves_of(old(self).board);
                let t = old(self).trans_table;
                moves.len() > 0 && (t.is_expanded(ROOT as int) || t.len() + moves.len() <= usize::MAX)
                    ==> final(self).trans_table.is_expanded(ROOT as int)
            }),
    {
        let ghost old_t = self.trans_table;
        let mut board = chess::copy_position(&self.board);
        let mut path = self.trans_table.selection(ROOT);
        let ghost sel = path@;
        proof {
            if sel.len() > 0 {
                assert(sel[0].parent == ROOT);
                assert(old_t.descends_from(ROOT as int));
                if !old_t.is_expanded(ROOT as int) {
                    assert(old_t.edges(ROOT as int).len() == 0);
                }
            }
        }
        let mut j: usize = 0;
        while j < path.len()
            invariant
                self.wf(),
                self.trans_table == old_t,
                self.board == old(self).board,
                sel.len() > 0 ==> old_t.is_expanded(ROOT as int),
                path@ == sel,
                j <= sel.len(),
                old_t.is_descent(ROOT as int, sel),
                forall|m: int| 0 <= m < sel.len() ==> (#[trigger] sel[m]).child < old_t.len(),
                board == board_after(old_t, self.board, sel.subrange(0, j as int)),
            decreases path.len() - j,
        {
            let st = path[j];
            proof {
                assert(sel[j as int] == st);
                if j > 0 {
                    assert(sel[j - 1].child < old_t.len());
                }
            }
            let edges = self.trans_table.nodes[st.parent].children.as_ref().unwrap();
            let legal = chess::legal_moves(&board);
            if !chess::contains_move(&legal, &edges[st.edge].mv) {
                return false;
            }
            chess::play(&mut board, &edges[st.edge].mv);
            proof {
                assert(sel.subrange(0, j + 1).drop_last() =~= sel.subrange(0, j as int));
            }
            j = j + 1;
        }
        assert(sel.subrange(0, sel.len() as int) =~= sel);
        let leaf: usize = if path.len() == 0 {
            ROOT
        } else {
            path[path.len() - 1].child
        };
        assert(leaf == TranspositionTable::<Move>::end_of(ROOT as int, sel));
        let ghost pos = board;
        if self.trans_table.nodes[leaf].children.is_none() {
            let count = chess::legal_moves(&board).len();
            if self.trans_table.nodes.len() > usize::MAX - count {
                return false;
            }
        }
        let step = self.expansion_step(&board, leaf);
        let ghost mid = self.trans_table;
        match step {
            Some(st) => {
                assert(step == Some(st));
                assert(self.trans_table.is_best_child(leaf as int, st.edge as int));
                let edges = self.trans_table.nodes[leaf].children.as_ref().unwrap();
                assert(st.edge < edges@.len());
                let legal = chess::legal_moves(&board);
                if !chess::contains_move(&legal, &edges[st.edge].mv) {
                    return false;
                }
                chess::play(&mut board, &edges[st.edge].mv);
                path.push(st);
                assert(path@.last() == st);
            },
            None => {},
        }
        let after = chess::legal_moves(&board);
        let no_moves = after.len() == 0;
        let mate = if no_moves { chess::is_checkmate(&board) } else { false };
        let eval = if no_moves { 0 } else { evaluate(&board) };
        let value = leaf_value(no_moves, mate, eval);
        if !self.trans_table.can_backpropagate(&path, value) {
            return false;
        }
        proof {
            assert forall|m: int| 0 <= m < path@.len() implies (#[trigger] path@[m]).child != ROOT by {
                if m < sel.len() {
                    assert(sel[m] == path@[m]);
                    assert(old_t.child(sel[m].parent as int, sel[m].edge as int) != ROOT);
                    if m > 0 {
                        assert(sel[m - 1].child < old_t.len());
                    }
                } else {
                    assert(mid.child(leaf as int, path@[m].edge as int) != ROOT);
                }
            }
            lemma_absent(path@, ROOT as int, value as int);
        }
        self.trans_table.backpropagation(&path, value);
        proof {
            let t = self.trans_table;
            assert(t.node(ROOT as int).children == mid.node(ROOT as int).children);
            assert(cycle_parts(old_t, t, self.board, sel, mid, path@, value as int));
            assert forall|m: int, e: int|
                0 <= m < t.len() && 0 <= e < t.edges(m).len() implies #[trigger] t.child(m, e) != ROOT by {
                assert(t.node(m).children == mid.node(m).children);
                assert(mid.child(m, e) != ROOT);
            }
        }
        true
    }

    /// Searches from the root position: runs one cycle, and further cycles
    /// while more than 5 hundredths of the timer's budget remain, read on
    /// the clock before each; then returns the move of the root's most
    /// visited child (the first of them on a tie), a legal move of the root
    /// position, or `NoResult` where the root was never expanded.
    pub fn mcts(&mut self, timer: &Timer) -> (r: Result<Move, SearchError>)
        requires
            old(self).wf(),
        ensures
            final(self).wf(),
            final(self).board == old(self).board,
            keeps_entries_and_root(old(self).trans_table, final(self).trans_table),
            r is Err <==> !final(self).trans_table.is_expanded(ROOT as int),
            r is Err ==> r == Err::<Move, SearchError>(SearchError::NoResult),
            legal_moves_of(old(self).board).len() == 0 ==> r is Err,
            ({
                let moves = legal_moves_of(old(self).board);
                let t = old(self).trans_table;
                moves.len() > 0 && (t.is_expanded(ROOT as int) || t.len() + moves.len() <= usize::MAX)
                    ==> r is Ok
            }),
            forall|m: Move| r == Ok::<Move, SearchError>(m) ==> {
                &&& legal_moves_of(old(self).board).contains(m)
                &&& exists|e: int|
                    final(self).trans_table.is_most_visited(ROOT as int, e)
                        && m == final(self).trans_table.edges(ROOT as int)[e].mv
            },
    {
        let ghost t0 = self.trans_table;
        let ghost moves0 = legal_moves_of(self.board);
        let ghost owed = moves0.len() > 0 && (t0.is_expanded(ROOT as int) || t0.len() + moves0.len()
            <= usize::MAX);
        // the first cycle always runs; the budget is polled between cycles
        // only; the cycle count is capped at u64::MAX, which no budget reaches
        let mut more = self.iteration();
        let mut iterations: u64 = 1;
        while more && iterations < u64::MAX
            invariant
                self.wf(),
                self.board == old(self).board,
                keeps_entries_and_root(t0, self.trans_table),
                owed ==> self.trans_table.is_expanded(ROOT as int),
                t0 == old(self).trans_table,
                moves0 == legal_moves_of(old(self).board),
                owed == (moves0.len() > 0 && (t0.is_expanded(ROOT as int) || t0.len() + moves0.len()
                    <= usize::MAX)),
            decreases u64::MAX - iterations,
        {
            let elapsed = timer.elapsed();
            if !timer.is_time_remaining_after(elapsed, 5) {
                break;
            }
            let ghost before = self.trans_table;
            more = self.iteration();
            proof {
                if before.is_expanded(ROOT as int) {
                    assert(self.trans_table.node(ROOT as int).children == before.node(ROOT as int).children);
                }
            }
            iterations = iterations + 1;
        }
        if self.trans_table.nodes[ROOT].children.is_none() {
            return Err(SearchError::NoResult);
        }
        let e = self.trans_table.best_move(ROOT);
        let edges = self.trans_table.nodes[ROOT].children.as_ref().unwrap();
        let m = chess::copy_move(&edges[e].mv);
        assert(legal_moves_of(self.board)[e as int] == m);
        Ok(m)
    }
}

} // verus!
