use bluefin::chess;
use bluefin::evaluate::{count_ones, evaluate, evaluate_move, material, PieceBoards};
use bluefin::mcts::{leaf_value, Game, SearchError};
use bluefin::time::Timer;
use shakmaty::fen::Fen;
use shakmaty::{CastlingMode, Chess, Position};

fn position(fen: &str) -> Chess {
    let f: Fen = fen.parse().unwrap();
    f.into_position(CastlingMode::Standard).unwrap()
}

#[test]
fn start_position_search_returns_legal_move() {
    let mut game = Game::default();
    let timer = Timer::new(500_000_000);
    let m = game.mcts(&timer).unwrap();
    let legal = Chess::default().legal_moves();
    assert!(legal.contains(&m));
    let children = game.trans_table.nodes[0].children.as_ref().unwrap();
    assert_eq!(children.len(), 20);
    let visits: u64 = children.iter().map(|e| game.trans_table.nodes[e.child].visits as u64).sum();
    assert!(visits >= 50);
}

#[test]
fn single_legal_move_with_expired_timer() {
    let pos = position("k5r1/8/8/8/8/8/8/7K w - - 0 1");
    let legal = pos.legal_moves();
    assert_eq!(legal.len(), 1);
    let mut game = Game::new(pos);
    let m = game.mcts(&Timer::new(0)).unwrap();
    assert_eq!(m, legal[0]);
}

#[test]
fn single_legal_move_with_budget() {
    let pos = position("k5r1/8/8/8/8/8/8/7K w - - 0 1");
    let legal = pos.legal_moves();
    let mut game = Game::new(pos);
    let m = game.mcts(&Timer::new(50_000_000)).unwrap();
    assert_eq!(m, legal[0]);
}

#[test]
fn no_legal_move_gives_no_result() {
    // Black is checkmated
    let pos = position("7k/6Q1/6K1/8/8/8/8/8 b - - 0 1");
    let mut game = Game::new(pos);
    assert_eq!(game.mcts(&Timer::new(0)), Err(SearchError::NoResult));
    assert_eq!(game.trans_table.nodes.len(), 1);
}

#[test]
fn iteration_expands_root_once() {
    let mut game = Game::default();
    assert!(game.iteration());
    assert_eq!(game.trans_table.nodes.len(), 21);
    assert!(game.iteration());
    assert_eq!(game.trans_table.nodes[0].children.as_ref().unwrap().len(), 20);
}

#[test]
fn leaf_values() {
    assert_eq!(leaf_value(true, true, 77), 100);
    assert_eq!(leaf_value(true, false, 77), 0);
    assert_eq!(leaf_value(false, false, 77), 77);
    assert_eq!(leaf_value(false, true, -12), -12);
}

#[test]
fn count_ones_values() {
    assert_eq!(count_ones(0), 0);
    assert_eq!(count_ones(1), 1);
    assert_eq!(count_ones(0xff00), 8);
    assert_eq!(count_ones(u64::MAX), 64);
}

#[test]
fn material_balance_by_side_to_move() {
    let b = PieceBoards {
        pawns: 0b111,
        knights: 0b1000,
        bishops: 0,
        rooks: 1 << 10,
        queens: 1 << 20,
        white: 0b1111,
        black: (1 << 10) | (1 << 20),
        occupied: 0b1111 | (1 << 10) | (1 << 20),
    };
    // white: 3 pawns + knight = 6; black: rook + queen = 14
    assert_eq!(material(&b, true), -800);
    assert_eq!(material(&b, false), 800);
}

#[test]
fn evaluation_of_positions() {
    assert_eq!(evaluate(&Chess::default()), 0);
    // White is a queen up, Black to move
    let pos = position("4k3/8/8/8/8/8/8/3QK3 b - - 0 1");
    assert_eq!(evaluate(&pos), -900);
    let m = &pos.legal_moves()[0];
    assert_eq!(evaluate_move(&pos, m), 0);
}

#[test]
fn zobrist_differs_after_move() {
    let pos = Chess::default();
    let moves = chess::legal_moves(&pos);
    assert_eq!(moves.len(), 20);
    let mut next = chess::copy_position(&pos);
    chess::play(&mut next, &moves[0]);
    assert_ne!(chess::zobrist(&pos), chess::zobrist(&next));
    assert_eq!(chess::zobrist(&pos), chess::zobrist(&Chess::default()));
    assert!(!chess::is_checkmate(&pos));
    assert_eq!(chess::copy_move(&moves[3]), moves[3]);
}

#[test]
fn expansion_step_expands_with_legal_moves() {
    let mut game = Game::default();
    let board = Chess::default();
    let step = game.expansion_step(&board, 0).unwrap();
    let edges = game.trans_table.nodes[0].children.as_ref().unwrap();
    let legal = board.legal_moves();
    assert_eq!(edges.len(), legal.len());
    for (k, e) in edges.iter().enumerate() {
        assert_eq!(e.mv, legal[k]);
        assert_eq!(game.trans_table.nodes[e.child].prior.num, 1);
        assert_eq!(game.trans_table.nodes[e.child].prior.den, 20);
    }
    // every child is unvisited: the first one is the best
    assert_eq!(step.parent, 0);
    assert_eq!(step.edge, 0);
    assert_eq!(step.child, edges[0].child);
    assert_eq!(game.trans_table.nodes.len(), 21);
}

#[test]
fn expansion_step_keeps_existing_children() {
    let mut game = Game::default();
    let board = Chess::default();
    game.expansion_step(&board, 0).unwrap();
    let first: Vec<usize> = game.trans_table.nodes[0].children.as_ref().unwrap().iter().map(|e| e.child).collect();
    let again = game.expansion_step(&board, 0).unwrap();
    let second: Vec<usize> = game.trans_table.nodes[0].children.as_ref().unwrap().iter().map(|e| e.child).collect();
    assert_eq!(first, second);
    assert_eq!(game.trans_table.nodes.len(), 21);
    assert_eq!(again.edge, 0);
}

#[test]
fn expansion_step_at_terminal_position() {
    let pos = position("7k/6Q1/6K1/8/8/8/8/8 b - - 0 1");
    let mut game = Game::new(pos.clone());
    assert!(game.expansion_step(&pos, 0).is_none());
    assert!(game.trans_table.nodes[0].children.is_none());
    assert_eq!(game.trans_table.nodes.len(), 1);
}

#[test]
fn search_keeps_root_statistics_and_entries() {
    let mut game = Game::default();
    game.mcts(&Timer::new(20_000_000)).unwrap();
    assert_eq!(game.trans_table.nodes[0].visits, 1);
    assert_eq!(game.trans_table.nodes[0].value_sum, 0);
    let before: Vec<(u64, usize)> = game.trans_table.index.iter().map(|(h, n)| (*h, *n)).collect();
    game.mcts(&Timer::new(20_000_000)).unwrap();
    for (h, n) in before {
        assert_eq!(game.trans_table.index[&h], n);
    }
}

#[test]
fn contains_move_finds_legal_moves() {
    let pos = Chess::default();
    let moves = chess::legal_moves(&pos);
    assert!(chess::contains_move(&moves, &moves[5]));
    let other = position("k5r1/8/8/8/8/8/8/7K w - - 0 1").legal_moves()[0].clone();
    assert!(!chess::contains_move(&moves, &other));
    assert!(chess::same_move(&moves[2], &moves[2]));
    assert!(!chess::same_move(&moves[2], &moves[3]));
}

#[test]
fn evaluation_uses_named_boards() {
    let pos = position("4k3/8/8/8/8/8/8/3QK3 w - - 0 1");
    assert_eq!(chess::queens(&pos), 1u64 << 3);
    assert!(chess::white_to_move(&pos));
    assert_eq!(evaluate(&pos), 900);
}
