use std::collections::HashMap;
use bluefin::tree::{Edge, Node, Prior, Step, TranspositionTable};

fn leaf(visits: u32, value_sum: i64) -> Node<u32> {
    Node::new(Prior { num: 1, den: 1 }, value_sum, visits, None)
}

/// A root (node 0) with one child per entry of `stats`, moves 10, 11, ...
fn table_with_children(root_visits: u32, stats: &[(u32, i64)]) -> TranspositionTable<u32> {
    let mut nodes = vec![];
    let mut edges = vec![];
    for (k, (v, w)) in stats.iter().enumerate() {
        edges.push(Edge { mv: 10 + k as u32, child: k + 1 });
        nodes.push(leaf(*v, *w));
    }
    let root = Node::new(Prior { num: 1, den: 1 }, 0, root_visits, Some(edges));
    let mut all = vec![root];
    all.extend(nodes);
    TranspositionTable { nodes: all, index: HashMap::new() }
}

#[test]
fn node_new_keeps_fields() {
    let n: Node<u32> = Node::new(Prior { num: 2, den: 5 }, -7, 3, None);
    assert_eq!(n.prior, Prior { num: 2, den: 5 });
    assert_eq!(n.value_sum, -7);
    assert_eq!(n.visits, 3);
    assert!(n.children.is_none());
}

#[test]
fn best_move_first_of_tied_maxima() {
    let t = table_with_children(17, &[(3, 0), (7, 0), (7, 0)]);
    assert_eq!(t.best_move(0), 1);
    let e = t.best_move(0);
    assert_eq!(t.nodes[0].children.as_ref().unwrap()[e].mv, 11);
}

#[test]
fn best_move_all_unvisited_takes_first() {
    let t = table_with_children(1, &[(0, 0), (0, 0)]);
    assert_eq!(t.best_move(0), 0);
}

#[test]
fn select_best_child_prefers_unvisited() {
    let t = table_with_children(5, &[(2, 500), (0, 0), (0, 0)]);
    assert_eq!(t.select_best_child(0), 1);
    assert!(t.has_unvisited_children(0));
}

#[test]
fn select_best_child_by_score_first_maximum() {
    // scores: 100 + 0 = 100 (log2(1) = 0), 300, 300
    let t = table_with_children(1, &[(1, 100), (1, 300), (1, 300)]);
    assert_eq!(t.select_best_child(0), 1);
    assert!(!t.has_unvisited_children(0));
}

#[test]
fn select_best_child_exploration_counts() {
    // parent visits 16: log2 = 4. child a: 40/1 + 100*sqrt(4) = 240;
    // child b: 800/4 + 100*sqrt(1) = 300
    let t = table_with_children(16, &[(1, 40), (4, 800)]);
    assert_eq!(t.select_best_child(0), 1);
}

#[test]
fn has_unvisited_children_false_when_not_expanded() {
    let t = table_with_children(1, &[(0, 0)]);
    assert!(!t.has_unvisited_children(1));
}

#[test]
fn selection_stops_at_unvisited_child() {
    let t = table_with_children(3, &[(1, 0), (0, 0)]);
    let path = t.selection(0);
    assert_eq!(path, vec![Step { parent: 0, edge: 1, child: 2 }]);
}

#[test]
fn selection_stops_at_fully_visited_node() {
    let t = table_with_children(3, &[(1, 0), (2, 0)]);
    assert!(t.selection(0).is_empty());
}

#[test]
fn expansion_priors_uniform_for_equal_scores() {
    let mut t = table_with_children(1, &[]);
    t.nodes[0].children = None;
    t.expand(0, vec![1u32, 2, 3], vec![0, 0, 0], vec![100, 200, 300]);
    let edges = t.nodes[0].children.as_ref().unwrap();
    assert_eq!(edges.len(), 3);
    for (k, e) in edges.iter().enumerate() {
        assert_eq!(e.mv, k as u32 + 1);
        let n = &t.nodes[e.child];
        assert_eq!(n.prior, Prior { num: 1, den: 3 });
        assert_eq!(n.visits, 0);
        assert_eq!(n.value_sum, 0);
    }
    assert_eq!(t.index.len(), 3);
}

#[test]
fn expansion_priors_positive_and_sum_to_one() {
    let mut t = table_with_children(1, &[]);
    t.nodes[0].children = None;
    t.expand(0, vec![1u32, 2, 3], vec![5, -2, 0], vec![1, 2, 3]);
    let edges = t.nodes[0].children.as_ref().unwrap();
    let priors: Vec<Prior> = edges.iter().map(|e| t.nodes[e.child].prior).collect();
    assert_eq!(priors[0], Prior { num: 8, den: 12 });
    assert_eq!(priors[1], Prior { num: 1, den: 12 });
    assert_eq!(priors[2], Prior { num: 3, den: 12 });
    let sum: f64 = priors.iter().map(|p| p.num as f64 / p.den as f64).sum();
    assert!((sum - 1.0).abs() < 1e-9);
    assert!(priors.iter().all(|p| p.num > 0));
}

#[test]
fn transposed_positions_share_one_node() {
    let mut t = table_with_children(1, &[]);
    t.nodes[0].children = None;
    // root -> a (hash 10), b (hash 20)
    t.expand(0, vec![1u32, 2], vec![0, 0], vec![10, 20]);
    let a = t.nodes[0].children.as_ref().unwrap()[0].child;
    let b = t.nodes[0].children.as_ref().unwrap()[1].child;
    // a -> c (hash 30), and a second route to the position of b (hash 20)
    t.expand(a, vec![3u32, 4], vec![0, 0], vec![30, 20]);
    let via_a = t.nodes[a].children.as_ref().unwrap()[1].child;
    assert_eq!(via_a, b);
    assert_eq!(t.nodes.len(), 4);
    // backpropagation through one route is seen through the other
    let path = vec![Step { parent: 0, edge: 0, child: a }, Step { parent: a, edge: 1, child: via_a }];
    assert!(t.can_backpropagate(&path, 70));
    t.backpropagation(&path, 70);
    assert_eq!(t.nodes[b].visits, 1);
    assert_eq!(t.nodes[b].value_sum, 70);
    let from_root = t.nodes[0].children.as_ref().unwrap()[1].child;
    assert_eq!(t.nodes[from_root].visits, 1);
    assert_eq!(t.nodes[from_root].value_sum, 70);
}

#[test]
fn expansion_reuses_existing_entry_prior() {
    let mut t = table_with_children(1, &[]);
    t.nodes[0].children = None;
    t.expand(0, vec![1u32, 2], vec![0, 9], vec![10, 10]);
    let edges = t.nodes[0].children.as_ref().unwrap();
    assert_eq!(edges[0].child, edges[1].child);
    assert_eq!(t.nodes[edges[0].child].prior, Prior { num: 1, den: 11 });
    assert_eq!(t.nodes.len(), 2);
}

#[test]
fn backpropagation_alternates_sign() {
    let mut t = table_with_children(1, &[(0, 0), (0, 0), (0, 0)]);
    t.nodes[1].value_sum = 5;
    t.nodes[1].visits = 2;
    let path = vec![
        Step { parent: 0, edge: 0, child: 1 },
        Step { parent: 1, edge: 0, child: 2 },
        Step { parent: 2, edge: 0, child: 3 },
    ];
    t.backpropagation(&path, 50);
    assert_eq!((t.nodes[3].visits, t.nodes[3].value_sum), (1, 50));
    assert_eq!((t.nodes[2].visits, t.nodes[2].value_sum), (1, -50));
    assert_eq!((t.nodes[1].visits, t.nodes[1].value_sum), (3, 55));
    assert_eq!((t.nodes[0].visits, t.nodes[0].value_sum), (1, 0));
}

#[test]
fn backpropagation_empty_path_changes_nothing() {
    let mut t = table_with_children(4, &[(1, 1)]);
    t.backpropagation(&vec![], 100);
    assert_eq!((t.nodes[0].visits, t.nodes[1].visits, t.nodes[1].value_sum), (4, 1, 1));
}

#[test]
fn can_backpropagate_refuses_overflow() {
    let t = table_with_children(1, &[(u32::MAX, 0), (0, i64::MAX - 10)]);
    let full_counter = vec![Step { parent: 0, edge: 0, child: 1 }];
    assert!(!t.can_backpropagate(&full_counter, 1));
    let near_limit = vec![Step { parent: 0, edge: 1, child: 2 }];
    assert!(t.can_backpropagate(&near_limit, 10));
    assert!(!t.can_backpropagate(&near_limit, 11));
    assert!(!t.can_backpropagate(&near_limit, -11));
    let dangling = vec![Step { parent: 0, edge: 1, child: 7 }];
    assert!(!t.can_backpropagate(&dangling, 0));
}
