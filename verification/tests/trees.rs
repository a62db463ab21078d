use snek::requests::{Board, Point, Snake};
use snek::responses::Movement;
use snek::tree::{Claim, Tree};

fn p(x: i32, y: i32) -> Point {
    Point { x, y }
}

fn board(tag: i32) -> Board {
    Board {
        height: 11,
        width: 11,
        food: vec![p(tag, tag)],
        snakes: vec![Snake {
            id: "a".to_string(),
            name: "a".to_string(),
            health: 90,
            body: vec![p(5, 5), p(5, 6)],
            shout: None,
        }],
    }
}

#[test]
fn a_new_tree_is_one_root_of_generation_one() {
    let tree = Tree::new(board(0));
    assert_eq!(tree.len(), 1);
    assert_eq!(tree.root(), 0);
    assert_eq!(tree.generation(0), 1);
    assert_eq!(tree.score(0), 1);
    assert_eq!(tree.children(0), 0);
    assert!(!tree.is_historic(0));
    assert_eq!(*tree.board(0), board(0));
    for dir in Movement::ALL {
        assert_eq!(tree.child(0, dir), None);
    }
}

#[test]
fn a_claim_of_an_empty_slot_installs_a_child() {
    let mut tree = Tree::new(board(0));
    let claim = tree.claim(0, Movement::Up, board(1));
    assert_eq!(claim, Claim::Installed(1));
    assert_eq!(tree.len(), 2);
    assert_eq!(tree.child(0, Movement::Up), Some(1));
    assert_eq!(tree.child(0, Movement::Right), None);
    assert_eq!(tree.child(0, Movement::Left), None);
    assert_eq!(tree.child(0, Movement::Down), None);
    assert_eq!(tree.generation(1), 2);
    assert_eq!(tree.score(1), 0);
    assert_eq!(tree.children(1), 0);
    assert!(!tree.is_historic(1));
    assert_eq!(*tree.board(1), board(1));
}

#[test]
fn a_claim_of_a_taken_slot_changes_nothing() {
    let mut tree = Tree::new(board(0));
    assert_eq!(tree.claim(0, Movement::Up, board(1)), Claim::Installed(1));
    assert_eq!(tree.claim(0, Movement::Up, board(2)), Claim::Taken(1));
    assert_eq!(tree.claim(0, Movement::Up, board(3)), Claim::Taken(1));
    assert_eq!(tree.len(), 2);
    assert_eq!(tree.child(0, Movement::Up), Some(1));
    assert_eq!(*tree.board(1), board(1));
}

#[test]
fn every_child_is_one_generation_below_its_parent() {
    let mut tree = Tree::new(board(0));
    let mut parent = 0;
    for depth in 0..20 {
        let dir = Movement::from_int(depth % 4);
        match tree.claim(parent, dir, board(depth as i32)) {
            Claim::Installed(child) => {
                assert_eq!(tree.generation(child), tree.generation(parent) + 1);
                parent = child;
            },
            Claim::Taken(_) => panic!("the slot of a new node is empty"),
        }
    }
    assert_eq!(tree.generation(parent), 21);
    for node in 0..tree.len() {
        for dir in Movement::ALL {
            if let Some(child) = tree.child(node, dir) {
                assert_eq!(tree.generation(child), tree.generation(node) + 1);
            }
        }
    }
}

#[test]
fn scores_go_back_along_the_path() {
    let mut tree = Tree::new(board(0));
    tree.claim(0, Movement::Up, board(1));
    tree.claim(1, Movement::Left, board(2));
    tree.claim(0, Movement::Down, board(3));
    tree.backpropagate(&vec![0, 1, 2], 40);
    assert_eq!(tree.score(0), 40);
    assert_eq!(tree.score(1), 40);
    assert_eq!(tree.score(2), 40);
    assert_eq!(tree.score(3), 0);
}

#[test]
fn a_score_never_falls() {
    let mut tree = Tree::new(board(0));
    tree.claim(0, Movement::Up, board(1));
    tree.claim(1, Movement::Left, board(2));
    tree.backpropagate(&vec![0, 1, 2], 40);
    tree.backpropagate(&vec![0, 1, 2], 10);
    assert_eq!(tree.score(0), 40);
    assert_eq!(tree.score(1), 40);
    assert_eq!(tree.score(2), 40);
    tree.backpropagate(&vec![0, 1], 40);
    assert_eq!(tree.score(0), 40);
    tree.backpropagate(&vec![0], 0);
    assert_eq!(tree.score(0), 40);
}

#[test]
fn a_better_score_below_rises_to_the_root() {
    let mut tree = Tree::new(board(0));
    tree.claim(0, Movement::Up, board(1));
    tree.claim(1, Movement::Left, board(2));
    tree.claim(0, Movement::Down, board(3));
    tree.backpropagate(&vec![0, 3], 30);
    tree.backpropagate(&vec![0, 1], 20);
    assert_eq!(tree.score(0), 30);
    assert_eq!(tree.score(1), 20);
    tree.backpropagate(&vec![0, 1, 2], 25);
    assert_eq!(tree.score(0), 30);
    assert_eq!(tree.score(1), 25);
    assert_eq!(tree.score(2), 25);
    assert_eq!(tree.score(3), 30);
}

#[test]
fn handing_back_in_either_order_ends_the_same() {
    let mut one = Tree::new(board(0));
    one.claim(0, Movement::Up, board(1));
    one.claim(0, Movement::Down, board(2));
    let mut other = Tree::new(board(0));
    other.claim(0, Movement::Up, board(1));
    other.claim(0, Movement::Down, board(2));
    one.backpropagate(&vec![0, 1], 17);
    one.backpropagate(&vec![0, 2], 23);
    other.backpropagate(&vec![0, 2], 23);
    other.backpropagate(&vec![0, 1], 17);
    for node in 0..3 {
        assert_eq!(one.score(node), other.score(node));
    }
    assert_eq!(one.score(0), 23);
}

#[test]
fn simulations_are_counted_along_the_path() {
    let mut tree = Tree::new(board(0));
    tree.claim(0, Movement::Up, board(1));
    tree.claim(0, Movement::Down, board(2));
    tree.count_future(&vec![0]);
    tree.count_future(&vec![0, 1]);
    tree.count_future(&vec![0, 1]);
    assert_eq!(tree.children(0), 3);
    assert_eq!(tree.children(1), 2);
    assert_eq!(tree.children(2), 0);
}

#[test]
fn a_new_turn_makes_the_old_root_historic() {
    let mut tree = Tree::new(board(0));
    tree.claim(0, Movement::Up, board(1));
    let root = tree.replace_root(board(2));
    assert_eq!(root, 2);
    assert_eq!(tree.root(), 2);
    assert!(tree.is_historic(0));
    assert!(!tree.is_historic(1));
    assert!(!tree.is_historic(2));
    assert_eq!(tree.generation(2), 1);
    assert_eq!(tree.score(2), 1);
    assert_eq!(tree.child(0, Movement::Up), Some(1));
    assert_eq!(*tree.board(2), board(2));
}

#[test]
fn historic_stays_historic() {
    let mut tree = Tree::new(board(0));
    tree.mark_historic(0);
    assert!(tree.is_historic(0));
    tree.mark_historic(0);
    tree.claim(0, Movement::Up, board(1));
    tree.backpropagate(&vec![0, 1], 9);
    tree.count_future(&vec![0]);
    tree.replace_root(board(2));
    assert!(tree.is_historic(0));
}

#[test]
fn a_path_is_a_chain_when_each_node_is_a_child_of_the_one_before() {
    let mut tree = Tree::new(board(0));
    tree.claim(0, Movement::Up, board(1));
    tree.claim(1, Movement::Left, board(2));
    tree.claim(0, Movement::Down, board(3));
    assert!(tree.is_chain(&vec![0]));
    assert!(tree.is_chain(&vec![0, 1]));
    assert!(tree.is_chain(&vec![0, 1, 2]));
    assert!(tree.is_chain(&vec![0, 3]));
    assert!(!tree.is_chain(&vec![]));
    assert!(!tree.is_chain(&vec![1, 2]));
    assert!(!tree.is_chain(&vec![0, 2]));
    assert!(!tree.is_chain(&vec![0, 1, 3]));
    assert!(!tree.is_chain(&vec![0, 0]));
    assert!(!tree.is_chain(&vec![0, 9]));
    assert!(!tree.is_chain(&vec![9]));
}

#[test]
fn no_child_means_right_with_score_zero() {
    let tree = Tree::new(board(0));
    assert_eq!(tree.best_move(0), (Movement::Right, 0));
}

#[test]
fn children_without_a_score_give_the_first_of_them() {
    let mut tree = Tree::new(board(0));
    tree.claim(0, Movement::Down, board(1));
    tree.claim(0, Movement::Up, board(2));
    assert_eq!(tree.best_move(0), (Movement::Up, 0));
}

#[test]
fn a_lone_child_without_a_score_gives_the_move() {
    let mut tree = Tree::new(board(0));
    tree.claim(0, Movement::Left, board(1));
    assert_eq!(tree.best_move(0), (Movement::Left, 0));
    let mut tree = Tree::new(board(0));
    tree.claim(0, Movement::Down, board(1));
    assert_eq!(tree.best_move(0), (Movement::Down, 0));
    let mut tree = Tree::new(board(0));
    tree.claim(0, Movement::Right, board(1));
    assert_eq!(tree.best_move(0), (Movement::Right, 0));
}

#[test]
fn a_scored_child_beats_an_earlier_one_without_a_score() {
    let mut tree = Tree::new(board(0));
    tree.claim(0, Movement::Right, board(1));
    tree.claim(0, Movement::Down, board(2));
    tree.backpropagate(&vec![0, 2], 3);
    assert_eq!(tree.best_move(0), (Movement::Down, 3));
}

#[test]
fn the_best_child_gives_the_move() {
    let mut tree = Tree::new(board(0));
    tree.claim(0, Movement::Left, board(1));
    tree.claim(0, Movement::Down, board(2));
    tree.claim(0, Movement::Right, board(3));
    tree.backpropagate(&vec![0, 1], 12);
    tree.backpropagate(&vec![0, 2], 30);
    tree.backpropagate(&vec![0, 3], 29);
    assert_eq!(tree.best_move(0), (Movement::Down, 30));
}

#[test]
fn the_first_of_equal_children_gives_the_move() {
    let mut tree = Tree::new(board(0));
    tree.claim(0, Movement::Down, board(1));
    tree.claim(0, Movement::Up, board(2));
    tree.claim(0, Movement::Left, board(3));
    tree.backpropagate(&vec![0, 1], 30);
    tree.backpropagate(&vec![0, 2], 30);
    tree.backpropagate(&vec![0, 3], 30);
    assert_eq!(tree.best_move(0), (Movement::Left, 30));
    let mut tree = Tree::new(board(0));
    tree.claim(0, Movement::Down, board(1));
    tree.claim(0, Movement::Up, board(2));
    tree.backpropagate(&vec![0, 1], 30);
    tree.backpropagate(&vec![0, 2], 30);
    assert_eq!(tree.best_move(0), (Movement::Up, 30));
}

#[test]
fn the_move_is_read_off_the_node_that_is_asked() {
    let mut tree = Tree::new(board(0));
    tree.claim(0, Movement::Left, board(1));
    tree.claim(1, Movement::Up, board(2));
    tree.backpropagate(&vec![0, 1, 2], 44);
    assert_eq!(tree.best_move(0), (Movement::Left, 44));
    assert_eq!(tree.best_move(1), (Movement::Up, 44));
    assert_eq!(tree.best_move(2), (Movement::Right, 0));
}
