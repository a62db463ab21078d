use rand::SeedableRng;
use snek::registry::Registry;
use snek::requests::{Board, Game, Point, Snake, Turn};
use snek::responses::Movement;
use snek::tree::Tree;
use snek::worker::{
    assign, choose_direction, find_snake, is_at_rest, is_superseded, last_direction, thread_work,
    Phase, Worker, EXPLORE_DEPTH,
};

fn p(x: i32, y: i32) -> Point {
    Point { x, y }
}

fn game(id: &str) -> Game {
    Game { id: id.to_string() }
}

fn snake(id: &str, health: i32, body: Vec<Point>) -> Snake {
    Snake { id: id.to_string(), name: id.to_string(), health, body, shout: None }
}

fn turn_with(id: &str, snakes: Vec<Snake>) -> Turn {
    Turn {
        game: game(id),
        turn: 0,
        board: Board { height: 11, width: 11, food: vec![p(9, 9)], snakes: snakes.clone() },
        you: snakes[0].clone(),
    }
}

fn lone_turn(id: &str) -> Turn {
    turn_with(id, vec![snake("me", 90, vec![p(5, 5), p(5, 6), p(5, 7)])])
}

fn edges_are_sound(tree: &Tree) {
    for node in 0..tree.len() {
        for dir in Movement::ALL {
            if let Some(child) = tree.child(node, dir) {
                assert!(node < child && child < tree.len());
                assert_eq!(tree.generation(child), tree.generation(node) + 1);
                assert!(tree.score(child) <= tree.score(node));
            }
        }
    }
}

#[test]
fn the_agent_is_found_by_its_identifier() {
    let board = turn_with(
        "g",
        vec![snake("a", 90, vec![p(1, 1)]), snake("me", 90, vec![p(5, 5)]), snake("me", 1, vec![])],
    )
    .board;
    assert_eq!(find_snake(&board, &"me".to_string()), Some(1));
    assert_eq!(find_snake(&board, &"a".to_string()), Some(0));
    assert_eq!(find_snake(&board, &"nobody".to_string()), None);
}

#[test]
fn the_last_direction_is_read_off_head_and_neck() {
    let board = turn_with(
        "g",
        vec![
            snake("up", 90, vec![p(5, 5), p(5, 6), p(5, 7)]),
            snake("down", 90, vec![p(5, 5), p(5, 4)]),
            snake("left", 90, vec![p(5, 5), p(6, 5)]),
            snake("right", 90, vec![p(5, 5), p(4, 5)]),
            snake("stacked", 90, vec![p(5, 5), p(5, 5), p(5, 5)]),
            snake("short", 90, vec![p(5, 5)]),
            snake("torn", 90, vec![p(5, 5), p(7, 5)]),
            snake("askew", 90, vec![p(5, 5), p(6, 6)]),
            snake("far", 90, vec![p(i32::MAX, 0), p(i32::MIN, 0)]),
        ],
    )
    .board;
    assert_eq!(last_direction(&board, 0), Some(Movement::Up));
    assert_eq!(last_direction(&board, 1), Some(Movement::Down));
    assert_eq!(last_direction(&board, 2), Some(Movement::Left));
    assert_eq!(last_direction(&board, 3), Some(Movement::Right));
    assert_eq!(last_direction(&board, 4), Some(Movement::Right));
    assert_eq!(last_direction(&board, 5), None);
    assert_eq!(last_direction(&board, 6), None);
    assert_eq!(last_direction(&board, 7), None);
    assert_eq!(last_direction(&board, 8), None);
}

#[test]
fn the_coin_decides_between_the_draw_and_straight_on() {
    assert_eq!(choose_direction(true, Movement::Left, Movement::Up), Movement::Left);
    assert_eq!(choose_direction(false, Movement::Left, Movement::Up), Movement::Up);
    assert_eq!(choose_direction(true, Movement::Up, Movement::Up), Movement::Up);
}

#[test]
fn the_reverse_of_the_last_direction_is_never_chosen() {
    for last in Movement::ALL {
        for pick in Movement::ALL {
            for coin in [true, false] {
                let dir = choose_direction(coin, pick, last);
                assert_ne!(dir, last.opposite());
                if coin && pick != last.opposite() {
                    assert_eq!(dir, pick);
                } else {
                    assert_eq!(dir, last);
                }
            }
        }
    }
}

#[test]
fn every_agent_gets_a_direction() {
    let rivals = vec![Movement::Up, Movement::Down, Movement::Left, Movement::Left];
    assert_eq!(
        assign(&rivals, 1, Movement::Right, 3),
        vec![Movement::Up, Movement::Right, Movement::Left]
    );
    assert_eq!(assign(&rivals, 0, Movement::Right, 1), vec![Movement::Right]);
    assert_eq!(assign(&rivals, 0, Movement::Right, 0), vec![]);
}

#[test]
fn at_most_five_nodes_are_added_before_scoring() {
    assert_eq!(EXPLORE_DEPTH, 5);
}

#[test]
fn a_worker_without_a_game_terminates() {
    let mut registry = Registry::new();
    let mut worker = Worker::new(game("g"), "me".to_string());
    assert_eq!(worker.phase(), Phase::Fresh);
    assert_eq!(worker.advance(&mut registry, true, Movement::Up, &vec![]), Phase::Terminated);
    assert_eq!(worker.advance(&mut registry, true, Movement::Up, &vec![]), Phase::Terminated);
    assert_eq!(worker.phase(), Phase::Terminated);
}

#[test]
fn a_fresh_worker_goes_to_the_root() {
    let mut registry = Registry::new();
    registry.prepare_data(&lone_turn("g"));
    let mut worker = Worker::new(game("g"), "me".to_string());
    assert_eq!(worker.advance(&mut registry, true, Movement::Up, &vec![]), Phase::Extending);
    assert_eq!(*worker.steps(), vec![0]);
    assert_eq!(worker.lineup(&registry), 1);
}

#[test]
fn an_extension_adds_the_simulated_board_below_the_tip() {
    let mut registry = Registry::new();
    registry.prepare_data(&lone_turn("g"));
    let mut worker = Worker::new(game("g"), "me".to_string());
    worker.advance(&mut registry, true, Movement::Up, &vec![]);
    let phase = worker.advance(&mut registry, true, Movement::Left, &vec![Movement::Down]);
    assert_eq!(phase, Phase::Extending);
    assert_eq!(*worker.steps(), vec![0, 1]);
    let tree = registry.tree(&game("g")).unwrap();
    assert_eq!(tree.len(), 2);
    assert_eq!(tree.child(0, Movement::Left), Some(1));
    assert_eq!(tree.generation(1), 2);
    assert_eq!(tree.children(0), 1);
    assert_eq!(tree.children(1), 0);
    assert_eq!(tree.board(1).snakes[0].body, vec![p(4, 5), p(5, 5), p(5, 6)]);
    assert_eq!(tree.board(1).snakes[0].health, 89);
}

#[test]
fn a_new_node_has_no_score_and_is_scored_next() {
    let mut registry = Registry::new();
    registry.prepare_data(&lone_turn("g"));
    let mut worker = Worker::new(game("g"), "me".to_string());
    worker.advance(&mut registry, true, Movement::Up, &vec![]);
    worker.advance(&mut registry, false, Movement::Left, &vec![Movement::Down]);
    assert_eq!(*worker.steps(), vec![0, 1]);
    let picks = vec![Movement::Down];
    assert_eq!(worker.advance(&mut registry, true, Movement::Up, &picks), Phase::Scoring);
    assert_eq!(worker.advance(&mut registry, true, Movement::Up, &picks), Phase::Extending);
    let tree = registry.tree(&game("g")).unwrap();
    // straight on is up: head at (5, 4), generation 2, dx = 0, dy = -1
    let expected = 2 + 24 + 89 + (121 - 2);
    assert_eq!(tree.score(1), expected);
    assert_eq!(tree.score(0), expected);
    assert_eq!(tree.board(1).snakes[0].body[0], p(5, 4));
}

#[test]
fn a_taken_slot_is_tried_again_without_a_change() {
    let mut registry = Registry::new();
    registry.prepare_data(&lone_turn("g"));
    let mut first = Worker::new(game("g"), "me".to_string());
    let mut second = Worker::new(game("g"), "me".to_string());
    first.advance(&mut registry, true, Movement::Up, &vec![]);
    second.advance(&mut registry, true, Movement::Up, &vec![]);
    let picks = vec![Movement::Down];
    first.advance(&mut registry, true, Movement::Left, &picks);
    assert_eq!(second.advance(&mut registry, true, Movement::Left, &picks), Phase::Extending);
    assert_eq!(*second.steps(), vec![0]);
    let tree = registry.tree(&game("g")).unwrap();
    assert_eq!(tree.len(), 2);
    assert_eq!(tree.children(0), 1);
    assert_eq!(second.advance(&mut registry, true, Movement::Right, &picks), Phase::Extending);
    assert_eq!(*second.steps(), vec![0, 2]);
    assert_eq!(registry.tree(&game("g")).unwrap().child(0, Movement::Right), Some(2));
}

#[test]
fn a_fatal_step_adds_no_node_and_leads_to_scoring() {
    let mut registry = Registry::new();
    registry.prepare_data(&turn_with("g", vec![snake("me", 90, vec![p(0, 5), p(1, 5)])]));
    let mut worker = Worker::new(game("g"), "me".to_string());
    worker.advance(&mut registry, true, Movement::Up, &vec![]);
    let picks = vec![Movement::Down];
    assert_eq!(worker.advance(&mut registry, false, Movement::Up, &picks), Phase::Scoring);
    assert_eq!(*worker.steps(), vec![0]);
    let tree = registry.tree(&game("g")).unwrap();
    assert_eq!(tree.len(), 1);
    assert_eq!(tree.children(0), 1);
    assert_eq!(tree.child(0, Movement::Left), None);
    assert_eq!(worker.advance(&mut registry, false, Movement::Up, &picks), Phase::Extending);
    // the root is scored as it stands: generation 1, dx = -5, dy = 0
    assert_eq!(registry.tree(&game("g")).unwrap().score(0), 1 + 18 + 90 + 120);
}

#[test]
fn rivals_move_as_they_were_drawn() {
    let mut registry = Registry::new();
    registry.prepare_data(&turn_with(
        "g",
        vec![snake("rival", 50, vec![p(1, 1), p(1, 2)]), snake("me", 90, vec![p(5, 5), p(5, 6)])],
    ));
    let mut worker = Worker::new(game("g"), "me".to_string());
    worker.advance(&mut registry, true, Movement::Up, &vec![]);
    assert_eq!(worker.lineup(&registry), 2);
    let picks = vec![Movement::Right, Movement::Down];
    worker.advance(&mut registry, true, Movement::Left, &picks);
    let tree = registry.tree(&game("g")).unwrap();
    assert_eq!(tree.board(1).snakes[0].body, vec![p(2, 1), p(1, 1)]);
    assert_eq!(tree.board(1).snakes[1].body, vec![p(4, 5), p(5, 5)]);
}

#[test]
fn a_worker_whose_agent_is_not_on_the_board_terminates() {
    let mut registry = Registry::new();
    registry.prepare_data(&lone_turn("g"));
    let mut worker = Worker::new(game("g"), "somebody else".to_string());
    assert_eq!(worker.advance(&mut registry, true, Movement::Up, &vec![]), Phase::Extending);
    let picks = vec![Movement::Down];
    assert_eq!(worker.advance(&mut registry, true, Movement::Up, &picks), Phase::Terminated);
}

#[test]
fn a_worker_whose_agent_is_torn_terminates() {
    let mut registry = Registry::new();
    registry.prepare_data(&turn_with("g", vec![snake("me", 90, vec![p(5, 5), p(8, 8)])]));
    let mut worker = Worker::new(game("g"), "me".to_string());
    worker.advance(&mut registry, true, Movement::Up, &vec![]);
    let picks = vec![Movement::Down];
    assert_eq!(worker.advance(&mut registry, true, Movement::Up, &picks), Phase::Terminated);
    assert_eq!(registry.tree(&game("g")).unwrap().len(), 1);
}

#[test]
fn a_new_turn_makes_the_worker_start_afresh() {
    let mut registry = Registry::new();
    registry.prepare_data(&lone_turn("g"));
    let mut worker = Worker::new(game("g"), "me".to_string());
    worker.advance(&mut registry, true, Movement::Up, &vec![]);
    let picks = vec![Movement::Down];
    worker.advance(&mut registry, true, Movement::Left, &picks);
    registry.prepare_data(&lone_turn("g"));
    assert_eq!(worker.advance(&mut registry, true, Movement::Left, &picks), Phase::Stale);
    assert_eq!(worker.advance(&mut registry, true, Movement::Left, &picks), Phase::Fresh);
    assert!(worker.steps().is_empty());
    assert_eq!(worker.advance(&mut registry, true, Movement::Left, &picks), Phase::Extending);
    assert_eq!(*worker.steps(), vec![2]);
}

#[test]
fn the_end_of_the_game_terminates_the_worker() {
    let mut registry = Registry::new();
    registry.prepare_data(&lone_turn("g"));
    let mut worker = Worker::new(game("g"), "me".to_string());
    worker.advance(&mut registry, true, Movement::Up, &vec![]);
    registry.end(&game("g"));
    let picks = vec![Movement::Down];
    assert_eq!(worker.advance(&mut registry, true, Movement::Left, &picks), Phase::Terminated);
}

#[test]
fn a_search_with_drawn_directions_keeps_the_tree_sound() {
    let mut registry = Registry::new();
    registry.prepare_data(&turn_with(
        "g",
        vec![
            snake("me", 100, vec![p(5, 5), p(5, 5), p(5, 5)]),
            snake("rival", 100, vec![p(2, 2), p(2, 2), p(2, 2)]),
        ],
    ));
    let mut rng = rand::rngs::StdRng::seed_from_u64(20191);
    let mut one = Worker::new(game("g"), "me".to_string());
    let mut two = Worker::new(game("g"), "me".to_string());
    let mut best = 0;
    for _ in 0..4000 {
        assert!(thread_work(&mut one, &mut registry, &mut rng).is_some());
        assert!(thread_work(&mut two, &mut registry, &mut rng).is_some());
        let tree = registry.tree(&game("g")).unwrap();
        assert!(tree.score(0) >= best);
        best = tree.score(0);
    }
    let tree = registry.tree(&game("g")).unwrap();
    assert!(tree.len() > 1);
    assert!(tree.is_chain(one.steps()));
    assert!(tree.is_chain(two.steps()));
    edges_are_sound(tree);
    let (dir, score) = registry.best_move(&game("g"));
    assert!(score > 0);
    let child = tree.child(0, dir).unwrap();
    assert_eq!(tree.score(child), score);
    for other in Movement::ALL {
        if let Some(c) = tree.child(0, other) {
            assert!(tree.score(c) <= score);
        }
    }
}

#[test]
fn a_search_goes_on_over_turns_and_stops_at_the_end() {
    let mut registry = Registry::new();
    let mut rng = rand::rngs::StdRng::seed_from_u64(20191);
    let mut worker = Worker::new(game("g"), "me".to_string());
    for round in 0..5 {
        registry.prepare_data(&lone_turn("g"));
        for _ in 0..300 {
            assert!(thread_work(&mut worker, &mut registry, &mut rng).is_some());
        }
        let tree = registry.tree(&game("g")).unwrap();
        assert_eq!(worker.steps()[0], tree.root());
        for node in 0..tree.root() {
            if tree.generation(node) == 1 {
                assert!(tree.is_historic(node));
            }
        }
        assert!(!tree.is_historic(tree.root()));
        edges_are_sound(tree);
        assert!(tree.len() > round);
    }
    registry.end(&game("g"));
    let mut stopped = false;
    for _ in 0..3 {
        if thread_work(&mut worker, &mut registry, &mut rng).is_none() {
            stopped = true;
        }
    }
    assert!(stopped);
    assert_eq!(worker.phase(), Phase::Terminated);
}

#[test]
fn after_five_nodes_the_worker_scores() {
    let mut registry = Registry::new();
    registry.prepare_data(&turn_with(
        "g",
        vec![snake("me", 90, vec![p(0, 10), p(0, 10), p(0, 10)])],
    ));
    let mut worker = Worker::new(game("g"), "me".to_string());
    worker.advance(&mut registry, true, Movement::Right, &vec![]);
    let picks = vec![Movement::Down];
    for made in 0..EXPLORE_DEPTH as usize {
        let phase = worker.advance(&mut registry, true, Movement::Right, &picks);
        assert_eq!(phase, Phase::Extending);
        assert_eq!(worker.steps().len(), made + 2);
        // somebody else scores the new node, so that the worker can go on
        registry.backpropagate(0, worker.steps(), 5);
    }
    assert_eq!(worker.advance(&mut registry, true, Movement::Right, &picks), Phase::Scoring);
    assert_eq!(worker.steps().len(), EXPLORE_DEPTH as usize + 1);
    assert_eq!(registry.tree(&game("g")).unwrap().len(), EXPLORE_DEPTH as usize + 1);
    assert_eq!(worker.advance(&mut registry, true, Movement::Right, &picks), Phase::Extending);
    // head at (5, 10) after five steps to the right: dx = 0, dy = 5
    let tree = registry.tree(&game("g")).unwrap();
    assert_eq!(tree.generation(5), 6);
    assert_eq!(tree.score(5), 6 + 18 + 85 + (121 - 2));
    assert_eq!(tree.children(0), 5);
    assert_eq!(tree.children(4), 1);
    assert_eq!(tree.children(5), 0);
    assert_eq!(worker.advance(&mut registry, true, Movement::Right, &picks), Phase::Extending);
    assert_eq!(worker.steps().len(), EXPLORE_DEPTH as usize + 2);
}

#[test]
fn a_path_with_a_historic_node_is_superseded() {
    let mut tree = Tree::new(lone_turn("g").board);
    tree.claim(0, Movement::Up, lone_turn("g").board);
    tree.claim(1, Movement::Up, lone_turn("g").board);
    assert!(!is_superseded(&tree, &vec![0, 1, 2]));
    tree.mark_historic(1);
    assert!(is_superseded(&tree, &vec![0, 1, 2]));
    assert!(is_superseded(&tree, &vec![0, 1]));
    assert!(!is_superseded(&tree, &vec![0]));
    tree.replace_root(lone_turn("g").board);
    assert!(is_superseded(&tree, &vec![0]));
    assert!(!is_superseded(&tree, &vec![3]));
}

#[test]
fn an_agent_is_at_rest_while_head_and_neck_share_a_cell() {
    let board = turn_with(
        "g",
        vec![
            snake("stacked", 100, vec![p(5, 5), p(5, 5), p(5, 5)]),
            snake("moving", 90, vec![p(5, 5), p(5, 6), p(5, 6)]),
            snake("short", 90, vec![p(5, 5)]),
        ],
    )
    .board;
    assert!(is_at_rest(&board, 0));
    assert_eq!(last_direction(&board, 0), Some(Movement::Right));
    assert!(!is_at_rest(&board, 1));
    assert!(!is_at_rest(&board, 2));
}

#[test]
fn the_same_seed_gives_the_same_search() {
    let mut trees = Vec::new();
    for _ in 0..2 {
        let mut registry = Registry::new();
        registry.prepare_data(&lone_turn("g"));
        let mut rng = rand::rngs::StdRng::seed_from_u64(7);
        let mut worker = Worker::new(game("g"), "me".to_string());
        for _ in 0..500 {
            assert!(thread_work(&mut worker, &mut registry, &mut rng).is_some());
        }
        let tree = registry.end(&game("g")).unwrap();
        let mut shape = Vec::new();
        for node in 0..tree.len() {
            shape.push((tree.generation(node), tree.score(node), tree.children(node)));
        }
        trees.push(shape);
    }
    assert!(trees[0].len() > 1);
    assert_eq!(trees[0], trees[1]);
}

#[test]
fn other_seeds_take_other_ways() {
    let mut firsts = Vec::new();
    for seed in 0..40 {
        let mut registry = Registry::new();
        registry.prepare_data(&lone_turn("g"));
        let mut rng = rand::rngs::StdRng::seed_from_u64(seed);
        let mut worker = Worker::new(game("g"), "me".to_string());
        for _ in 0..3 {
            thread_work(&mut worker, &mut registry, &mut rng);
        }
        let tree = registry.tree(&game("g")).unwrap();
        for dir in Movement::ALL {
            if tree.child(0, dir).is_some() && !firsts.contains(&dir) {
                firsts.push(dir);
            }
        }
    }
    // the agent came from below, so it never turns down
    assert!(!firsts.contains(&Movement::Down));
    assert!(firsts.len() >= 2);
}
