use snek::requests::{Board, Point, Snake};
use snek::responses::Movement;
use snek::simulator::simulate;

fn p(x: i32, y: i32) -> Point {
    Point { x, y }
}

fn snake(id: &str, health: i32, body: Vec<Point>) -> Snake {
    Snake { id: id.to_string(), name: format!("name of {}", id), health, body, shout: None }
}

fn board(food: Vec<Point>, snakes: Vec<Snake>) -> Board {
    Board { height: 11, width: 11, food, snakes }
}

#[test]
fn eating_restores_health_and_removes_the_food() {
    let before = board(vec![p(6, 5)], vec![snake("a", 50, vec![p(5, 5), p(4, 5), p(3, 5)])]);
    let after = simulate(&before, &vec![Movement::Right]);
    assert_eq!(after.snakes.len(), 1);
    assert_eq!(after.snakes[0].health, 100);
    assert!(!after.food.contains(&p(6, 5)));
    assert!(after.food.is_empty());
    assert_eq!(after.snakes[0].body, vec![p(6, 5), p(5, 5), p(4, 5)]);
}

#[test]
fn the_turn_after_eating_the_body_is_one_longer() {
    let before = board(vec![p(6, 5)], vec![snake("a", 50, vec![p(5, 5), p(4, 5), p(3, 5)])]);
    let fed = simulate(&before, &vec![Movement::Right]);
    let grown = simulate(&fed, &vec![Movement::Right]);
    assert_eq!(grown.snakes[0].body.len(), before.snakes[0].body.len() + 1);
    assert_eq!(grown.snakes[0].body, vec![p(7, 5), p(6, 5), p(5, 5), p(4, 5)]);
    assert_eq!(grown.snakes[0].health, 99);
}

#[test]
fn stepping_off_the_grid_removes_the_agent() {
    let before = board(vec![], vec![snake("a", 80, vec![p(10, 5), p(9, 5), p(8, 5)])]);
    let after = simulate(&before, &vec![Movement::Right]);
    assert!(after.snakes.is_empty());
}

#[test]
fn every_edge_of_the_grid_is_fatal() {
    let left = board(vec![], vec![snake("a", 80, vec![p(0, 5), p(1, 5)])]);
    assert!(simulate(&left, &vec![Movement::Left]).snakes.is_empty());
    let top = board(vec![], vec![snake("a", 80, vec![p(5, 0), p(5, 1)])]);
    assert!(simulate(&top, &vec![Movement::Up]).snakes.is_empty());
    let bottom = board(vec![], vec![snake("a", 80, vec![p(5, 10), p(5, 9)])]);
    assert!(simulate(&bottom, &vec![Movement::Down]).snakes.is_empty());
    assert_eq!(simulate(&bottom, &vec![Movement::Right]).snakes.len(), 1);
}

#[test]
fn a_head_at_the_largest_coordinate_leaves_the_grid() {
    let before = Board {
        height: 11,
        width: 11,
        food: vec![],
        snakes: vec![snake("a", 80, vec![p(i32::MAX, 5), p(i32::MAX - 1, 5)])],
    };
    assert!(simulate(&before, &vec![Movement::Right]).snakes.is_empty());
}

#[test]
fn equal_health_head_on_kills_both() {
    let before = board(
        vec![],
        vec![
            snake("a", 70, vec![p(4, 5), p(3, 5), p(2, 5)]),
            snake("b", 70, vec![p(6, 5), p(7, 5), p(8, 5)]),
        ],
    );
    let after = simulate(&before, &vec![Movement::Right, Movement::Left]);
    assert!(after.snakes.is_empty());
}

#[test]
fn the_healthier_agent_survives_head_on() {
    let before = board(
        vec![],
        vec![
            snake("a", 70, vec![p(4, 5), p(3, 5), p(2, 5)]),
            snake("b", 71, vec![p(6, 5), p(7, 5), p(8, 5)]),
        ],
    );
    let after = simulate(&before, &vec![Movement::Right, Movement::Left]);
    assert_eq!(after.snakes.len(), 1);
    assert_eq!(after.snakes[0].id, "b");
    assert_eq!(after.snakes[0].health, 70);
    assert_eq!(after.snakes[0].body, vec![p(5, 5), p(6, 5), p(7, 5)]);
}

#[test]
fn running_into_a_body_is_fatal() {
    let before = board(
        vec![],
        vec![
            snake("a", 70, vec![p(4, 4), p(3, 4), p(2, 4)]),
            snake("b", 90, vec![p(5, 5), p(4, 5), p(3, 5), p(2, 5)]),
        ],
    );
    let after = simulate(&before, &vec![Movement::Down, Movement::Right]);
    assert_eq!(after.snakes.len(), 1);
    assert_eq!(after.snakes[0].id, "b");
}

#[test]
fn the_cell_a_tail_leaves_can_be_entered() {
    let before = board(
        vec![],
        vec![
            snake("a", 70, vec![p(2, 4), p(1, 4)]),
            snake("b", 90, vec![p(4, 5), p(3, 5), p(2, 5)]),
        ],
    );
    let after = simulate(&before, &vec![Movement::Down, Movement::Right]);
    assert_eq!(after.snakes.len(), 2);
    assert_eq!(after.snakes[0].body[0], p(2, 5));
}

#[test]
fn the_tail_of_a_full_agent_stays_and_blocks() {
    let before = board(
        vec![],
        vec![
            snake("a", 70, vec![p(2, 4), p(1, 4)]),
            snake("b", 100, vec![p(4, 5), p(3, 5), p(2, 5)]),
        ],
    );
    let after = simulate(&before, &vec![Movement::Down, Movement::Right]);
    assert_eq!(after.snakes.len(), 1);
    assert_eq!(after.snakes[0].id, "b");
    assert_eq!(after.snakes[0].body, vec![p(5, 5), p(4, 5), p(3, 5), p(2, 5)]);
}

#[test]
fn turning_back_onto_the_own_neck_is_fatal() {
    let before = board(vec![], vec![snake("a", 70, vec![p(5, 5), p(4, 5), p(3, 5)])]);
    let after = simulate(&before, &vec![Movement::Left]);
    assert!(after.snakes.is_empty());
}

#[test]
fn health_running_out_is_fatal() {
    let before = board(vec![], vec![snake("a", 1, vec![p(5, 5), p(4, 5), p(3, 5)])]);
    assert!(simulate(&before, &vec![Movement::Right]).snakes.is_empty());
    let before = board(vec![], vec![snake("a", 2, vec![p(5, 5), p(4, 5), p(3, 5)])]);
    let after = simulate(&before, &vec![Movement::Right]);
    assert_eq!(after.snakes.len(), 1);
    assert_eq!(after.snakes[0].health, 1);
}

#[test]
fn food_under_the_last_step_does_not_save_a_starved_agent() {
    let before = board(vec![p(6, 5)], vec![snake("a", 1, vec![p(5, 5), p(4, 5)])]);
    let after = simulate(&before, &vec![Movement::Right]);
    assert!(after.snakes.is_empty());
    assert_eq!(after.food, vec![p(6, 5)]);
}

#[test]
fn a_starved_agent_harms_nobody() {
    let before = board(
        vec![],
        vec![
            snake("a", 1, vec![p(4, 5), p(3, 5), p(2, 5)]),
            snake("b", 50, vec![p(6, 5), p(7, 5), p(8, 5)]),
        ],
    );
    let after = simulate(&before, &vec![Movement::Right, Movement::Left]);
    assert_eq!(after.snakes.len(), 1);
    assert_eq!(after.snakes[0].id, "b");
}

#[test]
fn survivors_keep_their_order_and_identity() {
    let before = board(
        vec![],
        vec![
            snake("a", 70, vec![p(1, 1), p(1, 2)]),
            snake("b", 70, vec![p(10, 5), p(9, 5)]),
            Snake {
                id: "c".to_string(),
                name: "third".to_string(),
                health: 30,
                body: vec![p(7, 7), p(7, 8)],
                shout: Some("hiss".to_string()),
            },
        ],
    );
    let after = simulate(&before, &vec![Movement::Up, Movement::Right, Movement::Left]);
    assert_eq!(after.snakes.len(), 2);
    assert_eq!(after.snakes[0].id, "a");
    assert_eq!(after.snakes[0].name, "name of a");
    assert_eq!(after.snakes[1].id, "c");
    assert_eq!(after.snakes[1].name, "third");
    assert_eq!(after.snakes[1].shout, Some("hiss".to_string()));
    assert_eq!(after.snakes[1].health, 29);
    assert_eq!(after.snakes[1].body, vec![p(6, 7), p(7, 7)]);
}

#[test]
fn food_that_nobody_reaches_stays_in_order() {
    let before = board(
        vec![p(0, 0), p(6, 5), p(9, 9), p(6, 5)],
        vec![snake("a", 50, vec![p(5, 5), p(4, 5)])],
    );
    let after = simulate(&before, &vec![Movement::Right]);
    assert_eq!(after.food, vec![p(0, 0), p(9, 9)]);
    assert_eq!(after.height, 11);
    assert_eq!(after.width, 11);
}

#[test]
fn food_under_a_dead_head_stays() {
    let before = board(
        vec![p(5, 5)],
        vec![
            snake("a", 70, vec![p(4, 5), p(3, 5), p(2, 5)]),
            snake("b", 70, vec![p(6, 5), p(7, 5), p(8, 5)]),
        ],
    );
    let after = simulate(&before, &vec![Movement::Right, Movement::Left]);
    assert!(after.snakes.is_empty());
    assert_eq!(after.food, vec![p(5, 5)]);
}

#[test]
fn a_body_of_one_cell_moves_as_one_cell() {
    let before = board(vec![], vec![snake("a", 50, vec![p(5, 5)])]);
    let after = simulate(&before, &vec![Movement::Down]);
    assert_eq!(after.snakes[0].body, vec![p(5, 6)]);
}

#[test]
fn stacked_segments_unfold_from_the_start() {
    let before = board(vec![], vec![snake("a", 100, vec![p(5, 5), p(5, 5), p(5, 5)])]);
    let after = simulate(&before, &vec![Movement::Up]);
    assert_eq!(after.snakes[0].body, vec![p(5, 4), p(5, 5), p(5, 5), p(5, 5)]);
    assert_eq!(after.snakes[0].health, 99);
}

#[test]
fn simulation_gives_the_same_board_every_time() {
    let before = board(
        vec![p(2, 2), p(6, 5)],
        vec![
            snake("a", 70, vec![p(5, 5), p(4, 5), p(3, 5)]),
            snake("b", 40, vec![p(8, 8), p(8, 9)]),
        ],
    );
    let dirs = vec![Movement::Right, Movement::Up];
    let first = simulate(&before, &dirs);
    let second = simulate(&before, &dirs);
    let third = simulate(&before.duplicate(), &dirs.clone());
    assert_eq!(first, second);
    assert_eq!(first, third);
    assert!(first.is_wf());
}

#[test]
fn an_empty_board_stays_empty() {
    let before = board(vec![p(1, 1)], vec![]);
    let after = simulate(&before, &vec![]);
    assert_eq!(after, before);
}
