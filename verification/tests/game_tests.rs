use evosim::setup::entity::{network_shapes, random_layout, Entity, HIDDEN_NODES};
use evosim::setup::food::Food;
use evosim::setup::{archive_slot, measure_reach, random_position, Game, Reach};
use evosim::update::{remove_marked, ENTITY_SPAWN, FOOD_SPAWN, MAX_FOODS, START_FOODS};

fn game_with(times: &[u64]) -> Game<u32, u32> {
    let mut g: Game<u32, u32> = Game::new();
    for (k, t) in times.iter().enumerate() {
        Entity::new((k as i32 * 100, 0), 3, k as u32, &mut g);
        g.entities[k].surival_time = *t;
    }
    g
}

#[test]
fn new_game_is_empty() {
    let g: Game<(), ()> = Game::new();
    assert_eq!(g.x, 10);
    assert_eq!(g.mouse_position, (0, 0));
    assert!(g.entities.is_empty());
    assert!(g.foods.is_empty());
    assert!(g.all_entities_created.is_empty());
    assert_eq!(g.last_food, 0);
    assert_eq!(g.best_entity, 0);
}

#[test]
fn constants() {
    assert_eq!(START_FOODS, 20);
    assert_eq!(FOOD_SPAWN, 10);
    assert_eq!(MAX_FOODS, 60);
    assert_eq!(ENTITY_SPAWN, 11);
    assert_eq!(HIDDEN_NODES, [10, 10, 10, 10, 10]);
}

#[test]
fn new_entity_is_recorded() {
    let mut g: Game<&str, ()> = Game::new();
    Entity::new((5, 6), 4, "first", &mut g);
    Entity::new((7, 8), 2, "second", &mut g);
    assert_eq!(g.entities.len(), 2);
    assert_eq!(g.all_entities_created.len(), 2);
    assert_eq!(g.entities[1].pos, (7, 8));
    assert_eq!(g.entities[1].all_index, 1);
    assert_eq!(g.entities[1].vision_arcs, 2);
    assert_eq!(g.entities[1].surival_time, 0);
    assert_eq!(g.all_entities_created[0].body, "first");
    assert_eq!(g.entities[0].body, "first");
}

#[test]
fn template_entity_lands_in_window() {
    let mut g: Game<(), ()> = Game::new();
    for _ in 0..50 {
        Entity::new_from_template(5, (), 40, 30, &mut g);
    }
    for e in &g.entities {
        assert!(0 <= e.pos.0 && e.pos.0 < 40);
        assert!(0 <= e.pos.1 && e.pos.1 < 30);
        assert_eq!(e.vision_arcs, 5);
    }
    assert_eq!(g.entities[49].all_index, 49);
}

#[test]
fn kill_archives_and_swaps() {
    let mut g = game_with(&[5, 9, 2]);
    let r = g.kill(0);
    assert_eq!(r.all_index, 0);
    assert_eq!(r.surival_time, 5);
    assert!(!r.new_best);
    assert_eq!(g.best_entity, 0);
    assert_eq!(g.entities.len(), 2);
    assert_eq!(g.entities[0].body, 2);
    assert_eq!(g.entities[1].body, 1);
    assert_eq!(g.all_entities_created[0].surival_time, 5);
    let r = g.kill(1);
    assert_eq!(r.all_index, 1);
    assert!(r.new_best);
    assert_eq!(g.best_entity, 1);
    let r = g.kill(0);
    assert_eq!(r.all_index, 2);
    assert!(!r.new_best);
    assert_eq!(g.best_entity, 1);
    assert!(g.entities.is_empty());
}

#[test]
fn kill_marked_removes_exactly_the_marked() {
    let mut g = game_with(&[1, 2, 3, 4, 5]);
    let reports = g.kill_marked(&vec![1, 3, 4]);
    let order: Vec<usize> = reports.iter().map(|r| r.all_index).collect();
    assert_eq!(order, vec![4, 3, 1]);
    let mut left: Vec<u32> = g.entities.iter().map(|e| e.body).collect();
    left.sort();
    assert_eq!(left, vec![0, 2]);
    assert_eq!(g.best_entity, 4);
    assert_eq!(g.all_entities_created[3].surival_time, 4);
}

#[test]
fn remove_marked_keeps_the_unmarked() {
    let mut v = vec!['a', 'b', 'c', 'd', 'e', 'f'];
    remove_marked(&mut v, &vec![0, 2, 5]);
    assert_eq!(v, vec!['d', 'b', 'e']);
    let mut w = vec![1, 2, 3];
    remove_marked(&mut w, &vec![]);
    assert_eq!(w, vec![1, 2, 3]);
}

#[test]
fn offspring_appears_offset_and_shares_record() {
    let mut g = game_with(&[7]);
    g.entities[0].pos = (400, 300);
    let parent = g.entities[0].clone();
    g.offspring_of(&parent, 99);
    assert_eq!(g.entities.len(), 2);
    assert_eq!(g.entities[1].pos, (250, 150));
    assert_eq!(g.entities[1].all_index, 0);
    assert_eq!(g.entities[1].surival_time, 7);
    assert_eq!(g.entities[1].body, 99);
    assert_eq!(g.all_entities_created.len(), 1);
}

#[test]
fn foods_spawn_when_timer_fires_and_room() {
    let mut g: Game<(), ()> = Game::new();
    let p = g.spawn_foods(0, 10, 60, 100, 80);
    assert!(p.is_empty());
    let p = g.spawn_foods(3, 10, 60, 100, 80);
    assert_eq!(p.len(), 10);
    assert_eq!(g.last_food, 3);
    for q in &p {
        assert!(0 <= q.0 && q.0 < 100 && 0 <= q.1 && q.1 < 80);
    }
    let p = g.spawn_foods(3, 10, 60, 100, 80);
    assert!(p.is_empty());
    for q in [(1, 1), (2, 2)] {
        g.foods.push(Food::new(q, ()));
    }
    let p = g.spawn_foods(4, 10, 2, 100, 80);
    assert!(p.is_empty());
    assert_eq!(g.last_food, 3);
}

#[test]
fn entity_spawns_while_few() {
    let g = game_with(&[1, 1]);
    let s = g.spaw_entities(3, 50, 50).unwrap();
    assert!(0 <= s.0 && s.0 < 50 && 0 <= s.1 && s.1 < 50);
    assert!(g.spaw_entities(2, 50, 50).is_none());
}

#[test]
fn first_entity_in_reach_eats() {
    let mut g = game_with(&[0, 0, 0]);
    g.entities[0].pos = (0, 0);
    g.entities[1].pos = (110, 110);
    g.entities[2].pos = (100, 100);
    let food = Food::new((100, 130), 0u32);
    assert_eq!(g.entities_eat(&food).unwrap(), Some(1));
    let far = Food::new((121, 122), 0u32);
    g.entities[1].pos = (100, 100);
    assert_eq!(g.entities_eat(&far).unwrap(), None);
}

#[test]
fn reach_edges() {
    assert!(matches!(measure_reach((30, 0), (0, 0)), Reach::Near));
    assert!(matches!(measure_reach((31, 0), (0, 0)), Reach::Far));
    assert!(matches!(measure_reach((18, 24), (0, 0)), Reach::Near));
    assert!(matches!(measure_reach((21, 22), (0, 0)), Reach::Far));
    assert!(matches!(measure_reach((i32::MAX, 0), (-1, 0)), Reach::Overflow));
    assert!(matches!(measure_reach((50000, 0), (0, 0)), Reach::Overflow));
    assert!(matches!(measure_reach((40000, 0), (0, 0)), Reach::Far));
}

#[test]
fn unmeasurable_reach_is_an_error() {
    let mut g = game_with(&[0, 0]);
    g.entities[0].pos = (i32::MIN, 0);
    g.entities[1].pos = (5, 5);
    assert!(g.entities_eat(&Food::new((5, 5), 0u32)).is_err());
    g.entities[0].pos = (5, 6);
    assert_eq!(g.entities_eat(&Food::new((5, 5), 0u32)).unwrap(), Some(0));
}

#[test]
fn ranking_sorts_by_survival_then_position() {
    let mut g = game_with(&[4, 1, 4, 0]);
    g.all_entities_created[0].surival_time = 4;
    g.all_entities_created[1].surival_time = 1;
    g.all_entities_created[2].surival_time = 4;
    g.all_entities_created[3].surival_time = 0;
    assert_eq!(g.survival_ranking(), vec![(0, 3), (1, 1), (4, 0), (4, 2)]);
    let e: Game<(), ()> = Game::new();
    assert!(e.survival_ranking().is_empty());
}

#[test]
fn three_longest_survivors_are_saved() {
    let slots: Vec<Option<usize>> = (0..6).map(|i| archive_slot(6, i)).collect();
    assert_eq!(slots, vec![None, None, None, Some(2), Some(1), Some(0)]);
    assert_eq!(archive_slot(4, 0), None);
    assert_eq!(archive_slot(4, 1), Some(2));
}

#[test]
fn network_shapes_chain() {
    assert_eq!(
        network_shapes(3),
        vec![(10, 9), (10, 10), (10, 10), (10, 10), (10, 10), (2, 10)]
    );
    let s = network_shapes(8);
    assert_eq!(s[0], (10, 24));
    for k in 0..s.len() - 1 {
        assert_eq!(s[k + 1].1, s[k].0);
    }
}

#[test]
fn random_layout_draws_two_to_eight_arcs() {
    for _ in 0..100 {
        let l = random_layout();
        assert!(2 <= l.vision_arcs && l.vision_arcs < 9);
        assert_eq!(l.shapes, network_shapes(l.vision_arcs));
    }
}

#[test]
fn random_position_stays_in_window() {
    for _ in 0..200 {
        let p = random_position(3, 2);
        assert!(0 <= p.0 && p.0 < 3 && 0 <= p.1 && p.1 < 2);
    }
    assert_eq!(random_position(1, 1), (0, 0));
}

#[test]
fn food_new_holds_position() {
    let f = Food::new((3, 4), 6500u32);
    assert_eq!(f.pos, (3, 4));
    assert_eq!(f.body, 6500);
    let c = f.clone();
    assert_eq!(c.pos, (3, 4));
}

#[test]
fn meals_of_a_frame() {
    let mut g = game_with(&[0, 0, 0]);
    g.entities[0].pos = (0, 0);
    g.entities[1].pos = (500, 500);
    g.entities[2].pos = (10, 0);
    g.foods.push(Food::new((5, 0), 0u32));
    g.foods.push(Food::new((300, 300), 1u32));
    g.foods.push(Food::new((510, 505), 2u32));
    g.foods.push(Food::new((35, 0), 3u32));
    assert_eq!(g.meals().unwrap(), vec![(0, 0), (2, 1), (3, 2)]);
    let eaten: Vec<usize> = g.meals().unwrap().iter().map(|m| m.0).collect();
    remove_marked(&mut g.foods, &eaten);
    assert_eq!(g.foods.len(), 1);
    assert_eq!(g.foods[0].body, 1);
}

#[test]
fn meals_fail_when_reach_unmeasurable() {
    let mut g = game_with(&[0]);
    g.entities[0].pos = (i32::MAX, 0);
    g.foods.push(Food::new((-5, 0), 0u32));
    assert!(g.meals().is_err());
    let empty: Game<(), u32> = Game::new();
    assert!(empty.meals().unwrap().is_empty());
}
