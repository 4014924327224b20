use spell_combinator::effect::{update_effect, Damage, Effect, Effects, Move, MovePrep};
use spell_combinator::types::{Health, Position};

#[test]
fn damage_applies_in_one_tick() {
    let mut health = Health(20);
    let done = Damage::new(5).update(&mut health);
    assert!(done);
    assert_eq!(health, Health(15));
}

#[test]
fn damage_can_heal_when_negative() {
    let mut health = Health(20);
    let done = Damage::new(-3).update(&mut health);
    assert!(done);
    assert_eq!(health, Health(23));
}

#[test]
fn move_steps_one_unit_per_axis_and_finishes_on_arrival() {
    let walk = Move::new(Position { x: 2, y: 3 });
    let mut pos = Position { x: 0, y: 0 };
    assert!(!walk.update(&mut pos));
    assert_eq!(pos, Position { x: 1, y: 1 });
    assert!(!walk.update(&mut pos));
    assert_eq!(pos, Position { x: 2, y: 2 });
    assert!(!walk.update(&mut pos));
    assert_eq!(pos, Position { x: 2, y: 3 });
    // Standing on the target: the move reports finished and nothing moves.
    assert!(walk.update(&mut pos));
    assert_eq!(pos, Position { x: 2, y: 3 });
}

#[test]
fn move_toward_negative_coordinates() {
    let walk = Move::new(Position { x: -2, y: 0 });
    let mut pos = Position { x: 0, y: -1 };
    assert!(!walk.update(&mut pos));
    assert_eq!(pos, Position { x: -1, y: 0 });
}

#[test]
fn update_effect_pops_finished_damage() {
    let mut health = Health(30);
    let mut pos = Position { x: 0, y: 0 };
    let mut queue = Effects::new();
    queue.0.push_back(Effect::Damage(Damage::new(7)));
    queue.0.push_back(Effect::Damage(Damage::new(1)));
    update_effect(&mut health, &mut pos, &mut queue);
    assert_eq!(health, Health(23));
    assert_eq!(queue.0.len(), 1);
    update_effect(&mut health, &mut pos, &mut queue);
    assert_eq!(health, Health(22));
    assert!(queue.0.is_empty());
}

#[test]
fn update_effect_keeps_unfinished_move_at_front() {
    let mut health = Health(30);
    let mut pos = Position { x: 0, y: 0 };
    let mut queue = Effects::new();
    queue.0.push_back(Effect::Move(Move::new(Position { x: 2, y: 0 })));
    update_effect(&mut health, &mut pos, &mut queue);
    assert_eq!(pos, Position { x: 1, y: 0 });
    assert_eq!(queue.0.len(), 1);
    update_effect(&mut health, &mut pos, &mut queue);
    assert_eq!(pos, Position { x: 2, y: 0 });
    assert_eq!(queue.0.len(), 1);
    // Arrived: the next tick retires the move without displacement.
    update_effect(&mut health, &mut pos, &mut queue);
    assert_eq!(pos, Position { x: 2, y: 0 });
    assert!(queue.0.is_empty());
    assert_eq!(health, Health(30));
}

#[test]
fn update_effect_on_empty_queue_changes_nothing() {
    let mut health = Health(11);
    let mut pos = Position { x: 4, y: 4 };
    let mut queue = Effects::new();
    update_effect(&mut health, &mut pos, &mut queue);
    assert_eq!(health, Health(11));
    assert_eq!(pos, Position { x: 4, y: 4 });
    assert!(queue.0.is_empty());
}

#[test]
fn move_prep_compiles_once_target_is_picked() {
    let mut prep = MovePrep::new();
    assert!(prep.compile().is_none());
    prep.unit = Some(12);
    assert!(prep.compile().is_none());
    prep.target = Some(Position { x: 9, y: -9 });
    let walk = prep.compile().expect("a picked target compiles");
    assert_eq!(walk.target, Position { x: 9, y: -9 });
}
