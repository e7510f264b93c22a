use robot_arena::model::{
    add_angles, drive_of, gun_angle_of, BodyId, Bullet, Drive, Point, Rgb, ACTUATOR_ONE,
    ARENA_HEIGHT, ARENA_WIDTH, BULLET_TTL_MS, FIRE_COOLDOWN_MS, SPAWN_MARGIN,
};
use robot_arena::protocol::{Actuator, Command, CommandError};
use robot_arena::session::{add_to_reponse, ClientHandler, CONNECTION_TIMEOUT_SECS};
use robot_arena::world::{shoot_ball, AddError, BodyState, GameLogic, Reply};

fn body(index: u32) -> BodyId {
    BodyId { index, generation: 0 }
}

fn two_robots() -> (GameLogic, u32, u32) {
    let mut world = GameLogic::new();
    let a = world.add_entity("A".to_string(), body(1), Point { x: 100_000, y: 100_000 }, 0).unwrap();
    let b = world.add_entity("B".to_string(), body(2), Point { x: 300_000, y: 100_000 }, 0).unwrap();
    (world, a, b)
}

fn entity<'a>(world: &'a GameLogic, id: u32) -> &'a robot_arena::model::Entity {
    &world.entities[world.find_entity(id).unwrap()]
}

fn in_spawn_area(p: Point) -> bool {
    SPAWN_MARGIN <= p.x && p.x < ARENA_WIDTH - SPAWN_MARGIN && SPAWN_MARGIN <= p.y
        && p.y < ARENA_HEIGHT - SPAWN_MARGIN
}

#[test]
fn drive_formula_values() {
    assert_eq!(drive_of(ACTUATOR_ONE, ACTUATOR_ONE), Drive { forward: 100_000_000, rotation: 0 });
    assert_eq!(drive_of(0, ACTUATOR_ONE), Drive { forward: 0, rotation: 5_000_000 });
    assert_eq!(drive_of(500_000, 500_000), Drive { forward: 0, rotation: 0 });
}

#[test]
fn turret_angle_values() {
    assert_eq!(gun_angle_of(250_000), 1_570_796);
    assert_eq!(gun_angle_of(ACTUATOR_ONE), 0);
    assert_eq!(gun_angle_of(-250_000), 4_712_388);
    assert_eq!(add_angles(6_000_000, 1_000_000), 716_815);
}

#[test]
fn traverse_command_turns_the_turret_next_tick() {
    let (mut world, a, _) = two_robots();
    assert!(world.bind(7, a));
    let mut conn = ClientHandler::new(7, 0);
    let out = conn.handle_received_message(&mut world, 27, "ACTUATOR_GUN_TRAVERSE=0.25\n", 1);
    assert!(!out.closed);
    assert_eq!(out.replies.len(), 1);
    assert!(matches!(out.replies[0], Reply::ActuatorSet(Actuator::GunTraverse, 250_000)));
    assert_eq!(entity(&world, a).gun_traverse, 250_000);
    world.apply_actuators(2);
    assert_eq!(entity(&world, a).gun_orientation, 1_570_796);
}

#[test]
fn color_commands_through_a_connection() {
    let (mut world, a, _) = two_robots();
    assert!(world.bind(7, a));
    let mut conn = ClientHandler::new(7, 0);
    let out = conn.handle_received_message(&mut world, 20, "SET_COLOR=255=0=255\n", 1);
    assert!(matches!(out.replies[0], Reply::ColorSet(Rgb { r: 255, g: 0, b: 255 })));
    assert_eq!(entity(&world, a).color, Rgb { r: 255, g: 0, b: 255 });
    world.entities[0].color = Rgb { r: 1, g: 2, b: 3 };
    let out = conn.handle_received_message(&mut world, 11, "SET_COLOR=\n", 2);
    assert!(matches!(out.replies[0], Reply::Refused(CommandError::InvalidHex)));
    assert_eq!(entity(&world, a).color, Rgb { r: 1, g: 2, b: 3 });
}

#[test]
fn unbound_connection_finds_no_entity() {
    let (mut world, _, _) = two_robots();
    let mut conn = ClientHandler::new(9, 0);
    let out = conn.handle_received_message(&mut world, 15, "SET_NAME=ghost\n", 1);
    assert!(matches!(out.replies[0], Reply::EntityNotFound));
}

#[test]
fn aimed_shot_hits_other_robot() {
    let (mut world, a, b) = two_robots();
    let cmd = Command::Actuate(Actuator::GunTrigger, ACTUATOR_ONE);
    assert!(matches!(world.apply_command(a, &cmd), Reply::ActuatorSet(Actuator::GunTrigger, _)));
    let now = FIRE_COOLDOWN_MS;
    let acts = world.apply_actuators(now);
    let shot = acts[0].shot.expect("A fires");
    assert_eq!(shot.shooter, body(1));
    assert!(acts[1].shot.is_none());
    assert_eq!(entity(&world, a).last_shot, now);
    assert!(world.add_bullet(Bullet::new(body(3), shot.shooter, now, Point { x: 120_000, y: 100_000 })));
    assert_eq!(world.bullets.len(), 1);
    let report = world.step(&vec![(body(3), body(2))], &Vec::new(), now + 10);
    assert_eq!(report.bullets.len(), 1);
    assert_eq!(report.bullets[0].handle, body(3));
    assert_eq!(world.bullets.len(), 0);
    assert_eq!(report.entities.len(), 1);
    assert_eq!(report.entities[0].id, b);
    assert_eq!(report.entities[0].health, 0);
    assert_eq!(entity(&world, a).score, 1);
    assert_eq!(entity(&world, a).health, 1);
    assert!(world.find_entity(b).is_none());
}

#[test]
fn cooldown_blocks_second_shot() {
    let (mut world, a, _) = two_robots();
    world.apply_command(a, &Command::Actuate(Actuator::GunTrigger, ACTUATOR_ONE));
    assert!(world.apply_actuators(FIRE_COOLDOWN_MS)[0].shot.is_some());
    assert!(world.apply_actuators(FIRE_COOLDOWN_MS + 1)[0].shot.is_none());
    assert!(world.apply_actuators(2 * FIRE_COOLDOWN_MS)[0].shot.is_some());
}

#[test]
fn shooter_takes_no_damage_from_own_bullet() {
    let (mut world, a, _) = two_robots();
    assert!(world.add_bullet(Bullet::new(body(3), body(1), 0, Point { x: 100_000, y: 100_000 })));
    let (gone, dead) = world.handle_collisions(&vec![(body(1), body(3))]);
    assert_eq!(gone.len(), 1);
    assert_eq!(dead.len(), 0);
    assert_eq!(entity(&world, a).health, 1);
    assert_eq!(entity(&world, a).score, 0);
}

#[test]
fn bullet_is_removed_once_even_when_hit_twice() {
    let (mut world, a, b) = two_robots();
    let c = world.add_entity("C".to_string(), body(4), Point { x: 500_000, y: 500_000 }, 0).unwrap();
    assert!(world.add_bullet(Bullet::new(body(3), body(1), 0, Point { x: 1, y: 1 })));
    assert!(world.add_bullet(Bullet::new(body(5), body(1), 0, Point { x: 2, y: 2 })));
    let (gone, dead) = world.handle_collisions(&vec![(body(3), body(2)), (body(4), body(3))]);
    assert_eq!(gone.len(), 1);
    assert_eq!(gone[0].handle, body(3));
    assert_eq!(world.bullets.len(), 1);
    assert_eq!(world.bullets[0].handle, body(5));
    assert_eq!(dead.len(), 1);
    assert_eq!(dead[0].id, b);
    assert_eq!(entity(&world, c).health, 1);
    assert_eq!(entity(&world, a).score, 1);
}

#[test]
fn shooter_gone_still_damages_without_score() {
    let (mut world, a, b) = two_robots();
    assert!(world.add_bullet(Bullet::new(body(3), body(9), 0, Point { x: 1, y: 1 })));
    let (_, dead) = world.handle_collisions(&vec![(body(2), body(3))]);
    assert_eq!(dead.len(), 1);
    assert_eq!(dead[0].id, b);
    assert_eq!(entity(&world, a).score, 0);
}

#[test]
fn expired_and_outside_bullets_are_reaped() {
    let (mut world, _, _) = two_robots();
    assert!(world.add_bullet(Bullet::new(body(3), body(1), 0, Point { x: 10, y: 10 })));
    assert!(world.add_bullet(Bullet::new(body(4), body(1), 1_000, Point { x: 10, y: 10 })));
    assert!(world.add_bullet(Bullet::new(body(5), body(1), 1_000, Point { x: 10, y: 10 })));
    let states = vec![BodyState { handle: body(5), position: Point { x: -1, y: 10 }, heading: 0 }];
    let report = world.step(&Vec::new(), &states, BULLET_TTL_MS);
    assert_eq!(report.bullets.len(), 2);
    assert_eq!(world.bullets.len(), 1);
    assert_eq!(world.bullets[0].handle, body(4));
    let report = world.step(&Vec::new(), &Vec::new(), 1_000 + BULLET_TTL_MS - 1);
    assert_eq!(report.bullets.len(), 0);
    let report = world.step(&Vec::new(), &Vec::new(), 1_000 + BULLET_TTL_MS);
    assert_eq!(report.bullets.len(), 1);
    assert_eq!(world.bullets.len(), 0);
}

#[test]
fn sync_takes_reported_pose() {
    let (mut world, a, _) = two_robots();
    let states = vec![BodyState { handle: body(1), position: Point { x: 5, y: 6 }, heading: -1 }];
    world.sync_bodies(&states);
    assert_eq!(entity(&world, a).position, Point { x: 5, y: 6 });
    assert_eq!(entity(&world, a).heading, 6_283_184);
}

#[test]
fn reset_clears_scores_and_bullets() {
    let (mut world, a, _) = two_robots();
    world.entities[0].score = 4;
    assert!(world.add_bullet(Bullet::new(body(3), body(1), 0, Point { x: 1, y: 1 })));
    let removed = world.reset_simulation();
    assert_eq!(removed.len(), 1);
    assert_eq!(world.bullets.len(), 0);
    for e in &world.entities {
        assert_eq!(e.score, 0);
        assert!(in_spawn_area(e.position));
    }
    assert_eq!(entity(&world, a).name, "A");
}

#[test]
fn generate_map_places_obstacles() {
    let (mut world, _, _) = two_robots();
    let (old, placed) = world.generate_map();
    assert_eq!(old.len(), 0);
    assert_eq!(placed.len(), 25);
    assert!(placed.iter().all(|p| in_spawn_area(*p)));
    assert!(world.entities.iter().all(|e| in_spawn_area(e.position)));
}

#[test]
fn ids_are_fresh_and_handles_unique() {
    let (mut world, a, b) = two_robots();
    assert_eq!((a, b), (1, 2));
    assert_eq!(world.next_entity_id(), 3);
    assert_eq!(
        world.add_entity("C".to_string(), body(1), Point { x: 0, y: 0 }, 0),
        Err(AddError::HandleInUse)
    );
    assert!(world.remove_entity_by_id(b).is_some());
    let c = world.add_ai("bot".to_string(), body(6), Point { x: 0, y: 0 }, 0).unwrap();
    assert_eq!(c, 3);
    assert!(entity(&world, c).is_ai);
    world.next_id = u32::MAX;
    assert_eq!(
        world.add_entity("D".to_string(), body(7), Point { x: 0, y: 0 }, 0),
        Err(AddError::IdsExhausted)
    );
}

#[test]
fn removal_drops_binding() {
    let (mut world, a, b) = two_robots();
    assert!(world.bind(7, a));
    assert!(world.bind(8, b));
    assert!(!world.bind(7, b));
    assert_eq!(world.bound_entity(7), Some(a));
    let removed = world.remove_entity_by_id(a).unwrap();
    assert_eq!(removed.handle, body(1));
    assert_eq!(world.bound_entity(7), None);
    assert_eq!(world.bound_entity(8), Some(b));
    assert!(world.remove_entity_by_id(a).is_none());
}

#[test]
fn quit_and_hangup_close_the_connection() {
    let (mut world, a, b) = two_robots();
    assert!(world.bind(7, a));
    assert!(world.bind(8, b));
    let mut conn = ClientHandler::new(7, 0);
    let out = conn.handle_received_message(&mut world, 30, "SET_NAME=x;QUIT;SET_NAME=y\n", 5);
    assert!(out.closed);
    assert_eq!(out.replies.len(), 1);
    assert_eq!(out.removed.unwrap().name, "x");
    assert!(world.find_entity(a).is_none());
    assert_eq!(conn.previous_time, 5);
    let mut other = ClientHandler::new(8, 0);
    let out = other.handle_received_message(&mut world, 0, "", 6);
    assert!(out.closed);
    assert!(world.find_entity(b).is_none());
    assert!(!other.open);
}

#[test]
fn silent_connection_times_out() {
    let (mut world, a, _) = two_robots();
    assert!(world.bind(7, a));
    let mut conn = ClientHandler::new(7, 100);
    assert!(!conn.check_timeout(&mut world, 100 + CONNECTION_TIMEOUT_SECS).0);
    assert!(world.find_entity(a).is_some());
    let (timed_out, removed) = conn.check_timeout(&mut world, 101 + CONNECTION_TIMEOUT_SECS);
    assert!(timed_out);
    assert_eq!(removed.unwrap().id, a);
    assert!(world.find_entity(a).is_none());
    assert_eq!(world.bound_entity(7), None);
}

#[test]
fn ai_moves_and_fires() {
    let mut world = GameLogic::new();
    let id = world.add_ai("bot".to_string(), body(1), Point { x: 100_000, y: 100_000 }, 0).unwrap();
    let orders = world.update_ai(1_000);
    assert_eq!(orders.len(), 1);
    let shot = orders[0].shot.expect("fires after the interval");
    assert_eq!(shot.muzzle, 0);
    assert!(0 <= shot.angle && shot.angle < 6_283_185);
    let e = entity(&world, id);
    assert!(in_spawn_area(e.target));
    assert!(e.retarget_at >= 2_000 && e.retarget_at <= 4_000);
    assert_eq!(e.last_shot, 1_000);
    assert!(world.update_ai(1_100)[0].shot.is_none());
}

#[test]
fn response_joining() {
    assert_eq!(add_to_reponse(String::new(), "a".to_string()), "a");
    assert_eq!(add_to_reponse("a".to_string(), "b".to_string()), "a;b");
}

#[test]
fn shot_leaves_through_the_muzzle() {
    let (mut world, a, _) = two_robots();
    {
        let e = world.get_entity_mut(a).unwrap();
        e.gun_trigger = ACTUATOR_ONE;
        e.heading = 1_000_000;
        e.gun_orientation = 0;
    }
    let shot = shoot_ball(entity(&world, a), FIRE_COOLDOWN_MS).unwrap();
    assert_eq!(shot.angle, 4_141_592);
    assert_eq!(shot.muzzle, 20_000);
    assert!(shoot_ball(entity(&world, a), FIRE_COOLDOWN_MS - 1).is_none());
    world.get_entity_mut(a).unwrap().gun_trigger = 500_000;
    assert!(shoot_ball(entity(&world, a), FIRE_COOLDOWN_MS).is_some());
    assert!(world.apply_actuators(FIRE_COOLDOWN_MS)[0].shot.is_none());
    assert!(world.get_entity_mut(99).is_none());
}

#[test]
fn random_points_vary() {
    let (mut world, _, _) = two_robots();
    let (_, placed) = world.generate_map();
    assert!(placed.iter().any(|p| *p != placed[0]));
    assert!(placed.iter().any(|p| p.x != SPAWN_MARGIN || p.y != SPAWN_MARGIN));
}

#[test]
fn actuator_values_outside_unit_range_are_refused() {
    let (mut world, a, _) = two_robots();
    assert!(world.bind(7, a));
    let mut conn = ClientHandler::new(7, 0);
    let out = conn.handle_received_message(
        &mut world,
        60,
        "ACTUATOR_MOTOR_LEFT=2;ACTUATOR_GUN_TRIGGER=-0.5;ACTUATOR_MOTOR_RIGHT=1\n",
        1,
    );
    assert_eq!(out.replies.len(), 3);
    assert!(matches!(out.replies[0], Reply::Refused(CommandError::OutOfRange)));
    assert!(matches!(out.replies[1], Reply::Refused(CommandError::OutOfRange)));
    assert!(matches!(out.replies[2], Reply::ActuatorSet(Actuator::MotorRight, 1_000_000)));
    assert_eq!(entity(&world, a).motor_left, 500_000);
    assert_eq!(entity(&world, a).gun_trigger, 0);
    assert_eq!(entity(&world, a).motor_right, ACTUATOR_ONE);
}

#[test]
fn disconnect_without_binding_changes_nothing() {
    let (mut world, a, b) = two_robots();
    assert!(world.bind(8, b));
    let mut conn = ClientHandler::new(7, 0);
    assert!(conn.handle_disconnection(&mut world).is_none());
    assert!(!conn.open);
    assert_eq!(world.bound_entity(8), Some(b));
    assert!(world.find_entity(a).is_some());
    assert_eq!(world.entities.len(), 2);
}
