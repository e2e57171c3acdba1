use tower_defense::bullet::{Bullet, LifeTime};
use tower_defense::geometry::{Vec3, UNIT};
use tower_defense::target::{Health, Target};
use tower_defense::timer::{Timer, TimerMode};
use tower_defense::tower::{Shot, Tower};
use tower_defense::world::{Config, World};

const SECOND: i64 = 1_000_000;

fn config() -> Config {
    Config { bullet_speed: 5000, bullet_lifetime: 3_000_000, hit_radius: 500, damage: 1 }
}

fn tower() -> Tower {
    Tower {
        shoot_cooldown: Timer::from_seconds(1, TimerMode::Repeating),
        bullet_offset: Vec3::new(0, 0, 0),
    }
}

fn shot(x: i32, lifetime: u64) -> Shot {
    Shot {
        owner: 0,
        position: Vec3::new(x, 0, 0),
        bullet: Bullet { direction: Vec3::new(UNIT, 0, 0), speed: 5000 },
        lifetime: LifeTime { timer: Timer::new(lifetime, TimerMode::Once) },
    }
}

#[test]
fn default_config_holds_the_usual_values() {
    assert_eq!(Config::default(), config());
}

#[test]
fn new_world_is_empty() {
    let world = World::new(config());
    assert!(world.towers().is_empty());
    assert!(world.targets().is_empty());
    assert!(world.bullets().is_empty());
    assert_eq!(world.config(), config());
}

#[test]
fn handles_are_given_out_in_order() {
    let mut world = World::new(config());
    assert_eq!(world.spawn_tower(Vec3::new(0, 0, 0), tower()), Some(0));
    assert_eq!(
        world.spawn_target(Vec3::new(1, 0, 0), Target { speed: 0 }, Health { value: 10 }),
        Some(1)
    );
    assert_eq!(world.spawn_bullet(shot(0, 3_000_000)), Some(2));
    assert_eq!(world.spawn_tower(Vec3::new(5, 0, 0), tower()), Some(3));
    assert_eq!(world.towers()[1].handle, 3);
    assert_eq!(world.targets()[0].handle, 1);
    assert_eq!(world.bullets()[0].handle, 2);
    assert_eq!(world.bullets()[0].owner, 0);
}

#[test]
fn tower_shoots_a_standing_target() {
    let mut world = World::new(config());
    let tower_handle = world.spawn_tower(Vec3::new(0, 0, 0), tower()).unwrap();
    world.spawn_target(Vec3::new(10_000, 0, 0), Target { speed: 0 }, Health { value: 10 });

    world.tick(SECOND);
    assert_eq!(world.bullets().len(), 1);
    let first = world.bullets()[0];
    assert_eq!(first.bullet.direction, Vec3::new(UNIT, 0, 0));
    assert_eq!(first.bullet.speed, 5000);
    assert_eq!(first.position, Vec3::new(0, 0, 0));
    assert_eq!(first.owner, tower_handle);
    assert_eq!(first.lifetime.timer.elapsed, 0);
    assert_eq!(world.targets()[0].health.value, 10);

    world.tick(SECOND);
    assert_eq!(world.bullets().len(), 2);
    assert_eq!(world.bullets()[0].handle, first.handle);
    assert_eq!(world.bullets()[0].position, Vec3::new(5000, 0, 0));
    assert_eq!(world.targets()[0].health.value, 10);

    world.tick(SECOND);
    assert_eq!(world.targets()[0].health.value, 9);
    assert!(world.bullets().iter().all(|b| b.handle != first.handle));
    assert_eq!(world.bullets().len(), 2);
    assert_eq!(world.bullets()[0].position, Vec3::new(5000, 0, 0));
    assert_eq!(world.bullets()[1].position, Vec3::new(0, 0, 0));
    assert_eq!(world.targets()[0].position, Vec3::new(10_000, 0, 0));
}

#[test]
fn no_target_no_projectile() {
    let mut world = World::new(config());
    world.spawn_tower(Vec3::new(0, 0, 0), tower());
    for _ in 0..10 {
        world.tick(SECOND);
        assert!(world.bullets().is_empty());
        assert!(world.towers()[0].tower.shoot_cooldown.just_completed());
    }
    assert_eq!(world.towers().len(), 1);
}

#[test]
fn target_dies_when_its_health_is_used_up() {
    let mut world = World::new(config());
    world.spawn_tower(Vec3::new(0, 0, 0), tower());
    let target = world
        .spawn_target(Vec3::new(10_000, 0, 0), Target { speed: 0 }, Health { value: 2 })
        .unwrap();
    world.run(&vec![SECOND, SECOND, SECOND]);
    assert_eq!(world.targets()[0].health.value, 1);
    world.tick(SECOND);
    assert!(world.targets().iter().all(|t| t.handle != target));
    assert!(world.targets().is_empty());
    let in_flight = world.bullets().len();
    assert_eq!(in_flight, 2);
    world.tick(SECOND);
    assert_eq!(world.bullets().len(), in_flight);
}

#[test]
fn bullet_expires_after_its_lifetime() {
    let mut world = World::new(config());
    let handle = world.spawn_bullet(shot(0, 3_000_000)).unwrap();
    world.tick(SECOND);
    world.tick(SECOND);
    assert_eq!(world.bullets().len(), 1);
    assert_eq!(world.bullets()[0].handle, handle);
    assert_eq!(world.bullets()[0].position, Vec3::new(10_000, 0, 0));
    assert_eq!(world.bullets()[0].lifetime.timer.elapsed, 2_000_000);
    world.tick(999_999);
    assert_eq!(world.bullets().len(), 1);
    world.tick(1);
    assert!(world.bullets().is_empty());
}

#[test]
fn expiry_is_no_hit() {
    let mut world = World::new(config());
    world.spawn_target(Vec3::new(5000, 0, 0), Target { speed: 0 }, Health { value: 10 });
    world.spawn_bullet(shot(0, 1_000_000));
    world.tick(SECOND);
    assert!(world.bullets().is_empty());
    assert_eq!(world.targets()[0].health.value, 10);
}

#[test]
fn a_new_bullet_waits_one_tick_before_it_collides() {
    let mut world = World::new(config());
    world.spawn_tower(Vec3::new(0, 0, 0), tower());
    world.spawn_target(Vec3::new(100, 0, 0), Target { speed: 0 }, Health { value: 10 });
    world.tick(SECOND);
    assert_eq!(world.bullets().len(), 1);
    assert_eq!(world.targets()[0].health.value, 10);
    world.tick(1);
    assert_eq!(world.bullets().len(), 0);
    assert_eq!(world.targets()[0].health.value, 9);
}

#[test]
fn negative_samples_change_nothing_but_the_edge_flags() {
    let mut world = World::new(config());
    world.spawn_tower(Vec3::new(0, 0, 0), tower());
    world.spawn_target(Vec3::new(10_000, 0, 0), Target { speed: 500 }, Health { value: 10 });
    world.tick(400_000);
    let towers = world.towers().clone();
    let targets = world.targets().clone();
    world.tick(-5 * SECOND);
    world.tick(0);
    assert_eq!(*world.towers(), towers);
    assert_eq!(*world.targets(), targets);
    assert!(world.bullets().is_empty());
}

#[test]
fn despawn_of_unknown_handles_is_a_no_op() {
    let mut world = World::new(config());
    let t = world.spawn_tower(Vec3::new(0, 0, 0), tower()).unwrap();
    let g = world
        .spawn_target(Vec3::new(10_000, 0, 0), Target { speed: 0 }, Health { value: 10 })
        .unwrap();
    let b = world.spawn_bullet(shot(0, 3_000_000)).unwrap();
    world.despawn_all(&vec![77, 78, u64::MAX]);
    assert_eq!(world.towers().len(), 1);
    assert_eq!(world.targets().len(), 1);
    assert_eq!(world.bullets().len(), 1);
    world.despawn_all(&vec![b, b, 77]);
    assert!(world.bullets().is_empty());
    world.despawn_all(&vec![b]);
    world.despawn_all(&vec![g, t]);
    assert!(world.towers().is_empty());
    assert!(world.targets().is_empty());
    world.despawn_all(&Vec::new());
}

#[test]
fn equal_runs_end_in_equal_worlds() {
    let build = || {
        let mut world = World::new(config());
        world.spawn_tower(Vec3::new(0, 500, 0), tower());
        world.spawn_tower(Vec3::new(3000, 500, -2000), tower());
        world.spawn_target(Vec3::new(-5000, 500, 2000), Target { speed: 500 }, Health { value: 3 });
        world.spawn_target(Vec3::new(4000, 500, 4000), Target { speed: -250 }, Health { value: 5 });
        world
    };
    let deltas: Vec<i64> = (0..400).map(|i| 16_000 + (i % 7) * 1_000).collect();
    let mut a = build();
    let mut b = build();
    a.run(&deltas);
    for d in deltas.iter() {
        b.tick(*d);
    }
    assert_eq!(a.towers(), b.towers());
    assert_eq!(a.targets(), b.targets());
    assert_eq!(a.bullets(), b.bullets());
    assert!(!a.towers().is_empty());
}

#[test]
fn moving_target_is_worn_down() {
    let mut world = World::new(config());
    world.spawn_tower(Vec3::new(0, 500, 0), tower());
    world.spawn_target(Vec3::new(-5000, 500, 2000), Target { speed: 500 }, Health { value: 2 });
    let mut ticks = 0;
    while !world.targets().is_empty() && ticks < 100_000 {
        world.tick(16_000);
        ticks += 1;
    }
    assert!(world.targets().is_empty());
    for _ in 0..200 {
        world.tick(16_000);
    }
    assert!(world.bullets().is_empty());
}
