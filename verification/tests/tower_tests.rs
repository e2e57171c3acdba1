use tower_defense::bullet::{Bullet, LifeTime};
use tower_defense::geometry::{Vec3, UNIT};
use tower_defense::target::{Health, Target, TargetEntity};
use tower_defense::timer::{Timer, TimerMode};
use tower_defense::tower::{nearest_target, tower_shooting, Shot, Tower, TowerEntity};

fn target(handle: u64, x: i32, y: i32, z: i32) -> TargetEntity {
    TargetEntity {
        handle,
        position: Vec3::new(x, y, z),
        target: Target { speed: 0 },
        health: Health { value: 10 },
    }
}

fn tower(handle: u64, x: i32, cooldown: u64) -> TowerEntity {
    TowerEntity {
        handle,
        position: Vec3::new(x, 0, 0),
        tower: Tower {
            shoot_cooldown: Timer::new(cooldown, TimerMode::Repeating),
            bullet_offset: Vec3::new(0, 0, 0),
        },
    }
}

#[test]
fn nearest_target_minimises_the_distance() {
    let origin = Vec3::new(0, 0, 0);
    let targets = vec![target(1, 9000, 0, 0), target(2, 0, -3000, 0), target(3, 2000, 2000, 2000)];
    assert_eq!(nearest_target(&origin, &targets), Some(1));
    let from_far = Vec3::new(10_000, 0, 0);
    assert_eq!(nearest_target(&from_far, &targets), Some(0));
}

#[test]
fn nearest_target_takes_the_first_of_equals() {
    let origin = Vec3::new(0, 0, 0);
    let targets = vec![
        target(1, 5000, 0, 0),
        target(2, 0, 3000, 0),
        target(3, -3000, 0, 0),
        target(4, 0, 0, 3000),
    ];
    assert_eq!(nearest_target(&origin, &targets), Some(1));
}

#[test]
fn nearest_target_of_none() {
    assert_eq!(nearest_target(&Vec3::new(0, 0, 0), &Vec::new()), None);
}

#[test]
fn take_aim_points_at_the_nearest_target() {
    let t = tower(5, 0, 1_000_000);
    let targets = vec![target(1, 0, 0, -20_000), target(2, 10_000, 0, 0)];
    let shot = t.take_aim(&targets, 5000, 3_000_000);
    assert_eq!(
        shot,
        Some(Shot {
            owner: 5,
            position: Vec3::new(0, 0, 0),
            bullet: Bullet { direction: Vec3::new(UNIT, 0, 0), speed: 5000 },
            lifetime: LifeTime { timer: Timer::new(3_000_000, TimerMode::Once) },
        })
    );
}

#[test]
fn take_aim_starts_from_the_muzzle() {
    let mut t = tower(5, 1000, 1_000_000);
    t.tower.bullet_offset = Vec3::new(0, 500, 0);
    let targets = vec![target(1, 1000, 500, 4000)];
    let shot = t.take_aim(&targets, 5000, 3_000_000).unwrap();
    assert_eq!(shot.position, Vec3::new(1000, 500, 0));
    assert_eq!(shot.bullet.direction, Vec3::new(0, 0, UNIT));
}

#[test]
fn take_aim_at_a_target_on_the_muzzle_gives_nothing() {
    let t = tower(5, 0, 1_000_000);
    let targets = vec![target(1, 0, 0, 0), target(2, 10_000, 0, 0)];
    assert_eq!(t.take_aim(&targets, 5000, 3_000_000), None);
}

#[test]
fn tower_fires_when_the_cooldown_runs_out() {
    let mut towers = vec![tower(5, 0, 1_000_000)];
    let targets = vec![target(1, 10_000, 0, 0)];
    assert!(tower_shooting(&mut towers, &targets, 5000, 3_000_000, 600_000).is_empty());
    assert_eq!(towers[0].tower.shoot_cooldown.elapsed, 600_000);
    let shots = tower_shooting(&mut towers, &targets, 5000, 3_000_000, 600_000);
    assert_eq!(shots.len(), 1);
    assert_eq!(shots[0].owner, 5);
    assert_eq!(shots[0].bullet.direction, Vec3::new(UNIT, 0, 0));
    assert_eq!(towers[0].tower.shoot_cooldown.elapsed, 200_000);
    assert!(tower_shooting(&mut towers, &targets, 5000, 3_000_000, 600_000).is_empty());
    assert_eq!(tower_shooting(&mut towers, &targets, 5000, 3_000_000, 600_000).len(), 1);
}

#[test]
fn towers_fire_in_their_order() {
    let mut towers = vec![tower(5, 0, 1_000_000), tower(6, 20_000, 2_000_000), tower(7, 4000, 500_000)];
    let targets = vec![target(1, 10_000, 0, 0)];
    let shots = tower_shooting(&mut towers, &targets, 5000, 3_000_000, 1_000_000);
    assert_eq!(shots.len(), 2);
    assert_eq!(shots[0].owner, 5);
    assert_eq!(shots[1].owner, 7);
    let shots = tower_shooting(&mut towers, &targets, 5000, 3_000_000, 1_000_000);
    assert_eq!(shots.len(), 3);
    assert_eq!(shots[1].owner, 6);
    assert_eq!(shots[1].bullet.direction, Vec3::new(-UNIT, 0, 0));
}

#[test]
fn tower_without_targets_stays_idle() {
    let mut towers = vec![tower(5, 0, 1_000_000)];
    let none: Vec<TargetEntity> = Vec::new();
    for _ in 0..5 {
        let shots = tower_shooting(&mut towers, &none, 5000, 3_000_000, 1_000_000);
        assert!(shots.is_empty());
        assert!(towers[0].tower.shoot_cooldown.just_completed());
    }
}

#[test]
fn take_aim_at_a_near_target_gives_a_unit_direction() {
    let t = tower(5, 0, 1_000_000);
    let targets = vec![target(1, 1, 1, 0), target(2, 10_000, 0, 0)];
    let shot = t.take_aim(&targets, 5000, 3_000_000).unwrap();
    assert_eq!(shot.position, Vec3::new(0, 0, 0));
    assert_eq!(shot.bullet.direction, Vec3::new(707_107, 707_107, 0));
    assert_eq!(shot.bullet.direction.length(), 1_000_000);
}

#[test]
fn tower_fires_a_unit_direction_at_a_near_target() {
    let mut towers = vec![tower(5, 0, 1_000_000)];
    let targets = vec![target(1, 1, 1, 0)];
    let shots = tower_shooting(&mut towers, &targets, 5000, 3_000_000, 1_000_000);
    assert_eq!(shots.len(), 1);
    assert_eq!(shots[0].bullet.direction, Vec3::new(707_107, 707_107, 0));
}
