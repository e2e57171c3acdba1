//! Towers: cooldown-gated aiming at the nearest target.

use crate::bullet::{Bullet, LifeTime};
use crate::geometry::Vec3;
use crate::target::TargetEntity;
use crate::timer::{Timer, TimerMode};
use vstd::prelude::*;

verus! {

/// What makes a tower fire: a repeating cooldown, and where the muzzle sits
/// relative to the tower.
#[derive(Clone, Copy, Debug, PartialEq, Eq, Structural)]
pub struct Tower {
    pub shoot_cooldown: Timer,
    pub bullet_offset: Vec3,
}

/// One tower of the world.
#[derive(Clone, Copy, Debug, PartialEq, Eq, Structural)]
pub struct TowerEntity {
    pub handle: u64,
    pub position: Vec3,
    pub tower: Tower,
}

/// A request to create a projectile.
#[derive(Clone, Copy, Debug, PartialEq, Eq, Structural)]
pub struct Shot {
    /// The tower that fires.
    pub owner: u64,
    pub position: Vec3,
    pub bullet: Bullet,
    pub lifetime: LifeTime,
}

/// Target `j` is as near to `origin` as any target, and nearer than every
/// target before it.
pub open spec fn is_nearest(origin: Vec3, targets: Seq<TargetEntity>, j: int) -> bool {
    &&& 0 <= j < targets.len()
    &&& forall|k: int|
        0 <= k < targets.len() ==> origin.dist_sq(targets[j].position) <= origin.dist_sq(
            #[trigger] targets[k].position,
        )
    &&& forall|k: int|
        0 <= k < j ==> origin.dist_sq(targets[j].position) < origin.dist_sq(
            #[trigger] targets[k].position,
        )
}

/// The index of the first among the targets nearest to `origin`, if there
/// is any target.
pub open spec fn nearest(origin: Vec3, targets: Seq<TargetEntity>) -> Option<int> {
    if exists|j: int| is_nearest(origin, targets, j) {
        Some(choose|j: int| is_nearest(origin, targets, j))
    } else {
        None
    }
}

/// The first nearest target is the only one.
pub proof fn lemma_nearest_is(origin: Vec3, targets: Seq<TargetEntity>, j: int)
    requires
        is_nearest(origin, targets, j),
    ensures
        nearest(origin, targets) == Some(j),
{
    let c = choose|c: int| is_nearest(origin, targets, c);
    if c < j {
        assert(origin.dist_sq(targets[j].position) < origin.dist_sq(targets[c].position));
        assert(origin.dist_sq(targets[c].position) <= origin.dist_sq(targets[j].position));
    } else if j < c {
        assert(origin.dist_sq(targets[c].position) < origin.dist_sq(targets[j].position));
        assert(origin.dist_sq(targets[j].position) <= origin.dist_sq(targets[c].position));
    }
}

/// Finds the target nearest to `origin`; among equally near ones, the first.
pub fn nearest_target(origin: &Vec3, targets: &Vec<TargetEntity>) -> (found: Option<usize>)
    ensures
        found is None <==> targets.len() == 0,
        found matches Some(j) ==> is_nearest(*origin, targets@, j as int),
        match found {
            Some(j) => nearest(*origin, targets@) == Some(j as int),
            None => nearest(*origin, targets@) is None,
        },
{
    if targets.len() == 0 {
        return None;
    }
    let mut best: usize = 0;
    let mut least: u128 = origin.distance_squared(&targets[0].position);
    let mut i: usize = 1;
    while i < targets.len()
        invariant
            1 <= i <= targets.len(),
            best < i,
            least == origin.dist_sq(targets@[best as int].position),
            forall|k: int|
                0 <= k < i ==> least <= origin.dist_sq(#[trigger] targets@[k].position),
            forall|k: int|
                0 <= k < best ==> least < origin.dist_sq(#[trigger] targets@[k].position),
        decreases targets.len() - i,
    {
        let d: u128 = origin.distance_squared(&targets[i].position);
        if d < least {
            best = i;
            least = d;
        }
        i += 1;
    }
    proof {
        lemma_nearest_is(*origin, targets@, best as int);
    }
    Some(best)
}

impl TowerEntity {
    /// Where this tower's projectiles start.
    pub open spec fn muzzle(self) -> Vec3 {
        self.position.shifted(self.tower.bullet_offset)
    }

    /// The tower after its cooldown has counted `delta` microseconds.
    pub open spec fn cooled(self, delta: int) -> TowerEntity {
        TowerEntity {
            tower: Tower { shoot_cooldown: self.tower.shoot_cooldown.advanced(delta), ..self.tower },
            ..self
        }
    }

    /// The cooldown ran out on the last tick.
    pub open spec fn ready(self) -> bool {
        self.tower.shoot_cooldown.just_completed
    }

    /// The projectile that this tower would fire now: from the muzzle
    /// towards the nearest target, with a fresh one-shot lifetime. There is
    /// none without a target, nor where the nearest target sits on the
    /// muzzle, which gives no direction.
    pub open spec fn aim(self, targets: Seq<TargetEntity>, speed: i32, lifetime: u64) -> Option<
        Shot,
    > {
        match nearest(self.muzzle(), targets) {
            None => None,
            Some(j) => match self.muzzle().heading(targets[j].position) {
                None => None,
                Some(direction) => Some(
                    Shot {
                        owner: self.handle,
                        position: self.muzzle(),
                        bullet: Bullet { direction, speed },
                        lifetime: LifeTime { timer: Timer::fresh(lifetime, TimerMode::Once) },
                    },
                ),
            },
        }
    }

    /// The projectile that this tower fires on this tick, if any: a tower
    /// fires only when its cooldown has just run out.
    pub open spec fn shot(self, targets: Seq<TargetEntity>, speed: i32, lifetime: u64) -> Option<
        Shot,
    > {
        if self.ready() {
            self.aim(targets, speed, lifetime)
        } else {
            None
        }
    }

    /// This tower after its cooldown has counted `delta` microseconds.
    pub fn cool(&self, delta: i64) -> (next: TowerEntity)
        ensures
            next == self.cooled(delta as int),
    {
        let mut cooldown: Timer = self.tower.shoot_cooldown;
        cooldown.advance(delta);
        TowerEntity {
            handle: self.handle,
            position: self.position,
            tower: Tower { shoot_cooldown: cooldown, bullet_offset: self.tower.bullet_offset },
        }
    }

    /// Aims at the nearest target.
    pub fn take_aim(&self, targets: &Vec<TargetEntity>, speed: i32, lifetime: u64) -> (shot:
        Option<Shot>)
        ensures
            shot == self.aim(targets@, speed, lifetime),
            targets.len() == 0 ==> shot is None,
    {
        let muzzle: Vec3 = self.position.saturating_add(&self.tower.bullet_offset);
        match nearest_target(&muzzle, targets) {
            None => None,
            Some(j) => match muzzle.direction_to(&targets[j].position) {
                None => None,
                Some(direction) => Some(
                    Shot {
                        owner: self.handle,
                        position: muzzle,
                        bullet: Bullet { direction, speed },
                        lifetime: LifeTime { timer: Timer::new(lifetime, TimerMode::Once) },
                    },
                ),
            },
        }
    }
}

/// Every tower after its cooldown has counted `delta` microseconds.
pub open spec fn towers_cooled(towers: Seq<TowerEntity>, delta: int) -> Seq<TowerEntity> {
    towers.map_values(|t: TowerEntity| t.cooled(delta))
}

/// The projectiles that the towers fire on this tick, in the towers' order.
pub open spec fn shots_fired(
    towers: Seq<TowerEntity>,
    targets: Seq<TargetEntity>,
    speed: i32,
    lifetime: u64,
) -> Seq<Shot> {
    towers.filter(|t: TowerEntity| t.shot(targets, speed, lifetime) is Some).map_values(
        |t: TowerEntity| t.shot(targets, speed, lifetime)->0,
    )
}

/// Counts `delta` microseconds on every tower's cooldown. Each tower whose
/// cooldown has run out on this tick aims at the target nearest to its
/// muzzle and asks for a projectile of the given speed and lifetime.
pub fn tower_shooting(
    towers: &mut Vec<TowerEntity>,
    targets: &Vec<TargetEntity>,
    speed: i32,
    lifetime: u64,
    delta: i64,
) -> (shots: Vec<Shot>)
    ensures
        final(towers)@ == towers_cooled(old(towers)@, delta as int),
        shots@ == shots_fired(final(towers)@, targets@, speed, lifetime),
        targets.len() == 0 ==> shots.len() == 0,
{
    let mut shots: Vec<Shot> = Vec::new();
    let ghost fires = |t: TowerEntity| t.shot(targets@, speed, lifetime) is Some;
    let ghost fired = |t: TowerEntity| t.shot(targets@, speed, lifetime)->0;
    let count: usize = towers.len();
    let mut i: usize = 0;
    while i < count
        invariant
            i <= count,
            towers.len() == count,
            old(towers).len() == count,
            fires == |t: TowerEntity| t.shot(targets@, speed, lifetime) is Some,
            fired == |t: TowerEntity| t.shot(targets@, speed, lifetime)->0,
            forall|k: int| 0 <= k < i ==> towers[k] == old(towers)[k].cooled(delta as int),
            forall|k: int| i <= k < count ==> towers[k] == old(towers)[k],
            shots@ == towers@.take(i as int).filter(fires).map_values(fired),
            targets.len() == 0 ==> shots.len() == 0,
        decreases count - i,
    {
        let ghost seen = towers@.take(i as int);
        let next: TowerEntity = towers[i].cool(delta);
        towers.set(i, next);
        proof {
            assert(towers@.take(i as int) == seen);
            assert(towers@.take(i + 1) == seen.push(next));
            seen.lemma_filter_push(next, fires);
        }
        if next.tower.shoot_cooldown.just_completed() {
            match next.take_aim(targets, speed, lifetime) {
                Some(shot) => {
                    shots.push(shot);
                },
                None => {},
            }
        }
        i += 1;
    }
    assert(towers@.take(i as int) == towers@);
    shots
}

} // verus!
