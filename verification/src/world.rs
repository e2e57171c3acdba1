//! The entity store and the per-frame order of the behaviours.

use crate::bullet::{
    bullet_collision, bullets_aged, bullets_flown, despawn_bullets, expired_handles, move_bullet,
    striking_handles, targets_after_collisions, BulletEntity,
};
use crate::entity::{apart, below, despawn, distinct, holds, survivors};
use crate::geometry::Vec3;
use crate::laws::{lemma_tick_keeps_wf, lemma_without_keeps_wf};
use crate::target::{
    dead_handles, move_target, target_death, targets_moved, Health, Target, TargetEntity,
};
use crate::tower::{shots_fired, tower_shooting, towers_cooled, Shot, Tower, TowerEntity};
use vstd::prelude::*;

verus! {

/// The tunable parameters of a world.
#[derive(Clone, Copy, Debug, PartialEq, Eq, Structural)]
pub struct Config {
    /// Speed of every projectile, in thousandths of a world unit per second.
    pub bullet_speed: i32,
    /// Lifetime of every projectile, in microseconds.
    pub bullet_lifetime: u64,
    /// Distance within which a projectile hits a target, in thousandths of
    /// a world unit.
    pub hit_radius: u32,
    /// Health that a hit takes away.
    pub damage: u32,
}

impl Default for Config {
    /// Projectiles of 5 world units per second that live for 3 seconds, hit
    /// within half a world unit and take 1 point of health.
    fn default() -> (config: Config)
        ensures
            config == (Config {
                bullet_speed: 5_000,
                bullet_lifetime: 3_000_000,
                hit_radius: 500,
                damage: 1,
            }),
    {
        Config { bullet_speed: 5_000, bullet_lifetime: 3_000_000, hit_radius: 500, damage: 1 }
    }
}

/// Towers, targets and projectiles, each kind in a collection of its own.
pub struct World {
    towers: Vec<TowerEntity>,
    targets: Vec<TargetEntity>,
    bullets: Vec<BulletEntity>,
    next_handle: u64,
    config: Config,
}

/// What a world holds.
pub struct WorldView {
    pub towers: Seq<TowerEntity>,
    pub targets: Seq<TargetEntity>,
    pub bullets: Seq<BulletEntity>,
    /// The handle that the next entity gets.
    pub next_handle: u64,
    pub config: Config,
}

impl View for World {
    type V = WorldView;

    closed spec fn view(&self) -> WorldView {
        WorldView {
            towers: self.towers@,
            targets: self.targets@,
            bullets: self.bullets@,
            next_handle: self.next_handle,
            config: self.config,
        }
    }
}

impl WorldView {
    /// A world without entities.
    pub open spec fn empty(config: Config) -> WorldView {
        WorldView {
            towers: Seq::empty(),
            targets: Seq::empty(),
            bullets: Seq::empty(),
            next_handle: 0,
            config,
        }
    }

    /// Every entity has a handle of its own, and all of them lie below the
    /// handle that is given out next.
    pub open spec fn wf(self) -> bool {
        &&& distinct(self.towers)
        &&& distinct(self.targets)
        &&& distinct(self.bullets)
        &&& apart(self.towers, self.targets)
        &&& apart(self.towers, self.bullets)
        &&& apart(self.targets, self.bullets)
        &&& below(self.towers, self.next_handle)
        &&& below(self.targets, self.next_handle)
        &&& below(self.bullets, self.next_handle)
    }

    /// Some projectile of this world has the handle `handle`.
    pub open spec fn has_bullet(self, handle: u64) -> bool {
        holds(self.bullets, handle)
    }

    /// No handle is left to give out.
    pub open spec fn full(self) -> bool {
        self.next_handle == u64::MAX
    }

    /// The world with one more tower, unless it is full.
    pub open spec fn with_tower(self, position: Vec3, tower: Tower) -> WorldView {
        if self.full() {
            self
        } else {
            WorldView {
                towers: self.towers.push(TowerEntity { handle: self.next_handle, position, tower }),
                next_handle: (self.next_handle + 1) as u64,
                ..self
            }
        }
    }

    /// The world with one more target, unless it is full.
    pub open spec fn with_target(self, position: Vec3, target: Target, health: Health) -> WorldView {
        if self.full() {
            self
        } else {
            WorldView {
                targets: self.targets.push(
                    TargetEntity { handle: self.next_handle, position, target, health },
                ),
                next_handle: (self.next_handle + 1) as u64,
                ..self
            }
        }
    }

    /// The world with the projectile that `shot` asks for, unless it is
    /// full.
    pub open spec fn with_bullet(self, shot: Shot) -> WorldView {
        if self.full() {
            self
        } else {
            WorldView {
                bullets: self.bullets.push(
                    BulletEntity {
                        handle: self.next_handle,
                        owner: shot.owner,
                        position: shot.position,
                        bullet: shot.bullet,
                        lifetime: shot.lifetime,
                    },
                ),
                next_handle: (self.next_handle + 1) as u64,
                ..self
            }
        }
    }

    /// The world with the projectiles that `shots` ask for, in order.
    pub open spec fn with_bullets(self, shots: Seq<Shot>) -> WorldView
        decreases shots.len(),
    {
        if shots.len() == 0 {
            self
        } else {
            self.with_bullets(shots.drop_last()).with_bullet(shots.last())
        }
    }

    /// The world without the entities whose handle is among `doomed`.
    pub open spec fn without(self, doomed: Seq<u64>) -> WorldView {
        WorldView {
            towers: survivors(self.towers, doomed),
            targets: survivors(self.targets, doomed),
            bullets: survivors(self.bullets, doomed),
            ..self
        }
    }

    /// The projectiles of this world after flying and ageing for `delta`
    /// microseconds, before any of them is removed.
    pub open spec fn bullets_after_flight(self, delta: int) -> Seq<BulletEntity> {
        bullets_aged(bullets_flown(self.bullets, delta), delta)
    }

    /// The targets of this world after the collisions and the walk of one
    /// tick, before any of them is removed.
    pub open spec fn targets_after_walk(self, delta: int) -> Seq<TargetEntity> {
        targets_moved(
            targets_after_collisions(
                self.targets,
                self.bullets_after_flight(delta),
                self.config.hit_radius,
                self.config.damage,
            ),
            delta,
        )
    }

    /// The handles whose destruction one tick asks for: projectiles whose
    /// lifetime ran out, projectiles that hit a target, and targets without
    /// health.
    pub open spec fn doomed(self, delta: int) -> Seq<u64> {
        expired_handles(self.bullets_after_flight(delta)) + striking_handles(
            self.bullets_after_flight(delta),
            self.targets,
            self.config.hit_radius,
        ) + dead_handles(self.targets_after_walk(delta))
    }

    /// The projectiles that the towers ask for on one tick. The towers aim
    /// at the targets where they stand before the tick.
    pub open spec fn shots(self, delta: int) -> Seq<Shot> {
        shots_fired(
            towers_cooled(self.towers, delta),
            self.targets,
            self.config.bullet_speed,
            self.config.bullet_lifetime,
        )
    }

    /// The world in the middle of one tick: every entity has done its part
    /// and none has left or entered yet.
    pub open spec fn staged(self, delta: int) -> WorldView {
        WorldView {
            towers: towers_cooled(self.towers, delta),
            targets: self.targets_after_walk(delta),
            bullets: self.bullets_after_flight(delta),
            ..self
        }
    }

    /// The world after one tick of `delta` microseconds.
    ///
    /// Towers count their cooldown and aim; the projectiles that were there
    /// before the tick fly, age and collide; targets walk; then everything
    /// whose destruction was asked for leaves at once, and only then do the
    /// new projectiles enter, so that a projectile first flies and collides
    /// on the tick after the one that created it.
    pub open spec fn ticked(self, delta: int) -> WorldView {
        self.staged(delta).without(self.doomed(delta)).with_bullets(self.shots(delta))
    }

    /// The world after one tick for each sample of `deltas`, in order.
    pub open spec fn run(self, deltas: Seq<int>) -> WorldView
        decreases deltas.len(),
    {
        if deltas.len() == 0 {
            self
        } else {
            self.run(deltas.drop_last()).ticked(deltas.last())
        }
    }
}

/// The samples of `deltas` as mathematical integers.
pub open spec fn samples(deltas: Seq<i64>) -> Seq<int> {
    deltas.map_values(|d: i64| d as int)
}

impl World {
    /// A world without entities.
    pub fn new(config: Config) -> (world: World)
        ensures
            world@ == WorldView::empty(config),
            world@.wf(),
    {
        World {
            towers: Vec::new(),
            targets: Vec::new(),
            bullets: Vec::new(),
            next_handle: 0,
            config,
        }
    }

    /// The towers, in the order of their creation.
    pub fn towers(&self) -> (towers: &Vec<TowerEntity>)
        ensures
            towers@ == self@.towers,
    {
        &self.towers
    }

    /// The targets, in the order of their creation.
    pub fn targets(&self) -> (targets: &Vec<TargetEntity>)
        ensures
            targets@ == self@.targets,
    {
        &self.targets
    }

    /// The projectiles, in the order of their creation.
    pub fn bullets(&self) -> (bullets: &Vec<BulletEntity>)
        ensures
            bullets@ == self@.bullets,
    {
        &self.bullets
    }

    /// The parameters that this world was made with.
    pub fn config(&self) -> (config: Config)
        ensures
            config == self@.config,
    {
        self.config
    }

    /// Creates a tower and returns its handle, or nothing if the world is
    /// full.
    pub fn spawn_tower(&mut self, position: Vec3, tower: Tower) -> (handle: Option<u64>)
        ensures
            final(self)@ == old(self)@.with_tower(position, tower),
            handle == if old(self)@.full() {
                None
            } else {
                Some(old(self)@.next_handle)
            },
            old(self)@.wf() ==> final(self)@.wf(),
    {
        if self.next_handle == u64::MAX {
            return None;
        }
        let handle: u64 = self.next_handle;
        self.towers.push(TowerEntity { handle, position, tower });
        self.next_handle = handle + 1;
        Some(handle)
    }

    /// Creates a target and returns its handle, or nothing if the world is
    /// full.
    pub fn spawn_target(&mut self, position: Vec3, target: Target, health: Health) -> (handle:
        Option<u64>)
        ensures
            final(self)@ == old(self)@.with_target(position, target, health),
            handle == if old(self)@.full() {
                None
            } else {
                Some(old(self)@.next_handle)
            },
            old(self)@.wf() ==> final(self)@.wf(),
    {
        if self.next_handle == u64::MAX {
            return None;
        }
        let handle: u64 = self.next_handle;
        self.targets.push(TargetEntity { handle, position, target, health });
        self.next_handle = handle + 1;
        Some(handle)
    }

    /// Creates the projectile that `shot` asks for and returns its handle,
    /// or nothing if the world is full.
    pub fn spawn_bullet(&mut self, shot: Shot) -> (handle: Option<u64>)
        ensures
            final(self)@ == old(self)@.with_bullet(shot),
            handle == if old(self)@.full() {
                None
            } else {
                Some(old(self)@.next_handle)
            },
            old(self)@.wf() ==> final(self)@.wf(),
    {
        if self.next_handle == u64::MAX {
            return None;
        }
        let handle: u64 = self.next_handle;
        self.bullets.push(
            BulletEntity {
                handle,
                owner: shot.owner,
                position: shot.position,
                bullet: shot.bullet,
                lifetime: shot.lifetime,
            },
        );
        self.next_handle = handle + 1;
        Some(handle)
    }

    /// Destroys every entity whose handle is among `doomed`. Handles that
    /// no entity has are passed over.
    pub fn despawn_all(&mut self, doomed: &Vec<u64>)
        ensures
            final(self)@ == old(self)@.without(doomed@),
            old(self)@.wf() ==> final(self)@.wf(),
    {
        proof {
            if self@.wf() {
                lemma_without_keeps_wf(self@, doomed@);
            }
        }
        despawn(&mut self.towers, doomed);
        despawn(&mut self.targets, doomed);
        despawn(&mut self.bullets, doomed);
    }

    /// Advances the world by one frame of `delta` microseconds.
    pub fn tick(&mut self, delta: i64)
        ensures
            final(self)@ == old(self)@.ticked(delta as int),
            old(self)@.wf() ==> final(self)@.wf(),
    {
        proof {
            if self@.wf() {
                lemma_tick_keeps_wf(self@, delta as int);
            }
        }
        let shots: Vec<Shot> = tower_shooting(
            &mut self.towers,
            &self.targets,
            self.config.bullet_speed,
            self.config.bullet_lifetime,
            delta,
        );
        move_bullet(&mut self.bullets, delta);
        let mut doomed: Vec<u64> = despawn_bullets(&mut self.bullets, delta);
        let mut spent: Vec<u64> = bullet_collision(
            &self.bullets,
            &mut self.targets,
            self.config.hit_radius,
            self.config.damage,
        );
        move_target(&mut self.targets, delta);
        let mut dead: Vec<u64> = target_death(&self.targets);
        doomed.append(&mut spent);
        doomed.append(&mut dead);
        self.despawn_all(&doomed);
        let ghost cleared = self@;
        let mut i: usize = 0;
        while i < shots.len()
            invariant
                i <= shots.len(),
                self@ == cleared.with_bullets(shots@.take(i as int)),
            decreases shots.len() - i,
        {
            assert(shots@.take(i + 1).drop_last() == shots@.take(i as int));
            self.spawn_bullet(shots[i]);
            i += 1;
        }
        assert(shots@.take(i as int) == shots@);
    }

    /// Advances the world by one frame for each sample of `deltas`, in
    /// order.
    pub fn run(&mut self, deltas: &Vec<i64>)
        ensures
            final(self)@ == old(self)@.run(samples(deltas@)),
            old(self)@.wf() ==> final(self)@.wf(),
    {
        let mut i: usize = 0;
        while i < deltas.len()
            invariant
                i <= deltas.len(),
                self@ == old(self)@.run(samples(deltas@.take(i as int))),
                old(self)@.wf() ==> self@.wf(),
            decreases deltas.len() - i,
        {
            assert(samples(deltas@.take(i + 1)).drop_last() == samples(deltas@.take(i as int)));
            self.tick(deltas[i]);
            i += 1;
        }
        assert(deltas@.take(i as int) == deltas@);
    }
}

} // verus!
