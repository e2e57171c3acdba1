//! Projectiles: flight, lifetime and collision with targets.

use crate::geometry::Vec3;
use crate::target::TargetEntity;
use crate::timer::Timer;
use vstd::prelude::*;

verus! {

/// How long a projectile may still fly.
#[derive(Clone, Copy, Debug, PartialEq, Eq, Structural)]
pub struct LifeTime {
    pub timer: Timer,
}

/// How a projectile flies: its direction (of any positive length) and its
/// speed in thousandths of a world unit per second.
#[derive(Clone, Copy, Debug, PartialEq, Eq, Structural)]
pub struct Bullet {
    pub direction: Vec3,
    pub speed: i32,
}

/// One projectile of the world. `owner` records the tower that fired it and
/// has no influence on what the projectile does.
#[derive(Clone, Copy, Debug, PartialEq, Eq, Structural)]
pub struct BulletEntity {
    pub handle: u64,
    pub owner: u64,
    pub position: Vec3,
    pub bullet: Bullet,
    pub lifetime: LifeTime,
}

/// `j` is the first target within `radius` of `position`.
pub open spec fn is_first_hit(
    position: Vec3,
    targets: Seq<TargetEntity>,
    radius: u32,
    j: int,
) -> bool {
    &&& 0 <= j < targets.len()
    &&& position.near(targets[j].position, radius)
    &&& forall|k: int| 0 <= k < j ==> !position.near(#[trigger] targets[k].position, radius)
}

/// The index of the first target within `radius` of `position`, if any.
pub open spec fn first_hit(position: Vec3, targets: Seq<TargetEntity>, radius: u32) -> Option<
    int,
> {
    if exists|j: int| is_first_hit(position, targets, radius, j) {
        Some(choose|j: int| is_first_hit(position, targets, radius, j))
    } else {
        None
    }
}

/// A first target within reach is the only one.
pub proof fn lemma_first_hit_is(position: Vec3, targets: Seq<TargetEntity>, radius: u32, j: int)
    requires
        is_first_hit(position, targets, radius, j),
    ensures
        first_hit(position, targets, radius) == Some(j),
{
    let c = choose|c: int| is_first_hit(position, targets, radius, c);
    if c < j {
        assert(!position.near(targets[c].position, radius));
    } else if j < c {
        assert(!position.near(targets[j].position, radius));
    }
}

/// A target within reach means that there is a first one.
pub proof fn lemma_some_target_near(
    position: Vec3,
    targets: Seq<TargetEntity>,
    radius: u32,
    j: int,
)
    requires
        0 <= j < targets.len(),
        position.near(targets[j].position, radius),
    ensures
        first_hit(position, targets, radius) is Some,
        first_hit(position, targets, radius)->0 <= j,
    decreases j,
{
    if exists|k: int| 0 <= k < j && position.near(#[trigger] targets[k].position, radius) {
        let k = choose|k: int| 0 <= k < j && position.near(#[trigger] targets[k].position, radius);
        lemma_some_target_near(position, targets, radius, k);
    } else {
        lemma_first_hit_is(position, targets, radius, j);
    }
}

/// With no target within reach there is no first one.
pub proof fn lemma_no_hit(position: Vec3, targets: Seq<TargetEntity>, radius: u32)
    requires
        forall|k: int|
            0 <= k < targets.len() ==> !position.near(#[trigger] targets[k].position, radius),
    ensures
        first_hit(position, targets, radius) is None,
{
}

/// Which target is hit first depends on where the targets are and on
/// nothing else about them.
pub proof fn lemma_first_hit_by_position(
    position: Vec3,
    a: Seq<TargetEntity>,
    b: Seq<TargetEntity>,
    radius: u32,
)
    requires
        a.len() == b.len(),
        forall|k: int| 0 <= k < a.len() ==> #[trigger] a[k].position == b[k].position,
    ensures
        first_hit(position, a, radius) == first_hit(position, b, radius),
{
    match first_hit(position, a, radius) {
        Some(j) => {
            assert(is_first_hit(position, a, radius, j));
            assert forall|k: int| 0 <= k < j implies !position.near(
                #[trigger] b[k].position,
                radius,
            ) by {
                assert(a[k].position == b[k].position);
            }
            assert(a[j].position == b[j].position);
            lemma_first_hit_is(position, b, radius, j);
        },
        None => {
            if first_hit(position, b, radius) is Some {
                let j = first_hit(position, b, radius)->0;
                assert(is_first_hit(position, b, radius, j));
                assert forall|k: int| 0 <= k < j implies !position.near(
                    #[trigger] a[k].position,
                    radius,
                ) by {
                    assert(a[k].position == b[k].position);
                }
                assert(a[j].position == b[j].position);
                assert(is_first_hit(position, a, radius, j));
            }
        },
    }
}

/// Finds the first target within `radius` of `position`.
pub fn first_target_hit(position: &Vec3, targets: &Vec<TargetEntity>, radius: u32) -> (hit:
    Option<usize>)
    ensures
        match hit {
            Some(j) => first_hit(*position, targets@, radius) == Some(j as int),
            None => first_hit(*position, targets@, radius) is None,
        },
{
    let mut j: usize = 0;
    while j < targets.len()
        invariant
            j <= targets.len(),
            forall|k: int| 0 <= k < j ==> !position.near(#[trigger] targets@[k].position, radius),
        decreases targets.len() - j,
    {
        if position.within(&targets[j].position, radius) {
            proof {
                lemma_first_hit_is(*position, targets@, radius, j as int);
            }
            return Some(j);
        }
        j += 1;
    }
    proof {
        lemma_no_hit(*position, targets@, radius);
    }
    None
}

impl BulletEntity {
    /// The projectile after flying for `delta` microseconds along its
    /// direction at its speed.
    pub open spec fn flown(self, delta: int) -> BulletEntity {
        BulletEntity {
            position: self.position.travelled(self.bullet.direction, self.bullet.speed, delta),
            ..self
        }
    }

    /// The projectile after its lifetime has counted `delta` microseconds.
    pub open spec fn aged(self, delta: int) -> BulletEntity {
        BulletEntity { lifetime: LifeTime { timer: self.lifetime.timer.advanced(delta) }, ..self }
    }

    /// The lifetime ran out on the last tick: the projectile awaits its
    /// destruction and takes part in nothing else.
    pub open spec fn expired(self) -> bool {
        self.lifetime.timer.just_completed
    }

    /// The projectile is still in flight and some target is within `radius`.
    pub open spec fn strikes(self, targets: Seq<TargetEntity>, radius: u32) -> bool {
        !self.expired() && first_hit(self.position, targets, radius) is Some
    }

    /// The targets after this projectile has been checked against them: if
    /// it is in flight, the first target within `radius` loses `damage`.
    pub open spec fn collide(self, targets: Seq<TargetEntity>, radius: u32, damage: u32) -> Seq<
        TargetEntity,
    > {
        if self.strikes(targets, radius) {
            let j = first_hit(self.position, targets, radius)->0;
            targets.update(
                j,
                TargetEntity { health: targets[j].health.damaged(damage), ..targets[j] },
            )
        } else {
            targets
        }
    }
}

/// Every projectile after flying for `delta` microseconds.
pub open spec fn bullets_flown(bullets: Seq<BulletEntity>, delta: int) -> Seq<BulletEntity> {
    bullets.map_values(|b: BulletEntity| b.flown(delta))
}

/// Every projectile after its lifetime has counted `delta` microseconds.
pub open spec fn bullets_aged(bullets: Seq<BulletEntity>, delta: int) -> Seq<BulletEntity> {
    bullets.map_values(|b: BulletEntity| b.aged(delta))
}

/// The handles of the projectiles whose lifetime has just run out, in order.
pub open spec fn expired_handles(bullets: Seq<BulletEntity>) -> Seq<u64> {
    bullets.filter(|b: BulletEntity| b.expired()).map_values(|b: BulletEntity| b.handle)
}

/// The handles of the projectiles in flight that have a target within
/// `radius`, in order.
pub open spec fn striking_handles(
    bullets: Seq<BulletEntity>,
    targets: Seq<TargetEntity>,
    radius: u32,
) -> Seq<u64> {
    bullets.filter(|b: BulletEntity| b.strikes(targets, radius)).map_values(
        |b: BulletEntity| b.handle,
    )
}

/// The targets after each projectile, in order, has been checked against
/// them.
pub open spec fn targets_after_collisions(
    targets: Seq<TargetEntity>,
    bullets: Seq<BulletEntity>,
    radius: u32,
    damage: u32,
) -> Seq<TargetEntity>
    decreases bullets.len(),
{
    if bullets.len() == 0 {
        targets
    } else {
        bullets.last().collide(
            targets_after_collisions(targets, bullets.drop_last(), radius, damage),
            radius,
            damage,
        )
    }
}

/// Collisions change the health of targets and nothing else.
pub proof fn lemma_collisions_keep_places(
    targets: Seq<TargetEntity>,
    bullets: Seq<BulletEntity>,
    radius: u32,
    damage: u32,
)
    ensures
        targets_after_collisions(targets, bullets, radius, damage).len() == targets.len(),
        forall|k: int|
            #![trigger targets_after_collisions(targets, bullets, radius, damage)[k]]
            0 <= k < targets.len() ==> {
                let after = targets_after_collisions(targets, bullets, radius, damage)[k];
                &&& after.handle == targets[k].handle
                &&& after.position == targets[k].position
                &&& after.target == targets[k].target
                &&& after.health.value <= targets[k].health.value
            },
    decreases bullets.len(),
{
    if bullets.len() > 0 {
        lemma_collisions_keep_places(targets, bullets.drop_last(), radius, damage);
        let before = targets_after_collisions(targets, bullets.drop_last(), radius, damage);
        let bullet = bullets.last();
        if bullet.strikes(before, radius) {
            let j = first_hit(bullet.position, before, radius)->0;
            assert(is_first_hit(bullet.position, before, radius, j));
        }
    }
}

impl BulletEntity {
    /// This projectile after flying for `delta` microseconds.
    pub fn fly(&self, delta: i64) -> (next: BulletEntity)
        ensures
            next == self.flown(delta as int),
    {
        BulletEntity {
            handle: self.handle,
            owner: self.owner,
            position: self.position.travel(&self.bullet.direction, self.bullet.speed, delta),
            bullet: self.bullet,
            lifetime: self.lifetime,
        }
    }

    /// This projectile after its lifetime has counted `delta` microseconds.
    pub fn age(&self, delta: i64) -> (next: BulletEntity)
        ensures
            next == self.aged(delta as int),
    {
        let mut timer: Timer = self.lifetime.timer;
        timer.advance(delta);
        BulletEntity {
            handle: self.handle,
            owner: self.owner,
            position: self.position,
            bullet: self.bullet,
            lifetime: LifeTime { timer },
        }
    }
}

/// Moves every projectile by what it flies in `delta` microseconds.
pub fn move_bullet(bullets: &mut Vec<BulletEntity>, delta: i64)
    ensures
        final(bullets)@ == bullets_flown(old(bullets)@, delta as int),
{
    let count: usize = bullets.len();
    let mut i: usize = 0;
    while i < count
        invariant
            i <= count,
            bullets.len() == count,
            old(bullets).len() == count,
            forall|k: int| 0 <= k < i ==> bullets[k] == old(bullets)[k].flown(delta as int),
            forall|k: int| i <= k < count ==> bullets[k] == old(bullets)[k],
        decreases count - i,
    {
        let next: BulletEntity = bullets[i].fly(delta);
        bullets.set(i, next);
        i += 1;
    }
}

/// Counts `delta` microseconds on every projectile's lifetime and requests
/// the destruction of those whose lifetime has run out on this tick.
pub fn despawn_bullets(bullets: &mut Vec<BulletEntity>, delta: i64) -> (doomed: Vec<u64>)
    ensures
        final(bullets)@ == bullets_aged(old(bullets)@, delta as int),
        doomed@ == expired_handles(final(bullets)@),
{
    let mut doomed: Vec<u64> = Vec::new();
    let ghost expired = |b: BulletEntity| b.expired();
    let ghost handle = |b: BulletEntity| b.handle;
    let count: usize = bullets.len();
    let mut i: usize = 0;
    while i < count
        invariant
            i <= count,
            bullets.len() == count,
            old(bullets).len() == count,
            expired == |b: BulletEntity| b.expired(),
            handle == |b: BulletEntity| b.handle,
            forall|k: int| 0 <= k < i ==> bullets[k] == old(bullets)[k].aged(delta as int),
            forall|k: int| i <= k < count ==> bullets[k] == old(bullets)[k],
            doomed@ == bullets@.take(i as int).filter(expired).map_values(handle),
        decreases count - i,
    {
        let ghost seen = bullets@.take(i as int);
        let next: BulletEntity = bullets[i].age(delta);
        bullets.set(i, next);
        proof {
            assert(bullets@.take(i as int) == seen);
            assert(bullets@.take(i + 1) == seen.push(next));
            seen.lemma_filter_push(next, expired);
        }
        if next.lifetime.timer.just_completed() {
            doomed.push(next.handle);
        }
        i += 1;
    }
    assert(bullets@.take(i as int) == bullets@);
    doomed
}

/// Checks every projectile in flight against the targets: the first target
/// within `radius` loses `damage`, and the projectile's destruction is
/// requested. A projectile hits one target at most, and one whose lifetime
/// has just run out hits none.
pub fn bullet_collision(
    bullets: &Vec<BulletEntity>,
    targets: &mut Vec<TargetEntity>,
    radius: u32,
    damage: u32,
) -> (spent: Vec<u64>)
    ensures
        final(targets)@ == targets_after_collisions(old(targets)@, bullets@, radius, damage),
        spent@ == striking_handles(bullets@, old(targets)@, radius),
{
    let mut spent: Vec<u64> = Vec::new();
    let ghost strikes = |b: BulletEntity| b.strikes(old(targets)@, radius);
    let ghost handle = |b: BulletEntity| b.handle;
    let mut i: usize = 0;
    while i < bullets.len()
        invariant
            i <= bullets.len(),
            strikes == |b: BulletEntity| b.strikes(old(targets)@, radius),
            handle == |b: BulletEntity| b.handle,
            targets@ == targets_after_collisions(
                old(targets)@,
                bullets@.take(i as int),
                radius,
                damage,
            ),
            spent@ == bullets@.take(i as int).filter(strikes).map_values(handle),
        decreases bullets.len() - i,
    {
        let bullet: BulletEntity = bullets[i];
        let ghost before = targets@;
        proof {
            let seen = bullets@.take(i as int);
            assert(bullets@.take(i + 1) == seen.push(bullet));
            assert(bullets@.take(i + 1).drop_last() == seen);
            seen.lemma_filter_push(bullet, strikes);
            lemma_collisions_keep_places(old(targets)@, seen, radius, damage);
            lemma_first_hit_by_position(bullet.position, before, old(targets)@, radius);
        }
        if !bullet.lifetime.timer.just_completed() {
            match first_target_hit(&bullet.position, targets, radius) {
                Some(j) => {
                    proof {
                        assert(is_first_hit(bullet.position, before, radius, j as int));
                    }
                    let mut hit: TargetEntity = targets[j];
                    hit.health.apply_damage(damage);
                    targets.set(j, hit);
                    spent.push(bullet.handle);
                },
                None => {},
            }
        }
        assert(targets@ == bullet.collide(before, radius, damage));
        i += 1;
    }
    assert(bullets@.take(i as int) == bullets@);
    spent
}

} // verus!
