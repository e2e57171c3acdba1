//! Targets: bodies with health that walk along the x axis.

use crate::geometry::{clamp_i32, clamp_to_i32, div_toward_zero, trunc_div, Vec3};
use crate::timer::{clamp_delta, TICKS_PER_SECOND};
use vstd::prelude::*;

verus! {

/// How a target moves: thousandths of a world unit per second along x.
#[derive(Clone, Copy, Debug, PartialEq, Eq, Structural)]
pub struct Target {
    pub speed: i32,
}

/// The life that a target has left.
#[derive(Clone, Copy, Debug, PartialEq, Eq, Structural)]
pub struct Health {
    pub value: i32,
}

/// One target of the world.
#[derive(Clone, Copy, Debug, PartialEq, Eq, Structural)]
pub struct TargetEntity {
    pub handle: u64,
    pub position: Vec3,
    pub target: Target,
    pub health: Health,
}

/// Sum of a series of damage amounts.
pub open spec fn total_damage(amounts: Seq<u32>) -> nat
    decreases amounts.len(),
{
    if amounts.len() == 0 {
        0
    } else {
        total_damage(amounts.drop_last()) + amounts.last() as nat
    }
}

impl Health {
    /// Health after losing `amount`. There is no floor at zero; the value
    /// only stops at the least number it can hold.
    pub open spec fn damaged(self, amount: u32) -> Health {
        Health { value: clamp_i32(self.value - amount) }
    }

    /// Nothing is left.
    pub open spec fn dead(self) -> bool {
        self.value <= 0
    }

    /// Health after losing each of `amounts` in turn.
    pub open spec fn damaged_by_all(self, amounts: Seq<u32>) -> Health
        decreases amounts.len(),
    {
        if amounts.len() == 0 {
            self
        } else {
            self.damaged_by_all(amounts.drop_last()).damaged(amounts.last())
        }
    }

    /// Takes `amount` away. The value may go below zero.
    pub fn apply_damage(&mut self, amount: u32)
        ensures
            *final(self) == old(self).damaged(amount),
            final(self).value <= old(self).value,
    {
        self.value = clamp_to_i32(self.value as i128 - amount as i128);
    }

    /// Whether nothing is left.
    pub fn is_dead(&self) -> (dead: bool)
        ensures
            dead == self.dead(),
    {
        self.value <= 0
    }
}

/// After any series of hits the health is the initial value less the summed
/// damage (held at the least representable value), so the holder is dead
/// exactly when the summed damage has reached the initial health.
pub proof fn lemma_dead_iff_damage_reaches_health(initial: Health, amounts: Seq<u32>)
    ensures
        initial.damaged_by_all(amounts).value == clamp_i32(initial.value - total_damage(amounts)),
        initial.damaged_by_all(amounts).dead() <==> total_damage(amounts) >= initial.value,
        initial.damaged_by_all(amounts).value <= initial.value,
    decreases amounts.len(),
{
    if amounts.len() > 0 {
        lemma_dead_iff_damage_reaches_health(initial, amounts.drop_last());
    }
}

impl TargetEntity {
    /// The target after walking for `delta` microseconds: x grows by speed
    /// times time, rounded toward zero and kept within range. What the
    /// rounding cuts off, less than one thousandth a call, is lost: a target
    /// that would walk less than one thousandth in a call stays where it
    /// is.
    pub open spec fn moved(self, delta: int) -> TargetEntity {
        TargetEntity {
            position: Vec3 {
                x: clamp_i32(
                    self.position.x + trunc_div(
                        self.target.speed * clamp_delta(delta),
                        TICKS_PER_SECOND as int,
                    ),
                ),
                ..self.position
            },
            ..self
        }
    }

    /// This target after walking for `delta` microseconds.
    pub fn step(&self, delta: i64) -> (next: TargetEntity)
        ensures
            next == self.moved(delta as int),
    {
        let step: i128 = if delta > 0 {
            delta as i128
        } else {
            0
        };
        assert(-0x4000_0000_0000_0000_0000_0000 <= self.target.speed * step
            <= 0x4000_0000_0000_0000_0000_0000) by (nonlinear_arith)
            requires
                -0x8000_0000 <= self.target.speed <= 0x8000_0000,
                0 <= step <= 0x8000_0000_0000_0000,
        ;
        let walked: i128 = div_toward_zero(self.target.speed as i128 * step, 1_000_000);
        TargetEntity {
            handle: self.handle,
            position: Vec3 {
                x: clamp_to_i32(self.position.x as i128 + walked),
                y: self.position.y,
                z: self.position.z,
            },
            target: self.target,
            health: self.health,
        }
    }
}

/// Every target after walking for `delta` microseconds.
pub open spec fn targets_moved(targets: Seq<TargetEntity>, delta: int) -> Seq<TargetEntity> {
    targets.map_values(|t: TargetEntity| t.moved(delta))
}

/// The handles of the targets that have no health left, in order.
pub open spec fn dead_handles(targets: Seq<TargetEntity>) -> Seq<u64> {
    targets.filter(|t: TargetEntity| t.health.dead()).map_values(|t: TargetEntity| t.handle)
}

/// Moves every target by what it walks in `delta` microseconds.
pub fn move_target(targets: &mut Vec<TargetEntity>, delta: i64)
    ensures
        final(targets)@ == targets_moved(old(targets)@, delta as int),
{
    let count: usize = targets.len();
    let mut i: usize = 0;
    while i < count
        invariant
            i <= count,
            targets.len() == count,
            old(targets).len() == count,
            forall|k: int| 0 <= k < i ==> targets[k] == old(targets)[k].moved(delta as int),
            forall|k: int| i <= k < count ==> targets[k] == old(targets)[k],
        decreases count - i,
    {
        let next: TargetEntity = targets[i].step(delta);
        targets.set(i, next);
        i += 1;
    }
}

/// Requests the destruction of every target whose health is used up.
pub fn target_death(targets: &Vec<TargetEntity>) -> (doomed: Vec<u64>)
    ensures
        doomed@ == dead_handles(targets@),
{
    let mut doomed: Vec<u64> = Vec::new();
    let ghost dead = |t: TargetEntity| t.health.dead();
    let ghost handle = |t: TargetEntity| t.handle;
    let mut i: usize = 0;
    while i < targets.len()
        invariant
            i <= targets.len(),
            dead == |t: TargetEntity| t.health.dead(),
            handle == |t: TargetEntity| t.handle,
            doomed@ == targets@.take(i as int).filter(dead).map_values(handle),
        decreases targets.len() - i,
    {
        proof {
            let seen = targets@.take(i as int);
            assert(targets@.take(i + 1) == seen.push(targets[i as int]));
            seen.lemma_filter_push(targets[i as int], dead);
        }
        if targets[i].health.is_dead() {
            doomed.push(targets[i].handle);
        }
        i += 1;
    }
    assert(targets@.take(i as int) == targets@);
    doomed
}

} // verus!
