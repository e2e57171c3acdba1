//! What holds of every world, whatever it holds and however long it runs.

use crate::bullet::{lemma_collisions_keep_places, BulletEntity};
use crate::timer::{total_time, TimerMode};
use crate::entity::{apart, below, lemma_survivors, survivors, Entity};
use crate::target::TargetEntity;
use crate::tower::{nearest, towers_cooled, Shot, TowerEntity};
use crate::world::WorldView;
use vstd::prelude::*;

verus! {


/// Destroying entities keeps every handle unique.
pub proof fn lemma_without_keeps_wf(world: WorldView, doomed: Seq<u64>)
    requires
        world.wf(),
    ensures
        world.without(doomed).wf(),
{
    let after = world.without(doomed);
    lemma_survivors(world.towers, doomed);
    lemma_survivors(world.targets, doomed);
    lemma_survivors(world.bullets, doomed);
    lemma_kept_below(world.towers, doomed, world.next_handle);
    lemma_kept_below(world.targets, doomed, world.next_handle);
    lemma_kept_below(world.bullets, doomed, world.next_handle);
    lemma_kept_apart(world.towers, world.targets, doomed);
    lemma_kept_apart(world.towers, world.bullets, doomed);
    lemma_kept_apart(world.targets, world.bullets, doomed);
}

proof fn lemma_kept_below<E: Entity>(items: Seq<E>, doomed: Seq<u64>, bound: u64)
    requires
        below(items, bound),
    ensures
        below(survivors(items, doomed), bound),
{
    lemma_survivors(items, doomed);
    let kept = survivors(items, doomed);
    assert forall|k: int| 0 <= k < kept.len() implies #[trigger] kept[k].id() < bound by {
        assert(items.contains(kept[k]));
        let m = choose|m: int| 0 <= m < items.len() && items[m] == kept[k];
        assert(items[m].id() < bound);
    }
}

proof fn lemma_kept_apart<A: Entity, B: Entity>(a: Seq<A>, b: Seq<B>, doomed: Seq<u64>)
    requires
        apart(a, b),
    ensures
        apart(survivors(a, doomed), survivors(b, doomed)),
{
    lemma_survivors(a, doomed);
    lemma_survivors(b, doomed);
    let ka = survivors(a, doomed);
    let kb = survivors(b, doomed);
    assert forall|i: int, j: int| 0 <= i < ka.len() && 0 <= j < kb.len() implies #[trigger] ka[i].id()
        != #[trigger] kb[j].id() by {
        assert(a.contains(ka[i]));
        assert(b.contains(kb[j]));
        let m = choose|m: int| 0 <= m < a.len() && a[m] == ka[i];
        let n = choose|n: int| 0 <= n < b.len() && b[n] == kb[j];
        assert(a[m].id() != b[n].id());
    }
}

/// New projectiles enter behind the ones that are there, get handles that
/// were never given out before, and leave towers and targets alone.
pub proof fn lemma_with_bullets(world: WorldView, shots: Seq<Shot>)
    requires
        world.wf(),
    ensures
        world.with_bullets(shots).wf(),
        world.with_bullets(shots).towers == world.towers,
        world.with_bullets(shots).targets == world.targets,
        world.with_bullets(shots).config == world.config,
        world.with_bullets(shots).next_handle >= world.next_handle,
        world.with_bullets(shots).bullets.len() >= world.bullets.len(),
        world.with_bullets(shots).bullets.len() <= world.bullets.len() + shots.len(),
        forall|k: int|
            0 <= k < world.bullets.len() ==> #[trigger] world.with_bullets(shots).bullets[k]
                == world.bullets[k],
        forall|k: int|
            world.bullets.len() <= k < world.with_bullets(shots).bullets.len() ==> (
            #[trigger] world.with_bullets(shots).bullets[k]).handle >= world.next_handle,
    decreases shots.len(),
{
    if shots.len() > 0 {
        lemma_with_bullets(world, shots.drop_last());
    }
}

/// One tick keeps every handle unique.
pub proof fn lemma_tick_keeps_wf(world: WorldView, delta: int)
    requires
        world.wf(),
    ensures
        world.staged(delta).wf(),
        world.ticked(delta).wf(),
        world.ticked(delta).next_handle >= world.next_handle,
{
    lemma_staged(world, delta);
    lemma_without_keeps_wf(world.staged(delta), world.doomed(delta));
    lemma_with_bullets(world.staged(delta).without(world.doomed(delta)), world.shots(delta));
}

/// In the middle of a tick every entity stands where it stood in its
/// collection and has the handle it had.
pub proof fn lemma_staged(world: WorldView, delta: int)
    ensures
        world.staged(delta).towers.len() == world.towers.len(),
        world.staged(delta).targets.len() == world.targets.len(),
        world.staged(delta).bullets.len() == world.bullets.len(),
        world.staged(delta).next_handle == world.next_handle,
        forall|k: int|
            0 <= k < world.towers.len() ==> (#[trigger] world.staged(delta).towers[k])
                == world.towers[k].cooled(delta),
        forall|k: int|
            0 <= k < world.targets.len() ==> (#[trigger] world.staged(delta).targets[k]).handle
                == world.targets[k].handle,
        forall|k: int|
            0 <= k < world.bullets.len() ==> (#[trigger] world.staged(delta).bullets[k])
                == world.bullets[k].flown(delta).aged(delta),
        world.wf() ==> world.staged(delta).wf(),
{
    lemma_collisions_keep_places(
        world.targets,
        world.bullets_after_flight(delta),
        world.config.hit_radius,
        world.config.damage,
    );
    let staged = world.staged(delta);
    if world.wf() {
        assert forall|i: int, j: int| 0 <= i < j < staged.towers.len() implies (
        #[trigger] staged.towers[i]).id() != (#[trigger] staged.towers[j]).id() by {
            assert(world.towers[i].id() != world.towers[j].id());
        }
        assert forall|i: int, j: int| 0 <= i < j < staged.targets.len() implies (
        #[trigger] staged.targets[i]).id() != (#[trigger] staged.targets[j]).id() by {
            assert(world.targets[i].id() != world.targets[j].id());
        }
        assert forall|i: int, j: int| 0 <= i < j < staged.bullets.len() implies (
        #[trigger] staged.bullets[i]).id() != (#[trigger] staged.bullets[j]).id() by {
            assert(world.bullets[i].id() != world.bullets[j].id());
        }
        assert forall|i: int, j: int|
            0 <= i < staged.towers.len() && 0 <= j < staged.targets.len() implies (
        #[trigger] staged.towers[i]).id() != (#[trigger] staged.targets[j]).id() by {
            assert(world.towers[i].id() != world.targets[j].id());
        }
        assert forall|i: int, j: int|
            0 <= i < staged.towers.len() && 0 <= j < staged.bullets.len() implies (
        #[trigger] staged.towers[i]).id() != (#[trigger] staged.bullets[j]).id() by {
            assert(world.towers[i].id() != world.bullets[j].id());
        }
        assert forall|i: int, j: int|
            0 <= i < staged.targets.len() && 0 <= j < staged.bullets.len() implies (
        #[trigger] staged.targets[i]).id() != (#[trigger] staged.bullets[j]).id() by {
            assert(world.targets[i].id() != world.bullets[j].id());
        }
        assert forall|k: int| 0 <= k < staged.towers.len() implies (
        #[trigger] staged.towers[k]).id() < staged.next_handle by {
            assert(world.towers[k].id() < world.next_handle);
        }
        assert forall|k: int| 0 <= k < staged.targets.len() implies (
        #[trigger] staged.targets[k]).id() < staged.next_handle by {
            assert(world.targets[k].id() < world.next_handle);
        }
        assert forall|k: int| 0 <= k < staged.bullets.len() implies (
        #[trigger] staged.bullets[k]).id() < staged.next_handle by {
            assert(world.bullets[k].id() < world.next_handle);
        }
    }
}

/// A handle is among the handles picked out of `items` exactly if some
/// entity that was picked has it.
proof fn lemma_picked_handle<E>(
    items: Seq<E>,
    picked: spec_fn(E) -> bool,
    name: spec_fn(E) -> u64,
    handle: u64,
)
    ensures
        items.filter(picked).map_values(name).contains(handle) <==> exists|n: int|
            0 <= n < items.len() && picked(#[trigger] items[n]) && name(items[n]) == handle,
{
    let chosen = items.filter(picked);
    let names = chosen.map_values(name);
    if names.contains(handle) {
        let m = choose|m: int| 0 <= m < names.len() && names[m] == handle;
        items.lemma_filter_pred(picked, m);
        assert(chosen.contains(chosen[m]));
        items.lemma_filter_contains_rev(picked, chosen[m]);
        let n = choose|n: int| 0 <= n < items.len() && items[n] == chosen[m];
        assert(picked(items[n]) && name(items[n]) == handle);
    }
    if exists|n: int| 0 <= n < items.len() && picked(#[trigger] items[n]) && name(items[n]) == handle {
        let n = choose|n: int|
            0 <= n < items.len() && picked(#[trigger] items[n]) && name(items[n]) == handle;
        items.lemma_filter_contains(picked, n);
        let m = choose|m: int| 0 <= m < chosen.len() && chosen[m] == items[n];
        assert(names[m] == handle);
    }
}

/// What one tick does to a projectile. It flies and ages; then it leaves
/// the world if its lifetime has run out or, failing that, if a target is
/// within reach, and never for both reasons; otherwise it stays as it is
/// after the flight.
pub proof fn lemma_bullet_fate(world: WorldView, i: int, delta: int)
    requires
        world.wf(),
        0 <= i < world.bullets.len(),
    ensures
        ({
            let after = world.bullets[i].flown(delta).aged(delta);
            let radius = world.config.hit_radius;
            &&& !(after.expired() && after.strikes(world.targets, radius))
            &&& after.expired() || after.strikes(world.targets, radius) ==> !world.ticked(
                delta,
            ).has_bullet(after.handle)
            &&& !after.expired() && !after.strikes(world.targets, radius) ==> world.ticked(
                delta,
            ).bullets.contains(after)
        }),
{
    let after = world.bullets[i].flown(delta).aged(delta);
    let handle = after.handle;
    let radius = world.config.hit_radius;
    let staged = world.staged(delta);
    let doomed = world.doomed(delta);
    let cleared = staged.without(doomed);
    let flown = staged.bullets;
    let kept = cleared.bullets;
    let next = world.ticked(delta);
    lemma_staged(world, delta);
    lemma_without_keeps_wf(staged, doomed);
    lemma_with_bullets(cleared, world.shots(delta));
    lemma_survivors(flown, doomed);
    assert(flown[i] == after);
    let expired = |b: BulletEntity| b.expired();
    let strikes = |b: BulletEntity| b.strikes(world.targets, radius);
    let dead = |t: TargetEntity| t.health.dead();
    let of_bullet = |b: BulletEntity| b.handle;
    let of_target = |t: TargetEntity| t.handle;
    let timed_out = flown.filter(expired).map_values(of_bullet);
    let spent = flown.filter(strikes).map_values(of_bullet);
    let fallen = staged.targets.filter(dead).map_values(of_target);
    assert(doomed == timed_out + spent + fallen);
    lemma_picked_handle(flown, expired, of_bullet, handle);
    lemma_picked_handle(flown, strikes, of_bullet, handle);
    lemma_picked_handle(staged.targets, dead, of_target, handle);
    if after.expired() || after.strikes(world.targets, radius) {
        assert(timed_out.contains(handle) || spent.contains(handle));
        assert(doomed.contains(handle)) by {
            if timed_out.contains(handle) {
                let m = choose|m: int| 0 <= m < timed_out.len() && timed_out[m] == handle;
                assert(doomed[m] == handle);
            } else {
                let m = choose|m: int| 0 <= m < spent.len() && spent[m] == handle;
                assert(doomed[timed_out.len() + m] == handle);
            }
        }
        assert forall|k: int| 0 <= k < next.bullets.len() implies (#[trigger] next.bullets[k]).id()
            != handle by {
            if k < kept.len() {
                assert(next.bullets[k] == kept[k]);
                assert(!doomed.contains(kept[k].id()));
            } else {
                assert(world.bullets[i].id() < world.next_handle);
            }
        }
    } else {
        assert(!doomed.contains(handle)) by {
            if doomed.contains(handle) {
                let m = choose|m: int| 0 <= m < doomed.len() && doomed[m] == handle;
                if m < timed_out.len() {
                    assert(timed_out[m] == handle);
                    let n = choose|n: int|
                        0 <= n < flown.len() && expired(#[trigger] flown[n]) && of_bullet(flown[n])
                            == handle;
                    assert(flown[n].id() == flown[i].id());
                } else if m < timed_out.len() + spent.len() {
                    assert(spent[m - timed_out.len()] == handle);
                    let n = choose|n: int|
                        0 <= n < flown.len() && strikes(#[trigger] flown[n]) && of_bullet(flown[n])
                            == handle;
                    assert(flown[n].id() == flown[i].id());
                } else {
                    assert(fallen[m - timed_out.len() - spent.len()] == handle);
                    let n = choose|n: int|
                        0 <= n < staged.targets.len() && dead(#[trigger] staged.targets[n])
                            && of_target(staged.targets[n]) == handle;
                    assert(staged.targets[n].id() != flown[i].id());
                }
            }
        }
        assert(!doomed.contains(flown[i].id()));
        assert(kept.contains(flown[i]));
        let m = choose|m: int| 0 <= m < kept.len() && kept[m] == flown[i];
        assert(next.bullets[m] == after);
    }
}

/// A handle that was given out and belongs to no projectile belongs to
/// none after the next tick either: handles are not used again.
pub proof fn lemma_absent_bullet_stays_absent(world: WorldView, handle: u64, delta: int)
    requires
        world.wf(),
        handle < world.next_handle,
        !world.has_bullet(handle),
    ensures
        !world.ticked(delta).has_bullet(handle),
{
    let staged = world.staged(delta);
    let doomed = world.doomed(delta);
    let cleared = staged.without(doomed);
    let kept = cleared.bullets;
    let next = world.ticked(delta);
    lemma_staged(world, delta);
    lemma_without_keeps_wf(staged, doomed);
    lemma_with_bullets(cleared, world.shots(delta));
    lemma_survivors(staged.bullets, doomed);
    assert forall|k: int| 0 <= k < next.bullets.len() implies (#[trigger] next.bullets[k]).id()
        != handle by {
        if k < kept.len() {
            assert(next.bullets[k] == kept[k]);
            assert(staged.bullets.contains(kept[k]));
            let n = choose|n: int| 0 <= n < staged.bullets.len() && staged.bullets[n] == kept[k];
            assert(world.bullets[n].id() != handle);
        }
    }
}

/// While a projectile with a one-shot lifetime is in the world, its
/// lifetime holds the summed samples of the ticks it has seen and has not
/// reached its duration.
pub proof fn lemma_bullet_ages_with_the_world(world: WorldView, i: int, deltas: Seq<int>)
    requires
        world.wf(),
        0 <= i < world.bullets.len(),
        world.bullets[i].lifetime.timer.mode == TimerMode::Once,
        !world.bullets[i].lifetime.timer.finished,
    ensures
        world.run(deltas).wf(),
        world.run(deltas).next_handle >= world.next_handle,
        forall|k: int|
            0 <= k < world.run(deltas).bullets.len() && (#[trigger] world.run(
                deltas,
            ).bullets[k]).handle == world.bullets[i].handle ==> {
                let before = world.bullets[i].lifetime.timer;
                let now = world.run(deltas).bullets[k].lifetime.timer;
                &&& now.mode == TimerMode::Once
                &&& !now.finished
                &&& now.duration == before.duration
                &&& now.elapsed == before.elapsed + total_time(deltas)
                &&& deltas.len() > 0 ==> now.elapsed < now.duration
            },
    decreases deltas.len(),
{
    let handle = world.bullets[i].handle;
    if deltas.len() == 0 {
        assert forall|k: int|
            0 <= k < world.bullets.len() && (#[trigger] world.bullets[k]).handle
                == handle implies k == i by {
            if k != i {
                assert(world.bullets[k].id() != world.bullets[i].id());
            }
        }
    } else {
        let earlier = world.run(deltas.drop_last());
        let delta = deltas.last();
        let now = earlier.ticked(delta);
        lemma_bullet_ages_with_the_world(world, i, deltas.drop_last());
        lemma_tick_keeps_wf(earlier, delta);
        assert(world.bullets[i].id() < world.next_handle);
        if earlier.has_bullet(handle) {
            let j = choose|j: int| 0 <= j < earlier.bullets.len() && (
            #[trigger] earlier.bullets[j]).id() == handle;
            assert(earlier.bullets[j].handle == handle);
            let after = earlier.bullets[j].flown(delta).aged(delta);
            lemma_bullet_fate(earlier, j, delta);
            assert forall|k: int|
                0 <= k < now.bullets.len() && (#[trigger] now.bullets[k]).handle
                    == handle implies now.bullets[k] == after && !after.expired() by {
                assert(now.bullets[k].id() == handle);
                assert(now.has_bullet(handle));
                assert(now.bullets.contains(after));
                let m = choose|m: int| 0 <= m < now.bullets.len() && now.bullets[m] == after;
                if m != k {
                    assert(now.bullets[m].id() != now.bullets[k].id());
                }
            }
        } else {
            lemma_absent_bullet_stays_absent(earlier, handle, delta);
            assert forall|k: int| 0 <= k < now.bullets.len() implies (#[trigger] now.bullets[k]).handle
                != handle by {
                assert(now.bullets[k].id() != handle);
            }
        }
    }
}

/// Every projectile is destroyed in the end: once the ticks since a
/// projectile with a one-shot lifetime was seen add up to what was left of
/// that lifetime, the projectile is gone, whether a target was ever within
/// its reach or not.
pub proof fn lemma_bullet_gone_after_lifetime(world: WorldView, i: int, deltas: Seq<int>)
    requires
        world.wf(),
        0 <= i < world.bullets.len(),
        world.bullets[i].lifetime.timer.mode == TimerMode::Once,
        !world.bullets[i].lifetime.timer.finished,
        deltas.len() > 0,
        world.bullets[i].lifetime.timer.elapsed + total_time(deltas)
            >= world.bullets[i].lifetime.timer.duration,
    ensures
        !world.run(deltas).has_bullet(world.bullets[i].handle),
{
    lemma_bullet_ages_with_the_world(world, i, deltas);
}

/// Without targets no tower fires: a tick creates no projectile.
pub proof fn lemma_no_targets_no_shots(world: WorldView, delta: int)
    requires
        world.targets.len() == 0,
    ensures
        world.shots(delta).len() == 0,
        world.ticked(delta).bullets.len() <= world.bullets.len(),
        world.ticked(delta).next_handle == world.next_handle,
{
    let towers = towers_cooled(world.towers, delta);
    let speed = world.config.bullet_speed;
    let lifetime = world.config.bullet_lifetime;
    let fires = |t: TowerEntity| t.shot(world.targets, speed, lifetime) is Some;
    if towers.filter(fires).len() > 0 {
        towers.lemma_filter_pred(fires, 0);
        let tower = towers.filter(fires)[0];
        assert(nearest(tower.muzzle(), world.targets) is None);
    }
    let staged = world.staged(delta);
    staged.bullets.lemma_filter_len(|e: BulletEntity| !world.doomed(delta).contains(e.id()));
    lemma_staged(world, delta);
}

/// The world after a run depends on nothing but the world before it and
/// the samples: equal worlds given equal samples end up equal.
pub proof fn lemma_run_is_deterministic(a: WorldView, b: WorldView, first: Seq<int>, second: Seq<int>)
    requires
        a == b,
        first == second,
    ensures
        a.run(first) == b.run(second),
{
}

} // verus!
