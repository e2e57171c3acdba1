//! Handles, and the removal of entities by handle.

use crate::bullet::BulletEntity;
use crate::target::TargetEntity;
use crate::tower::TowerEntity;
use vstd::prelude::*;

verus! {

/// A record of the world that is known by a handle.
pub trait Entity: Copy {
    /// The handle of this entity.
    spec fn id(&self) -> u64;

    /// The handle of this entity.
    fn handle(&self) -> (handle: u64)
        ensures
            handle == self.id(),
    ;
}

impl Entity for TowerEntity {
    open spec fn id(&self) -> u64 {
        self.handle
    }

    fn handle(&self) -> (handle: u64) {
        self.handle
    }
}

impl Entity for TargetEntity {
    open spec fn id(&self) -> u64 {
        self.handle
    }

    fn handle(&self) -> (handle: u64) {
        self.handle
    }
}

impl Entity for BulletEntity {
    open spec fn id(&self) -> u64 {
        self.handle
    }

    fn handle(&self) -> (handle: u64) {
        self.handle
    }
}

/// The entities of `items` whose handle is not among `doomed`, in order.
pub open spec fn survivors<E: Entity>(items: Seq<E>, doomed: Seq<u64>) -> Seq<E> {
    items.filter(|e: E| !doomed.contains(e.id()))
}

/// Whether `handle` is among `handles`.
pub fn listed(handles: &Vec<u64>, handle: u64) -> (found: bool)
    ensures
        found == handles@.contains(handle),
{
    let mut i: usize = 0;
    while i < handles.len()
        invariant
            i <= handles.len(),
            forall|k: int| 0 <= k < i ==> handles@[k] != handle,
        decreases handles.len() - i,
    {
        if handles[i] == handle {
            return true;
        }
        i += 1;
    }
    false
}

/// Removes from `items` every entity whose handle is among `doomed`. A
/// handle that no entity has removes nothing.
pub fn despawn<E: Entity>(items: &mut Vec<E>, doomed: &Vec<u64>)
    ensures
        final(items)@ == survivors(old(items)@, doomed@),
{
    let mut kept: Vec<E> = Vec::new();
    let ghost stays = |e: E| !doomed@.contains(e.id());
    let mut i: usize = 0;
    while i < items.len()
        invariant
            i <= items.len(),
            items@ == old(items)@,
            stays == |e: E| !doomed@.contains(e.id()),
            kept@ == items@.take(i as int).filter(stays),
        decreases items.len() - i,
    {
        let item: E = items[i];
        proof {
            let seen = items@.take(i as int);
            assert(items@.take(i + 1) == seen.push(item));
            seen.lemma_filter_push(item, stays);
        }
        if !listed(doomed, item.handle()) {
            kept.push(item);
        }
        i += 1;
    }
    assert(items@.take(i as int) == items@);
    *items = kept;
}

/// Some entity of `items` has the handle `handle`.
pub open spec fn holds<E: Entity>(items: Seq<E>, handle: u64) -> bool {
    exists|k: int| 0 <= k < items.len() && #[trigger] items[k].id() == handle
}

/// No two entities of `items` share a handle.
pub open spec fn distinct<E: Entity>(items: Seq<E>) -> bool {
    forall|i: int, j: int|
        0 <= i < j < items.len() ==> #[trigger] items[i].id() != #[trigger] items[j].id()
}

/// Every handle of `items` is below `bound`.
pub open spec fn below<E: Entity>(items: Seq<E>, bound: u64) -> bool {
    forall|k: int| 0 <= k < items.len() ==> #[trigger] items[k].id() < bound
}

/// No entity of `a` shares a handle with one of `b`.
pub open spec fn apart<A: Entity, B: Entity>(a: Seq<A>, b: Seq<B>) -> bool {
    forall|i: int, j: int|
        0 <= i < a.len() && 0 <= j < b.len() ==> #[trigger] a[i].id() != #[trigger] b[j].id()
}

/// Removal by handle keeps exactly the entities whose handle was not named,
/// each of them once and in the order they had.
pub proof fn lemma_survivors<E: Entity>(items: Seq<E>, doomed: Seq<u64>)
    ensures
        forall|k: int|
            0 <= k < survivors(items, doomed).len() ==> {
                &&& !doomed.contains((#[trigger] survivors(items, doomed)[k]).id())
                &&& items.contains(survivors(items, doomed)[k])
            },
        forall|k: int|
            0 <= k < items.len() && !doomed.contains((#[trigger] items[k]).id()) ==> survivors(
                items,
                doomed,
            ).contains(items[k]),
        distinct(items) ==> distinct(survivors(items, doomed)),
    decreases items.len(),
{
    reveal(Seq::filter);
    let stays = |e: E| !doomed.contains(e.id());
    let kept = survivors(items, doomed);
    if items.len() > 0 {
        let rest = items.drop_last();
        let last = items.last();
        let kept_rest = survivors(rest, doomed);
        lemma_survivors(rest, doomed);
        assert forall|k: int| 0 <= k < kept.len() implies {
            &&& !doomed.contains((#[trigger] kept[k]).id())
            &&& items.contains(kept[k])
        } by {
            if k < kept_rest.len() {
                assert(kept[k] == kept_rest[k]);
                assert(rest.contains(kept_rest[k]));
                let m = choose|m: int| 0 <= m < rest.len() && rest[m] == kept_rest[k];
                assert(items[m] == kept[k]);
            } else {
                assert(kept[k] == last);
                assert(items[items.len() - 1] == last);
            }
        }
        assert forall|k: int|
            0 <= k < items.len() && !doomed.contains((#[trigger] items[k]).id()) implies kept.contains(
            items[k],
        ) by {
            if k < rest.len() {
                assert(rest[k] == items[k]);
                assert(kept_rest.contains(rest[k]));
                let m = choose|m: int| 0 <= m < kept_rest.len() && kept_rest[m] == rest[k];
                assert(kept[m] == items[k]);
            } else {
                assert(kept[kept.len() - 1] == items[k]);
            }
        }
        if distinct(items) {
            assert(distinct(rest)) by {
                assert forall|i: int, j: int| 0 <= i < j < rest.len() implies #[trigger] rest[i].id()
                    != #[trigger] rest[j].id() by {
                    assert(items[i].id() != items[j].id());
                }
            }
            assert forall|i: int, j: int| 0 <= i < j < kept.len() implies #[trigger] kept[i].id()
                != #[trigger] kept[j].id() by {
                if j < kept_rest.len() {
                    assert(kept_rest[i].id() != kept_rest[j].id());
                } else {
                    assert(kept[j] == last);
                    assert(kept[i] == kept_rest[i]);
                    assert(rest.contains(kept_rest[i]));
                    let m = choose|m: int| 0 <= m < rest.len() && rest[m] == kept_rest[i];
                    assert(items[m].id() != items[items.len() - 1].id());
                }
            }
        }
    }
}

/// Asking for the destruction of handles that no entity has changes
/// nothing.
pub proof fn lemma_despawn_absent<E: Entity>(items: Seq<E>, doomed: Seq<u64>)
    requires
        forall|k: int| 0 <= k < doomed.len() ==> !holds(items, #[trigger] doomed[k]),
    ensures
        survivors(items, doomed) == items,
    decreases items.len(),
{
    reveal(Seq::filter);
    if items.len() > 0 {
        let rest = items.drop_last();
        assert forall|k: int| 0 <= k < doomed.len() implies !holds(rest, #[trigger] doomed[k]) by {
            if holds(rest, doomed[k]) {
                let n = choose|n: int| 0 <= n < rest.len() && #[trigger] rest[n].id() == doomed[k];
                assert(items[n].id() == doomed[k]);
            }
        }
        lemma_despawn_absent(rest, doomed);
        if doomed.contains(items.last().id()) {
            let k = choose|k: int| 0 <= k < doomed.len() && doomed[k] == items.last().id();
            assert(items[items.len() - 1].id() == doomed[k]);
        }
        assert(rest.push(items.last()) == items);
    }
}

} // verus!
