//! Properties of generated worlds and histories, proved from the contracts
//! of the functions that build them.
use vstd::prelude::*;
use crate::item::{chain_wf, location_at, owner_at, ItemMoveRecord};
use crate::world::{is_action, previous_holder, CharacterID, CityID, EventID, EventType, ItemID, World, NUM_LAYERS};

verus! {

/// `p` follows outbound edges from its first settlement to its last.
pub open spec fn is_path(w: World, p: Seq<CityID>) -> bool {
    &&& p.len() >= 1
    &&& forall|k: int| 0 <= k < p.len() ==> (#[trigger] p[k]).0 < w.cities@.len()
    &&& forall|k: int| 0 <= k < p.len() - 1 ==> w.cities@[p[k].0 as int].neighbours@.contains(#[trigger] p[k + 1])
}

/// Settlement `b` can be reached from `a` along outbound edges.
pub open spec fn reaches(w: World, a: CityID, b: CityID) -> bool {
    exists|p: Seq<CityID>| is_path(w, p) && p[0] == a && p.last() == b
}

/// A path from the settlement at position `j` of layer `l` to the end.
proof fn path_to_end(w: World, l: int, j: int) -> (p: Seq<CityID>)
    requires
        w.wf(),
        w.layered(),
        0 <= l < NUM_LAYERS,
        0 <= j < w.layers@[l]@.len(),
    ensures
        is_path(w, p),
        p[0] == w.layers@[l]@[j],
        p.last() == w.layers@[NUM_LAYERS - 1]@[0],
    decreases NUM_LAYERS - l,
{
    let c = w.layers@[l]@[j];
    assert(w.edges_ok_at(l, j));
    if l == NUM_LAYERS - 1 {
        assert(j == 0);
        seq![c]
    } else {
        let nb = w.cities@[c.0 as int].neighbours@;
        let next = nb[0];
        assert(w.layers@[l + 1]@.contains(next));
        let j2 = choose|j2: int| 0 <= j2 < w.layers@[l + 1]@.len() && #[trigger] w.layers@[l + 1]@[j2] == next;
        let rest = path_to_end(w, l + 1, j2);
        let p = seq![c] + rest;
        assert(nb.contains(next)) by {
            assert(nb[0] == next);
        }
        assert forall|k: int| 0 <= k < p.len() implies (#[trigger] p[k]).0 < w.cities@.len() by {
            if k > 0 {
                assert(p[k] == rest[k - 1]);
            }
        }
        assert forall|k: int| 0 <= k < p.len() - 1 implies w.cities@[p[k].0 as int].neighbours@.contains(#[trigger] p[k + 1]) by {
            if k > 0 {
                let m = k - 1;
                assert(w.cities@[rest[m].0 as int].neighbours@.contains(rest[m + 1]));
                assert(p[k] == rest[m]);
                assert(p[k + 1] == rest[m + 1]);
            } else {
                assert(p[1] == rest[0]);
            }
        }
        assert(p.last() == rest.last());
        p
    }
}

/// In a generated world the start and the end layer hold one settlement
/// each; every settlement but the end has an outbound edge and the end has
/// none; the end can be reached from every settlement, and the start has an
/// edge to every settlement of the layer after it.
pub proof fn lemma_generated_world_layering(w: World)
    requires
        w.wf(),
        w.layered(),
    ensures
        w.layers@[0]@.len() == 1,
        w.layers@[NUM_LAYERS - 1]@.len() == 1,
        forall|c: int|
            0 <= c < w.cities@.len() && CityID(c as usize) != w.layers@[NUM_LAYERS - 1]@[0] ==> (#[trigger] w.cities@[c]).neighbours@.len()
                >= 1,
        w.cities@[w.layers@[NUM_LAYERS - 1]@[0].0 as int].neighbours@.len() == 0,
        forall|c: int| 0 <= c < w.cities@.len() ==> #[trigger] reaches(w, CityID(c as usize), w.layers@[NUM_LAYERS - 1]@[0]),
        forall|j: int|
            0 <= j < w.layers@[1]@.len() ==> reaches(w, w.layers@[0]@[0], #[trigger] w.layers@[1]@[j]),
{
    let end = w.layers@[NUM_LAYERS - 1]@[0];
    assert(w.edges_ok_at(NUM_LAYERS - 1, 0));
    assert forall|c: int| 0 <= c < w.cities@.len() implies #[trigger] reaches(w, CityID(c as usize), end) by {
        assert(w.placed(c));
        let (l, j) = choose|l: int, j: int|
            0 <= l < w.layers@.len() && 0 <= j < w.layers@[l]@.len() && #[trigger] w.layers@[l]@[j] == CityID(c as usize);
        let p = path_to_end(w, l, j);
    }
    assert forall|c: int|
        0 <= c < w.cities@.len() && CityID(c as usize) != end implies (#[trigger] w.cities@[c]).neighbours@.len() >= 1 by {
        assert(w.placed(c));
        let (l, j) = choose|l: int, j: int|
            0 <= l < w.layers@.len() && 0 <= j < w.layers@[l]@.len() && #[trigger] w.layers@[l]@[j] == CityID(c as usize);
        assert(w.edges_ok_at(l, j));
        if l == NUM_LAYERS - 1 {
            assert(j == 0);
        }
    }
    assert forall|j: int| 0 <= j < w.layers@[1]@.len() implies reaches(w, w.layers@[0]@[0], #[trigger] w.layers@[1]@[j]) by {
        let a = w.layers@[0]@[0];
        let b = w.layers@[1]@[j];
        let p = seq![a, b];
        assert(p[1] == b);
        assert(is_path(w, p));
        assert(p.last() == b);
    }
}

/// Folding an item's chain is monotonic in time: an owner or a location
/// known at `t1` is still known (though perhaps changed) at any later `t2`.
pub proof fn lemma_status_monotonic(recs: Seq<ItemMoveRecord>, t1: usize, t2: usize)
    requires
        t1 <= t2,
    ensures
        owner_at(recs, t1).is_some() ==> owner_at(recs, t2).is_some(),
        location_at(recs, t1).is_some() ==> location_at(recs, t2).is_some(),
    decreases recs.len(),
{
    if recs.len() > 0 {
        lemma_status_monotonic(recs.drop_last(), t1, t2);
    }
}

/// At time 0 an item is with its creator where it was created, unless a
/// later record also falls at time 0.
pub proof fn lemma_status_at_creation(recs: Seq<ItemMoveRecord>)
    requires
        chain_wf(recs),
        forall|k: int| 0 < k < recs.len() ==> (#[trigger] recs[k]).time > 0,
    ensures
        owner_at(recs, 0) == recs[0].new_owner,
        location_at(recs, 0) == recs[0].new_location,
    decreases recs.len(),
{
    if recs.len() > 1 {
        let rest = recs.drop_last();
        assert(recs[recs.len() - 1] == recs.last());
        assert forall|k: int| 0 < k < rest.len() implies (#[trigger] rest[k]).time > 0 by {
            assert(rest[k] == recs[k]);
        }
        assert forall|k: int| 0 <= k < rest.len() implies {
            &&& (#[trigger] rest[k]).new_owner.is_some()
            &&& rest[k].new_location.is_some()
            &&& rest[k].event.is_some()
        } by {
            assert(rest[k] == recs[k]);
        }
        assert forall|j: int, k: int| 0 <= j <= k < rest.len() implies rest[j].time <= rest[k].time by {
            assert(rest[j] == recs[j] && rest[k] == recs[k]);
        }
        lemma_status_at_creation(rest);
    } else {
        assert(recs.drop_last().len() == 0);
    }
}

/// The ledger and its indexes agree: every event a character lists has that
/// character among its participants, every event a settlement lists took
/// place there, and every event is listed by its settlement and by each of
/// its participants. An id is an index into the ledger, so it names exactly
/// one event.
pub proof fn lemma_ledger_integrity(w: World)
    requires
        w.wf(),
    ensures
        forall|c: int, j: int|
            0 <= c < w.characters@.len() && 0 <= j < w.characters@[c].events@.len() ==> {
                let e = #[trigger] w.characters@[c].events@[j];
                &&& e.0 < w.events@.len()
                &&& w.events@[e.0 as int].characters@.contains(CharacterID(c as usize))
            },
        forall|c: int, j: int|
            0 <= c < w.cities@.len() && 0 <= j < w.cities@[c].events@.len() ==> {
                let e = #[trigger] w.cities@[c].events@[j];
                &&& e.0 < w.events@.len()
                &&& w.event_places@[e.0 as int] == CityID(c as usize)
            },
        forall|e: int, k: int|
            0 <= e < w.events@.len() && 0 <= k < w.events@[e].characters@.len() ==> {
                let p = #[trigger] w.events@[e].characters@[k];
                &&& p.0 < w.characters@.len()
                &&& w.characters@[p.0 as int].events@.contains(EventID(e as usize))
            },
        forall|e: int|
            0 <= e < w.events@.len() ==> w.cities@[(#[trigger] w.event_places@[e]).0 as int].events@.contains(
                EventID(e as usize),
            ),
{
    assert forall|c: int, j: int| 0 <= c < w.characters@.len() && 0 <= j < w.characters@[c].events@.len() implies {
        let e = #[trigger] w.characters@[c].events@[j];
        &&& e.0 < w.events@.len()
        &&& w.events@[e.0 as int].characters@.contains(CharacterID(c as usize))
    } by {
        assert(w.character_ok(c));
    }
    assert forall|c: int, j: int| 0 <= c < w.cities@.len() && 0 <= j < w.cities@[c].events@.len() implies {
        let e = #[trigger] w.cities@[c].events@[j];
        &&& e.0 < w.events@.len()
        &&& w.event_places@[e.0 as int] == CityID(c as usize)
    } by {
        assert(w.city_ok(c));
    }
    assert forall|e: int, k: int| 0 <= e < w.events@.len() && 0 <= k < w.events@[e].characters@.len() implies {
        let p = #[trigger] w.events@[e].characters@[k];
        &&& p.0 < w.characters@.len()
        &&& w.characters@[p.0 as int].events@.contains(EventID(e as usize))
    } by {
        assert(w.event_ok(e));
    }
    assert forall|e: int| 0 <= e < w.events@.len() implies w.cities@[(#[trigger] w.event_places@[e]).0 as int].events@.contains(
        EventID(e as usize),
    ) by {
        assert(w.event_ok(e));
    }
}

/// Each character's events, in the order it lists them, never go back in
/// time.
pub proof fn lemma_character_events_time_ordered(w: World, c: int, j1: int, j2: int)
    requires
        w.wf(),
        0 <= c < w.characters@.len(),
        0 <= j1 <= j2 < w.characters@[c].events@.len(),
    ensures
        w.events@[w.characters@[c].events@[j1].0 as int].start_time <= w.events@[w.characters@[c].events@[j2].0 as int].start_time,
{
    assert(w.character_ok(c));
    let evs = w.characters@[c].events@;
    if j1 < j2 {
        assert(evs[j1].0 < evs[j2].0);
    }
    let a = evs[j1].0 as int;
    let b = evs[j2].0 as int;
    assert(w.events@[a].start_time <= w.events@[b].start_time);
}

/// Replaying an item's chain: each record agrees with the event it names
/// (same time, the owner is the acting participant, the location is where
/// the event took place; the first record is the item's creation and every
/// later one a move, a death or an encounter), and folding the chain up to
/// that record at its time yields the record's owner and location.
pub proof fn lemma_provenance_replay(w: World, i: int, k: int)
    requires
        w.wf(),
        0 <= i < w.items@.len(),
        0 <= k < w.items@[i].owner_records@.len(),
    ensures
        ({
            let recs = w.items@[i].owner_records@;
            let r = recs[k];
            let e = (r.event->0).0 as int;
            &&& r.event.is_some()
            &&& 0 <= e < w.events@.len()
            &&& w.events@[e].start_time == r.time
            &&& r.new_owner == Some(w.events@[e].characters@[0])
            &&& r.new_location == Some(w.event_places@[e])
            &&& k == 0 ==> w.events@[e].event_type == EventType::EventCreation(ItemID(i as usize))
            &&& k == 0 ==> w.events@[e].characters@ == seq![r.new_owner->0]
            &&& k > 0 ==> is_action(w.events@[e].event_type)
            &&& owner_at(recs.take(k + 1), r.time) == r.new_owner
            &&& location_at(recs.take(k + 1), r.time) == r.new_location
            &&& k > 0 ==> recs[k - 1].new_owner == Some(previous_holder(w.events@[e]))
            &&& k > 0 ==> (recs[k - 1].event->0).0 < e
        }),
{
    assert(w.item_ok(i));
    assert(w.record_ok(i, k));
    let recs = w.items@[i].owner_records@;
    assert(recs.take(k + 1).last() == recs[k]);
    let e = (recs[k].event->0).0 as int;
    assert(w.event_ok(e));
    if k == 0 {
        assert(w.events@[e].characters@ =~= seq![recs[k].new_owner->0]);
    }
}

/// Record `k` of a chain names an event whose id is at least `k`.
proof fn lemma_record_event_at_least(w: World, i: int, k: int)
    requires
        w.wf(),
        0 <= i < w.items@.len(),
        0 <= k < w.items@[i].owner_records@.len(),
    ensures
        (w.items@[i].owner_records@[k].event->0).0 >= k,
    decreases k,
{
    assert(w.item_ok(i));
    assert(w.record_ok(i, k));
    if k > 0 {
        lemma_record_event_at_least(w, i, k - 1);
    }
}

/// An item's chain holds no more records than the ledger holds events:
/// each record names a later event than the one before.
pub proof fn lemma_chain_bounded(w: World, i: int)
    requires
        w.wf(),
        0 <= i < w.items@.len(),
    ensures
        w.items@[i].owner_records@.len() <= w.events@.len(),
{
    assert(w.item_ok(i));
    let n = w.items@[i].owner_records@.len() as int;
    lemma_record_event_at_least(w, i, n - 1);
    assert(w.record_ok(i, n - 1));
}

/// After the record of a character's death, the item stays with the dead
/// character until an encounter takes it: the next record, if any, is an
/// Encounter in which the dead character is the one met.
pub proof fn lemma_custody_after_death(w: World, i: int, k: int)
    requires
        w.wf(),
        w.no_action_after_death(),
        0 <= i < w.items@.len(),
        0 <= k,
        k + 1 < w.items@[i].owner_records@.len(),
        w.events@[(w.items@[i].owner_records@[k].event->0).0 as int].event_type == EventType::EventDeath,
    ensures
        ({
            let recs = w.items@[i].owner_records@;
            let dead = w.events@[(recs[k].event->0).0 as int].characters@[0];
            let next = w.events@[(recs[k + 1].event->0).0 as int];
            &&& recs[k].new_owner == Some(dead)
            &&& next.event_type == EventType::EventEncounter
            &&& next.characters@[1] == dead
        }),
{
    assert(w.item_ok(i));
    assert(w.record_ok(i, k));
    assert(w.record_ok(i, k + 1));
    let recs = w.items@[i].owner_records@;
    let e1 = (recs[k].event->0).0 as int;
    let e2 = (recs[k + 1].event->0).0 as int;
    assert(recs[k + 1 - 1] == recs[k]);
    if w.events@[e2].event_type != EventType::EventEncounter {
        assert(w.events@[e2].characters@[0] == w.events@[e1].characters@[0]);
        assert(!is_action(w.events@[e2].event_type));
    }
}

} // verus!
