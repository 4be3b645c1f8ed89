//! The character event scheduler: every tick the calamity steps, then each
//! actor in id order draws an action and carries it out, and the population
//! snapshot is recomputed before the next actor acts.
use vstd::prelude::*;
use crate::actor::{
    ACTION_IDLE, idle_weights, reweighted, weights_ok, CharacterState, ACTION_DEATH, ACTION_ENCOUNTER, ACTION_MOVE,
};
use crate::calamity::{
    death_weight, is_terminal, move_weight, others, CalamityState, CALAMITY_DEADLINESS, MAX_EXPOSURE, MAX_POPULATION,
};
use crate::item::{ItemMoveRecord, ItemType};
use crate::random::{choose_one, weighted_sample};
use crate::world::{holder_before, is_action, previous_holder, summary_of, CharacterID, CityID, EventID, EventType, ItemID, World};

verus! {

/// How often `x` occurs in `s`.
pub open spec fn count_of(s: Seq<ItemID>, x: ItemID) -> nat
    decreases s.len(),
{
    if s.len() == 0 {
        0
    } else {
        count_of(s.drop_last(), x) + if s.last() == x {
            1nat
        } else {
            0nat
        }
    }
}

proof fn lemma_count_take_next(s: Seq<ItemID>, k: int)
    requires
        0 <= k < s.len(),
    ensures
        count_of(s.take(k + 1), s[k]) == count_of(s.take(k), s[k]) + 1,
{
    assert(s.take(k + 1).drop_last() == s.take(k));
}

/// A prefix holds an element no more often than the whole sequence.
proof fn lemma_count_prefix(s: Seq<ItemID>, m: int, x: ItemID)
    requires
        0 <= m <= s.len(),
    ensures
        count_of(s.take(m), x) <= count_of(s, x),
    decreases s.len(),
{
    if m == s.len() {
        assert(s.take(m) == s);
    } else {
        lemma_count_prefix(s.drop_last(), m, x);
        assert(s.drop_last().take(m) == s.take(m));
    }
}

/// `n` copies of one record.
pub open spec fn repeated(rec: ItemMoveRecord, n: nat) -> Seq<ItemMoveRecord> {
    Seq::new(n, |_i: int| rec)
}

/// The ids of the actors at settlement `c`, in id order.
pub open spec fn population_of(states: Seq<CharacterState>, c: CityID) -> Seq<CharacterID>
    decreases states.len(),
{
    if states.len() == 0 {
        Seq::empty()
    } else if states.last().city == c {
        population_of(states.drop_last(), c).push(states.last().character)
    } else {
        population_of(states.drop_last(), c)
    }
}

/// The last tick of a run; ticks run from 0 to this one.
pub const MAX_TIME: usize = 9;
/// Number of items created at the start of a run.
pub const NUM_ITEMS: usize = 3;

/// Percent chance that meeting a living actor who holds items passes one of
/// them on (meeting a dead one always does).
pub const ITEM_PASS_PERCENT: usize = 100;

/// The ids in `pop` other than `me`, in order.
pub open spec fn others_in(pop: Seq<CharacterID>, me: CharacterID) -> Seq<CharacterID>
    decreases pop.len(),
{
    if pop.len() == 0 {
        Seq::empty()
    } else if pop.last() != me {
        others_in(pop.drop_last(), me).push(pop.last())
    } else {
        others_in(pop.drop_last(), me)
    }
}

/// `s` with every occurrence of `x` taken out.
pub open spec fn without(s: Seq<ItemID>, x: ItemID) -> Seq<ItemID>
    decreases s.len(),
{
    if s.len() == 0 {
        Seq::empty()
    } else if s.last() != x {
        without(s.drop_last(), x).push(s.last())
    } else {
        without(s.drop_last(), x)
    }
}

proof fn lemma_others_in(pop: Seq<CharacterID>, me: CharacterID)
    ensures
        forall|k: int| 0 <= k < others_in(pop, me).len() ==> #[trigger] others_in(pop, me)[k] != me && pop.contains(others_in(pop, me)[k]),
    decreases pop.len(),
{
    if pop.len() > 0 {
        lemma_others_in(pop.drop_last(), me);
        let o = others_in(pop, me);
        let q = others_in(pop.drop_last(), me);
        assert forall|k: int| 0 <= k < o.len() implies #[trigger] o[k] != me && pop.contains(o[k]) by {
            if k < q.len() {
                assert(o[k] == q[k]);
                let j = choose|j: int| 0 <= j < pop.drop_last().len() && pop.drop_last()[j] == q[k];
                assert(pop[j] == q[k]);
            } else {
                assert(pop[pop.len() - 1] == o[k]);
            }
        }
    }
}

proof fn lemma_without(s: Seq<ItemID>, x: ItemID)
    ensures
        forall|k: int| 0 <= k < without(s, x).len() ==> s.contains(#[trigger] without(s, x)[k]),
    decreases s.len(),
{
    if s.len() > 0 {
        lemma_without(s.drop_last(), x);
        let o = without(s, x);
        let q = without(s.drop_last(), x);
        assert forall|k: int| 0 <= k < o.len() implies s.contains(#[trigger] o[k]) by {
            if k < q.len() {
                assert(o[k] == q[k]);
                let j = choose|j: int| 0 <= j < s.drop_last().len() && s.drop_last()[j] == q[k];
                assert(s[j] == q[k]);
            } else {
                assert(s[s.len() - 1] == o[k]);
            }
        }
    }
}

proof fn lemma_id_bound_of_ids(refs: Seq<&CityID>)
    requires
        forall|k: int| 0 <= k < refs.len() ==> (#[trigger] refs[k]).0 == k,
    ensures
        crate::calamity::id_bound(refs) == refs.len(),
    decreases refs.len(),
{
    if refs.len() > 0 {
        let rest = refs.drop_last();
        assert forall|k: int| 0 <= k < rest.len() implies (#[trigger] rest[k]).0 == k by {
            assert(rest[k] == refs[k]);
        }
        lemma_id_bound_of_ids(rest);
        assert(refs.last() == refs[refs.len() - 1]);
    }
}

/// The weights an actor takes on arriving at a settlement whose other
/// inhabitants number `pop` and whose exposure is `exposure`.
pub open spec fn arrival_updates(terminal: bool, pop: nat, exposure: nat) -> Seq<(usize, usize)> {
    seq![
        (0usize, move_weight(terminal, pop, exposure) as usize),
        (1usize, death_weight(exposure) as usize),
        (2usize, (pop * pop) as usize),
    ]
}

proof fn lemma_population_bounded(states: Seq<CharacterState>, c: CityID)
    ensures
        population_of(states, c).len() <= states.len(),
        forall|k: int|
            0 <= k < population_of(states, c).len() ==> exists|i: int|
                0 <= i < states.len() && states[i].character == #[trigger] population_of(states, c)[k],
    decreases states.len(),
{
    if states.len() > 0 {
        lemma_population_bounded(states.drop_last(), c);
        let p = population_of(states, c);
        let q = population_of(states.drop_last(), c);
        assert forall|k: int| 0 <= k < p.len() implies exists|i: int|
            0 <= i < states.len() && states[i].character == #[trigger] p[k] by {
            if k < q.len() {
                assert(p[k] == q[k]);
                let i = choose|i: int| 0 <= i < states.drop_last().len() && states.drop_last()[i].character == q[k];
                assert(states[i] == states.drop_last()[i]);
            } else {
                assert(states[states.len() - 1].character == p[k]);
            }
        }
    }
}

/// The population snapshot: for each settlement, the ids of the actors
/// there, in id order.
fn recalculate_city_populations(num_cities: usize, states: &Vec<CharacterState>) -> (r: Vec<Vec<CharacterID>>)
    requires
        forall|i: int| 0 <= i < states@.len() ==> (#[trigger] states@[i]).city.0 < num_cities,
    ensures
        r@.len() == num_cities,
        forall|c: int| 0 <= c < num_cities ==> (#[trigger] r@[c])@ == population_of(states@, CityID(c as usize)),
{
    let mut r: Vec<Vec<CharacterID>> = Vec::new();
    while r.len() < num_cities
        invariant
            r@.len() <= num_cities,
            forall|c: int| 0 <= c < r@.len() ==> (#[trigger] r@[c])@.len() == 0,
        decreases num_cities - r@.len(),
    {
        r.push(Vec::new());
    }
    let mut i: usize = 0;
    while i < states.len()
        invariant
            i <= states@.len(),
            r@.len() == num_cities,
            forall|k: int| 0 <= k < states@.len() ==> (#[trigger] states@[k]).city.0 < num_cities,
            forall|c: int| 0 <= c < num_cities ==> (#[trigger] r@[c])@ == population_of(states@.take(i as int), CityID(c as usize)),
        decreases states@.len() - i,
    {
        assert(states@.take(i as int + 1).drop_last() == states@.take(i as int));
        let c = states[i].city.0;
        let ghost before = r@;
        r[c].push(states[i].character);
        assert forall|c2: int| 0 <= c2 < num_cities implies (#[trigger] r@[c2])@ == population_of(states@.take(i as int + 1), CityID(c2 as usize)) by {
            if c2 != c {
                assert(r@[c2] == before[c2]);
            }
        }
        i += 1;
    }
    assert(states@.take(i as int) == states@);
    r
}

/// Each actor stands for the character of its index, is at a known
/// settlement, has sound weights and holds known items.
pub open spec fn actors_ok(w: World, states: Seq<CharacterState>) -> bool {
    &&& states.len() == w.characters@.len()
    &&& forall|i: int|
        0 <= i < states.len() ==> {
            &&& (#[trigger] states[i]).character == CharacterID(i as usize)
            &&& states[i].city.0 < w.cities@.len()
            &&& states[i].wf()
            &&& forall|k: int| 0 <= k < states[i].items@.len() ==> (#[trigger] states[i].items@[k]).0 < w.items@.len()
        }
}

/// Every character whose death is recorded is dead.
pub open spec fn deaths_known(w: World, states: Seq<CharacterState>) -> bool {
    forall|e: int|
        0 <= e < w.events@.len() && (#[trigger] w.events@[e]).event_type == EventType::EventDeath ==> states[w.events@[e].characters@[0].0 as int].dead
}

/// Each item is carried, once, by the character its last record names,
/// and by nobody else.
pub open spec fn holdings_ok(w: World, states: Seq<CharacterState>) -> bool {
    forall|c: int, i: int|
        0 <= c < states.len() && 0 <= i < w.items@.len() ==> #[trigger] count_of(states[c].items@, ItemID(i as usize))
            == if w.last_owner(i) == Some(CharacterID(c as usize)) {
            1nat
        } else {
            0nat
        }
}

/// Each actor stands where its Moves in the ledger have taken it from the
/// start settlement, and every Move followed an edge.
pub open spec fn positions_ok(w: World, states: Seq<CharacterState>) -> bool {
    let start = w.layers@[0]@[0];
    &&& w.moves_follow_edges(start)
    &&& forall|c: int|
        0 <= c < states.len() ==> (#[trigger] states[c]).city == w.position_after(
            CharacterID(c as usize),
            w.events@.len() as int,
            start,
        )
}

/// After one more event (a Move of actor `a` along an edge, or any other
/// kind), positions still agree with the actors.
proof fn lemma_positions_after_append(w0: World, w: World, s1: Seq<CharacterState>, s2: Seq<CharacterState>, a: int)
    requires
        positions_ok(w0, s1),
        w0.wf(),
        w0.layers@[0]@.len() >= 1,
        w0.layers@[0]@[0].0 < w0.cities@.len(),
        0 <= a < s1.len(),
        s1.len() == w0.characters@.len(),
        s2.len() == s1.len(),
        w.events@.len() == w0.events@.len() + 1,
        forall|e: int| 0 <= e < w0.events@.len() ==> #[trigger] w.events@[e] == w0.events@[e],
        w.event_places@ == w0.event_places@.push(w.event_places@[w0.events@.len() as int]),
        w.layers@ == w0.layers@,
        w.cities@.len() == w0.cities@.len(),
        forall|c: int| 0 <= c < w.cities@.len() ==> (#[trigger] w.cities@[c]).neighbours@ == w0.cities@[c].neighbours@,
        s1[a].city.0 < w0.cities@.len(),
        forall|c: int| 0 <= c < s2.len() && c != a ==> (#[trigger] s2[c]).city == s1[c].city,
        ({
            let ev = w.events@[w0.events@.len() as int];
            let place = w.event_places@[w0.events@.len() as int];
            if ev.event_type == EventType::EventMove {
                &&& ev.characters@[0] == CharacterID(a as usize)
                &&& place == s2[a].city
                &&& w0.cities@[s1[a].city.0 as int].neighbours@.contains(place)
            } else {
                &&& ev.characters@[0] == CharacterID(a as usize)
                &&& s2[a].city == s1[a].city
            }
        }),
    ensures
        positions_ok(w, s2),
{
    let start = w.layers@[0]@[0];
    let n = w0.events@.len() as int;
    assert forall|e: int| 0 <= e < n implies #[trigger] w.event_places@[e] == w0.event_places@[e] by {
        assert(w.event_places@[e] == w0.event_places@.push(w.event_places@[n])[e]);
    }
    assert forall|c: int| 0 <= c < s2.len() implies (#[trigger] s2[c]).city == w.position_after(
        CharacterID(c as usize),
        w.events@.len() as int,
        start,
    ) by {
        w0.lemma_position_prefix(w, CharacterID(c as usize), n, start);
        assert(s1[c].city == w0.position_after(CharacterID(c as usize), n, start));
        assert(w.events@.len() as int == n + 1);
        if c != a {
            assert(CharacterID(c as usize) != CharacterID(a as usize));
        }
    }
    assert forall|e: int|
        0 <= e < w.events@.len() && (#[trigger] w.events@[e]).event_type == EventType::EventMove implies w.cities@[w.position_after(
        w.events@[e].characters@[0],
        e,
        start,
    ).0 as int].neighbours@.contains(w.event_places@[e]) by {
        w0.lemma_position_prefix(w, w.events@[e].characters@[0], if e < n { e } else { n }, start);
        if e < n {
            assert(w0.events@[e] == w.events@[e]);
            let p = w0.position_after(w0.events@[e].characters@[0], e, start);
            assert(w0.cities@[p.0 as int].neighbours@.contains(w0.event_places@[e]));
            w0.lemma_position_valid(w0.events@[e].characters@[0], e, start);
        } else {
            assert(s1[a].city == w0.position_after(CharacterID(a as usize), n, start));
        }
    }
}

/// Positions agree as long as the ledger, the graph and the actors'
/// settlements stay as they were.
proof fn lemma_positions_frame(w0: World, w: World, s1: Seq<CharacterState>, s2: Seq<CharacterState>)
    requires
        positions_ok(w0, s1),
        w.events@ == w0.events@,
        w.event_places@ == w0.event_places@,
        w.layers@ == w0.layers@,
        w.cities@.len() == w0.cities@.len(),
        forall|c: int| 0 <= c < w.cities@.len() ==> (#[trigger] w.cities@[c]).neighbours@ == w0.cities@[c].neighbours@,
        w0.wf(),
        w0.layers@[0]@.len() >= 1,
        w0.layers@[0]@[0].0 < w0.cities@.len(),
        s2.len() == s1.len(),
        forall|c: int| 0 <= c < s2.len() ==> (#[trigger] s2[c]).city == s1[c].city,
    ensures
        positions_ok(w, s2),
{
    let start = w.layers@[0]@[0];
    let n = w0.events@.len() as int;
    assert forall|c: int| 0 <= c < s2.len() implies (#[trigger] s2[c]).city == w.position_after(
        CharacterID(c as usize),
        n,
        start,
    ) by {
        w0.lemma_position_prefix(w, CharacterID(c as usize), n, start);
        assert(s1[c].city == w0.position_after(CharacterID(c as usize), n, start));
    }
    assert forall|e: int|
        0 <= e < w.events@.len() && (#[trigger] w.events@[e]).event_type == EventType::EventMove implies w.cities@[w.position_after(
        w.events@[e].characters@[0],
        e,
        start,
    ).0 as int].neighbours@.contains(w.event_places@[e]) by {
        w0.lemma_position_prefix(w, w.events@[e].characters@[0], e, start);
        w0.lemma_position_valid(w0.events@[e].characters@[0], e, start);
        assert(w0.events@[e] == w.events@[e]);
    }
}

/// Before any Move, everybody is at the start.
proof fn lemma_position_no_moves(w: World, c: CharacterID, n: int, start: CityID)
    requires
        0 <= n <= w.events@.len(),
        forall|e: int| 0 <= e < n ==> (#[trigger] w.events@[e]).event_type != EventType::EventMove,
    ensures
        w.position_after(c, n, start) == start,
    decreases n,
{
    if n > 0 {
        assert(w.events@[n - 1].event_type != EventType::EventMove);
        lemma_position_no_moves(w, c, n - 1, start);
    }
}

/// Appending records for a later event changes no earlier holder.
proof fn lemma_holder_before_append(old_recs: Seq<ItemMoveRecord>, rec: ItemMoveRecord, n: nat, e: int)
    requires
        (rec.event->0).0 as int >= e,
    ensures
        holder_before(old_recs + repeated(rec, n), e) == holder_before(old_recs, e),
    decreases n,
{
    if n == 0 {
        assert(old_recs + repeated(rec, 0) =~= old_recs);
    } else {
        let longer = old_recs + repeated(rec, n);
        assert(longer.drop_last() =~= old_recs + repeated(rec, (n - 1) as nat));
        assert(longer.last() == rec);
        lemma_holder_before_append(old_recs, rec, (n - 1) as nat, e);
    }
}

/// A record of chain `i` after records were appended for the new event:
/// an old one, or the appended record.
proof fn lemma_appended_record(w0: World, w: World, items: Seq<ItemID>, rec: ItemMoveRecord, i: int, k: int)
    requires
        w0.wf(),
        w.items_recorded(w0, items, rec),
        0 <= i < w.items@.len(),
        0 <= k < w.items@[i].owner_records@.len(),
    ensures
        k < w0.items@[i].owner_records@.len() ==> {
            &&& w.items@[i].owner_records@[k] == w0.items@[i].owner_records@[k]
            &&& ((w0.items@[i].owner_records@[k].event->0).0 as int) < w0.events@.len()
        },
        k >= w0.items@[i].owner_records@.len() ==> w.items@[i].owner_records@[k] == rec && count_of(items, ItemID(i as usize)) > 0,
{
    assert(w0.item_ok(i));
    if k < w0.items@[i].owner_records@.len() {
        assert(w0.record_ok(i, k));
    }
}

/// A move or a death, with its records, keeps the passing rules.
proof fn lemma_passes_after_action(w0: World, w: World, items: Seq<ItemID>, rec: ItemMoveRecord)
    requires
        w0.wf(),
        w0.passes_ok(),
        w.events@.len() == w0.events@.len() + 1,
        forall|e: int| 0 <= e < w0.events@.len() ==> #[trigger] w.events@[e] == w0.events@[e],
        w.events@[w0.events@.len() as int].event_type != EventType::EventEncounter,
        w.items_recorded(w0, items, rec),
        rec.event == Some(EventID(w0.events@.len() as usize)),
    ensures
        w.passes_ok(),
{
    let n = w0.events@.len() as int;
    assert forall|i1: int, k1: int, i2: int, k2: int|
        0 <= i1 < w.items@.len() && 0 <= i2 < w.items@.len() && 0 <= k1 < w.items@[i1].owner_records@.len() && 0 <= k2
            < w.items@[i2].owner_records@.len() && (#[trigger] w.items@[i1].owner_records@[k1]).event
            == (#[trigger] w.items@[i2].owner_records@[k2]).event && w.events@[(w.items@[i1].owner_records@[k1].event->0).0 as int].event_type
            == EventType::EventEncounter implies i1 == i2 by {
        lemma_appended_record(w0, w, items, rec, i1, k1);
        lemma_appended_record(w0, w, items, rec, i2, k2);
        let old1 = k1 < w0.items@[i1].owner_records@.len();
        let old2 = k2 < w0.items@[i2].owner_records@.len();
        if old1 && old2 {
            let t = (w0.items@[i1].owner_records@[k1].event->0).0 as int;
            assert(w.events@[t] == w0.events@[t]);
        }
    }
    assert forall|e: int|
        0 <= e < w.events@.len() && (#[trigger] w.events@[e]).event_type == EventType::EventEncounter && (exists|i: int|
            0 <= i < w.items@.len() && #[trigger] holder_before(w.items@[i].owner_records@, e) == Some(
                w.events@[e].characters@[1],
            )) implies exists|i: int, k: int|
        0 <= i < w.items@.len() && 0 <= k < w.items@[i].owner_records@.len() && (#[trigger] w.items@[i].owner_records@[k]).event
            == Some(EventID(e as usize)) by {
        assert(e < n);
        assert(w.events@[e] == w0.events@[e]);
        let i = choose|i: int|
            0 <= i < w.items@.len() && #[trigger] holder_before(w.items@[i].owner_records@, e) == Some(
                w.events@[e].characters@[1],
            );
        lemma_holder_before_append(w0.items@[i].owner_records@, rec, count_of(items, ItemID(i as usize)), e);
        assert(holder_before(w0.items@[i].owner_records@, e) == Some(w0.events@[e].characters@[1]));
        let (i2, k2) = choose|i2: int, k2: int|
            0 <= i2 < w0.items@.len() && 0 <= k2 < w0.items@[i2].owner_records@.len() && (#[trigger] w0.items@[i2].owner_records@[k2]).event
                == Some(EventID(e as usize));
        assert(w.items@[i2].owner_records@[k2] == w0.items@[i2].owner_records@[k2]);
    }
}

/// An encounter, with the item it passed if any, keeps the passing rules.
proof fn lemma_passes_after_encounter(
    w0: World,
    w: World,
    s: Seq<CharacterState>,
    b: int,
    passed: Option<ItemID>,
    rec: ItemMoveRecord,
)
    requires
        w0.wf(),
        w0.passes_ok(),
        holdings_ok(w0, s),
        0 <= b < s.len(),
        w.events@.len() == w0.events@.len() + 1,
        forall|e: int| 0 <= e < w0.events@.len() ==> #[trigger] w.events@[e] == w0.events@[e],
        w.events@[w0.events@.len() as int].event_type == EventType::EventEncounter,
        w.events@[w0.events@.len() as int].characters@[1] == CharacterID(b as usize),
        rec.event == Some(EventID(w0.events@.len() as usize)),
        passed is None ==> w.items@ == w0.items@ && s[b].items@.len() == 0,
        passed matches Some(x) ==> s[b].items@.contains(x) && x.0 < w0.items@.len() && w.items_recorded(w0, seq![x], rec),
    ensures
        w.passes_ok(),
{
    let n = w0.events@.len() as int;
    let items: Seq<ItemID> = match passed {
        Some(x) => seq![x],
        None => Seq::empty(),
    };
    reveal_with_fuel(count_of, 2);
    assert(seq![ItemID(0)].drop_last() =~= Seq::<ItemID>::empty());
    if passed is None {
        assert forall|i: int| 0 <= i < w.items@.len() implies {
            &&& (#[trigger] w.items@[i]).item_type == w0.items@[i].item_type
            &&& w.items@[i].owner_records@ == w0.items@[i].owner_records@ + repeated(rec, count_of(items, ItemID(i as usize)))
        } by {
            assert(w0.items@[i].owner_records@ + repeated(rec, 0) =~= w0.items@[i].owner_records@);
        }
    } else {
        let x = passed->0;
        assert(seq![x].drop_last() =~= Seq::<ItemID>::empty());
    }
    assert(w.items_recorded(w0, items, rec));
    assert forall|i1: int, k1: int, i2: int, k2: int|
        0 <= i1 < w.items@.len() && 0 <= i2 < w.items@.len() && 0 <= k1 < w.items@[i1].owner_records@.len() && 0 <= k2
            < w.items@[i2].owner_records@.len() && (#[trigger] w.items@[i1].owner_records@[k1]).event
            == (#[trigger] w.items@[i2].owner_records@[k2]).event && w.events@[(w.items@[i1].owner_records@[k1].event->0).0 as int].event_type
            == EventType::EventEncounter implies i1 == i2 by {
        lemma_appended_record(w0, w, items, rec, i1, k1);
        lemma_appended_record(w0, w, items, rec, i2, k2);
        let old1 = k1 < w0.items@[i1].owner_records@.len();
        let old2 = k2 < w0.items@[i2].owner_records@.len();
        if old1 && old2 {
            let t = (w0.items@[i1].owner_records@[k1].event->0).0 as int;
            assert(w.events@[t] == w0.events@[t]);
        } else if !old1 && !old2 {
            let x = passed->0;
            assert(count_of(seq![x], ItemID(i1 as usize)) > 0);
            assert(count_of(seq![x], ItemID(i2 as usize)) > 0);
            assert(ItemID(i1 as usize) == x && ItemID(i2 as usize) == x);
        }
    }
    assert forall|e: int|
        0 <= e < w.events@.len() && (#[trigger] w.events@[e]).event_type == EventType::EventEncounter && (exists|i: int|
            0 <= i < w.items@.len() && #[trigger] holder_before(w.items@[i].owner_records@, e) == Some(
                w.events@[e].characters@[1],
            )) implies exists|i: int, k: int|
        0 <= i < w.items@.len() && 0 <= k < w.items@[i].owner_records@.len() && (#[trigger] w.items@[i].owner_records@[k]).event
            == Some(EventID(e as usize)) by {
        let i = choose|i: int|
            0 <= i < w.items@.len() && #[trigger] holder_before(w.items@[i].owner_records@, e) == Some(
                w.events@[e].characters@[1],
            );
        lemma_holder_before_append(w0.items@[i].owner_records@, rec, count_of(items, ItemID(i as usize)), e);
        if e < n {
            assert(w.events@[e] == w0.events@[e]);
            assert(holder_before(w0.items@[i].owner_records@, e) == Some(w0.events@[e].characters@[1]));
            let (i2, k2) = choose|i2: int, k2: int|
                0 <= i2 < w0.items@.len() && 0 <= k2 < w0.items@[i2].owner_records@.len() && (#[trigger] w0.items@[i2].owner_records@[k2]).event
                    == Some(EventID(e as usize));
            assert(w.items@[i2].owner_records@[k2] == w0.items@[i2].owner_records@[k2]);
        } else {
            let recs = w0.items@[i].owner_records@;
            assert(w0.item_ok(i));
            assert(w0.record_ok(i, recs.len() - 1));
            assert(recs.last() == recs[recs.len() - 1]);
            assert(w0.last_owner(i) == Some(CharacterID(b as usize)));
            assert(count_of(s[b].items@, ItemID(i as usize)) == 1);
            match passed {
                Some(x) => {
                    let m = choose|m: int| 0 <= m < s[b].items@.len() && s[b].items@[m] == x;
                    lemma_count_member(s[b].items@, m);
                    let xi = x.0 as int;
                    assert(ItemID(xi as usize) == x);
                    assert(count_of(s[b].items@, ItemID(xi as usize)) >= 1);
                    let xr = w0.items@[xi].owner_records@;
                    assert(count_of(items, ItemID(xi as usize)) == 1);
                    assert(w.items@[xi].owner_records@ == xr + repeated(rec, 1));
                    assert(w.items@[xi].owner_records@[xr.len() as int] == rec);
                },
                None => {
                    lemma_count_absent(s[b].items@, ItemID(i as usize));
                },
            }
        }
    }
}

/// The weight of meeting someone for an actor at a settlement of `pop`
/// actors: the square of the others there, or 0 once it has met someone
/// since it last moved.
pub open spec fn encounter_weight(pop: nat, encountered: bool) -> nat {
    if encountered {
        0
    } else {
        others(pop) * others(pop)
    }
}

/// Before drawing, actor `i`'s encounter weight is set from the others at
/// its settlement.
pub fn refresh_encounter_weight(states: &mut Vec<CharacterState>, i: usize, city_populations: &Vec<Vec<CharacterID>>)
    requires
        i < old(states)@.len(),
        weights_ok(old(states)@[i as int].weights()),
        old(states)@[i as int].city.0 < city_populations@.len(),
        forall|c: int| 0 <= c < city_populations@.len() ==> (#[trigger] city_populations@[c])@.len() <= MAX_POPULATION,
    ensures
        final(states)@.len() == old(states)@.len(),
        forall|j: int| 0 <= j < final(states)@.len() && j != i ==> #[trigger] final(states)@[j] == old(states)@[j],
        ({
            let o = old(states)@[i as int];
            let n = final(states)@[i as int];
            &&& n.weights() == reweighted(
                o.weights(),
                seq![(ACTION_ENCOUNTER, encounter_weight(city_populations@[o.city.0 as int]@.len() as nat, o.encountered) as usize)],
            )
            &&& weights_ok(n.weights())
            &&& n.character == o.character
            &&& n.city == o.city
            &&& n.items@ == o.items@
            &&& n.dead == o.dead
            &&& n.encountered == o.encountered
        }),
{
    let city = states[i].city;
    let population = city_populations[city.0].len();
    let others_here: usize = if population > 0 { population - 1 } else { 0 };
    assert(others_here * others_here <= MAX_POPULATION * MAX_POPULATION) by (nonlinear_arith)
        requires
            others_here <= MAX_POPULATION,
    ;
    let weight: usize = if states[i].encountered { 0 } else { others_here * others_here };
    let update = vec![(ACTION_ENCOUNTER, weight)];
    assert(update@ =~= seq![(ACTION_ENCOUNTER, encounter_weight(population as nat, states@[i as int].encountered) as usize)]);
    states[i].reweight(&update);
}

/// The record a turn of actor `st` leaves on an item.
pub open spec fn turn_record(time: usize, st: CharacterState, place: CityID, e: EventID) -> ItemMoveRecord {
    ItemMoveRecord { time, new_owner: Some(st.character), new_location: Some(place), event: Some(e) }
}

/// Actor `i` moved (world `o`, actors `so` before; `w`, `s` after): along a
/// random outbound edge, recomputing its weights for the destination and
/// recording the move and a record for each item it carries; with no edge
/// it was left to idle and nothing was recorded.
pub open spec fn moved(
    w: World,
    o: World,
    s: Seq<CharacterState>,
    so: Seq<CharacterState>,
    i: int,
    time: usize,
    pops: Seq<Vec<CharacterID>>,
    exposures: Seq<usize>,
) -> bool {
    let st = so[i];
    let nb = o.cities@[st.city.0 as int].neighbours@;
    let n = s[i];
    &&& s.len() == so.len()
    &&& forall|j: int| 0 <= j < s.len() && j != i ==> #[trigger] s[j] == so[j]
    &&& n.character == st.character
    &&& n.items@ == st.items@
    &&& n.dead == st.dead
    &&& nb.len() == 0 ==> {
        &&& w == o
        &&& n.weights() == idle_weights()
        &&& n.city == st.city
        &&& n.encountered == st.encountered
    }
    &&& nb.len() > 0 ==> {
        let e = EventID(o.events@.len() as usize);
        &&& nb.contains(n.city)
        &&& !n.encountered
        &&& n.weights() == reweighted(
            st.weights(),
            arrival_updates(
                is_terminal(o.layers@, n.city),
                pops[n.city.0 as int]@.len() as nat,
                exposures[n.city.0 as int] as nat,
            ),
        )
        &&& w.ledger_appended(o, e, seq![st.character], time, EventType::EventMove, n.city)
        &&& w.events@[e.0 as int].end_time.is_none()
        &&& w.items_recorded(o, st.items@, turn_record(time, st, n.city, e))
    }
}

/// Actor `i` died: it can only idle from now on, and its death is recorded
/// where it was, with a record for each item it carries.
pub open spec fn died(w: World, o: World, s: Seq<CharacterState>, so: Seq<CharacterState>, i: int, time: usize) -> bool {
    let st = so[i];
    let n = s[i];
    let e = EventID(o.events@.len() as usize);
    &&& s.len() == so.len()
    &&& forall|j: int| 0 <= j < s.len() && j != i ==> #[trigger] s[j] == so[j]
    &&& n.dead
    &&& n.weights() == idle_weights()
    &&& n.character == st.character
    &&& n.city == st.city
    &&& n.items@ == st.items@
    &&& n.encountered == st.encountered
    &&& w.ledger_appended(o, e, seq![st.character], time, EventType::EventDeath, st.city)
    &&& w.events@[e.0 as int].end_time.is_none()
    &&& w.items_recorded(o, st.items@, turn_record(time, st, st.city, e))
}

/// Actor `i` met someone: with nobody else at its settlement nothing
/// happened; otherwise it met one of the others there, the encounter was
/// recorded, it cannot meet anyone again before it moves, both count as
/// having met someone, and if the one met carried items, one of them passed
/// to actor `i` with a record of the encounter.
pub open spec fn met(
    w: World,
    o: World,
    s: Seq<CharacterState>,
    so: Seq<CharacterState>,
    i: int,
    time: usize,
    pops: Seq<Vec<CharacterID>>,
) -> bool {
    let st = so[i];
    let me = CharacterID(i as usize);
    let cands = others_in(pops[st.city.0 as int]@, me);
    let e = EventID(o.events@.len() as usize);
    let other = w.events@[e.0 as int].characters@[1];
    let b = other.0 as int;
    &&& s.len() == so.len()
    &&& cands.len() == 0 ==> w == o && s == so
    &&& cands.len() > 0 ==> {
        &&& cands.contains(other)
        &&& other != me
        &&& 0 <= b < so.len()
        &&& w.ledger_appended(o, e, seq![me, other], time, EventType::EventEncounter, st.city)
        &&& w.events@[e.0 as int].end_time.is_none()
        &&& s[i].weights() == reweighted(st.weights(), seq![(2usize, 0usize)])
        &&& s[i].encountered
        &&& s[i].character == me
        &&& s[i].city == st.city
        &&& s[i].dead == st.dead
        &&& s[b].encountered
        &&& s[b].event_probability_map == so[b].event_probability_map
        &&& s[b].character == so[b].character
        &&& s[b].city == so[b].city
        &&& s[b].dead == so[b].dead
        &&& forall|k: int| 0 <= k < s.len() && k != i && k != b ==> #[trigger] s[k] == so[k]
        &&& so[b].items@.len() == 0 ==> {
            &&& w.items@ == o.items@
            &&& s[i].items@ == st.items@
            &&& s[b].items@ == so[b].items@
        }
        &&& so[b].items@.len() > 0 ==> exists|x: ItemID|
            #![trigger so[b].items@.contains(x)]
            so[b].items@.contains(x) && s[b].items@ == without(so[b].items@, x) && s[i].items@ == st.items@.push(x)
                && w.items_recorded(o, seq![x], turn_record(time, st, st.city, e))
    }
}

/// What holds between the actions of a run.
pub open spec fn sim_ok(w: World, states: Seq<CharacterState>) -> bool {
    &&& w.wf()
    &&& actors_ok(w, states)
    &&& deaths_known(w, states)
    &&& holdings_ok(w, states)
    &&& w.no_action_after_death()
    &&& w.instantaneous()
    &&& w.passes_ok()
}

proof fn lemma_count_push(s: Seq<ItemID>, x: ItemID, y: ItemID)
    ensures
        count_of(s.push(x), y) == count_of(s, y) + if x == y {
            1nat
        } else {
            0nat
        },
{
    assert(s.push(x).drop_last() == s);
}

proof fn lemma_count_without(s: Seq<ItemID>, x: ItemID, y: ItemID)
    ensures
        count_of(without(s, x), y) == if y == x {
            0
        } else {
            count_of(s, y)
        },
    decreases s.len(),
{
    if s.len() > 0 {
        lemma_count_without(s.drop_last(), x, y);
        if s.last() != x {
            lemma_count_push(without(s.drop_last(), x), s.last(), y);
        }
    }
}

proof fn lemma_count_absent(s: Seq<ItemID>, x: ItemID)
    requires
        forall|k: int| 0 <= k < s.len() ==> s[k] != x,
    ensures
        count_of(s, x) == 0,
    decreases s.len(),
{
    if s.len() > 0 {
        lemma_count_absent(s.drop_last(), x);
        assert(s[s.len() - 1] != x);
    }
}

proof fn lemma_count_member(s: Seq<ItemID>, k: int)
    requires
        0 <= k < s.len(),
    ensures
        count_of(s, s[k]) >= 1,
    decreases s.len(),
{
    if k < s.len() - 1 {
        lemma_count_member(s.drop_last(), k);
        assert(s.drop_last()[k] == s[k]);
    }
}

/// A record for each item an actor carries, naming that actor, changes no
/// holder.
proof fn lemma_holdings_after_record(
    w0: World,
    w: World,
    s1: Seq<CharacterState>,
    s2: Seq<CharacterState>,
    a: int,
    rec: ItemMoveRecord,
)
    requires
        w0.wf(),
        actors_ok(w0, s1),
        holdings_ok(w0, s1),
        0 <= a < s1.len(),
        rec.new_owner == Some(s1[a].character),
        w.items_recorded(w0, s1[a].items@, rec),
        s2.len() == s1.len(),
        forall|j: int| 0 <= j < s2.len() ==> (#[trigger] s2[j]).items@ == s1[j].items@,
    ensures
        holdings_ok(w, s2),
        forall|i: int| 0 <= i < w.items@.len() ==> #[trigger] w.last_owner(i) == w0.last_owner(i),
{
    assert forall|i: int| 0 <= i < w.items@.len() implies #[trigger] w.last_owner(i) == w0.last_owner(i) by {
        assert(w0.item_ok(i));
        let n = count_of(s1[a].items@, ItemID(i as usize));
        let old_recs = w0.items@[i].owner_records@;
        assert(s1[a].character == CharacterID(a as usize));
        if n == 0 {
            assert(old_recs + repeated(rec, n) =~= old_recs);
        } else {
            assert(n == 1);
            assert((old_recs + repeated(rec, n)).last() == rec);
        }
    }
    assert forall|c: int, i: int| 0 <= c < s2.len() && 0 <= i < w.items@.len() implies #[trigger] count_of(s2[c].items@, ItemID(i as usize))
        == if w.last_owner(i) == Some(CharacterID(c as usize)) {
        1nat
    } else {
        0nat
    } by {
        assert(s2[c].items@ == s1[c].items@);
        assert(count_of(s1[c].items@, ItemID(i as usize)) == if w0.last_owner(i) == Some(CharacterID(c as usize)) {
            1nat
        } else {
            0nat
        });
    }
}

/// Passing item `x` from `b` to `a` with a record naming `a` keeps every
/// item with its last recorded owner.
proof fn lemma_holdings_after_pass(
    w0: World,
    w: World,
    s2: Seq<CharacterState>,
    s3: Seq<CharacterState>,
    a: int,
    b: int,
    x: ItemID,
    rec: ItemMoveRecord,
)
    requires
        w0.wf(),
        actors_ok(w0, s2),
        holdings_ok(w0, s2),
        0 <= a < s2.len(),
        0 <= b < s2.len(),
        a != b,
        s2[b].items@.contains(x),
        rec.new_owner == Some(s2[a].character),
        w.items_recorded(w0, seq![x], rec),
        s3.len() == s2.len(),
        s3[b].items@ == without(s2[b].items@, x),
        s3[a].items@ == s2[a].items@.push(x),
        forall|j: int| 0 <= j < s3.len() && j != a && j != b ==> (#[trigger] s3[j]).items@ == s2[j].items@,
    ensures
        holdings_ok(w, s3),
{
    reveal_with_fuel(count_of, 2);
    assert(seq![x].drop_last() =~= Seq::<ItemID>::empty());
    let m = choose|m: int| 0 <= m < s2[b].items@.len() && s2[b].items@[m] == x;
    assert(x.0 < w0.items@.len());
    lemma_count_member(s2[b].items@, m);
    assert(s2[b].character == CharacterID(b as usize));
    assert(s2[a].character == CharacterID(a as usize));
    let xi = x.0 as int;
    assert(ItemID(xi as usize) == x);
    assert(count_of(s2[b].items@, ItemID(xi as usize)) >= 1);
    assert(w0.last_owner(xi) == Some(CharacterID(b as usize)));
    assert forall|c: int, i: int| 0 <= c < s3.len() && 0 <= i < w.items@.len() implies #[trigger] count_of(s3[c].items@, ItemID(i as usize))
        == if w.last_owner(i) == Some(CharacterID(c as usize)) {
        1nat
    } else {
        0nat
    } by {
        let y = ItemID(i as usize);
        assert(w0.item_ok(i));
        let old_recs = w0.items@[i].owner_records@;
        assert(count_of(s2[c].items@, y) == if w0.last_owner(i) == Some(CharacterID(c as usize)) {
            1nat
        } else {
            0nat
        });
        lemma_count_without(s2[b].items@, x, y);
        lemma_count_push(s2[a].items@, x, y);
        if y == x {
            assert((old_recs + repeated(rec, 1)).last() == rec);
            assert(count_of(s2[a].items@, y) == 0);
        } else {
            assert(old_recs + repeated(rec, 0) =~= old_recs);
        }
    }
}

/// Appending records leaves the first record of every chain as it was.
proof fn lemma_firsts_kept(w0: World, w: World, items: Seq<ItemID>, rec: ItemMoveRecord)
    requires
        w0.wf(),
        w.items_recorded(w0, items, rec),
    ensures
        w.items@.len() == w0.items@.len(),
        forall|i: int| 0 <= i < w.items@.len() ==> (#[trigger] w.items@[i]).owner_records@[0] == w0.items@[i].owner_records@[0],
{
    assert forall|i: int| 0 <= i < w.items@.len() implies (#[trigger] w.items@[i]).owner_records@[0] == w0.items@[i].owner_records@[0] by {
        assert(w0.item_ok(i));
    }
}

/// Holdings stay sound while no chain and no actor's items change.
proof fn lemma_holdings_frame(w0: World, w: World, s1: Seq<CharacterState>, s2: Seq<CharacterState>)
    requires
        holdings_ok(w0, s1),
        w.items@ == w0.items@,
        s2.len() == s1.len(),
        forall|j: int| 0 <= j < s2.len() ==> (#[trigger] s2[j]).items@ == s1[j].items@,
    ensures
        holdings_ok(w, s2),
{
    assert forall|c: int, i: int| 0 <= c < s2.len() && 0 <= i < w.items@.len() implies #[trigger] count_of(s2[c].items@, ItemID(i as usize))
        == if w.last_owner(i) == Some(CharacterID(c as usize)) {
        1nat
    } else {
        0nat
    } by {
        assert(s2[c].items@ == s1[c].items@);
        assert(count_of(s1[c].items@, ItemID(i as usize)) == if w0.last_owner(i) == Some(CharacterID(c as usize)) {
            1nat
        } else {
            0nat
        });
    }
}

/// Under the holdings invariant each actor holds exactly what it carries.
proof fn lemma_holds_all(w: World, states: Seq<CharacterState>, c: int)
    requires
        actors_ok(w, states),
        holdings_ok(w, states),
        0 <= c < states.len(),
    ensures
        w.holds_all(states[c]),
{
    let st = states[c];
    assert(st.character == CharacterID(c as usize));
    assert forall|k: int| 0 <= k < st.items@.len() implies {
        &&& count_of(st.items@, #[trigger] st.items@[k]) == 1
        &&& w.last_owner(st.items@[k].0 as int) == Some(st.character)
    } by {
        lemma_count_member(st.items@, k);
        let i = st.items@[k].0 as int;
        assert(ItemID(i as usize) == st.items@[k]);
        assert(count_of(states[c].items@, ItemID(i as usize)) >= 1);
    }
}

/// The population snapshot is sound: one list per settlement, each short
/// enough and naming known actors.
pub open spec fn populations_ok(pops: Seq<Vec<CharacterID>>, n_cities: nat, n_actors: nat) -> bool {
    &&& pops.len() == n_cities
    &&& forall|c: int| 0 <= c < pops.len() ==> (#[trigger] pops[c])@.len() <= MAX_POPULATION
    &&& forall|c: int, k: int| 0 <= c < pops.len() && 0 <= k < pops[c]@.len() ==> (#[trigger] pops[c]@[k]).0 < n_actors
}

impl World {
    /// `self` is `old` with `rec` appended to the chain of each listed item,
    /// once per listing.
    pub open spec fn items_recorded(self, old: World, items: Seq<ItemID>, rec: ItemMoveRecord) -> bool {
        &&& self.items@.len() == old.items@.len()
        &&& forall|i: int|
            0 <= i < self.items@.len() ==> {
                &&& (#[trigger] self.items@[i]).item_type == old.items@[i].item_type
                &&& self.items@[i].owner_records@ == old.items@[i].owner_records@ + repeated(
                    rec,
                    count_of(items, ItemID(i as usize)),
                )
            }
    }

    /// The requirements every action of an actor shares: a well-formed
    /// world with room for one more event, no event later than `time`, and
    /// an actor that refers to a known character, settlement and items.
    pub open spec fn can_act(self, time: usize, state: CharacterState) -> bool {
        &&& self.wf()
        &&& self.latest_time() <= time
        &&& self.events@.len() < usize::MAX
        &&& state.character.0 < self.characters@.len()
        &&& state.city.0 < self.cities@.len()
        &&& forall|k: int| 0 <= k < state.items@.len() ==> (#[trigger] state.items@[k]).0 < self.items@.len()
        &&& self.holds_all(state)
    }

    /// Every chain's last record names an event already in the ledger.
    pub proof fn lemma_last_records_known(self)
        requires
            self.wf(),
        ensures
            forall|i: int|
                0 <= i < self.items@.len() ==> ((#[trigger] self.items@[i]).owner_records@.last().event->0).0
                    < self.events@.len(),
    {
        assert forall|i: int| 0 <= i < self.items@.len() implies ((#[trigger] self.items@[i]).owner_records@.last().event->0).0
            < self.events@.len() by {
            assert(self.item_ok(i));
            let n = self.items@[i].owner_records@.len() as int;
            assert(self.record_ok(i, n - 1));
        }
    }

    /// The owner named by the last record of item `i`.
    pub open spec fn last_owner(self, i: int) -> Option<CharacterID> {
        self.items@[i].owner_records@.last().new_owner
    }

    /// Each item the actor carries is listed once and was last recorded as
    /// the actor's.
    pub open spec fn holds_all(self, state: CharacterState) -> bool {
        forall|k: int|
            0 <= k < state.items@.len() ==> {
                &&& count_of(state.items@, #[trigger] state.items@[k]) == 1
                &&& self.last_owner(state.items@[k].0 as int) == Some(state.character)
            }
    }

    /// The actor dies: it can only idle from now on, a Death event is
    /// recorded where it is, and each item it holds gets a record of that
    /// death (it stays with the dead actor).
    pub fn event_death(&mut self, time: usize, state: &mut CharacterState)
        requires
            old(self).can_act(time, *old(state)),
        ensures
            final(self).wf(),
            final(self).ledger_appended(*old(self), EventID(old(self).events@.len() as usize), seq![old(state).character], time,
                EventType::EventDeath, old(state).city),
            final(self).items_recorded(*old(self), old(state).items@, ItemMoveRecord {
                time,
                new_owner: Some(old(state).character),
                new_location: Some(old(state).city),
                event: Some(EventID(old(self).events@.len() as usize)),
            }),
            final(self).latest_time() == time,
            final(self).events@[old(self).events@.len() as int].end_time.is_none(),
            final(state).dead,
            final(state).weights() == idle_weights(),
            final(state).character == old(state).character,
            final(state).city == old(state).city,
            final(state).items@ == old(state).items@,
            final(state).encountered == old(state).encountered,
    {
        proof {
            self.lemma_last_records_known();
        }
        state.dead = true;
        state.collapse_to_idle();
        let parts = vec![state.character];
        assert(parts@ =~= seq![state.character]);
        let summary = summary_of("Character #", state.character.0, " died in City #", state.city.0);
        let death_event = self.add_event(parts, time, None, EventType::EventDeath, state.city, summary);
        let rec = ItemMoveRecord {
            time,
            new_owner: Some(state.character),
            new_location: Some(state.city),
            event: Some(death_event),
        };
        self.record_items(&state.items, rec);
    }

    /// The actor meets another actor (living or dead) drawn at random from
    /// the others at its settlement; with nobody else there, nothing happens
    /// and `Err` comes back. Otherwise an Encounter event between the two is
    /// recorded, the actor cannot meet anyone again until it moves, and both
    /// count as having met someone.
    pub fn event_encounter(
        &mut self,
        time: usize,
        states: &mut Vec<CharacterState>,
        char_id: usize,
        rng: &mut rand::rngs::ThreadRng,
        city_populations: &Vec<Vec<CharacterID>>,
    ) -> (r: Result<EventID, ()>)
        requires
            char_id < old(states)@.len(),
            old(states)@.len() == old(self).characters@.len(),
            old(self).can_act(time, old(states)@[char_id as int]),
            old(states)@[char_id as int].character == CharacterID(char_id),
            weights_ok(old(states)@[char_id as int].weights()),
            city_populations@.len() == old(self).cities@.len(),
            forall|c: int, k: int|
                0 <= c < city_populations@.len() && 0 <= k < city_populations@[c]@.len() ==> (#[trigger] city_populations@[c]@[k]).0
                    < old(states)@.len(),
        ensures
            final(self).wf(),
            final(states)@.len() == old(states)@.len(),
            ({
                let me = CharacterID(char_id);
                let city = old(states)@[char_id as int].city;
                let cands = others_in(city_populations@[city.0 as int]@, me);
                &&& r is Err <==> cands.len() == 0
                &&& r is Err ==> *final(self) == *old(self) && final(states)@ == old(states)@
                &&& r matches Ok(e) ==> {
                    let other = final(self).events@[e.0 as int].characters@[1];
                    &&& e.0 == old(self).events@.len()
                    &&& cands.contains(other)
                    &&& other != me
                    &&& other.0 < old(states)@.len()
                    &&& final(self).ledger_appended(*old(self), e, seq![me, other], time, EventType::EventEncounter, city)
                    &&& final(self).items@ == old(self).items@
                    &&& final(self).latest_time() == time
                    &&& final(self).events@[e.0 as int].end_time.is_none()
                    &&& final(states)@[char_id as int].weights() == reweighted(
                        old(states)@[char_id as int].weights(),
                        seq![(2usize, 0usize)],
                    )
                    &&& weights_ok(final(states)@[char_id as int].weights())
                    &&& final(states)@[char_id as int].encountered
                    &&& final(states)@[char_id as int].city == city
                    &&& final(states)@[char_id as int].character == me
                    &&& final(states)@[char_id as int].items@ == old(states)@[char_id as int].items@
                    &&& final(states)@[char_id as int].dead == old(states)@[char_id as int].dead
                    &&& final(states)@[other.0 as int].encountered
                    &&& final(states)@[other.0 as int].event_probability_map == old(states)@[other.0 as int].event_probability_map
                    &&& final(states)@[other.0 as int].character == old(states)@[other.0 as int].character
                    &&& final(states)@[other.0 as int].city == old(states)@[other.0 as int].city
                    &&& final(states)@[other.0 as int].items@ == old(states)@[other.0 as int].items@
                    &&& final(states)@[other.0 as int].dead == old(states)@[other.0 as int].dead
                    &&& forall|k: int|
                        0 <= k < final(states)@.len() && k != char_id && k != other.0 ==> #[trigger] final(states)@[k]
                            == old(states)@[k]
                }
            }),
    {
        let city = states[char_id].city;
        let me = states[char_id].character;
        let population = &city_populations[city.0];
        let mut candidates: Vec<CharacterID> = Vec::new();
        let mut k: usize = 0;
        while k < population.len()
            invariant
                k <= population@.len(),
                candidates@ == others_in(population@.take(k as int), me),
            decreases population@.len() - k,
        {
            assert(population@.take(k as int + 1).drop_last() == population@.take(k as int));
            if population[k] != me {
                candidates.push(population[k]);
            }
            k += 1;
        }
        assert(population@.take(k as int) == population@);
        let encountered = match choose_one(rng, &candidates) {
            Some(c) => c,
            None => {
                return Err(());
            },
        };
        proof {
            lemma_others_in(population@, me);
            let j = choose|j: int| 0 <= j < candidates@.len() && candidates@[j] == encountered;
            assert(candidates@[j] != me);
            assert(population@.contains(encountered));
            let m = choose|m: int| 0 <= m < population@.len() && population@[m] == encountered;
            assert(city_populations@[city.0 as int]@[m] == encountered);
        }
        let parts = vec![me, encountered];
        assert(parts@ =~= seq![me, encountered]);
        let summary = crate::world::long_summary_of("Character #", me.0, " encountered Character #", encountered.0,
            " in City #", city.0);
        let event_id = self.add_event(parts, time, None, EventType::EventEncounter, city, summary);
        let no_more = vec![(2usize, 0usize)];
        assert(no_more@ =~= seq![(2usize, 0usize)]);
        states[char_id].reweight(&no_more);
        states[char_id].encountered = true;
        states[encountered.0].encountered = true;
        Ok(event_id)
    }

    /// After an encounter: if the actor met holds items, and the draw allows
    /// it or it is dead, one of its items, drawn at random, passes to the
    /// acting actor with a record of the encounter. Returns the item passed.
    fn pass_item(
        &mut self,
        time: usize,
        states: &mut Vec<CharacterState>,
        actor: usize,
        other: usize,
        event: EventID,
        rng: &mut rand::rngs::ThreadRng,
    ) -> (r: Option<ItemID>)
        requires
            old(self).wf(),
            actor < old(states)@.len(),
            other < old(states)@.len(),
            actor != other,
            event.0 + 1 == old(self).events@.len(),
            old(self).latest_time() <= time,
            old(self).events@[event.0 as int].start_time == time,
            old(self).events@[event.0 as int].characters@[0] == old(states)@[actor as int].character,
            old(self).event_places@[event.0 as int] == old(states)@[actor as int].city,
            old(self).events@[event.0 as int].event_type == EventType::EventEncounter,
            old(self).events@[event.0 as int].characters@[1] == old(states)@[other as int].character,
            old(self).holds_all(old(states)@[other as int]),
            forall|i: int|
                0 <= i < old(self).items@.len() ==> ((#[trigger] old(self).items@[i]).owner_records@.last().event->0).0
                    < event.0,
            old(states)@[actor as int].character.0 < old(self).characters@.len(),
            forall|k: int|
                0 <= k < old(states)@[other as int].items@.len() ==> (#[trigger] old(states)@[other as int].items@[k]).0
                    < old(self).items@.len(),
        ensures
            final(self).wf(),
            final(self).cities@ == old(self).cities@,
            final(self).characters@ == old(self).characters@,
            final(self).events@ == old(self).events@,
            final(self).event_places@ == old(self).event_places@,
            final(self).layers@ == old(self).layers@,
            final(self).latest_time() == old(self).latest_time(),
            final(states)@.len() == old(states)@.len(),
            r is Some <==> old(states)@[other as int].items@.len() > 0,
            r is None ==> *final(self) == *old(self) && final(states)@ == old(states)@,
            r matches Some(x) ==> {
                &&& old(states)@[other as int].items@.contains(x)
                &&& final(states)@[other as int].items@ == without(old(states)@[other as int].items@, x)
                &&& final(states)@[actor as int].items@ == old(states)@[actor as int].items@.push(x)
                &&& final(self).items_recorded(*old(self), seq![x], ItemMoveRecord {
                    time,
                    new_owner: Some(old(states)@[actor as int].character),
                    new_location: Some(old(states)@[actor as int].city),
                    event: Some(event),
                })
                &&& final(states)@[other as int].event_probability_map == old(states)@[other as int].event_probability_map
                &&& final(states)@[other as int].character == old(states)@[other as int].character
                &&& final(states)@[other as int].city == old(states)@[other as int].city
                &&& final(states)@[other as int].dead == old(states)@[other as int].dead
                &&& final(states)@[other as int].encountered == old(states)@[other as int].encountered
                &&& final(states)@[actor as int].event_probability_map == old(states)@[actor as int].event_probability_map
                &&& final(states)@[actor as int].character == old(states)@[actor as int].character
                &&& final(states)@[actor as int].city == old(states)@[actor as int].city
                &&& final(states)@[actor as int].dead == old(states)@[actor as int].dead
                &&& final(states)@[actor as int].encountered == old(states)@[actor as int].encountered
                &&& forall|k: int|
                    0 <= k < final(states)@.len() && k != actor && k != other ==> #[trigger] final(states)@[k] == old(states)@[k]
            },
    {
        if states[other].items.len() == 0 {
            return None;
        }
        let roll = crate::random::random_in_range(rng, 1, 100);
        if !(roll <= ITEM_PASS_PERCENT || states[other].dead) {
            return None;
        }
        let item_id = match choose_one(rng, &states[other].items) {
            Some(x) => x,
            None => {
                return None;
            },
        };
        let held = &states[other].items;
        let mut kept: Vec<ItemID> = Vec::new();
        let mut k: usize = 0;
        while k < held.len()
            invariant
                k <= held@.len(),
                kept@ == without(held@.take(k as int), item_id),
            decreases held@.len() - k,
        {
            assert(held@.take(k as int + 1).drop_last() == held@.take(k as int));
            if held[k] != item_id {
                kept.push(held[k]);
            }
            k += 1;
        }
        assert(held@.take(k as int) == held@);
        states[other].items = kept;
        states[actor].items.push(item_id);
        let passed = vec![item_id];
        assert(passed@ =~= seq![item_id]);
        proof {
            let j = choose|j: int| 0 <= j < old(states)@[other as int].items@.len() && old(states)@[other as int].items@[j] == item_id;
            assert(item_id.0 < self.items@.len());
            assert(count_of(old(states)@[other as int].items@, old(states)@[other as int].items@[j]) == 1);
            assert(self.last_owner(item_id.0 as int) == Some(old(states)@[other as int].character));
            assert(seq![item_id].drop_last() =~= Seq::<ItemID>::empty());
            reveal_with_fuel(count_of, 2);
            assert(count_of(passed@, item_id) == 1);
            assert(passed@[0] == item_id);
        }
        let rec = ItemMoveRecord {
            time,
            new_owner: Some(states[actor].character),
            new_location: Some(states[actor].city),
            event: Some(event),
        };
        self.record_items(&passed, rec);
        Some(item_id)
    }

    /// The actor moves along a random outbound edge of its settlement (with
    /// none, nothing happens). Its weights are recomputed for the
    /// destination, a Move event is recorded there, and each item it holds
    /// gets a record of the move.
    pub fn event_move(
        &mut self,
        time: usize,
        state: &mut CharacterState,
        rng: &mut rand::rngs::ThreadRng,
        city_populations: &Vec<Vec<CharacterID>>,
        city_calamity_states: &Vec<usize>,
    )
        requires
            old(self).can_act(time, *old(state)),
            weights_ok(old(state).weights()),
            city_populations@.len() == old(self).cities@.len(),
            forall|c: int| 0 <= c < city_populations@.len() ==> (#[trigger] city_populations@[c])@.len() <= MAX_POPULATION,
            city_calamity_states@.len() == old(self).cities@.len(),
            forall|c: int| 0 <= c < city_calamity_states@.len() ==> #[trigger] city_calamity_states@[c] <= MAX_EXPOSURE,
        ensures
            final(self).wf(),
            old(self).cities@[old(state).city.0 as int].neighbours@.len() == 0 ==> {
                &&& *final(self) == *old(self)
                &&& final(state).weights() == idle_weights()
                &&& final(state).character == old(state).character
                &&& final(state).city == old(state).city
                &&& final(state).items@ == old(state).items@
                &&& final(state).dead == old(state).dead
                &&& final(state).encountered == old(state).encountered
            },
            old(self).cities@[old(state).city.0 as int].neighbours@.len() > 0 ==> {
                let next = final(state).city;
                &&& old(self).cities@[old(state).city.0 as int].neighbours@.contains(next)
                &&& next.0 < old(self).cities@.len()
                &&& final(state).character == old(state).character
                &&& final(state).items@ == old(state).items@
                &&& final(state).dead == old(state).dead
                &&& !final(state).encountered
                &&& final(state).weights() == reweighted(
                    old(state).weights(),
                    arrival_updates(
                        is_terminal(old(self).layers@, next),
                        city_populations@[next.0 as int]@.len() as nat,
                        city_calamity_states@[next.0 as int] as nat,
                    ),
                )
                &&& weights_ok(final(state).weights())
                &&& final(self).ledger_appended(*old(self), EventID(old(self).events@.len() as usize), seq![old(state).character],
                    time, EventType::EventMove, next)
                &&& final(self).items_recorded(*old(self), old(state).items@, ItemMoveRecord {
                    time,
                    new_owner: Some(old(state).character),
                    new_location: Some(next),
                    event: Some(EventID(old(self).events@.len() as usize)),
                })
                &&& final(self).latest_time() == time
                &&& final(self).events@[old(self).events@.len() as int].end_time.is_none()
            },
    {
        proof {
            self.lemma_last_records_known();
        }
        let next_opt = choose_one(rng, &self.cities[state.city.0].neighbours);
        let next_city = match next_opt {
            Some(c) => c,
            None => {
                state.collapse_to_idle();
                return;
            },
        };
        proof {
            assert(self.city_ok(state.city.0 as int));
            let nb = self.cities@[state.city.0 as int].neighbours@;
            let j = choose|j: int| 0 <= j < nb.len() && nb[j] == next_city;
            assert(nb[j].0 < self.cities@.len());
        }
        state.city = next_city;
        state.encountered = false;
        let population = city_populations[next_city.0].len();
        let exposure = city_calamity_states[next_city.0];
        let terminal = self.layers.len() == crate::world::NUM_LAYERS && self.layers[crate::world::NUM_LAYERS - 1].len() >= 1
            && self.layers[crate::world::NUM_LAYERS - 1][0] == next_city;
        let new_move_prob: usize = if terminal {
            0
        } else {
            population / 4 + exposure * CALAMITY_DEADLINESS
        };
        let new_death_prob: usize = exposure * CALAMITY_DEADLINESS;
        assert(population * population <= MAX_POPULATION * MAX_POPULATION) by (nonlinear_arith)
            requires
                population <= MAX_POPULATION,
        ;
        let encounter_weight: usize = population * population;
        let updates = vec![(0usize, new_move_prob), (1usize, new_death_prob), (2usize, encounter_weight)];
        assert(updates@ =~= arrival_updates(terminal, population as nat, exposure as nat));
        state.reweight(&updates);
        let parts = vec![state.character];
        assert(parts@ =~= seq![state.character]);
        let summary = summary_of("Character #", state.character.0, " moved to City #", next_city.0);
        let event_id = self.add_event(parts, time, None, EventType::EventMove, next_city, summary);
        let rec = ItemMoveRecord {
            time,
            new_owner: Some(state.character),
            new_location: Some(next_city),
            event: Some(event_id),
        };
        self.record_items(&state.items, rec);
    }

    /// Each listed item is listed once, and `rec` may follow the last record
    /// of its chain: its event is later, and the item is held by whoever the
    /// event takes it from.
    pub open spec fn may_extend(self, items: Seq<ItemID>, rec: ItemMoveRecord) -> bool {
        forall|k: int|
            0 <= k < items.len() ==> {
                let recs = self.items@[(#[trigger] items[k]).0 as int].owner_records@;
                &&& count_of(items, items[k]) == 1
                &&& (recs.last().event->0).0 < (rec.event->0).0
                &&& recs.last().new_owner == Some(previous_holder(self.events@[(rec.event->0).0 as int]))
            }
    }

    /// Appends `rec` to the chain of each listed item.
    fn record_items(&mut self, items: &Vec<ItemID>, rec: ItemMoveRecord)
        requires
            old(self).wf(),
            forall|k: int| 0 <= k < items@.len() ==> (#[trigger] items@[k]).0 < old(self).items@.len(),
            rec.event.is_some(),
            rec.new_owner.is_some(),
            rec.new_location.is_some(),
            (rec.event->0).0 < old(self).events@.len(),
            (rec.new_owner->0).0 < old(self).characters@.len(),
            old(self).events@[(rec.event->0).0 as int].start_time == rec.time,
            old(self).events@[(rec.event->0).0 as int].characters@[0] == rec.new_owner->0,
            old(self).event_places@[(rec.event->0).0 as int] == rec.new_location->0,
            is_action(old(self).events@[(rec.event->0).0 as int].event_type),
            old(self).latest_time() <= rec.time,
            old(self).may_extend(items@, rec),
        ensures
            final(self).wf(),
            final(self).cities@ == old(self).cities@,
            final(self).characters@ == old(self).characters@,
            final(self).events@ == old(self).events@,
            final(self).event_places@ == old(self).event_places@,
            final(self).layers@ == old(self).layers@,
            final(self).items@.len() == old(self).items@.len(),
            forall|i: int|
                0 <= i < final(self).items@.len() ==> {
                    &&& (#[trigger] final(self).items@[i]).item_type == old(self).items@[i].item_type
                    &&& final(self).items@[i].owner_records@ == old(self).items@[i].owner_records@ + repeated(
                        rec,
                        count_of(items@, ItemID(i as usize)),
                    )
                },
            final(self).latest_time() == old(self).latest_time(),
    {
        let mut k: usize = 0;
        while k < items.len()
            invariant
                k <= items@.len(),
                self.wf(),
                rec.event.is_some(),
                rec.new_owner.is_some(),
                rec.new_location.is_some(),
                (rec.event->0).0 < old(self).events@.len(),
                (rec.new_owner->0).0 < old(self).characters@.len(),
                old(self).events@[(rec.event->0).0 as int].start_time == rec.time,
                old(self).events@[(rec.event->0).0 as int].characters@[0] == rec.new_owner->0,
                old(self).event_places@[(rec.event->0).0 as int] == rec.new_location->0,
                is_action(old(self).events@[(rec.event->0).0 as int].event_type),
                old(self).latest_time() <= rec.time,
                old(self).may_extend(items@, rec),
                forall|j: int| 0 <= j < items@.len() ==> (#[trigger] items@[j]).0 < old(self).items@.len(),
                self.cities@ == old(self).cities@,
                self.characters@ == old(self).characters@,
                self.events@ == old(self).events@,
                self.event_places@ == old(self).event_places@,
                self.layers@ == old(self).layers@,
                self.items@.len() == old(self).items@.len(),
                forall|i: int|
                    0 <= i < self.items@.len() ==> {
                        &&& (#[trigger] self.items@[i]).item_type == old(self).items@[i].item_type
                        &&& self.items@[i].owner_records@ == old(self).items@[i].owner_records@ + repeated(
                            rec,
                            count_of(items@.take(k as int), ItemID(i as usize)),
                        )
                    },
            decreases items@.len() - k,
        {
            let target = items[k].0;
            let ghost before = *self;
            proof {
                lemma_count_take_next(items@, k as int);
                lemma_count_prefix(items@, k as int + 1, items@[k as int]);
                let orecs0 = old(self).items@[target as int].owner_records@;
                assert(before.items@[target as int].owner_records@ =~= orecs0 + repeated(rec, 0));
                assert(before.items@[target as int].owner_records@ =~= orecs0);
                assert(items@.take(k as int + 1).drop_last() == items@.take(k as int));
                assert(before.item_ok(target as int));
                let recs = before.items@[target as int].owner_records@;
                let e = (rec.event->0).0 as int;
                assert(before.events@.last() == before.events@[before.events@.len() - 1]);
                assert forall|j: int| 0 <= j < recs.len() implies (#[trigger] recs[j]).time <= rec.time by {
                    assert(before.record_ok(target as int, j));
                    let ej = (recs[j].event->0).0 as int;
                    assert(before.events@[ej].start_time <= before.events@[before.events@.len() - 1].start_time);
                }
            }
            self.items[target].owner_records.push(rec);
            proof {
                let e = (rec.event->0).0 as int;
                assert forall|i: int| 0 <= i < self.items@.len() implies #[trigger] self.item_ok(i) by {
                    assert(before.item_ok(i));
                    if i == target {
                        let recs = self.items@[i].owner_records@;
                        let orecs = before.items@[i].owner_records@;
                        assert(recs == orecs.push(rec));
                        assert(before.events@.last() == before.events@[before.events@.len() - 1]);
                        assert forall|j: int| 0 <= j < orecs.len() implies (#[trigger] orecs[j]).time <= rec.time by {
                            assert(before.record_ok(target as int, j));
                            let ej = (orecs[j].event->0).0 as int;
                            assert(before.events@[ej].start_time <= before.events@[before.events@.len() - 1].start_time);
                        }
                        assert forall|j1: int, j2: int| 0 <= j1 <= j2 < recs.len() implies recs[j1].time <= recs[j2].time by {
                            if j2 < orecs.len() {
                                assert(recs[j1] == orecs[j1] && recs[j2] == orecs[j2]);
                            } else if j1 < orecs.len() {
                                assert(recs[j1] == orecs[j1]);
                            }
                        }
                        assert(orecs.len() >= 1);
                        assert forall|j: int| 0 <= j < recs.len() implies #[trigger] self.record_ok(i, j) by {
                            if j < orecs.len() {
                                assert(before.record_ok(i, j));
                                assert(recs[j] == orecs[j]);
                                if j > 0 {
                                    assert(recs[j - 1] == orecs[j - 1]);
                                }
                            } else {
                                assert(recs[j] == rec);
                                assert(j > 0);
                                assert(recs[j - 1] == orecs.last());
                            }
                        }
                    } else {
                        assert(self.items@[i] == before.items@[i]);
                        assert forall|j: int| 0 <= j < self.items@[i].owner_records@.len() implies #[trigger] self.record_ok(i, j) by {
                            assert(before.record_ok(i, j));
                        }
                    }
                }
                assert forall|c: int| 0 <= c < self.cities@.len() implies #[trigger] self.city_ok(c) by {
                    assert(before.city_ok(c));
                }
                assert forall|e2: int| 0 <= e2 < self.events@.len() implies #[trigger] self.event_ok(e2) by {
                    assert(before.event_ok(e2));
                }
                assert forall|c: int| 0 <= c < self.characters@.len() implies #[trigger] self.character_ok(c) by {
                    assert(before.character_ok(c));
                }
                assert forall|i: int| 0 <= i < self.items@.len() implies {
                    &&& (#[trigger] self.items@[i]).item_type == old(self).items@[i].item_type
                    &&& self.items@[i].owner_records@ == old(self).items@[i].owner_records@ + repeated(
                        rec,
                        count_of(items@.take(k as int + 1), ItemID(i as usize)),
                    )
                } by {
                    let n0 = count_of(items@.take(k as int), ItemID(i as usize));
                    if i == target {
                        assert(repeated(rec, n0).push(rec) =~= repeated(rec, n0 + 1));
                        assert(old(self).items@[i].owner_records@ + repeated(rec, n0 + 1) =~= (old(self).items@[i].owner_records@
                            + repeated(rec, n0)).push(rec));
                    } else {
                        assert(self.items@[i] == before.items@[i]);
                    }
                }
            }
            k += 1;
        }
        assert(items@.take(k as int) == items@);
    }
}

impl World {
    /// One actor's turn: a dead actor does nothing; a living one has its
    /// encounter weight set from the others at its settlement (zero if it
    /// has met someone since it last moved), draws an action and carries
    /// it out.
    /// One actor's turn: a dead actor does nothing; a living one has its
    /// encounter weight refreshed, draws an action and carries it out.
    fn step_character(
        &mut self,
        time: usize,
        states: &mut Vec<CharacterState>,
        i: usize,
        rng: &mut rand::rngs::ThreadRng,
        city_populations: &Vec<Vec<CharacterID>>,
        city_calamity_states: &Vec<usize>,
    )
        requires
            sim_ok(*old(self), old(states)@),
            positions_ok(*old(self), old(states)@),
            old(self).layers@[0]@.len() >= 1,
            old(self).layers@[0]@[0].0 < old(self).cities@.len(),
            i < old(states)@.len(),
            old(states)@.len() <= MAX_POPULATION,
            old(self).latest_time() <= time,
            old(self).events@.len() < usize::MAX,
            populations_ok(city_populations@, old(self).cities@.len(), old(states)@.len()),
            city_calamity_states@.len() == old(self).cities@.len(),
            forall|c: int| 0 <= c < city_calamity_states@.len() ==> #[trigger] city_calamity_states@[c] <= MAX_EXPOSURE,
        ensures
            sim_ok(*final(self), final(states)@),
            positions_ok(*final(self), final(states)@),
            final(self).latest_time() <= time,
            final(self).events@.len() <= old(self).events@.len() + 1,
            final(self).cities@.len() == old(self).cities@.len(),
            final(self).items@.len() == old(self).items@.len(),
            final(self).layers@ == old(self).layers@,
            final(states)@.len() == old(states)@.len(),
            final(self).characters@.len() == old(self).characters@.len(),
            forall|k: int|
                0 <= k < final(self).items@.len() ==> (#[trigger] final(self).items@[k]).owner_records@[0]
                    == old(self).items@[k].owner_records@[0],
    {
        if states[i].dead {
            return;
        }
        proof {
            assert(old(states)@[i as int].character == CharacterID(i));
        }
        proof {
            assert(old(states)@[i as int].wf());
        }
        refresh_encounter_weight(states, i, city_populations);
        let ghost s1 = states@;
        proof {
            assert forall|j: int| 0 <= j < s1.len() && j != i implies s1[j] == old(states)@[j] by {}
            assert(actors_ok(*self, s1)) by {
                assert forall|j: int| 0 <= j < s1.len() implies {
                    &&& (#[trigger] s1[j]).character == CharacterID(j as usize)
                    &&& s1[j].city.0 < self.cities@.len()
                    &&& s1[j].wf()
                    &&& forall|k: int| 0 <= k < s1[j].items@.len() ==> (#[trigger] s1[j].items@[k]).0 < self.items@.len()
                } by {
                    assert(old(states)@[j].character == CharacterID(j as usize));
                }
            }
            assert(deaths_known(*self, s1)) by {
                assert forall|e: int| 0 <= e < self.events@.len() && (#[trigger] self.events@[e]).event_type == EventType::EventDeath
                    implies s1[self.events@[e].characters@[0].0 as int].dead by {
                    assert(self.event_ok(e));
                    assert(self.events@[e].characters@[0] == self.events@[e].characters@[0]);
                    assert(old(states)@[self.events@[e].characters@[0].0 as int].dead);
                }
            }
            lemma_holdings_frame(*self, *self, old(states)@, s1);
            lemma_positions_frame(*self, *self, old(states)@, s1);
            lemma_holds_all(*self, s1, i as int);
        }
        assert(sim_ok(*self, states@));
        let action = weighted_sample(&states[i].event_probability_map, rng);
        proof {
            assert(states@[i as int].wf());
        }
        self.act(time, states, i, action, rng, city_populations, city_calamity_states);
    }

    /// One actor's action, once drawn: a dead actor does nothing, and
    /// neither does idling; a move, a death or an encounter (with the item it
    /// may pass) is carried out and recorded.
    #[verifier::rlimit(60)]
    pub fn act(
        &mut self,
        time: usize,
        states: &mut Vec<CharacterState>,
        i: usize,
        action: usize,
        rng: &mut rand::rngs::ThreadRng,
        city_populations: &Vec<Vec<CharacterID>>,
        city_calamity_states: &Vec<usize>,
    )
        requires
            sim_ok(*old(self), old(states)@),
            positions_ok(*old(self), old(states)@),
            old(self).layers@[0]@.len() >= 1,
            old(self).layers@[0]@[0].0 < old(self).cities@.len(),
            i < old(states)@.len(),
            old(states)@.len() <= MAX_POPULATION,
            old(self).latest_time() <= time,
            old(self).events@.len() < usize::MAX,
            populations_ok(city_populations@, old(self).cities@.len(), old(states)@.len()),
            city_calamity_states@.len() == old(self).cities@.len(),
            forall|c: int| 0 <= c < city_calamity_states@.len() ==> #[trigger] city_calamity_states@[c] <= MAX_EXPOSURE,
            action < 4,
        ensures
            sim_ok(*final(self), final(states)@),
            positions_ok(*final(self), final(states)@),
            final(self).latest_time() <= time,
            final(self).events@.len() <= old(self).events@.len() + 1,
            final(self).cities@.len() == old(self).cities@.len(),
            final(self).items@.len() == old(self).items@.len(),
            final(self).layers@ == old(self).layers@,
            final(states)@.len() == old(states)@.len(),
            final(self).characters@.len() == old(self).characters@.len(),
            forall|k: int|
                0 <= k < final(self).items@.len() ==> (#[trigger] final(self).items@[k]).owner_records@[0]
                    == old(self).items@[k].owner_records@[0],
            old(states)@[i as int].dead || action == ACTION_IDLE ==> *final(self) == *old(self) && final(states)@
                == old(states)@,
            !old(states)@[i as int].dead && action == ACTION_MOVE ==> moved(*final(self), *old(self), final(states)@,
                old(states)@, i as int, time, city_populations@, city_calamity_states@),
            !old(states)@[i as int].dead && action == ACTION_DEATH ==> died(*final(self), *old(self), final(states)@,
                old(states)@, i as int, time),
            !old(states)@[i as int].dead && action == ACTION_ENCOUNTER ==> met(*final(self), *old(self), final(states)@,
                old(states)@, i as int, time, city_populations@),
    {
        if states[i].dead {
            return;
        }
        let ghost s1 = states@;
        proof {
            assert(old(states)@[i as int].character == CharacterID(i));
            lemma_holds_all(*self, s1, i as int);
        }
        let ghost w0 = *self;
        if action == ACTION_MOVE {
            self.event_move(time, &mut states[i], rng, city_populations, city_calamity_states);
            proof {
                let s2 = states@;
                assert forall|j: int| 0 <= j < s2.len() && j != i implies s2[j] == s1[j] by {}
                if w0.cities@[s1[i as int].city.0 as int].neighbours@.len() > 0 {
                    self.lemma_appended_action(w0, s1, s2, i as int, time);
                    lemma_holdings_after_record(w0, *self, s1, s2, i as int, ItemMoveRecord {
                        time,
                        new_owner: Some(s1[i as int].character),
                        new_location: Some(s2[i as int].city),
                        event: Some(EventID(w0.events@.len() as usize)),
                    });
                    lemma_positions_after_append(w0, *self, s1, s2, i as int);
                    lemma_passes_after_action(w0, *self, s1[i as int].items@, ItemMoveRecord {
                        time,
                        new_owner: Some(s1[i as int].character),
                        new_location: Some(s2[i as int].city),
                        event: Some(EventID(w0.events@.len() as usize)),
                    });
                    lemma_firsts_kept(w0, *self, s1[i as int].items@, ItemMoveRecord {
                        time,
                        new_owner: Some(s1[i as int].character),
                        new_location: Some(s2[i as int].city),
                        event: Some(EventID(w0.events@.len() as usize)),
                    });
                    assert(actors_ok(*self, s2)) by {
                        assert forall|j: int| 0 <= j < s2.len() implies {
                            &&& (#[trigger] s2[j]).character == CharacterID(j as usize)
                            &&& s2[j].city.0 < self.cities@.len()
                            &&& s2[j].wf()
                            &&& forall|k: int| 0 <= k < s2[j].items@.len() ==> (#[trigger] s2[j].items@[k]).0 < self.items@.len()
                        } by {
                            assert(s1[j].character == CharacterID(j as usize));
                        }
                    }
                } else {
                    lemma_holdings_frame(w0, *self, s1, s2);
                    lemma_positions_frame(w0, *self, s1, s2);
                    assert(actors_ok(*self, s2)) by {
                        assert forall|j: int| 0 <= j < s2.len() implies {
                            &&& (#[trigger] s2[j]).character == CharacterID(j as usize)
                            &&& s2[j].city.0 < self.cities@.len()
                            &&& s2[j].wf()
                            &&& forall|k: int| 0 <= k < s2[j].items@.len() ==> (#[trigger] s2[j].items@[k]).0 < self.items@.len()
                        } by {
                            assert(s1[j].character == CharacterID(j as usize));
                        }
                    }
                    assert(deaths_known(*self, s2)) by {
                        assert forall|e: int| 0 <= e < self.events@.len() && (#[trigger] self.events@[e]).event_type == EventType::EventDeath
                            implies s2[self.events@[e].characters@[0].0 as int].dead by {
                            assert(self.event_ok(e));
                            assert(s1[self.events@[e].characters@[0].0 as int].dead);
                        }
                    }
                }
                assert(sim_ok(*self, states@));
            }
        } else if action == ACTION_DEATH {
            self.event_death(time, &mut states[i]);
            proof {
                let s2 = states@;
                assert forall|j: int| 0 <= j < s2.len() && j != i implies s2[j] == s1[j] by {}
                self.lemma_appended_action(w0, s1, s2, i as int, time);
                lemma_holdings_after_record(w0, *self, s1, s2, i as int, ItemMoveRecord {
                    time,
                    new_owner: Some(s1[i as int].character),
                    new_location: Some(s1[i as int].city),
                    event: Some(EventID(w0.events@.len() as usize)),
                });
                lemma_positions_after_append(w0, *self, s1, s2, i as int);
                lemma_passes_after_action(w0, *self, s1[i as int].items@, ItemMoveRecord {
                    time,
                    new_owner: Some(s1[i as int].character),
                    new_location: Some(s1[i as int].city),
                    event: Some(EventID(w0.events@.len() as usize)),
                });
                lemma_firsts_kept(w0, *self, s1[i as int].items@, ItemMoveRecord {
                    time,
                    new_owner: Some(s1[i as int].character),
                    new_location: Some(s1[i as int].city),
                    event: Some(EventID(w0.events@.len() as usize)),
                });
                assert(actors_ok(*self, s2)) by {
                    assert forall|j: int| 0 <= j < s2.len() implies {
                        &&& (#[trigger] s2[j]).character == CharacterID(j as usize)
                        &&& s2[j].city.0 < self.cities@.len()
                        &&& s2[j].wf()
                        &&& forall|k: int| 0 <= k < s2[j].items@.len() ==> (#[trigger] s2[j].items@[k]).0 < self.items@.len()
                    } by {
                        assert(s1[j].character == CharacterID(j as usize));
                    }
                }
                assert(sim_ok(*self, states@));
            }
        } else if action == ACTION_ENCOUNTER {
            let result = self.event_encounter(time, states, i, rng, city_populations);
            match result {
                Ok(event_id) => {
                    let ghost s2 = states@;
                    let ghost w1 = *self;
                    let other = self.events[event_id.0].characters[1].0;
                    proof {
                        self.lemma_appended_action(w0, s1, s2, i as int, time);
                        assert(actors_ok(*self, s2)) by {
                            assert forall|j: int| 0 <= j < s2.len() implies {
                                &&& (#[trigger] s2[j]).character == CharacterID(j as usize)
                                &&& s2[j].city.0 < self.cities@.len()
                                &&& s2[j].wf()
                                &&& forall|k: int| 0 <= k < s2[j].items@.len() ==> (#[trigger] s2[j].items@[k]).0 < self.items@.len()
                            } by {
                                assert(s1[j].character == CharacterID(j as usize));
                                assert(s1[j].wf());
                            }
                        }
                        assert(self.events@[event_id.0 as int].characters@[0] == CharacterID(i));
                        assert(self.event_places@[event_id.0 as int] == s2[i as int].city);
                        assert(self.latest_time() == time);
                        assert(self.events@.last() == self.events@[event_id.0 as int]);
                        assert(s2[other as int].character == CharacterID(other));
                        assert forall|k: int| 0 <= k < s2[other as int].items@.len() implies (#[trigger] s2[other as int].items@[k]).0 < self.items@.len() by {}
                        assert forall|j: int| 0 <= j < s2.len() implies (#[trigger] s2[j]).items@ == s1[j].items@ by {}
                        lemma_holdings_frame(w0, *self, s1, s2);
                        lemma_positions_after_append(w0, *self, s1, s2, i as int);
                        lemma_holds_all(*self, s2, other as int);
                        w0.lemma_last_records_known();
                    }
                    let passed = self.pass_item(time, states, i, other, event_id, rng);
                    proof {
                        let s3 = states@;
                        assert(self.events@ == w1.events@);
                        assert(deaths_known(*self, s3)) by {
                            assert forall|e: int| 0 <= e < self.events@.len() && (#[trigger] self.events@[e]).event_type == EventType::EventDeath
                                implies s3[self.events@[e].characters@[0].0 as int].dead by {
                                assert(w1.events@[e] == self.events@[e]);
                                assert(self.event_ok(e));
                                let c = self.events@[e].characters@[0].0 as int;
                                assert(s2[c].dead);
                                if c != i && c != other {
                                    assert(s3[c] == s2[c]);
                                }
                            }
                        }
                        w1.lemma_position_valid(CharacterID(0), 0, w1.layers@[0]@[0]);
                        lemma_positions_frame(w1, *self, s2, s3);
                        lemma_holdings_frame(w0, w0, s1, s2);
                        assert(w1.events@[w0.events@.len() as int].characters@[1] == CharacterID(other));
                        if let Some(x) = passed {
                            let m = choose|m: int| 0 <= m < s2[other as int].items@.len() && s2[other as int].items@[m] == x;
                            assert(x.0 < w0.items@.len());
                        }
                        lemma_passes_after_encounter(w0, *self, s2, other as int, passed, ItemMoveRecord {
                            time,
                            new_owner: Some(s2[i as int].character),
                            new_location: Some(s2[i as int].city),
                            event: Some(event_id),
                        });
                        if let Some(x) = passed {
                            lemma_without(s2[other as int].items@, x);
                            lemma_holdings_after_pass(w1, *self, s2, s3, i as int, other as int, x, ItemMoveRecord {
                                time,
                                new_owner: Some(s2[i as int].character),
                                new_location: Some(s2[i as int].city),
                                event: Some(event_id),
                            });
                            lemma_firsts_kept(w1, *self, seq![x], ItemMoveRecord {
                                time,
                                new_owner: Some(s2[i as int].character),
                                new_location: Some(s2[i as int].city),
                                event: Some(event_id),
                            });
                        } else {
                            lemma_holdings_frame(w1, *self, s2, s3);
                        }
                        assert(actors_ok(*self, s3)) by {
                            assert forall|j: int| 0 <= j < s3.len() implies {
                                &&& (#[trigger] s3[j]).character == CharacterID(j as usize)
                                &&& s3[j].city.0 < self.cities@.len()
                                &&& s3[j].wf()
                                &&& forall|k: int| 0 <= k < s3[j].items@.len() ==> (#[trigger] s3[j].items@[k]).0 < self.items@.len()
                            } by {
                                assert(s2[j].character == CharacterID(j as usize));
                                assert(s2[j].wf());
                                if let Some(x) = passed {
                                    if j == other {
                                        assert forall|k: int| 0 <= k < s3[j].items@.len() implies (#[trigger] s3[j].items@[k]).0 < self.items@.len() by {
                                            assert(s2[j].items@.contains(s3[j].items@[k]));
                                        }
                                    } else if j == i {
                                        let m = choose|m: int| 0 <= m < s2[other as int].items@.len() && s2[other as int].items@[m] == x;
                                        assert forall|k: int| 0 <= k < s3[j].items@.len() implies (#[trigger] s3[j].items@[k]).0 < self.items@.len() by {
                                            if k < s2[j].items@.len() {
                                                assert(s3[j].items@[k] == s2[j].items@[k]);
                                            }
                                        }
                                    }
                                }
                            }
                        }
                        assert(self.no_action_after_death());
                        assert(sim_ok(*self, states@));
                    }
                },
                Err(_) => {},
            }
        }
        assert(sim_ok(*self, states@));
    }

    /// `self` is a complete history generated on `old`: a sound ledger in
    /// which nobody acts after dying, events are instantaneous and within
    /// the run, every Move follows an edge, items are created at the start
    /// settlement, encounters pass items as the rules say, and every chain is
    /// no longer than the ledger; the graph and the cast are unchanged.
    pub open spec fn history_of(self, old: World) -> bool {
        &&& self.wf()
        &&& self.no_action_after_death()
        &&& self.instantaneous()
        &&& self.passes_ok()
        &&& self.created_at(old.layers@[0]@[0])
        &&& self.moves_follow_edges(old.layers@[0]@[0])
        &&& forall|i: int|
            0 <= i < self.items@.len() ==> (#[trigger] self.items@[i]).owner_records@.len() <= self.events@.len()
        &&& self.latest_time() <= MAX_TIME
        &&& self.items@.len() == NUM_ITEMS
        &&& self.cities@.len() == old.cities@.len()
        &&& self.characters@.len() == old.characters@.len()
        &&& self.layers@ == old.layers@
    }

    /// Runs the simulation with the default calamity cadence.
    pub fn generate_events(&mut self)
        requires
            old(self).wf(),
            old(self).layered(),
            old(self).events@.len() == 0,
            old(self).items@.len() == 0,
            1 <= old(self).characters@.len() <= MAX_POPULATION,
        ensures
            final(self).history_of(*old(self)),
    {
        self.generate_events_with_cadence(crate::calamity::CALAMITY_FREQ);
    }

    /// Runs the simulation on a freshly generated world, the calamity
    /// advancing every `freq` ticks: every character
    /// becomes an actor at the start settlement, the items are created by
    /// random characters there at time 0, and then for each tick from 0 to
    /// the last the calamity steps and every actor in id order takes its
    /// turn, the population snapshot being recomputed after each turn.
    pub fn generate_events_with_cadence(&mut self, freq: usize)
        requires
            old(self).wf(),
            old(self).layered(),
            old(self).events@.len() == 0,
            old(self).items@.len() == 0,
            1 <= old(self).characters@.len() <= MAX_POPULATION,
            freq >= 1,
        ensures
            final(self).history_of(*old(self)),
    {
        let mut rng = rand::thread_rng();
        let n = self.characters.len();
        let start_city = self.layers[0][0];
        proof {
            assert(self.layers@[0]@[0].0 < self.cities@.len());
        }

        // one actor per character, all at the start settlement
        let mut states: Vec<CharacterState> = Vec::new();
        let mut ids: Vec<CharacterID> = Vec::new();
        let mut char_id: usize = 0;
        while char_id < n
            invariant
                char_id <= n,
                n == self.characters@.len(),
                n <= MAX_POPULATION,
                start_city.0 < self.cities@.len(),
                states@.len() == char_id,
                ids@.len() == char_id,
                forall|j: int|
                    0 <= j < char_id ==> {
                        &&& (#[trigger] states@[j]).character == CharacterID(j as usize)
                        &&& states@[j].city == start_city
                        &&& states@[j].wf()
                        &&& !states@[j].dead
                        &&& states@[j].items@.len() == 0
                        &&& ids@[j] == CharacterID(j as usize)
                    },
            decreases n - char_id,
        {
            states.push(CharacterState::new(CharacterID(char_id), start_city, n));
            ids.push(CharacterID(char_id));
            char_id += 1;
        }

        // the items, each created by a random character
        assert forall|j: int| 0 <= j < n implies #[trigger] ids@[j] == CharacterID(j as usize) by {
            assert(states@[j].character == CharacterID(j as usize));
        }
        let mut item_count: usize = 0;
        while item_count < NUM_ITEMS
            invariant
                item_count <= NUM_ITEMS,
                self.wf(),
                self.layers@ == old(self).layers@,
                self.cities@.len() == old(self).cities@.len(),
                self.characters@.len() == n,
                self.items@.len() == item_count,
                self.events@.len() == item_count,
                self.latest_time() == 0,
                n >= 1,
                start_city.0 < self.cities@.len(),
                ids@.len() == n,
                forall|j: int| 0 <= j < n ==> #[trigger] ids@[j] == CharacterID(j as usize),
                states@.len() == n,
                forall|j: int|
                    0 <= j < n ==> {
                        &&& (#[trigger] states@[j]).character == CharacterID(j as usize)
                        &&& states@[j].city == start_city
                        &&& states@[j].wf()
                        &&& !states@[j].dead
                        &&& forall|k: int| 0 <= k < states@[j].items@.len() ==> (#[trigger] states@[j].items@[k]).0 < self.items@.len()
                    },
                forall|e: int| 0 <= e < self.events@.len() ==> (#[trigger] self.events@[e]).event_type != EventType::EventDeath,
                forall|e: int| 0 <= e < self.events@.len() ==> (#[trigger] self.events@[e]).event_type != EventType::EventMove,
                forall|e: int| 0 <= e < self.events@.len() ==> (#[trigger] self.events@[e]).event_type != EventType::EventEncounter,
                holdings_ok(*self, states@),
                self.instantaneous(),
                self.created_at(start_city),
            decreases NUM_ITEMS - item_count,
        {
            let creator = match choose_one(&mut rng, &ids) {
                Some(c) => c,
                None => ids[0],
            };
            proof {
                let j = choose|j: int| 0 <= j < ids@.len() && ids@[j] == creator;
            }
            let item_type = ItemType::new(&mut rng);
            let ghost before = *self;
            let item = self.add_item(item_type, 0, creator, start_city);
            let ghost s_before = states@;
            states[creator.0].items.push(item);
            proof {
                assert forall|e: int| 0 <= e < self.events@.len() implies (#[trigger] self.events@[e]).end_time.is_none() by {
                    if e < before.events@.len() {
                        assert(self.events@[e] == before.events@[e]);
                    }
                }
                assert forall|i: int| 0 <= i < self.items@.len() implies (#[trigger] self.items@[i]).owner_records@[0].new_location
                    == Some(start_city) by {
                    if i < before.items@.len() {
                        assert(self.items@[i] == before.items@[i]);
                    }
                }
                assert forall|c: int, i: int| 0 <= c < states@.len() && 0 <= i < self.items@.len() implies #[trigger] count_of(states@[c].items@, ItemID(i as usize))
                    == if self.last_owner(i) == Some(CharacterID(c as usize)) {
                    1nat
                } else {
                    0nat
                } by {
                    let y = ItemID(i as usize);
                    if i < before.items@.len() {
                        assert(self.items@[i] == before.items@[i]);
                        assert(count_of(s_before[c].items@, y) == if before.last_owner(i) == Some(CharacterID(c as usize)) {
                            1nat
                        } else {
                            0nat
                        });
                    } else {
                        assert(y == item);
                        assert forall|k: int| 0 <= k < s_before[c].items@.len() implies s_before[c].items@[k] != y by {
                            assert(s_before[c].character == CharacterID(c as usize));
                        }
                        lemma_count_absent(s_before[c].items@, y);
                        assert(self.items@[i].owner_records@.last().new_owner == Some(creator));
                    }
                    if c == creator.0 {
                        lemma_count_push(s_before[c].items@, item, y);
                    } else {
                        assert(states@[c] == s_before[c]);
                    }
                }
                assert forall|e: int| 0 <= e < self.events@.len() implies (#[trigger] self.events@[e]).event_type != EventType::EventDeath
                    && self.events@[e].event_type != EventType::EventMove && self.events@[e].event_type != EventType::EventEncounter by {
                    if e < before.events@.len() {
                        assert(self.events@[e] == before.events@[e]);
                    }
                }
                assert forall|j: int| 0 <= j < n implies {
                    &&& (#[trigger] states@[j]).character == CharacterID(j as usize)
                    &&& states@[j].city == start_city
                    &&& states@[j].wf()
                    &&& !states@[j].dead
                    &&& forall|k: int| 0 <= k < states@[j].items@.len() ==> (#[trigger] states@[j].items@[k]).0 < self.items@.len()
                } by {
                    assert(s_before[j].character == CharacterID(j as usize));
                    if j != creator.0 {
                        assert(states@[j] == s_before[j]);
                    } else {
                        assert forall|k: int| 0 <= k < states@[j].items@.len() implies (#[trigger] states@[j].items@[k]).0 < self.items@.len() by {
                            if k < s_before[j].items@.len() {
                                assert(states@[j].items@[k] == s_before[j].items@[k]);
                            }
                        }
                    }
                }
            }
            item_count += 1;
        }

        // the calamity, dormant over every settlement
        let num_cities = self.cities.len();
        let mut city_ids: Vec<CityID> = Vec::new();
        while city_ids.len() < num_cities
            invariant
                city_ids@.len() <= num_cities,
                forall|c: int| 0 <= c < city_ids@.len() ==> (#[trigger] city_ids@[c]).0 == c,
            decreases num_cities - city_ids@.len(),
        {
            city_ids.push(CityID(city_ids.len()));
        }
        let mut city_refs: Vec<&CityID> = Vec::new();
        let mut c: usize = 0;
        while c < city_ids.len()
            invariant
                c <= city_ids@.len(),
                city_ids@.len() == num_cities,
                forall|k: int| 0 <= k < city_ids@.len() ==> (#[trigger] city_ids@[k]).0 == k,
                city_refs@.len() == c,
                forall|k: int| 0 <= k < c ==> (#[trigger] city_refs@[k]).0 == k,
            decreases city_ids@.len() - c,
        {
            city_refs.push(&city_ids[c]);
            c += 1;
        }
        proof {
            lemma_id_bound_of_ids(city_refs@);
        }
        let mut calamity_state = CalamityState::new(city_refs);
        calamity_state.freq = freq;

        let mut city_populations = recalculate_city_populations(num_cities, &states);
        proof {
            self.lemma_populations_ok(states@, city_populations@);
            assert(sim_ok(*self, states@)) by {
                assert forall|e: int| 0 <= e < self.events@.len() && (#[trigger] self.events@[e]).event_type == EventType::EventDeath
                    implies states@[self.events@[e].characters@[0].0 as int].dead by {}
                assert forall|e1: int, e2: int|
                    0 <= e1 < e2 < self.events@.len() && (#[trigger] self.events@[e1]).event_type == EventType::EventDeath
                        && (#[trigger] self.events@[e2]).characters@[0] == self.events@[e1].characters@[0] implies !is_action(
                        self.events@[e2].event_type,
                    ) by {}
                assert forall|i1: int, k1: int, i2: int, k2: int|
                    0 <= i1 < self.items@.len() && 0 <= i2 < self.items@.len() && 0 <= k1 < self.items@[i1].owner_records@.len()
                        && 0 <= k2 < self.items@[i2].owner_records@.len() && (#[trigger] self.items@[i1].owner_records@[k1]).event
                        == (#[trigger] self.items@[i2].owner_records@[k2]).event
                        && self.events@[(self.items@[i1].owner_records@[k1].event->0).0 as int].event_type
                        == EventType::EventEncounter implies i1 == i2 by {
                    assert(self.item_ok(i1));
                    assert(self.record_ok(i1, k1));
                }
            }
        }
        proof {
            assert forall|c: int| 0 <= c < states@.len() implies (#[trigger] states@[c]).city == self.position_after(
                CharacterID(c as usize),
                self.events@.len() as int,
                self.layers@[0]@[0],
            ) by {
                lemma_position_no_moves(*self, CharacterID(c as usize), self.events@.len() as int, self.layers@[0]@[0]);
            }
        }
        let mut time: usize = 0;
        while time <= MAX_TIME
            invariant
                time <= MAX_TIME + 1,
                sim_ok(*self, states@),
                self.layers@ == old(self).layers@,
                self.cities@.len() == old(self).cities@.len(),
                self.cities@.len() == num_cities,
                self.characters@.len() == n,
                n <= MAX_POPULATION,
                self.items@.len() == NUM_ITEMS,
                self.latest_time() <= time,
                self.latest_time() <= MAX_TIME,
                self.events@.len() <= NUM_ITEMS + time * MAX_POPULATION,
                self.created_at(start_city),
                positions_ok(*self, states@),
                start_city == self.layers@[0]@[0],
                self.layers@[0]@.len() >= 1,
                start_city.0 < self.cities@.len(),
                populations_ok(city_populations@, num_cities as nat, n as nat),
                calamity_state.freq == freq,
                    freq >= 1,
                    calamity_state.calamity_layer_i matches Some(l) ==> l < crate::world::NUM_LAYERS,
                calamity_state.city_states@.len() == num_cities,
                forall|k: int| 0 <= k < num_cities ==> #[trigger] calamity_state.city_states@[k] <= time,
            decreases MAX_TIME + 1 - time,
        {
            let ghost s0 = states@;
            calamity_state.calamity_step(time, &self.layers, &mut states, &city_populations);
            proof {
                let s1 = states@;
                lemma_positions_frame(*self, *self, s0, s1);
                assert(actors_ok(*self, s1)) by {
                    assert forall|j: int| 0 <= j < s1.len() implies {
                        &&& (#[trigger] s1[j]).character == CharacterID(j as usize)
                        &&& s1[j].city.0 < self.cities@.len()
                        &&& s1[j].wf()
                        &&& forall|k: int| 0 <= k < s1[j].items@.len() ==> (#[trigger] s1[j].items@[k]).0 < self.items@.len()
                    } by {
                        assert(s0[j].character == CharacterID(j as usize));
                    }
                }
                assert(deaths_known(*self, s1)) by {
                    assert forall|e: int| 0 <= e < self.events@.len() && (#[trigger] self.events@[e]).event_type == EventType::EventDeath
                        implies s1[self.events@[e].characters@[0].0 as int].dead by {
                        assert(self.event_ok(e));
                        assert(s0[self.events@[e].characters@[0].0 as int].dead);
                    }
                }
            }
            let mut i: usize = 0;
            while i < states.len()
                invariant
                    i <= states@.len(),
                    states@.len() == n,
                    time <= MAX_TIME,
                    sim_ok(*self, states@),
                    self.layers@ == old(self).layers@,
                    self.cities@.len() == num_cities,
                    self.characters@.len() == n,
                    n <= MAX_POPULATION,
                    self.items@.len() == NUM_ITEMS,
                    self.latest_time() <= time,
                    self.events@.len() <= NUM_ITEMS + time * MAX_POPULATION + i,
                    self.created_at(start_city),
                    positions_ok(*self, states@),
                    start_city == self.layers@[0]@[0],
                    self.layers@[0]@.len() >= 1,
                    start_city.0 < self.cities@.len(),
                    populations_ok(city_populations@, num_cities as nat, n as nat),
                    calamity_state.freq == freq,
                    freq >= 1,
                    calamity_state.calamity_layer_i matches Some(l) ==> l < crate::world::NUM_LAYERS,
                    calamity_state.city_states@.len() == num_cities,
                    forall|k: int| 0 <= k < num_cities ==> #[trigger] calamity_state.city_states@[k] <= time + 1,
                decreases states@.len() - i,
            {
                self.step_character(time, &mut states, i, &mut rng, &city_populations, &calamity_state.city_states);
                city_populations = recalculate_city_populations(num_cities, &states);
                proof {
                    self.lemma_populations_ok(states@, city_populations@);
                }
                i += 1;
            }
            time += 1;
        }
        proof {
            assert forall|i: int| 0 <= i < self.items@.len() implies (#[trigger] self.items@[i]).owner_records@.len()
                <= self.events@.len() by {
                crate::laws::lemma_chain_bounded(*self, i);
            }
        }
    }

    proof fn lemma_populations_ok(self, states: Seq<CharacterState>, pops: Seq<Vec<CharacterID>>)
        requires
            actors_ok(self, states),
            states.len() <= MAX_POPULATION,
            pops.len() == self.cities@.len(),
            forall|c: int| 0 <= c < pops.len() ==> (#[trigger] pops[c])@ == population_of(states, CityID(c as usize)),
        ensures
            populations_ok(pops, self.cities@.len() as nat, states.len() as nat),
    {
        assert forall|c: int| 0 <= c < pops.len() implies (#[trigger] pops[c])@.len() <= MAX_POPULATION by {
            lemma_population_bounded(states, CityID(c as usize));
        }
        assert forall|c: int, k: int| 0 <= c < pops.len() && 0 <= k < pops[c]@.len() implies (#[trigger] pops[c]@[k]).0
            < states.len() by {
            lemma_population_bounded(states, CityID(c as usize));
            let p = population_of(states, CityID(c as usize));
            assert(p[k] == pops[c]@[k]);
            let j = choose|j: int| 0 <= j < states.len() && states[j].character == #[trigger] p[k];
            assert(states[j].character == CharacterID(j as usize));
        }
    }

    /// After one action of actor `i` logged as the last event, with every
    /// other actor unchanged but for its encounter flag and held items, the
    /// simulation invariant still holds.
    proof fn lemma_appended_action(self, w0: World, s1: Seq<CharacterState>, s2: Seq<CharacterState>, i: int, time: usize)
        requires
            sim_ok(w0, s1),
            self.wf(),
            0 <= i < s1.len(),
            !s1[i].dead,
            s2.len() == s1.len(),
            forall|j: int| 0 <= j < s2.len() ==> (#[trigger] s2[j]).dead == s1[j].dead || (j == i && s2[j].dead),
            self.events@.len() == w0.events@.len() + 1,
            forall|e: int| 0 <= e < w0.events@.len() ==> #[trigger] self.events@[e] == w0.events@[e],
            self.events@[w0.events@.len() as int].characters@[0] == CharacterID(i as usize),
            self.events@[w0.events@.len() as int].event_type == EventType::EventDeath ==> s2[i].dead,
            self.events@[w0.events@.len() as int].end_time.is_none(),
            self.characters@.len() == w0.characters@.len(),
        ensures
            deaths_known(self, s2),
            self.no_action_after_death(),
            self.instantaneous(),
    {
        assert forall|e: int| 0 <= e < self.events@.len() implies (#[trigger] self.events@[e]).end_time.is_none() by {
            if e < w0.events@.len() {
                assert(self.events@[e] == w0.events@[e]);
            }
        }
        let n = w0.events@.len() as int;
        assert forall|e: int| 0 <= e < self.events@.len() && (#[trigger] self.events@[e]).event_type == EventType::EventDeath
            implies s2[self.events@[e].characters@[0].0 as int].dead by {
            if e < n {
                assert(w0.events@[e] == self.events@[e]);
                assert(w0.event_ok(e));
                assert(s1[w0.events@[e].characters@[0].0 as int].dead);
            }
        }
        assert forall|e1: int, e2: int|
            0 <= e1 < e2 < self.events@.len() && (#[trigger] self.events@[e1]).event_type == EventType::EventDeath
                && (#[trigger] self.events@[e2]).characters@[0] == self.events@[e1].characters@[0] implies !is_action(
                self.events@[e2].event_type,
            ) by {
            assert(self.events@[e1] == w0.events@[e1]);
            if e2 < n {
                assert(self.events@[e2] == w0.events@[e2]);
            } else {
                assert(w0.events@[e1].event_type == EventType::EventDeath);
                assert(s1[w0.events@[e1].characters@[0].0 as int].dead);
            }
        }
    }
}

} // verus!
