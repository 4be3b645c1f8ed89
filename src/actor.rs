//! The runtime state of one actor during a simulation: where it is, whether
//! it is dead, what it holds, and the weights by which its next action is
//! drawn.
use vstd::prelude::*;
use crate::random::{apply_updates, weight_sum, weighted_new, weighted_update, weights_of, Sampler};
use crate::world::{CharacterID, CityID, ItemID};

verus! {

/// Index of each action in the weights.
pub const ACTION_MOVE: usize = 0;
pub const ACTION_DEATH: usize = 1;
pub const ACTION_ENCOUNTER: usize = 2;
pub const ACTION_IDLE: usize = 3;

/// Largest value a single weight may take, so that sums of weights stay
/// far inside `usize`.
pub const WEIGHT_CAP: usize = 100_000_000;

/// Weights that leave idling as the only possible action.
pub open spec fn idle_weights() -> Seq<usize> {
    seq![0, 0, 0, 1]
}

/// Four weights, none above the cap.
pub open spec fn weights_ok(w: Seq<usize>) -> bool {
    &&& w.len() == 4
    &&& forall|k: int| 0 <= k < 4 ==> #[trigger] w[k] <= WEIGHT_CAP
}

/// Updates at increasing indices among the four actions, none above the cap.
pub open spec fn updates_ok(updates: Seq<(usize, usize)>) -> bool {
    &&& forall|i: int, j: int| 0 <= i < j < updates.len() ==> updates[i].0 < updates[j].0
    &&& forall|i: int| 0 <= i < updates.len() ==> (#[trigger] updates[i]).0 < 4 && updates[i].1 <= WEIGHT_CAP
}

/// The weights after an update, or idle-only weights where the update
/// would leave every weight at zero.
pub open spec fn reweighted(w: Seq<usize>, updates: Seq<(usize, usize)>) -> Seq<usize> {
    let n = apply_updates(w, updates);
    if weight_sum(n) > 0 {
        n
    } else {
        idle_weights()
    }
}

/// The weights an actor starts with for a population of `n`: moving
/// weighs half the population (at least 1), dying 0, meeting someone `n`,
/// idling 1.
pub open spec fn starting_weights(n: usize) -> Seq<usize> {
    seq![if n / 2 >= 1 { n / 2 } else { 1 }, 0, n, 1]
}

proof fn lemma_sum_four(w: Seq<usize>)
    requires
        w.len() == 4,
    ensures
        weight_sum(w) == w[0] + w[1] + w[2] + w[3],
{
    reveal_with_fuel(weight_sum, 5);
    assert(w.drop_last().drop_last().drop_last().drop_last().len() == 0);
    assert(w.drop_last().drop_last().drop_last().last() == w[0]);
    assert(w.drop_last().drop_last().last() == w[1]);
    assert(w.drop_last().last() == w[2]);
}

proof fn lemma_updates_bounded(w: Seq<usize>, updates: Seq<(usize, usize)>)
    requires
        weights_ok(w),
        updates_ok(updates),
    ensures
        weights_ok(apply_updates(w, updates)),
        weight_sum(updates.map_values(|u: (usize, usize)| u.1)) <= updates.len() * WEIGHT_CAP,
    decreases updates.len(),
{
    if updates.len() > 0 {
        let rest = updates.drop_last();
        assert forall|i: int, j: int| 0 <= i < j < rest.len() implies rest[i].0 < rest[j].0 by {
            assert(rest[i] == updates[i] && rest[j] == updates[j]);
        }
        assert forall|i: int| 0 <= i < rest.len() implies (#[trigger] rest[i]).0 < 4 && rest[i].1 <= WEIGHT_CAP by {
            assert(rest[i] == updates[i]);
        }
        lemma_updates_bounded(w, rest);
        let vals = updates.map_values(|u: (usize, usize)| u.1);
        assert(vals.drop_last() =~= rest.map_values(|u: (usize, usize)| u.1));
        assert(vals.last() == updates.last().1);
        assert(updates.last().1 <= WEIGHT_CAP) by {
            assert(updates[updates.len() - 1] == updates.last());
        }
        assert(weight_sum(vals) <= updates.len() * WEIGHT_CAP) by (nonlinear_arith)
            requires
                weight_sum(vals) == weight_sum(vals.drop_last()) + vals.last(),
                weight_sum(vals.drop_last()) <= rest.len() * WEIGHT_CAP,
                vals.last() <= WEIGHT_CAP,
                rest.len() + 1 == updates.len(),
        ;
        assert(updates.last().0 < 4) by {
            assert(updates[updates.len() - 1] == updates.last());
        }
    } else {
        assert(updates.map_values(|u: (usize, usize)| u.1).len() == 0);
    }
}

/// The state of an actor during a run.
pub struct CharacterState {
    pub character: CharacterID,
    pub city: CityID,
    pub event_probability_map: Sampler,
    pub items: Vec<ItemID>,
    pub dead: bool,
    pub encountered: bool,
}

impl CharacterState {
    /// The weights the actor's next action is drawn by.
    pub open spec fn weights(self) -> Seq<usize> {
        weights_of(self.event_probability_map)
    }

    /// Four bounded weights; a dead actor can only idle.
    pub open spec fn wf(self) -> bool {
        &&& weights_ok(self.weights())
        &&& self.dead ==> self.weights() == idle_weights()
    }

    /// A living actor at `city`, holding nothing, with the starting weights
    /// for a population of `population`.
    pub fn new(character: CharacterID, city: CityID, population: usize) -> (r: CharacterState)
        requires
            population <= WEIGHT_CAP,
        ensures
            r.wf(),
            r.character == character,
            r.city == city,
            r.items@.len() == 0,
            !r.dead,
            !r.encountered,
            r.weights() == starting_weights(population),
    {
        let half = population / 2;
        let move_weight = if half >= 1 { half } else { 1 };
        let weights = vec![move_weight, 0, population, 1];
        assert(weights@ =~= starting_weights(population));
        proof {
            lemma_sum_four(weights@);
        }
        let map = weighted_new(&weights).unwrap();
        CharacterState {
            character,
            city,
            event_probability_map: map,
            items: Vec::new(),
            dead: false,
            encountered: false,
        }
    }

    /// Leaves idling as the only action this actor can take.
    pub fn collapse_to_idle(&mut self)
        ensures
            final(self).weights() == idle_weights(),
            final(self).character == old(self).character,
            final(self).city == old(self).city,
            final(self).items@ == old(self).items@,
            final(self).dead == old(self).dead,
            final(self).encountered == old(self).encountered,
    {
        let weights = vec![0, 0, 0, 1];
        assert(weights@ =~= idle_weights());
        proof {
            lemma_sum_four(weights@);
        }
        self.event_probability_map = weighted_new(&weights).unwrap();
    }

    /// Applies a weight update; where it would leave no action possible the
    /// actor is made to idle for good instead.
    pub fn reweight(&mut self, updates: &Vec<(usize, usize)>)
        requires
            weights_ok(old(self).weights()),
            updates_ok(updates@),
        ensures
            final(self).weights() == reweighted(old(self).weights(), updates@),
            weights_ok(final(self).weights()),
            final(self).character == old(self).character,
            final(self).city == old(self).city,
            final(self).items@ == old(self).items@,
            final(self).dead == old(self).dead,
            final(self).encountered == old(self).encountered,
    {
        proof {
            lemma_updates_bounded(self.weights(), updates@);
            lemma_sum_four(self.weights());
            assert(updates@.len() <= 4) by {
                if updates@.len() > 4 {
                    lemma_strictly_increasing_bound(updates@);
                }
            }
            assert(weight_sum(updates@.map_values(|u: (usize, usize)| u.1)) <= 4 * WEIGHT_CAP) by (nonlinear_arith)
                requires
                    weight_sum(updates@.map_values(|u: (usize, usize)| u.1)) <= updates@.len() * WEIGHT_CAP,
                    updates@.len() <= 4,
            ;
        }
        let ok = weighted_update(&mut self.event_probability_map, updates);
        if !ok {
            self.collapse_to_idle();
        }
        proof {
            lemma_updates_bounded(old(self).weights(), updates@);
        }
    }
}

/// Strictly increasing indices below 4 number at most 4.
proof fn lemma_strictly_increasing_bound(updates: Seq<(usize, usize)>)
    requires
        updates_ok(updates),
    ensures
        updates.len() <= 4,
{
    if updates.len() > 4 {
        assert forall|i: int| 0 <= i < updates.len() implies (#[trigger] updates[i]).0 >= i by {
            lemma_index_at_least(updates, i);
        }
        assert(updates[4].0 >= 4);
        assert(updates[4].0 < 4);
    }
}

proof fn lemma_index_at_least(updates: Seq<(usize, usize)>, i: int)
    requires
        updates_ok(updates),
        0 <= i < updates.len(),
    ensures
        updates[i].0 >= i,
    decreases i,
{
    if i > 0 {
        lemma_index_at_least(updates, i - 1);
    }
}

} // verus!
