//! The calamity: a hazard that spreads one layer further on a fixed cadence,
//! counts how long each settlement has been exposed, and raises the move and
//! death weights of the living actors it reaches.
use vstd::prelude::*;
use crate::actor::{reweighted, CharacterState};
use crate::world::{CharacterID, CityID, NUM_LAYERS};

verus! {

/// Ticks between two advances of the calamity.
pub const CALAMITY_FREQ: usize = 5;
/// How much each tick of exposure adds to the move and death weights.
pub const CALAMITY_DEADLINESS: usize = 2;
/// Bound on exposure, which keeps every weight under the cap.
pub const MAX_EXPOSURE: usize = 10_000_000;
/// Bound on the population of a settlement, for the same reason.
pub const MAX_POPULATION: usize = 5_000;

/// The calamity: each settlement's exposure (by settlement id), the cadence
/// and the furthest layer reached so far.
pub struct CalamityState {
    pub city_states: Vec<usize>,
    pub freq: usize,
    pub calamity_layer_i: Option<usize>,
}

/// One more than the largest id listed, or 0 for none.
pub open spec fn id_bound(cities: Seq<&CityID>) -> nat
    decreases cities.len(),
{
    if cities.len() == 0 {
        0
    } else {
        let rest = id_bound(cities.drop_last());
        let here = cities.last().0 as nat + 1;
        if here > rest {
            here
        } else {
            rest
        }
    }
}

/// The furthest layer reached after the tick at `time`: on every `freq`-th
/// tick but the first the calamity advances one layer, starting at layer 0,
/// and stops at the last.
pub open spec fn advanced(layer: Option<usize>, time: usize, freq: usize) -> Option<usize> {
    if time % freq == 0 && time != 0 {
        match layer {
            Some(l) => if l < NUM_LAYERS - 1 {
                Some((l + 1) as usize)
            } else {
                Some(l)
            },
            None => Some(0),
        }
    } else {
        layer
    }
}

/// Settlement `c` sits in a layer at or below `reach`.
pub open spec fn reached(layers: Seq<Vec<CityID>>, reach: Option<usize>, c: CityID) -> bool {
    match reach {
        Some(r) => exists|l: int, j: int|
            0 <= l <= r && l < layers.len() && 0 <= j < layers[l]@.len() && #[trigger] layers[l]@[j] == c,
        None => false,
    }
}

/// `c` is the end settlement, the one of the last layer.
pub open spec fn is_terminal(layers: Seq<Vec<CityID>>, c: CityID) -> bool {
    layers.len() == NUM_LAYERS && layers[NUM_LAYERS - 1]@.len() >= 1 && layers[NUM_LAYERS - 1]@[0] == c
}

/// The other inhabitants of a settlement of population `n`.
pub open spec fn others(n: nat) -> nat {
    if n > 0 {
        (n - 1) as nat
    } else {
        0
    }
}

/// Move weight under pressure: none at the end settlement, else a quarter
/// of the other inhabitants plus the exposure times the deadliness.
pub open spec fn move_weight(terminal: bool, others: nat, exposure: nat) -> nat {
    if terminal {
        0
    } else {
        (others / 4 + exposure * CALAMITY_DEADLINESS) as nat
    }
}

/// Death weight under pressure: the exposure times the deadliness.
pub open spec fn death_weight(exposure: nat) -> nat {
    (exposure * CALAMITY_DEADLINESS) as nat
}

/// The update of the move and death weights.
pub open spec fn pressure_updates(terminal: bool, others: nat, exposure: nat) -> Seq<(usize, usize)> {
    seq![(0usize, move_weight(terminal, others, exposure) as usize), (1usize, death_weight(exposure) as usize)]
}

/// Whether `c` sits in a layer at or below `reach`.
fn city_reached(layers: &Vec<Vec<CityID>>, reach: usize, c: CityID) -> (r: bool)
    ensures
        r == reached(layers@, Some(reach), c),
{
    let mut l: usize = 0;
    while l <= reach && l < layers.len()
        invariant
            l <= layers@.len(),
            forall|l2: int, j: int|
                0 <= l2 < l && l2 <= reach && 0 <= j < layers@[l2]@.len() ==> #[trigger] layers@[l2]@[j] != c,
        decreases layers@.len() - l,
    {
        let layer = &layers[l];
        let mut j: usize = 0;
        while j < layer.len()
            invariant
                l < layers@.len(),
                l <= reach,
                layer@ == layers@[l as int]@,
                j <= layer@.len(),
                forall|l2: int, j2: int|
                    0 <= l2 < l && l2 <= reach && 0 <= j2 < layers@[l2]@.len() ==> #[trigger] layers@[l2]@[j2] != c,
                forall|j2: int| 0 <= j2 < j ==> layers@[l as int]@[j2] != c,
            decreases layer@.len() - j,
        {
            if layer[j] == c {
                assert(layers@[l as int]@[j as int] == c);
                return true;
            }
            j += 1;
        }
        l += 1;
    }
    false
}

impl CalamityState {
    /// A dormant calamity with every listed settlement unexposed.
    pub fn new(cities: Vec<&CityID>) -> (r: CalamityState)
        requires
            forall|i: int| 0 <= i < cities@.len() ==> (#[trigger] cities@[i]).0 < usize::MAX,
        ensures
            r.city_states@.len() == id_bound(cities@),
            forall|c: int| 0 <= c < r.city_states@.len() ==> #[trigger] r.city_states@[c] == 0,
            forall|i: int| 0 <= i < cities@.len() ==> (#[trigger] cities@[i]).0 < r.city_states@.len(),
            r.freq == CALAMITY_FREQ,
            r.calamity_layer_i.is_none(),
    {
        let mut bound: usize = 0;
        let mut i: usize = 0;
        while i < cities.len()
            invariant
                forall|k: int| 0 <= k < cities@.len() ==> (#[trigger] cities@[k]).0 < usize::MAX,
                i <= cities@.len(),
                bound == id_bound(cities@.take(i as int)),
                forall|k: int| 0 <= k < i ==> (#[trigger] cities@[k]).0 < bound,
            decreases cities@.len() - i,
        {
            assert(cities@.take(i as int + 1).drop_last() == cities@.take(i as int));
            let id = cities[i].0;
            if id >= bound {
                bound = id + 1;
            }
            i += 1;
        }
        assert(cities@.take(i as int) == cities@);
        let mut city_states: Vec<usize> = Vec::new();
        while city_states.len() < bound
            invariant
                city_states@.len() <= bound,
                forall|c: int| 0 <= c < city_states@.len() ==> #[trigger] city_states@[c] == 0,
            decreases bound - city_states@.len(),
        {
            city_states.push(0);
        }
        CalamityState { city_states, freq: CALAMITY_FREQ, calamity_layer_i: None }
    }

    /// One tick of the calamity: it may advance a layer, every reached
    /// settlement's exposure grows by one, and every living actor in a
    /// reached settlement has its move and death weights raised by the
    /// population and the exposure there (an actor whose weights would all
    /// be zero is left to idle).
    pub fn calamity_step(
        &mut self,
        time: usize,
        layers: &Vec<Vec<CityID>>,
        character_states: &mut Vec<CharacterState>,
        city_populations: &Vec<Vec<CharacterID>>,
    )
        requires
            old(self).freq >= 1,
            old(self).calamity_layer_i matches Some(l) ==> l < NUM_LAYERS,
            forall|c: int| 0 <= c < old(self).city_states@.len() ==> #[trigger] old(self).city_states@[c] < MAX_EXPOSURE,
            city_populations@.len() == old(self).city_states@.len(),
            forall|c: int| 0 <= c < city_populations@.len() ==> (#[trigger] city_populations@[c])@.len() <= MAX_POPULATION,
            forall|i: int|
                0 <= i < old(character_states)@.len() ==> {
                    &&& (#[trigger] old(character_states)@[i]).wf()
                    &&& old(character_states)@[i].city.0 < old(self).city_states@.len()
                },
        ensures
            final(self).freq == old(self).freq,
            final(self).calamity_layer_i == advanced(old(self).calamity_layer_i, time, old(self).freq),
            final(self).calamity_layer_i matches Some(l) ==> l < NUM_LAYERS,
            final(self).city_states@.len() == old(self).city_states@.len(),
            forall|c: int|
                0 <= c < final(self).city_states@.len() ==> #[trigger] final(self).city_states@[c] == old(self).city_states@[c]
                    + if reached(layers@, final(self).calamity_layer_i, CityID(c as usize)) {
                    1int
                } else {
                    0int
                },
            final(character_states)@.len() == old(character_states)@.len(),
            forall|i: int|
                0 <= i < final(character_states)@.len() ==> {
                    let o = old(character_states)@[i];
                    let n = #[trigger] final(character_states)@[i];
                    let c = o.city.0 as int;
                    &&& n.wf()
                    &&& n.character == o.character
                    &&& n.city == o.city
                    &&& n.items@ == o.items@
                    &&& n.dead == o.dead
                    &&& n.encountered == o.encountered
                    &&& n.weights() == if !o.dead && reached(layers@, final(self).calamity_layer_i, o.city) {
                        reweighted(
                            o.weights(),
                            pressure_updates(
                                is_terminal(layers@, o.city),
                                others(city_populations@[c]@.len() as nat),
                                final(self).city_states@[c] as nat,
                            ),
                        )
                    } else {
                        o.weights()
                    }
                },
    {
        if time % self.freq == 0 && time != 0 {
            match self.calamity_layer_i {
                Some(lyr) => {
                    if lyr < NUM_LAYERS - 1 {
                        self.calamity_layer_i = Some(lyr + 1);
                    }
                },
                None => {
                    self.calamity_layer_i = Some(0);
                },
            }
        }
        let reach = self.calamity_layer_i;
        let reach_layer: usize = match reach {
            Some(r) => r,
            None => 0,
        };

        // exposure of every reached settlement
        let mut c: usize = 0;
        while c < self.city_states.len()
            invariant
                c <= self.city_states@.len(),
                self.city_states@.len() == old(self).city_states@.len(),
                self.freq == old(self).freq,
                self.calamity_layer_i == reach,
                reach == advanced(old(self).calamity_layer_i, time, old(self).freq),
                reach matches Some(r) ==> r == reach_layer,
                forall|k: int|
                    0 <= k < self.city_states@.len() ==> #[trigger] self.city_states@[k] == old(self).city_states@[k]
                        + if k < c && reached(layers@, reach, CityID(k as usize)) {
                        1int
                    } else {
                        0int
                    },
                forall|k: int| 0 <= k < old(self).city_states@.len() ==> #[trigger] old(self).city_states@[k] < MAX_EXPOSURE,
            decreases self.city_states@.len() - c,
        {
            if reach.is_some() && city_reached(layers, reach_layer, CityID(c)) {
                let v = self.city_states[c];
                self.city_states.set(c, v + 1);
            }
            c += 1;
        }

        // pressure on the living actors of reached settlements
        let mut i: usize = 0;
        while i < character_states.len()
            invariant
                i <= character_states@.len(),
                character_states@.len() == old(character_states)@.len(),
                reach == self.calamity_layer_i,
                reach matches Some(r) ==> r == reach_layer,
                forall|k: int| 0 <= k < self.city_states@.len() ==> #[trigger] self.city_states@[k] <= MAX_EXPOSURE,
                city_populations@.len() == self.city_states@.len(),
                forall|k: int| 0 <= k < city_populations@.len() ==> (#[trigger] city_populations@[k])@.len() <= MAX_POPULATION,
                forall|k: int|
                    0 <= k < character_states@.len() ==> {
                        let o = #[trigger] old(character_states)@[k];
                        let n = character_states@[k];
                        let c = o.city.0 as int;
                        &&& o.wf()
                        &&& c < self.city_states@.len()
                        &&& n.wf()
                        &&& n.character == o.character
                        &&& n.city == o.city
                        &&& n.items@ == o.items@
                        &&& n.dead == o.dead
                        &&& n.encountered == o.encountered
                        &&& n.weights() == if k < i && !o.dead && reached(layers@, reach, o.city) {
                            reweighted(
                                o.weights(),
                                pressure_updates(
                                    is_terminal(layers@, o.city),
                                    others(city_populations@[c]@.len() as nat),
                                    self.city_states@[c] as nat,
                                ),
                            )
                        } else {
                            o.weights()
                        }
                    },
            decreases character_states@.len() - i,
        {
            let city = character_states[i].city;
            assert(old(character_states)@[i as int].city == city);
            if !character_states[i].dead && reach.is_some() && city_reached(layers, reach_layer, city) {
                let population = city_populations[city.0].len();
                let others_here: usize = if population > 0 { population - 1 } else { 0 };
                let exposure = self.city_states[city.0];
                let terminal = layers.len() == NUM_LAYERS && layers[NUM_LAYERS - 1].len() >= 1
                    && layers[NUM_LAYERS - 1][0] == city;
                let new_move_prob: usize = if terminal {
                    0
                } else {
                    others_here / 4 + exposure * CALAMITY_DEADLINESS
                };
                let new_death_prob: usize = exposure * CALAMITY_DEADLINESS;
                let updates = vec![(0usize, new_move_prob), (1usize, new_death_prob)];
                assert(updates@ =~= pressure_updates(terminal, others(population as nat), exposure as nat));
                let ghost before = character_states@;
                character_states[i].reweight(&updates);
                assert forall|k: int| 0 <= k < character_states@.len() && k != i implies character_states@[k] == before[k] by {}
            }
            i += 1;
        }
        assert forall|k: int| 0 <= k < character_states@.len() implies (#[trigger] character_states@[k]).wf() by {
            assert(old(character_states)@[k].wf());
        }
    }
}

} // verus!
