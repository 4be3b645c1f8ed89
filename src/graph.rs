//! The layered settlement graph: built backward from the end settlement so
//! that every settlement but the end has an edge into the next layer.
use vstd::prelude::*;
use crate::random::{choose_several, random_in_range};
use crate::world::{CityID, World, NUM_LAYERS};

verus! {

pub const MIN_CITIES_IN_LAYER: usize = 1;
pub const MAX_CITIES_IN_LAYER: usize = 2;
/// Number of characters in a generated world.
pub const NUM_CHARACTERS: usize = 6;

impl World {
    /// Settlement `c` sits at some position of some layer.
    pub open spec fn placed(self, c: int) -> bool {
        exists|l: int, j: int|
            0 <= l < self.layers@.len() && 0 <= j < self.layers@[l]@.len() && #[trigger] self.layers@[l]@[j]
                == CityID(c as usize)
    }

    /// The settlement at position `j` of layer `l` has edges into the next
    /// layer only, and at least one; in the last layer it has none.
    pub open spec fn edges_ok_at(self, l: int, j: int) -> bool {
        let nb = self.cities@[self.layers@[l]@[j].0 as int].neighbours@;
        if l < NUM_LAYERS - 1 {
            &&& nb.len() >= 1
            &&& nb.no_duplicates()
            &&& forall|m: int| 0 <= m < nb.len() ==> self.layers@[l + 1]@.contains(#[trigger] nb[m])
        } else {
            nb.len() == 0
        }
    }

    /// Layers `lo` and above are complete; those below are empty. Every
    /// settlement but `skip` sits in exactly one position of one layer.
    pub open spec fn built_from(self, lo: int, skip: int) -> bool {
        &&& self.layers@.len() == NUM_LAYERS
        &&& forall|l: int| 0 <= l < lo ==> (#[trigger] self.layers@[l])@.len() == 0
        &&& self.layers@[NUM_LAYERS - 1]@.len() == 1
        &&& forall|l: int| lo <= l < NUM_LAYERS - 1 ==> (#[trigger] self.layers@[l])@.len() <= MAX_CITIES_IN_LAYER
        &&& forall|l: int| lo < l < NUM_LAYERS - 1 ==> MIN_CITIES_IN_LAYER <= (#[trigger] self.layers@[l])@.len()
        &&& forall|l: int, j: int|
            0 <= l < NUM_LAYERS && 0 <= j < self.layers@[l]@.len() ==> (#[trigger] self.layers@[l]@[j]).0
                < self.cities@.len()
        &&& forall|l1: int, j1: int, l2: int, j2: int|
            0 <= l1 < NUM_LAYERS && 0 <= j1 < self.layers@[l1]@.len() && 0 <= l2 < NUM_LAYERS && 0 <= j2
                < self.layers@[l2]@.len() && #[trigger] self.layers@[l1]@[j1] == #[trigger] self.layers@[l2]@[j2]
                ==> l1 == l2 && j1 == j2
        &&& forall|c: int| 0 <= c < self.cities@.len() && c != skip ==> #[trigger] self.placed(c)
        &&& forall|l: int, j: int|
            lo <= l < NUM_LAYERS && 0 <= j < self.layers@[l]@.len() ==> #[trigger] self.edges_ok_at(l, j)
    }

    /// The layering of a generated world: one start settlement, one end
    /// settlement, between one and two settlements in each other layer, and
    /// every settlement in exactly one layer with edges into the next.
    pub open spec fn layered(self) -> bool {
        &&& self.built_from(0, -1)
        &&& self.layers@[0]@.len() == 1
        &&& self.cities@[self.layers@[0]@[0].0 as int].neighbours@ == self.layers@[1]@
    }

    /// Generates the settlement graph and the characters. Layers are built
    /// from the end back to the start: each new settlement is connected to a
    /// random non-empty subset of the next layer, and the start settlement
    /// to every settlement of layer 1.
    pub fn generate_world() -> (r: World)
        ensures
            r.wf(),
            r.layered(),
            r.names_ok(),
            r.layers@[NUM_LAYERS - 1]@ == seq![CityID(0)],
            r.layers@[0]@ == seq![CityID((r.cities@.len() - 1) as usize)],
            forall|c: int|
                0 <= c < r.cities@.len() ==> #[trigger] crate::laws::reaches(r, CityID(c as usize), CityID(0)),
            r.characters@.len() == NUM_CHARACTERS,
            r.events@.len() == 0,
            r.items@.len() == 0,
    {
        let mut rng = rand::thread_rng();
        let mut world = World::new();

        let end_city = world.add_city(NUM_LAYERS - 1);
        let ghost before = world;
        world.layers[NUM_LAYERS - 1].push(end_city);
        proof {
            before.lemma_wf_frame(world);
            assert(world.layers@[NUM_LAYERS - 1]@[0] == end_city);
            assert(world.layers@[NUM_LAYERS - 1]@ =~= seq![CityID(0)]);
            assert(world.placed(0));
            assert forall|l: int, j: int|
                (NUM_LAYERS - 1) as int <= l < NUM_LAYERS && 0 <= j < world.layers@[l]@.len() implies #[trigger] world.edges_ok_at(l, j) by {
                assert(l == NUM_LAYERS - 1 && j == 0);
            }
        }

        let mut layer: usize = NUM_LAYERS - 2;
        while layer >= 1
            invariant
                layer <= NUM_LAYERS - 2,
                world.wf(),
                world.names_ok(),
                world.layers@[NUM_LAYERS - 1]@ == seq![CityID(0)],
                world.built_from(layer as int + 1, -1),
                forall|l: int| layer < l < NUM_LAYERS - 1 ==> MIN_CITIES_IN_LAYER <= (#[trigger] world.layers@[l])@.len(),
                world.cities@.len() <= 2 * (NUM_LAYERS - 1 - layer) - 1,
                world.events@.len() == 0,
                world.characters@.len() == 0,
                world.items@.len() == 0,
            decreases layer,
        {
            let num_cities = random_in_range(&mut rng, MIN_CITIES_IN_LAYER, MAX_CITIES_IN_LAYER);
            let mut n: usize = 0;
            assert forall|l: int, j: int|
                layer <= l < NUM_LAYERS && 0 <= j < world.layers@[l]@.len() implies #[trigger] world.edges_ok_at(l, j) by {
                assert(l != layer);
            }
            while n < num_cities
                invariant
                    1 <= layer <= NUM_LAYERS - 2,
                    n <= num_cities <= MAX_CITIES_IN_LAYER,
                    world.wf(),
                    world.names_ok(),
                    world.layers@[NUM_LAYERS - 1]@ == seq![CityID(0)],
                    world.built_from(layer as int, -1),
                    forall|l: int| layer < l < NUM_LAYERS - 1 ==> MIN_CITIES_IN_LAYER <= (#[trigger] world.layers@[l])@.len(),
                    world.layers@[layer as int]@.len() == n,
                    world.cities@.len() <= 2 * (NUM_LAYERS - 1 - layer) - 1 + n,
                    world.events@.len() == 0,
                    world.characters@.len() == 0,
                    world.items@.len() == 0,
                decreases num_cities - n,
            {
                let ghost before_add = world;
                let new_city = world.add_city(layer);
                proof {
                    assert forall|l: int, j: int|
                        layer <= l < NUM_LAYERS && 0 <= j < world.layers@[l]@.len() implies #[trigger] world.edges_ok_at(l, j) by {
                        assert(before_add.edges_ok_at(l, j));
                        assert(world.cities@[world.layers@[l]@[j].0 as int] == before_add.cities@[world.layers@[l]@[j].0 as int]);
                    }
                    assert forall|c: int| 0 <= c < world.cities@.len() && c != new_city.0 implies #[trigger] world.placed(c) by {
                        assert(before_add.placed(c));
                    }
                }
                let next_layer = world.layers[layer + 1].clone();
                assert(next_layer@ == world.layers@[layer + 1]@);
                assert(next_layer@.no_duplicates()) by {
                    assert forall|j1: int, j2: int| 0 <= j1 < next_layer@.len() && 0 <= j2 < next_layer@.len() && j1 != j2
                        implies next_layer@[j1] != next_layer@[j2] by {
                        let nl = layer as int + 1;
                        if world.layers@[nl]@[j1] == world.layers@[nl]@[j2] {
                            assert(world.layers@[nl]@[j1] == world.layers@[nl]@[j2]);
                        }
                    }
                }
                let num_in_next_layer = next_layer.len();
                let num_connections = random_in_range(&mut rng, 1, num_in_next_layer);
                let to_connect = choose_several(&mut rng, &next_layer, num_connections);
                let mut k: usize = 0;
                while k < to_connect.len()
                    invariant
                        1 <= layer <= NUM_LAYERS - 2,
                        k <= to_connect@.len(),
                        to_connect@.len() >= 1,
                        forall|i: int| 0 <= i < to_connect@.len() ==> next_layer@.contains(#[trigger] to_connect@[i]),
                        to_connect@.no_duplicates(),
                        next_layer@ == world.layers@[layer + 1]@,
                        new_city.0 == world.cities@.len() - 1,
                        world.wf(),
                        world.names_ok(),
                        world.layers@[NUM_LAYERS - 1]@ == seq![CityID(0)],
                        world.built_from(layer as int, new_city.0 as int),
                        forall|l: int| layer < l < NUM_LAYERS - 1 ==> MIN_CITIES_IN_LAYER <= (#[trigger] world.layers@[l])@.len(),
                        forall|l: int, j: int|
                            0 <= l < NUM_LAYERS && 0 <= j < world.layers@[l]@.len() ==> (#[trigger] world.layers@[l]@[j]).0
                                < new_city.0,
                        world.layers@[layer as int]@.len() == n,
                        world.cities@[new_city.0 as int].neighbours@ == to_connect@.take(k as int),
                        world.cities@.len() <= 2 * (NUM_LAYERS - 1 - layer) + n,
                        world.events@.len() == 0,
                        world.characters@.len() == 0,
                        world.items@.len() == 0,
                    decreases to_connect@.len() - k,
                {
                    let ghost before = world;
                    world.connect_cities(&new_city, &to_connect[k]);
                    proof {
                        assert(to_connect@.take(k as int + 1) =~= to_connect@.take(k as int).push(to_connect@[k as int]));
                        assert forall|l: int, j: int|
                            layer <= l < NUM_LAYERS && 0 <= j < world.layers@[l]@.len() implies #[trigger] world.edges_ok_at(l, j) by {
                            assert(before.edges_ok_at(l, j));
                            assert(world.layers@[l]@[j] != new_city);
                        }
                        assert forall|c: int| 0 <= c < world.cities@.len() && c != new_city.0 implies #[trigger] world.placed(c) by {
                            assert(before.placed(c));
                        }
                    }
                    k += 1;
                }
                let ghost before = world;
                world.layers[layer].push(new_city);
                proof {
                    before.lemma_wf_frame(world);
                    assert(to_connect@.take(k as int) =~= to_connect@);
                    let nl = layer as int;
                    assert(world.layers@[nl]@ == before.layers@[nl]@.push(new_city));
                    assert forall|l: int| 0 <= l < NUM_LAYERS && l != nl implies #[trigger] world.layers@[l] == before.layers@[l] by {}
                    assert(world.placed(new_city.0 as int)) by {
                        assert(world.layers@[nl]@[n as int] == new_city);
                    }
                    assert forall|c: int| 0 <= c < world.cities@.len() implies #[trigger] world.placed(c) by {
                        if c != new_city.0 {
                            assert(before.placed(c));
                            let (l, j) = choose|l: int, j: int|
                                0 <= l < before.layers@.len() && 0 <= j < before.layers@[l]@.len() && #[trigger] before.layers@[l]@[j]
                                    == CityID(c as usize);
                            assert(world.layers@[l]@[j] == CityID(c as usize));
                        }
                    }
                    assert forall|l: int, j: int|
                        0 <= l < NUM_LAYERS && 0 <= j < world.layers@[l]@.len() implies (#[trigger] world.layers@[l]@[j]).0
                            < world.cities@.len() by {
                        if l != nl || j < n {
                            assert(world.layers@[l]@[j] == before.layers@[l]@[j]);
                        }
                    }
                    assert forall|l1: int, j1: int, l2: int, j2: int|
                        0 <= l1 < NUM_LAYERS && 0 <= j1 < world.layers@[l1]@.len() && 0 <= l2 < NUM_LAYERS && 0 <= j2
                            < world.layers@[l2]@.len() && #[trigger] world.layers@[l1]@[j1] == #[trigger] world.layers@[l2]@[j2]
                            implies l1 == l2 && j1 == j2 by {
                        let new1 = l1 == nl && j1 == n;
                        let new2 = l2 == nl && j2 == n;
                        if !new1 {
                            assert(world.layers@[l1]@[j1] == before.layers@[l1]@[j1]);
                        }
                        if !new2 {
                            assert(world.layers@[l2]@[j2] == before.layers@[l2]@[j2]);
                        }
                    }
                    assert forall|l: int, j: int|
                        nl <= l < NUM_LAYERS && 0 <= j < world.layers@[l]@.len() implies #[trigger] world.edges_ok_at(l, j) by {
                        if l != nl || j < n {
                            assert(world.layers@[l]@[j] == before.layers@[l]@[j]);
                            assert(before.edges_ok_at(l, j));
                        } else {
                            let nb = world.cities@[new_city.0 as int].neighbours@;
                            assert forall|m: int| 0 <= m < nb.len() implies world.layers@[l + 1]@.contains(#[trigger] nb[m]) by {
                                assert(next_layer@.contains(to_connect@[m]));
                            }
                        }
                    }
                }
                n += 1;
            }
            layer -= 1;
        }

        let ghost before_add = world;
        let start_city = world.add_city(0);
        proof {
            assert forall|l: int, j: int|
                1 <= l < NUM_LAYERS && 0 <= j < world.layers@[l]@.len() implies #[trigger] world.edges_ok_at(l, j) by {
                assert(before_add.edges_ok_at(l, j));
                assert(world.cities@[world.layers@[l]@[j].0 as int] == before_add.cities@[world.layers@[l]@[j].0 as int]);
            }
            assert forall|c: int| 0 <= c < world.cities@.len() && c != start_city.0 implies #[trigger] world.placed(c) by {
                assert(before_add.placed(c));
            }
            assert(MIN_CITIES_IN_LAYER <= world.layers@[1]@.len());
        }
        let first_layer = world.layers[1].clone();
        assert(first_layer@ == world.layers@[1]@);
        let mut k: usize = 0;
        while k < first_layer.len()
            invariant
                k <= first_layer@.len(),
                first_layer@.len() >= 1,
                first_layer@ == world.layers@[1]@,
                start_city.0 == world.cities@.len() - 1,
                world.wf(),
                world.names_ok(),
                world.layers@[NUM_LAYERS - 1]@ == seq![CityID(0)],
                world.built_from(1, start_city.0 as int),
                forall|l: int, j: int|
                    0 <= l < NUM_LAYERS && 0 <= j < world.layers@[l]@.len() ==> (#[trigger] world.layers@[l]@[j]).0
                        < start_city.0,
                world.cities@[start_city.0 as int].neighbours@ == first_layer@.take(k as int),
                world.cities@.len() <= 8,
                world.events@.len() == 0,
                world.characters@.len() == 0,
                world.items@.len() == 0,
            decreases first_layer@.len() - k,
        {
            let ghost before = world;
            world.connect_cities(&start_city, &first_layer[k]);
            proof {
                assert(first_layer@.take(k as int + 1) =~= first_layer@.take(k as int).push(first_layer@[k as int]));
                assert forall|l: int, j: int|
                    1 <= l < NUM_LAYERS && 0 <= j < world.layers@[l]@.len() implies #[trigger] world.edges_ok_at(l, j) by {
                    assert(before.edges_ok_at(l, j));
                    assert(world.layers@[l]@[j] != start_city);
                }
                assert forall|c: int| 0 <= c < world.cities@.len() && c != start_city.0 implies #[trigger] world.placed(c) by {
                    assert(before.placed(c));
                }
            }
            k += 1;
        }
        let ghost before = world;
        world.layers[0].push(start_city);
        proof {
            before.lemma_wf_frame(world);
            assert(first_layer@.take(k as int) =~= first_layer@);
            assert(world.layers@[0]@ == seq![start_city]);
            assert forall|l: int| 0 < l < NUM_LAYERS implies #[trigger] world.layers@[l] == before.layers@[l] by {}
            assert(world.placed(start_city.0 as int)) by {
                assert(world.layers@[0]@[0] == start_city);
            }
            assert forall|c: int| 0 <= c < world.cities@.len() implies #[trigger] world.placed(c) by {
                if c != start_city.0 {
                    assert(before.placed(c));
                    let (l, j) = choose|l: int, j: int|
                        0 <= l < before.layers@.len() && 0 <= j < before.layers@[l]@.len() && #[trigger] before.layers@[l]@[j]
                            == CityID(c as usize);
                    assert(world.layers@[l]@[j] == CityID(c as usize));
                }
            }
            assert forall|l: int, j: int|
                0 <= l < NUM_LAYERS && 0 <= j < world.layers@[l]@.len() implies (#[trigger] world.layers@[l]@[j]).0
                    < world.cities@.len() by {
                if l != 0 {
                    assert(world.layers@[l]@[j] == before.layers@[l]@[j]);
                }
            }
            assert forall|l1: int, j1: int, l2: int, j2: int|
                0 <= l1 < NUM_LAYERS && 0 <= j1 < world.layers@[l1]@.len() && 0 <= l2 < NUM_LAYERS && 0 <= j2
                    < world.layers@[l2]@.len() && #[trigger] world.layers@[l1]@[j1] == #[trigger] world.layers@[l2]@[j2]
                    implies l1 == l2 && j1 == j2 by {
                if l1 != 0 {
                    assert(world.layers@[l1]@[j1] == before.layers@[l1]@[j1]);
                }
                if l2 != 0 {
                    assert(world.layers@[l2]@[j2] == before.layers@[l2]@[j2]);
                }
            }
            assert forall|l: int, j: int|
                0 <= l < NUM_LAYERS && 0 <= j < world.layers@[l]@.len() implies #[trigger] world.edges_ok_at(l, j) by {
                if l != 0 {
                    assert(world.layers@[l]@[j] == before.layers@[l]@[j]);
                    assert(before.edges_ok_at(l, j));
                } else {
                    let nb = world.cities@[start_city.0 as int].neighbours@;
                    assert(nb == first_layer@);
                    assert forall|m: int| 0 <= m < nb.len() implies world.layers@[l + 1]@.contains(#[trigger] nb[m]) by {
                        assert(world.layers@[1]@[m] == nb[m]);
                    }
                }
            }
            assert forall|j: int| 0 <= j < world.layers@[1]@.len() implies
                world.cities@[world.layers@[0]@[0].0 as int].neighbours@.contains(#[trigger] world.layers@[1]@[j]) by {
                assert(world.cities@[start_city.0 as int].neighbours@[j] == world.layers@[1]@[j]);
            }
        }

        let mut c: usize = 0;
        while c < NUM_CHARACTERS
            invariant
                c <= NUM_CHARACTERS,
                world.wf(),
                world.names_ok(),
                world.layers@[NUM_LAYERS - 1]@ == seq![CityID(0)],
                world.layered(),
                world.layers@[0]@ == seq![CityID((world.cities@.len() - 1) as usize)],
                world.characters@.len() == c,
                world.events@.len() == 0,
                world.items@.len() == 0,
            decreases NUM_CHARACTERS - c,
        {
            let ghost before = world;
            world.add_character();
            proof {
                assert(world.cities@ == before.cities@);
                assert(world.layers@ == before.layers@);
                assert forall|l: int, j: int|
                    0 <= l < NUM_LAYERS && 0 <= j < world.layers@[l]@.len() implies #[trigger] world.edges_ok_at(l, j) by {
                    assert(before.edges_ok_at(l, j));
                }
                assert forall|cc: int| 0 <= cc < world.cities@.len() implies #[trigger] world.placed(cc) by {
                    assert(before.placed(cc));
                }
            }
            c += 1;
        }
        proof {
            crate::laws::lemma_generated_world_layering(world);
        }
        world
    }
}

} // verus!
