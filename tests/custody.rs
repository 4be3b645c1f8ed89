use worldgen::history::MAX_TIME;
use worldgen::world::{CharacterID, CityID, EventID, EventType, World, NUM_LAYERS};

fn generated_history(cadence: usize) -> World {
    let mut world = World::generate_world();
    world.generate_events_with_cadence(cadence);
    world
}

#[test]
fn graph_ids_and_edges() {
    for _ in 0..20 {
        let world = World::generate_world();
        assert_eq!(world.layers[NUM_LAYERS - 1], vec![CityID(0)]);
        assert_eq!(world.layers[0], vec![CityID(world.cities.len() - 1)]);
        assert_eq!(world.cities[world.layers[0][0].0].neighbours, world.layers[1]);
        for city in world.cities.iter() {
            for (a, x) in city.neighbours.iter().enumerate() {
                for y in city.neighbours[a + 1..].iter() {
                    assert_ne!(x, y);
                }
            }
        }
    }
}

#[test]
fn events_have_their_shape() {
    for _ in 0..10 {
        let world = generated_history(5);
        for (e, event) in world.events.iter().enumerate() {
            assert_eq!(event.end_time, None);
            assert!(event.start_time <= MAX_TIME);
            assert!(event.event_type != EventType::EventBirth);
            let expected = if event.event_type == EventType::EventEncounter { 2 } else { 1 };
            assert_eq!(event.characters.len(), expected);
            let listed = world.cities[world.event_places[e].0].events.iter().filter(|x| x.0 == e).count();
            assert_eq!(listed, 1);
        }
        for city in world.cities.iter() {
            for pair in city.events.windows(2) {
                assert!(pair[0].0 < pair[1].0);
            }
        }
    }
}

#[test]
fn items_are_created_at_the_start_by_their_creator() {
    let world = generated_history(5);
    let start = world.layers[0][0];
    for item in world.items.iter() {
        let first = &item.owner_records[0];
        assert_eq!(first.time, 0);
        assert_eq!(first.new_location, Some(start));
        let event = &world.events[first.expect_event().0];
        assert_eq!(event.characters, vec![first.expect_owner()]);
        assert!(item.owner_records.len() <= world.events.len());
    }
}

#[test]
fn moves_follow_edges() {
    for _ in 0..10 {
        let world = generated_history(1);
        let start = world.layers[0][0];
        let mut position: Vec<CityID> = vec![start; world.characters.len()];
        for (e, event) in world.events.iter().enumerate() {
            if event.event_type == EventType::EventMove {
                let c = event.characters[0].0;
                assert!(world.cities[position[c].0].neighbours.contains(&world.event_places[e]));
                position[c] = world.event_places[e];
            }
        }
    }
}

#[test]
fn custody_passes_along_the_chain() {
    for _ in 0..20 {
        let world = generated_history(1);
        for item in world.items.iter() {
            let records = &item.owner_records;
            for k in 1..records.len() {
                let event = &world.events[records[k].expect_event().0];
                let prev = &records[k - 1];
                assert!(prev.expect_event().0 < records[k].expect_event().0);
                let holder = if event.event_type == EventType::EventEncounter {
                    event.characters[1]
                } else {
                    event.characters[0]
                };
                assert_eq!(prev.new_owner, Some(holder));
                if world.events[prev.expect_event().0].event_type == EventType::EventDeath {
                    assert_eq!(event.event_type, EventType::EventEncounter);
                    assert_eq!(Some(event.characters[1]), prev.new_owner);
                }
            }
        }
    }
}

#[test]
fn an_encounter_passes_one_item_when_there_is_one() {
    for _ in 0..20 {
        let world = generated_history(1);
        for (e, event) in world.events.iter().enumerate() {
            if event.event_type != EventType::EventEncounter {
                continue;
            }
            let tagged: Vec<usize> = world
                .items
                .iter()
                .enumerate()
                .filter(|(_, item)| item.owner_records.iter().any(|r| r.event == Some(EventID(e))))
                .map(|(i, _)| i)
                .collect();
            assert!(tagged.len() <= 1);
            let met: CharacterID = event.characters[1];
            let held_before = world.items.iter().any(|item| {
                item.owner_records.iter().filter(|r| r.expect_event().0 < e).last().and_then(|r| r.new_owner)
                    == Some(met)
            });
            if held_before {
                assert_eq!(tagged.len(), 1);
                let item = &world.items[tagged[0]];
                let rec = item.owner_records.iter().find(|r| r.event == Some(EventID(e))).unwrap();
                assert_eq!(rec.new_owner, Some(event.characters[0]));
            }
        }
    }
}

#[test]
fn cadence_one_scenario() {
    for _ in 0..10 {
        let world = generated_history(1);
        for character in world.characters.iter() {
            for pair in character.events.windows(2) {
                assert!(world.events[pair[0].0].start_time <= world.events[pair[1].0].start_time);
            }
        }
        assert!(world
            .items
            .iter()
            .any(|item| item.owner_records.len() >= 1 && item.owner_records.len() <= MAX_TIME + 2));
    }
}
