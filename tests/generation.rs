use worldgen::graph::NUM_CHARACTERS;
use worldgen::history::{MAX_TIME, NUM_ITEMS};
use worldgen::world::{EventType, ItemID, World, NUM_LAYERS};

#[test]
fn world_generator() {
    let world = World::generate_world();
    println!("{:?}", world.layers[0]);
    println!("{:?}", world.layers[1]);
    println!("{:?}", world.layers[2]);
    println!("{:?}", world.layers[3]);
    println!("{:?}", world.layers[4]);
    println!("{:?}", world.characters[0]);
    println!("{:?}", world.characters[1]);
    println!("{:?}", world.characters[2]);
}

#[test]
fn event_generator() {
    let mut world = World::generate_world();
    world.generate_events();
    println!("\nEvent Display:");
    for event_id in 0..world.event_id_counter {
        let event = &world.events[event_id];
        println!("event {:?}: {:?}", event_id, event.summary);
    }
    for character in world.characters.iter() {
        println!("-------------------------");
        println!("Character {:?}'s events:", character.name);
        for event_id in character.events.iter() {
            let event = &world.events[event_id.0];
            println!("event #{:?}: {:?},", event_id, event.summary);
        }
    }
    for (item_index, item) in world.items.iter().enumerate() {
        println!("-------------------------");
        println!("Item #{:?} (of type {:?})'s events:", ItemID(item_index), item.item_type);
        for record in item.owner_records.iter() {
            match record.event {
                Some(event_id) => {
                    let event = &world.events[event_id.0];
                    println!("event #{:?}: {:?},", event_id, event.summary);
                }
                _ => (),
            }
        }
    }
}

#[test]
fn run_eventgen_alot() {
    for _ in 0..2 {
        event_generator();
    }
}

#[test]
fn generated_world_is_layered() {
    for _ in 0..20 {
        let world = World::generate_world();
        assert_eq!(world.layers.len(), NUM_LAYERS);
        assert_eq!(world.layers[0].len(), 1);
        assert_eq!(world.layers[NUM_LAYERS - 1].len(), 1);
        for l in 1..NUM_LAYERS - 1 {
            assert!(world.layers[l].len() >= 1 && world.layers[l].len() <= 2);
        }
        let end = world.layers[NUM_LAYERS - 1][0];
        assert!(world.cities[end.0].neighbours.is_empty());
        for l in 0..NUM_LAYERS - 1 {
            for city in world.layers[l].iter() {
                let nb = &world.cities[city.0].neighbours;
                assert!(!nb.is_empty());
                for n in nb.iter() {
                    assert!(world.layers[l + 1].contains(n));
                }
            }
        }
        let start = world.layers[0][0];
        for city in world.layers[1].iter() {
            assert!(world.cities[start.0].neighbours.contains(city));
        }
        let mut total = 0;
        for l in 0..NUM_LAYERS {
            total += world.layers[l].len();
        }
        assert_eq!(total, world.cities.len());
        assert_eq!(world.characters.len(), NUM_CHARACTERS);
        for c in world.characters.iter() {
            assert_eq!(c.name.len() >= 4, true);
        }
    }
}

#[test]
fn every_settlement_reaches_the_end() {
    for _ in 0..20 {
        let world = World::generate_world();
        let end = world.layers[NUM_LAYERS - 1][0];
        for c in 0..world.cities.len() {
            let mut here = c;
            let mut steps = 0;
            while here != end.0 {
                here = world.cities[here].neighbours[0].0;
                steps += 1;
                assert!(steps < NUM_LAYERS);
            }
        }
    }
}

#[test]
fn history_scenario_is_consistent() {
    for _ in 0..10 {
        let mut world = World::generate_world();
        world.generate_events();
        assert_eq!(world.items.len(), NUM_ITEMS);
        // every character's events come in time order
        for character in world.characters.iter() {
            for pair in character.events.windows(2) {
                assert!(world.events[pair[0].0].start_time <= world.events[pair[1].0].start_time);
            }
        }
        // some item has between one and (ticks + 1) records
        let ticks = MAX_TIME + 1;
        assert!(world
            .items
            .iter()
            .any(|item| item.owner_records.len() >= 1 && item.owner_records.len() <= ticks + 1));
        for item in world.items.iter() {
            assert_eq!(item.owner_records[0].time, 0);
        }
    }
}

#[test]
fn dead_characters_never_act_again() {
    for _ in 0..20 {
        let mut world = World::generate_world();
        world.generate_events();
        for (e1, first) in world.events.iter().enumerate() {
            if first.event_type != EventType::EventDeath {
                continue;
            }
            let dead = first.characters[0];
            for later in world.events[e1 + 1..].iter() {
                if later.characters[0] == dead {
                    assert!(!matches!(
                        later.event_type,
                        EventType::EventMove | EventType::EventDeath | EventType::EventEncounter
                    ));
                }
            }
        }
    }
}

#[test]
fn ledger_and_indexes_agree() {
    let mut world = World::generate_world();
    world.generate_events();
    assert_eq!(world.events.len(), world.event_id_counter);
    assert_eq!(world.event_places.len(), world.events.len());
    for (c, character) in world.characters.iter().enumerate() {
        for e in character.events.iter() {
            assert!(world.events[e.0].characters.iter().any(|p| p.0 == c));
        }
    }
    for (c, city) in world.cities.iter().enumerate() {
        for e in city.events.iter() {
            assert_eq!(world.event_places[e.0].0, c);
        }
    }
    for (e, event) in world.events.iter().enumerate() {
        assert!(event.event_type != EventType::EventIdle);
        assert!(world.cities[world.event_places[e].0].events.iter().any(|x| x.0 == e));
        for p in event.characters.iter() {
            assert!(world.characters[p.0].events.iter().any(|x| x.0 == e));
        }
    }
}

#[test]
fn provenance_replays_against_the_ledger() {
    for _ in 0..10 {
        let mut world = World::generate_world();
        world.generate_events();
        for (i, item) in world.items.iter().enumerate() {
            for (k, record) in item.owner_records.iter().enumerate() {
                let e = record.expect_event();
                let event = &world.events[e.0];
                assert_eq!(event.start_time, record.time);
                assert_eq!(event.characters[0], record.expect_owner());
                assert_eq!(world.event_places[e.0], record.expect_location());
                if k == 0 {
                    assert_eq!(event.event_type, EventType::EventCreation(ItemID(i)));
                } else {
                    assert!(matches!(
                        event.event_type,
                        EventType::EventMove | EventType::EventDeath | EventType::EventEncounter
                    ));
                }
                let status = item.get_status_at_time(record.time);
                assert!(status.new_owner.is_some());
            }
        }
    }
}
