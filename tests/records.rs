use worldgen::actor::CharacterState;
use worldgen::calamity::{CalamityState, CALAMITY_FREQ};
use worldgen::item::{get_item_types, get_records_from_time, Item, ItemMoveRecord, ItemType};
use worldgen::narrative::ItemStory;
use worldgen::world::{
    durations_overlap, CharacterID, City, CityID, Event, EventID, EventType, World, NUM_LAYERS,
};

fn record(time: usize, owner: Option<usize>, location: Option<usize>, event: usize) -> ItemMoveRecord {
    ItemMoveRecord {
        time,
        new_owner: owner.map(CharacterID),
        new_location: location.map(CityID),
        event: Some(EventID(event)),
    }
}

#[test]
fn overlap_of_bounded_spans() {
    assert!(durations_overlap(0, 2, Some(5), Some(7)));
    assert!(durations_overlap(2, 0, Some(7), Some(5)));
    assert!(!durations_overlap(0, 5, Some(5), Some(7)));
    assert!(!durations_overlap(0, 0, Some(5), Some(5)));
    assert!(!durations_overlap(0, 8, Some(5), Some(9)));
}

#[test]
fn overlap_of_unbounded_spans() {
    assert!(durations_overlap(3, 3, None, None));
    assert!(durations_overlap(3, 4, None, None));
    assert!(durations_overlap(4, 3, None, None));
    assert!(durations_overlap(1, 3, None, Some(5)));
    assert!(durations_overlap(3, 1, Some(5), None));
    assert!(!durations_overlap(1, 6, Some(5), None));
    assert!(!durations_overlap(1, 1, Some(5), None));
}

#[test]
fn status_folds_records_up_to_the_time() {
    let mut item = Item::new(ItemType::Teapot2, 0, CharacterID(1), CityID(4), EventID(0));
    item.owner_records.push(record(2, Some(3), Some(2), 5));
    item.owner_records.push(record(4, None, Some(1), 7));
    item.owner_records.push(record(6, Some(0), None, 9));

    let at0 = item.get_status_at_time(0);
    assert_eq!(at0.time, 0);
    assert_eq!(at0.new_owner, Some(CharacterID(1)));
    assert_eq!(at0.new_location, Some(CityID(4)));
    assert_eq!(at0.event, None);

    let at3 = item.get_status_at_time(3);
    assert_eq!(at3.new_owner, Some(CharacterID(3)));
    assert_eq!(at3.new_location, Some(CityID(2)));

    let at5 = item.get_status_at_time(5);
    assert_eq!(at5.new_owner, Some(CharacterID(3)));
    assert_eq!(at5.new_location, Some(CityID(1)));

    let at9 = item.get_status_at_time(9);
    assert_eq!(at9.time, 9);
    assert_eq!(at9.new_owner, Some(CharacterID(0)));
    assert_eq!(at9.new_location, Some(CityID(1)));
}

#[test]
fn status_is_monotonic_in_time() {
    let item = Item {
        item_type: ItemType::Vase3,
        owner_records: vec![record(2, None, Some(1), 0), record(5, Some(2), None, 1)],
    };
    let mut had_owner = false;
    let mut had_location = false;
    for t in 0..8 {
        let status = item.get_status_at_time(t);
        assert!(!had_owner || status.new_owner.is_some());
        assert!(!had_location || status.new_location.is_some());
        had_owner = status.new_owner.is_some();
        had_location = status.new_location.is_some();
    }
    assert_eq!(item.get_status_at_time(1).new_location, None);
    assert_eq!(item.get_status_at_time(4).new_owner, None);
    assert_eq!(item.get_status_at_time(5).new_owner, Some(CharacterID(2)));
}

#[test]
fn new_item_holds_its_creation_record() {
    let item = Item::new(ItemType::Vase1, 7, CharacterID(2), CityID(3), EventID(11));
    assert_eq!(item.item_type, ItemType::Vase1);
    assert_eq!(item.owner_records.len(), 1);
    assert_eq!(item.owner_records[0], record(0, Some(2), Some(3), 11));
}

#[test]
fn records_at_an_exact_time() {
    let records = vec![
        record(0, Some(0), Some(0), 0),
        record(3, Some(1), Some(1), 4),
        record(3, Some(2), Some(1), 5),
        record(6, Some(2), Some(2), 8),
    ];
    let at3 = get_records_from_time(&records, 3);
    assert_eq!(at3.len(), 2);
    assert_eq!(*at3[0], records[1]);
    assert_eq!(*at3[1], records[2]);
    assert_eq!(get_records_from_time(&records, 0).len(), 1);
    assert!(get_records_from_time(&records, 4).is_empty());
}

#[test]
fn expected_fields_of_a_record() {
    let r = record(1, Some(4), Some(2), 6);
    assert_eq!(r.expect_owner(), CharacterID(4));
    assert_eq!(r.expect_location(), CityID(2));
    assert_eq!(r.expect_event(), EventID(6));
}

#[test]
fn item_type_indices_and_names() {
    let cases = [
        (ItemType::Teapot1, (0, 0, 0), "teapot1"),
        (ItemType::Teapot2, (0, 0, 1), "teapot2"),
        (ItemType::Teapot3, (0, 0, 2), "teapot3"),
        (ItemType::Vase1, (0, 1, 0), "vase1"),
        (ItemType::Vase2, (0, 1, 1), "vase2"),
        (ItemType::Vase3, (0, 1, 2), "vase3"),
    ];
    for (t, expected, name) in cases.iter() {
        let item = Item::new(*t, 0, CharacterID(0), CityID(0), EventID(0));
        assert_eq!(get_item_types(&item), *expected);
        assert_eq!(t.name(), *name);
    }
    let mut rng = rand::thread_rng();
    for _ in 0..20 {
        let t = ItemType::new(&mut rng);
        assert!(cases.iter().any(|(c, _, _)| *c == t));
    }
}

#[test]
fn events_overlapping_are_listed() {
    let mut world = World::generate_world();
    let start = world.layers[0][0];
    world.add_item(ItemType::Teapot1, 0, CharacterID(0), start);
    let mut event = Event::new(vec![CharacterID(1)], 0, None, EventType::EventMove, String::from("x"));
    assert!(event.events_happening_during.is_empty());
    event.add_event_during(world, EventID(0));
    assert_eq!(event.events_happening_during, vec![EventID(0)]);

    let world = World::generate_world();
    let mut world2 = world;
    world2.add_item(ItemType::Teapot1, 0, CharacterID(0), CityID(0));
    let mut later = Event::new(vec![CharacterID(1)], 0, Some(0), EventType::EventMove, String::from("y"));
    later.add_event_during(world2, EventID(0));
    assert!(later.events_happening_during.is_empty());
}

#[test]
fn creation_is_logged_with_a_summary() {
    let mut world = World::generate_world();
    let start = world.layers[0][0];
    let item = world.add_item(ItemType::Vase2, 0, CharacterID(3), start);
    assert_eq!(item.0, 0);
    assert_eq!(world.event_id_counter, 1);
    let event = &world.events[0];
    assert_eq!(event.event_type, EventType::EventCreation(item));
    assert_eq!(event.characters, vec![CharacterID(3)]);
    assert_eq!(event.summary, format!("Character #3 created Item #0 in City #{}", start.0));
    assert_eq!(world.characters[3].events, vec![EventID(0)]);
    assert_eq!(world.cities[start.0].events, vec![EventID(0)]);
    assert_eq!(world.event_places[0], start);
}

#[test]
fn generated_names_come_from_the_pools() {
    let hard = ["p", "b", "t", "g"];
    let suffixes = ["ford", "ton", "don", "dale", "by"];
    for _ in 0..20 {
        let name = City::name_gen();
        assert!(hard.iter().any(|h| name.starts_with(h)));
        assert!(suffixes.iter().any(|s| name.ends_with(s)));
        let city = City::new(name.clone());
        assert_eq!(city.name, name);
        assert!(city.neighbours.is_empty() && city.events.is_empty());
    }
    let table = [("she", "her", "her"), ("him", "him", "his"), ("they", "them", "their")];
    for _ in 0..20 {
        let c = worldgen::world::Character::new();
        assert!(table.iter().any(|(n, a, g)| c.pronouns.nominative == *n
            && c.pronouns.accusative == *a
            && c.pronouns.dep_genitive == *g));
        assert!(c.events.is_empty());
        assert!(["p", "b", "t", "ch", "k"].iter().any(|h| c.name.starts_with(h)));
    }
}

#[test]
fn death_at_tick_three_records_the_item() {
    let mut world = World::generate_world();
    let start = world.layers[0][0];
    let item = world.add_item(ItemType::Teapot3, 0, CharacterID(0), start);
    let mut state = CharacterState::new(CharacterID(0), start, 6);
    state.items.push(item);
    world.event_death(3, &mut state);
    assert!(state.dead);
    let death = EventID(world.event_id_counter - 1);
    assert_eq!(world.events[death.0].event_type, EventType::EventDeath);
    assert_eq!(world.events[death.0].start_time, 3);
    assert_eq!(world.events[death.0].summary, format!("Character #0 died in City #{}", start.0));
    let records = &world.items[item.0].owner_records;
    assert_eq!(records.len(), 2);
    assert_eq!(records[1].time, 3);
    assert_eq!(records[1].new_owner, Some(CharacterID(0)));
    assert_eq!(records[1].new_location, Some(start));
    assert_eq!(records[1].event, Some(death));
    assert_eq!(world.items[item.0].get_status_at_time(9).new_owner, Some(CharacterID(0)));
    assert!(world.characters[0].events.contains(&death));
}

#[test]
fn move_follows_an_edge_and_carries_items() {
    let mut world = World::generate_world();
    let start = world.layers[0][0];
    let item = world.add_item(ItemType::Vase1, 0, CharacterID(2), start);
    let mut state = CharacterState::new(CharacterID(2), start, 6);
    state.items.push(item);
    let populations = vec![Vec::new(); world.cities.len()];
    let exposure = vec![0; world.cities.len()];
    let mut rng = rand::thread_rng();
    world.event_move(1, &mut state, &mut rng, &populations, &exposure);
    assert!(world.cities[start.0].neighbours.contains(&state.city));
    assert!(world.layers[1].contains(&state.city));
    let moved = &world.events[1];
    assert_eq!(moved.event_type, EventType::EventMove);
    assert_eq!(world.event_places[1], state.city);
    let last = world.items[item.0].owner_records.last().unwrap();
    assert_eq!(last.time, 1);
    assert_eq!(last.new_location, Some(state.city));
    assert_eq!(last.event, Some(EventID(1)));
}

#[test]
fn move_from_the_end_does_nothing() {
    let mut world = World::generate_world();
    let end = world.layers[NUM_LAYERS - 1][0];
    let mut state = CharacterState::new(CharacterID(1), end, 6);
    let populations = vec![Vec::new(); world.cities.len()];
    let exposure = vec![0; world.cities.len()];
    let mut rng = rand::thread_rng();
    world.event_move(2, &mut state, &mut rng, &populations, &exposure);
    assert_eq!(state.city, end);
    assert!(world.events.is_empty());
}

#[test]
fn encounter_needs_someone_else() {
    let mut world = World::generate_world();
    let start = world.layers[0][0];
    let mut states: Vec<CharacterState> =
        (0..world.characters.len()).map(|i| CharacterState::new(CharacterID(i), start, 6)).collect();
    let mut populations = vec![Vec::new(); world.cities.len()];
    populations[start.0] = vec![CharacterID(0)];
    let mut rng = rand::thread_rng();
    assert_eq!(world.event_encounter(0, &mut states, 0, &mut rng, &populations), Err(()));
    assert!(world.events.is_empty());

    populations[start.0] = vec![CharacterID(0), CharacterID(4)];
    let met = world.event_encounter(0, &mut states, 0, &mut rng, &populations).unwrap();
    assert_eq!(met, EventID(0));
    assert_eq!(world.events[0].characters, vec![CharacterID(0), CharacterID(4)]);
    assert_eq!(world.events[0].event_type, EventType::EventEncounter);
    assert!(states[0].encountered && states[4].encountered);
    assert_eq!(world.cities[start.0].events, vec![EventID(0)]);
    assert_eq!(
        world.events[0].summary,
        format!("Character #0 encountered Character #4 in City #{}", start.0)
    );
}

#[test]
fn calamity_spreads_on_its_cadence() {
    let ids = [CityID(0), CityID(3)];
    let state = CalamityState::new(vec![&ids[0], &ids[1]]);
    assert_eq!(state.city_states, vec![0, 0, 0, 0]);
    assert_eq!(state.freq, CALAMITY_FREQ);
    assert_eq!(state.calamity_layer_i, None);
    assert!(CalamityState::new(Vec::new()).city_states.is_empty());

    let world = World::generate_world();
    let n = world.cities.len();
    let ids: Vec<CityID> = (0..n).map(CityID).collect();
    let mut calamity = CalamityState::new(ids.iter().collect());
    let start = world.layers[0][0];
    let mut states: Vec<CharacterState> = (0..3).map(|i| CharacterState::new(CharacterID(i), start, 6)).collect();
    let mut populations = vec![Vec::new(); n];
    populations[start.0] = vec![CharacterID(0), CharacterID(1), CharacterID(2)];
    for time in 0..5 {
        calamity.calamity_step(time, &world.layers, &mut states, &populations);
        assert_eq!(calamity.calamity_layer_i, None);
    }
    calamity.calamity_step(5, &world.layers, &mut states, &populations);
    assert_eq!(calamity.calamity_layer_i, Some(0));
    assert_eq!(calamity.city_states[start.0], 1);
    calamity.calamity_step(6, &world.layers, &mut states, &populations);
    assert_eq!(calamity.city_states[start.0], 2);
    for c in world.layers[1].iter() {
        assert_eq!(calamity.city_states[c.0], 0);
    }
    for time in 7..11 {
        calamity.calamity_step(time, &world.layers, &mut states, &populations);
    }
    assert_eq!(calamity.calamity_layer_i, Some(1));
    assert_eq!(calamity.city_states[start.0], 6);
    for c in world.layers[1].iter() {
        assert_eq!(calamity.city_states[c.0], 1);
    }
    let mut late = CalamityState::new(ids.iter().collect());
    late.calamity_layer_i = Some(NUM_LAYERS - 1);
    late.calamity_step(5, &world.layers, &mut states, &populations);
    assert_eq!(late.calamity_layer_i, Some(NUM_LAYERS - 1));
    assert!(late.city_states.iter().all(|&e| e == 1));
}

#[test]
fn a_story_keeps_its_lines() {
    let story = ItemStory::new(vec![String::from("one"), String::from("two")]);
    assert_eq!(story.lines, vec![String::from("one"), String::from("two")]);
}
