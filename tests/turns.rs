use worldgen::actor::{CharacterState, ACTION_DEATH, ACTION_ENCOUNTER, ACTION_IDLE, ACTION_MOVE};
use worldgen::history::refresh_encounter_weight;
use worldgen::item::ItemType;
use worldgen::world::{CharacterID, CityID, EventID, EventType, World};

struct Setup {
    world: World,
    states: Vec<CharacterState>,
    populations: Vec<Vec<CharacterID>>,
    exposure: Vec<usize>,
    start: CityID,
}

fn setup() -> Setup {
    let mut world = World::generate_world();
    let start = world.layers[0][0];
    let n = world.characters.len();
    let mut states: Vec<CharacterState> = (0..n).map(|i| CharacterState::new(CharacterID(i), start, n)).collect();
    let item = world.add_item(ItemType::Vase2, 0, CharacterID(1), start);
    states[1].items.push(item);
    let mut populations = vec![Vec::new(); world.cities.len()];
    populations[start.0] = (0..n).map(CharacterID).collect();
    let exposure = vec![0; world.cities.len()];
    Setup { world, states, populations, exposure, start }
}

#[test]
fn idle_changes_nothing() {
    let mut s = setup();
    let mut rng = rand::thread_rng();
    s.world.act(1, &mut s.states, 0, ACTION_IDLE, &mut rng, &s.populations, &s.exposure);
    assert_eq!(s.world.events.len(), 1);
    assert_eq!(s.states[0].city, s.start);
    assert!(!s.states[0].dead);
}

#[test]
fn death_is_recorded_with_the_items() {
    let mut s = setup();
    let mut rng = rand::thread_rng();
    s.world.act(3, &mut s.states, 1, ACTION_DEATH, &mut rng, &s.populations, &s.exposure);
    assert!(s.states[1].dead);
    assert_eq!(s.world.events[1].event_type, EventType::EventDeath);
    assert_eq!(s.world.events[1].characters, vec![CharacterID(1)]);
    let last = s.world.items[0].owner_records.last().unwrap();
    assert_eq!(last.time, 3);
    assert_eq!(last.new_owner, Some(CharacterID(1)));
    assert_eq!(last.event, Some(EventID(1)));
    // a dead actor does nothing afterwards
    s.world.act(4, &mut s.states, 1, ACTION_MOVE, &mut rng, &s.populations, &s.exposure);
    assert_eq!(s.world.events.len(), 2);
    assert_eq!(s.states[1].city, s.start);
}

#[test]
fn move_goes_to_the_next_layer() {
    let mut s = setup();
    let mut rng = rand::thread_rng();
    s.world.act(2, &mut s.states, 1, ACTION_MOVE, &mut rng, &s.populations, &s.exposure);
    assert!(s.world.layers[1].contains(&s.states[1].city));
    assert_eq!(s.world.events[1].event_type, EventType::EventMove);
    assert_eq!(s.world.event_places[1], s.states[1].city);
    let last = s.world.items[0].owner_records.last().unwrap();
    assert_eq!(last.new_location, Some(s.states[1].city));
    assert!(!s.states[1].encountered);
}

#[test]
fn encounter_with_a_dead_holder_takes_the_item() {
    let mut s = setup();
    let mut rng = rand::thread_rng();
    s.world.act(1, &mut s.states, 1, ACTION_DEATH, &mut rng, &s.populations, &s.exposure);
    s.populations[s.start.0] = vec![CharacterID(0), CharacterID(1)];
    s.world.act(2, &mut s.states, 0, ACTION_ENCOUNTER, &mut rng, &s.populations, &s.exposure);
    let event = &s.world.events[2];
    assert_eq!(event.event_type, EventType::EventEncounter);
    assert_eq!(event.characters, vec![CharacterID(0), CharacterID(1)]);
    assert!(s.states[0].encountered && s.states[1].encountered);
    assert!(s.states[1].items.is_empty());
    assert_eq!(s.states[0].items.len(), 1);
    let last = s.world.items[0].owner_records.last().unwrap();
    assert_eq!(last.new_owner, Some(CharacterID(0)));
    assert_eq!(last.event, Some(EventID(2)));
}

#[test]
fn encounter_alone_changes_nothing() {
    let mut s = setup();
    let mut rng = rand::thread_rng();
    s.populations[s.start.0] = vec![CharacterID(2)];
    s.world.act(1, &mut s.states, 2, ACTION_ENCOUNTER, &mut rng, &s.populations, &s.exposure);
    assert_eq!(s.world.events.len(), 1);
    assert!(!s.states[2].encountered);
}

#[test]
fn refreshing_keeps_the_actor_in_place() {
    let mut s = setup();
    refresh_encounter_weight(&mut s.states, 3, &s.populations);
    assert_eq!(s.states[3].city, s.start);
    assert_eq!(s.states[3].character, CharacterID(3));
    assert!(!s.states[3].encountered);
}
