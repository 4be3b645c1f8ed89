//! What the story-telling layer reads besides the world: the description
//! and dialogue templates, and the stories it assembles for an item.
use vstd::prelude::*;
use std::collections::HashMap;

verus! {

/// Templates for the wear of an item, by supertype.
pub struct WearDescs {
    pub bricabrac_wear: Vec<Vec<String>>,
    pub accessory_wear: Vec<Vec<String>>,
}

/// Dialogue lines for each kind of event in an item's history.
pub struct EventLines {
    pub creation_lines: Vec<Vec<String>>,
    pub death_lines: Vec<Vec<String>>,
    pub move_lines: Vec<Vec<String>>,
    pub exchange_lines: Vec<Vec<String>>,
    pub postmortem_exchange_lines: Vec<Vec<String>>,
}

/// The description and dialogue templates, by item type name.
pub struct DescJson {
    pub initial_descriptions: HashMap<String, String>,
    pub wear_descriptions: WearDescs,
    pub story_intros: Vec<String>,
    pub story_outros: Vec<String>,
    pub event_lines: EventLines,
}

/// One story told about an item: its lines, in order.
pub struct ItemStory {
    pub lines: Vec<String>,
}

impl ItemStory {
    pub fn new(lines: Vec<String>) -> (r: ItemStory)
        ensures
            r.lines@ == lines@,
    {
        ItemStory { lines }
    }
}

} // verus!
