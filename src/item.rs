//! Portable items and their provenance chains: an append-only list of sparse
//! move records, folded over time to tell who held an item and where it was.
use vstd::prelude::*;
use crate::random::choose_one;
use crate::world::{CharacterID, CityID, EventID};

verus! {

/// The catalog of item types.
#[derive(PartialEq, Eq, Structural, Clone, Copy, Debug, Hash)]
pub enum ItemType {
    Teapot1,
    Teapot2,
    Teapot3,
    Vase1,
    Vase2,
    Vase3,
}

/// The whole catalog, in order.
pub open spec fn item_catalog() -> Seq<ItemType> {
    seq![
        ItemType::Teapot1,
        ItemType::Teapot2,
        ItemType::Teapot3,
        ItemType::Vase1,
        ItemType::Vase2,
        ItemType::Vase3,
    ]
}

/// The family of a type within its supertype: teapots are 0, vases 1.
pub open spec fn family_index(t: ItemType) -> usize {
    match t {
        ItemType::Teapot1 | ItemType::Teapot2 | ItemType::Teapot3 => 0,
        ItemType::Vase1 | ItemType::Vase2 | ItemType::Vase3 => 1,
    }
}

/// The variant of a type within its family, counted from 0.
pub open spec fn variant_index(t: ItemType) -> usize {
    match t {
        ItemType::Teapot1 | ItemType::Vase1 => 0,
        ItemType::Teapot2 | ItemType::Vase2 => 1,
        ItemType::Teapot3 | ItemType::Vase3 => 2,
    }
}

fn list_item_types() -> (r: Vec<ItemType>)
    ensures
        r@ == item_catalog(),
{
    let r = vec![
        ItemType::Teapot1,
        ItemType::Teapot2,
        ItemType::Teapot3,
        ItemType::Vase1,
        ItemType::Vase2,
        ItemType::Vase3,
    ];
    assert(r@ =~= item_catalog());
    r
}

impl ItemType {
    /// A type drawn uniformly from the catalog.
    pub fn new(rng: &mut rand::rngs::ThreadRng) -> (r: ItemType)
        ensures
            item_catalog().contains(r),
    {
        let all = list_item_types();
        match choose_one(rng, &all) {
            Some(t) => t,
            None => ItemType::Teapot1,
        }
    }

    /// The lower-case name of the type, such as `teapot1`.
    pub fn name(&self) -> (r: &'static str)
        ensures
            r@ == catalog_name(*self)@,
    {
        match self {
            ItemType::Teapot1 => "teapot1",
            ItemType::Teapot2 => "teapot2",
            ItemType::Teapot3 => "teapot3",
            ItemType::Vase1 => "vase1",
            ItemType::Vase2 => "vase2",
            ItemType::Vase3 => "vase3",
        }
    }
}

/// The name of each item type.
pub open spec fn catalog_name(t: ItemType) -> &'static str {
    match t {
        ItemType::Teapot1 => "teapot1",
        ItemType::Teapot2 => "teapot2",
        ItemType::Teapot3 => "teapot3",
        ItemType::Vase1 => "vase1",
        ItemType::Vase2 => "vase2",
        ItemType::Vase3 => "vase3",
    }
}

/// One entry of a provenance chain. A field left `None` is not changed by
/// this entry.
#[derive(PartialEq, Eq, Structural, Clone, Copy, Debug)]
pub struct ItemMoveRecord {
    pub time: usize,
    pub new_owner: Option<CharacterID>,
    pub new_location: Option<CityID>,
    pub event: Option<EventID>,
}

impl ItemMoveRecord {
    /// The owner set by this record, which must set one.
    pub fn expect_owner(&self) -> (r: CharacterID)
        requires
            self.new_owner.is_some(),
        ensures
            self.new_owner == Some(r),
    {
        self.new_owner.unwrap()
    }

    /// The location set by this record, which must set one.
    pub fn expect_location(&self) -> (r: CityID)
        requires
            self.new_location.is_some(),
        ensures
            self.new_location == Some(r),
    {
        self.new_location.unwrap()
    }

    /// The event that caused this record, which must name one.
    pub fn expect_event(&self) -> (r: EventID)
        requires
            self.event.is_some(),
        ensures
            self.event == Some(r),
    {
        self.event.unwrap()
    }
}

/// The owner after folding every record at or before `t`, later records
/// overriding earlier ones.
pub open spec fn owner_at(recs: Seq<ItemMoveRecord>, t: usize) -> Option<CharacterID>
    decreases recs.len(),
{
    if recs.len() == 0 {
        None
    } else {
        let r = recs.last();
        if r.time <= t && r.new_owner.is_some() {
            r.new_owner
        } else {
            owner_at(recs.drop_last(), t)
        }
    }
}

/// The location after folding every record at or before `t`, later records
/// overriding earlier ones.
pub open spec fn location_at(recs: Seq<ItemMoveRecord>, t: usize) -> Option<CityID>
    decreases recs.len(),
{
    if recs.len() == 0 {
        None
    } else {
        let r = recs.last();
        if r.time <= t && r.new_location.is_some() {
            r.new_location
        } else {
            location_at(recs.drop_last(), t)
        }
    }
}

/// The records whose time is exactly `t`, in chain order.
pub open spec fn records_at(recs: Seq<ItemMoveRecord>, t: usize) -> Seq<ItemMoveRecord>
    decreases recs.len(),
{
    if recs.len() == 0 {
        Seq::empty()
    } else if recs.last().time == t {
        records_at(recs.drop_last(), t).push(recs.last())
    } else {
        records_at(recs.drop_last(), t)
    }
}

/// All records of the chain, from the first, that a well-formed chain holds:
/// the creation record at time 0, every field set, times never decreasing.
pub open spec fn chain_wf(recs: Seq<ItemMoveRecord>) -> bool {
    &&& recs.len() >= 1
    &&& recs[0].time == 0
    &&& forall|k: int|
        0 <= k < recs.len() ==> {
            &&& (#[trigger] recs[k]).new_owner.is_some()
            &&& recs[k].new_location.is_some()
            &&& recs[k].event.is_some()
        }
    &&& forall|j: int, k: int| 0 <= j <= k < recs.len() ==> recs[j].time <= recs[k].time
}

/// Records of one item's chain that fall at the given time.
pub fn get_records_from_time(records: &Vec<ItemMoveRecord>, time: usize) -> (r: Vec<&ItemMoveRecord>)
    ensures
        r@.map_values(|x: &ItemMoveRecord| *x) == records_at(records@, time),
{
    let mut r: Vec<&ItemMoveRecord> = Vec::new();
    let mut i: usize = 0;
    while i < records.len()
        invariant
            i <= records@.len(),
            r@.map_values(|x: &ItemMoveRecord| *x) == records_at(records@.take(i as int), time),
        decreases records@.len() - i,
    {
        assert(records@.take(i as int + 1).drop_last() == records@.take(i as int));
        let ghost before = r@;
        if records[i].time == time {
            r.push(&records[i]);
            assert(r@.map_values(|x: &ItemMoveRecord| *x) =~= before.map_values(|x: &ItemMoveRecord| *x).push(records@[i as int]));
        }
        i += 1;
    }
    assert(records@.take(i as int) == records@);
    r
}

/// A portable item: its type and its provenance chain.
pub struct Item {
    pub item_type: ItemType,
    pub owner_records: Vec<ItemMoveRecord>,
}

impl Item {
    /// A new item whose chain holds its creation record alone, at time 0.
    pub fn new(
        item_type: ItemType,
        time: usize,
        initial_owner: CharacterID,
        initial_location: CityID,
        creation_event: EventID,
    ) -> (r: Item)
        ensures
            r.item_type == item_type,
            r.owner_records@ == seq![ItemMoveRecord {
                time: 0,
                new_owner: Some(initial_owner),
                new_location: Some(initial_location),
                event: Some(creation_event),
            }],
            chain_wf(r.owner_records@),
    {
        let first = ItemMoveRecord {
            time: 0,
            new_owner: Some(initial_owner),
            new_location: Some(initial_location),
            event: Some(creation_event),
        };
        let owner_records = vec![first];
        assert(owner_records@ =~= seq![first]);
        Item { item_type, owner_records }
    }

    /// The owner and location of the item at `time`: every record at or
    /// before `time` is folded in chain order, each set field overriding.
    pub fn get_status_at_time(&self, time: usize) -> (r: ItemMoveRecord)
        ensures
            r.time == time,
            r.new_owner == owner_at(self.owner_records@, time),
            r.new_location == location_at(self.owner_records@, time),
            r.event.is_none(),
    {
        let mut status = ItemMoveRecord { time, new_owner: None, new_location: None, event: None };
        let mut i: usize = 0;
        while i < self.owner_records.len()
            invariant
                i <= self.owner_records@.len(),
                status.time == time,
                status.event.is_none(),
                status.new_owner == owner_at(self.owner_records@.take(i as int), time),
                status.new_location == location_at(self.owner_records@.take(i as int), time),
            decreases self.owner_records@.len() - i,
        {
            let record = self.owner_records[i];
            assert(self.owner_records@.take(i as int + 1).drop_last() == self.owner_records@.take(i as int));
            if record.time <= time {
                if record.new_owner.is_some() {
                    status.new_owner = record.new_owner;
                }
                if record.new_location.is_some() {
                    status.new_location = record.new_location;
                }
            }
            i += 1;
        }
        assert(self.owner_records@.take(i as int) == self.owner_records@);
        status
    }
}

/// The family indices of an item's type: its supertype (every type in the
/// catalog is bric-a-brac, 0), its family and its variant.
pub fn get_item_types(item: &Item) -> (r: (usize, usize, usize))
    ensures
        r == (0usize, family_index(item.item_type), variant_index(item.item_type)),
{
    match item.item_type {
        ItemType::Teapot1 => (0, 0, 0),
        ItemType::Teapot2 => (0, 0, 1),
        ItemType::Teapot3 => (0, 0, 2),
        ItemType::Vase1 => (0, 1, 0),
        ItemType::Vase2 => (0, 1, 1),
        ItemType::Vase3 => (0, 1, 2),
    }
}

} // verus!
