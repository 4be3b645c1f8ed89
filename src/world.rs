//! The world: settlements, characters, the event ledger and the items, with
//! the layered settlement graph built over them.
use vstd::prelude::*;
use vstd::string::StringExecFns;
use crate::item::{chain_wf, Item, ItemType};
use crate::random::choose_one;

verus! {

#[derive(PartialEq, Eq, Structural, Clone, Copy, Debug, Hash)]
pub struct CityID(pub usize);

#[derive(PartialEq, Eq, Structural, Clone, Copy, Debug, Hash)]
pub struct EventID(pub usize);

#[derive(PartialEq, Eq, Structural, Clone, Copy, Debug, Hash)]
pub struct CharacterID(pub usize);

#[derive(PartialEq, Eq, Structural, Clone, Copy, Debug, Hash)]
pub struct ItemID(pub usize);

#[derive(PartialEq, Eq, Structural, Clone, Copy, Debug, Hash)]
pub struct Year(isize);

// -- Settlements --

/// A settlement: its name, its outbound edges and the events held there.
pub struct City {
    pub name: String,
    pub neighbours: Vec<CityID>,
    pub events: Vec<EventID>,
}

pub open spec fn city_hard_letters() -> Seq<&'static str> {
    seq!["p", "b", "t", "g"]
}

pub open spec fn city_vowels() -> Seq<&'static str> {
    seq!["a", "e", "i", "o", "oo", "ai"]
}

pub open spec fn city_soft_letters() -> Seq<&'static str> {
    seq!["sh", "l", "m", "n", "r"]
}

pub open spec fn city_suffixes() -> Seq<&'static str> {
    seq!["ford", "ton", "don", "dale", "by"]
}

/// Four syllable parts, one from each pool in turn, joined.
pub open spec fn joined_from(
    name: Seq<char>,
    p1: Seq<&'static str>,
    p2: Seq<&'static str>,
    p3: Seq<&'static str>,
    p4: Seq<&'static str>,
) -> bool {
    exists|a: &'static str, b: &'static str, c: &'static str, d: &'static str|
        p1.contains(a) && p2.contains(b) && p3.contains(c) && p4.contains(d) && name == a@ + b@
            + c@ + d@
}

/// A settlement name: a hard letter, a vowel, a soft letter and a suffix.
pub open spec fn is_city_name(name: Seq<char>) -> bool {
    joined_from(name, city_hard_letters(), city_vowels(), city_soft_letters(), city_suffixes())
}

/// Appends one element of `pool`, drawn at random, to `s`.
fn push_syllable(rng: &mut rand::rngs::ThreadRng, s: &mut String, pool: &Vec<&'static str>) -> (r: &'static str)
    requires
        pool@.len() > 0,
    ensures
        pool@.contains(r),
        final(s)@ == old(s)@ + r@,
{
    let part = match choose_one(rng, pool) {
        Some(p) => p,
        None => pool[0],
    };
    s.append(part);
    part
}

impl City {
    pub fn new(name: String) -> (r: City)
        ensures
            r.name@ == name@,
            r.neighbours@.len() == 0,
            r.events@.len() == 0,
    {
        City { name, neighbours: Vec::new(), events: Vec::new() }
    }

    /// A random settlement name.
    pub fn name_gen() -> (r: String)
        ensures
            is_city_name(r@),
    {
        let mut rng = rand::thread_rng();
        let hard: Vec<&'static str> = vec!["p", "b", "t", "g"];
        let vowels: Vec<&'static str> = vec!["a", "e", "i", "o", "oo", "ai"];
        let soft: Vec<&'static str> = vec!["sh", "l", "m", "n", "r"];
        let suffixes: Vec<&'static str> = vec!["ford", "ton", "don", "dale", "by"];
        assert(hard@ =~= city_hard_letters());
        assert(vowels@ =~= city_vowels());
        assert(soft@ =~= city_soft_letters());
        assert(suffixes@ =~= city_suffixes());
        let mut name = String::new();
        let a = push_syllable(&mut rng, &mut name, &hard);
        let b = push_syllable(&mut rng, &mut name, &vowels);
        let c = push_syllable(&mut rng, &mut name, &soft);
        let d = push_syllable(&mut rng, &mut name, &suffixes);
        assert(name@ =~= a@ + b@ + c@ + d@);
        name
    }
}

// -- Characters --

/// A character: its name, its pronouns and the events it took part in.
#[derive(Debug)]
pub struct Character {
    pub name: String,
    pub pronouns: Pronouns,
    pub events: Vec<EventID>,
}

/// Nominative, accusative and dependent genitive forms.
#[derive(Debug)]
pub struct Pronouns {
    pub nominative: String,
    pub accusative: String,
    pub dep_genitive: String,
}

pub open spec fn name_hard_letters() -> Seq<&'static str> {
    seq!["p", "b", "t", "ch", "t", "k"]
}

pub open spec fn name_vowels() -> Seq<&'static str> {
    seq!["a", "e", "ae", "io", "ai", "u"]
}

pub open spec fn name_soft_letters() -> Seq<&'static str> {
    seq!["th", "nn", "ni", "sh"]
}

/// A character name: a hard letter, a vowel, a soft letter and a vowel.
pub open spec fn is_character_name(name: Seq<char>) -> bool {
    joined_from(name, name_hard_letters(), name_vowels(), name_soft_letters(), name_vowels())
}

/// The table of pronoun triples.
pub open spec fn pronoun_table() -> Seq<(&'static str, &'static str, &'static str)> {
    seq![("she", "her", "her"), ("him", "him", "his"), ("they", "them", "their")]
}

impl Character {
    fn name_gen() -> (r: String)
        ensures
            is_character_name(r@),
    {
        let mut rng = rand::thread_rng();
        let hard: Vec<&'static str> = vec!["p", "b", "t", "ch", "t", "k"];
        let vowels: Vec<&'static str> = vec!["a", "e", "ae", "io", "ai", "u"];
        let soft: Vec<&'static str> = vec!["th", "nn", "ni", "sh"];
        assert(hard@ =~= name_hard_letters());
        assert(vowels@ =~= name_vowels());
        assert(soft@ =~= name_soft_letters());
        let mut name = String::new();
        let a = push_syllable(&mut rng, &mut name, &hard);
        let b = push_syllable(&mut rng, &mut name, &vowels);
        let c = push_syllable(&mut rng, &mut name, &soft);
        let d = push_syllable(&mut rng, &mut name, &vowels);
        assert(name@ =~= a@ + b@ + c@ + d@);
        name
    }

    fn pronoun_gen() -> (r: Pronouns)
        ensures
            exists|t: (&'static str, &'static str, &'static str)|
                pronoun_table().contains(t) && r.nominative@ == t.0@ && r.accusative@ == t.1@
                    && r.dep_genitive@ == t.2@,
    {
        let mut rng = rand::thread_rng();
        let table: Vec<(&'static str, &'static str, &'static str)> = vec![
            ("she", "her", "her"),
            ("him", "him", "his"),
            ("they", "them", "their"),
        ];
        assert(table@ =~= pronoun_table());
        let t = match choose_one(&mut rng, &table) {
            Some(t) => t,
            None => table[0],
        };
        Pronouns {
            nominative: t.0.to_owned(),
            accusative: t.1.to_owned(),
            dep_genitive: t.2.to_owned(),
        }
    }

    /// A new character with a random name and pronoun triple and no events.
    pub fn new() -> (r: Character)
        ensures
            is_character_name(r.name@),
            exists|t: (&'static str, &'static str, &'static str)|
                pronoun_table().contains(t) && r.pronouns.nominative@ == t.0@
                    && r.pronouns.accusative@ == t.1@ && r.pronouns.dep_genitive@ == t.2@,
            r.events@.len() == 0,
    {
        Character { name: Self::name_gen(), pronouns: Self::pronoun_gen(), events: Vec::new() }
    }
}

// -- Events --

/// The kinds of event. `EventIdle` is never recorded.
#[derive(PartialEq, Eq, Structural, Clone, Copy, Debug)]
pub enum EventType {
    EventMove,
    EventDeath,
    EventEncounter,
    EventCreation(ItemID),
    EventIdle,
    EventBirth,
}

/// An event: its participants (the acting one first), when it started and
/// ended, its kind, the events known to overlap it and a summary.
#[derive(Debug)]
pub struct Event {
    pub characters: Vec<CharacterID>,
    pub start_time: usize,
    pub end_time: Option<usize>,
    pub event_type: EventType,
    pub events_happening_during: Vec<EventID>,
    pub summary: String,
}

/// `x` lies strictly inside the span that starts at `start` and ends at
/// `end`, or runs on without end.
pub open spec fn strictly_within(x: usize, start: usize, end: Option<usize>) -> bool {
    start < x && match end {
        Some(e) => x < e,
        None => true,
    }
}

/// Two spans overlap when either start lies strictly within the other span,
/// or both spans are unbounded and start together.
pub open spec fn spans_overlap(start1: usize, start2: usize, end1: Option<usize>, end2: Option<usize>) -> bool {
    strictly_within(start2, start1, end1) || strictly_within(start1, start2, end2) || (
    end1.is_none() && end2.is_none() && start1 == start2)
}

fn starts_within(x: usize, start: usize, end: Option<usize>) -> (r: bool)
    ensures
        r == strictly_within(x, start, end),
{
    start < x && match end {
        Some(e) => x < e,
        None => true,
    }
}

/// Whether two event spans overlap; a missing end means the span is unbounded.
pub fn durations_overlap(start1: usize, start2: usize, end1: Option<usize>, end2: Option<usize>) -> (r: bool)
    ensures
        r == spans_overlap(start1, start2, end1, end2),
{
    if end1.is_none() && end2.is_none() && start1 == start2 {
        return true;
    }
    starts_within(start2, start1, end1) || starts_within(start1, start2, end2)
}

impl Event {
    pub fn new(
        characters: Vec<CharacterID>,
        start_time: usize,
        end_time: Option<usize>,
        event_type: EventType,
        summary: String,
    ) -> (r: Event)
        ensures
            r.characters@ == characters@,
            r.start_time == start_time,
            r.end_time == end_time,
            r.event_type == event_type,
            r.events_happening_during@.len() == 0,
            r.summary@ == summary@,
    {
        Event {
            characters,
            start_time,
            end_time,
            event_type,
            events_happening_during: Vec::new(),
            summary,
        }
    }

    /// Lists `event_id` among the events overlapping this one when their
    /// spans overlap. The event must be in `world`'s ledger.
    pub fn add_event_during(&mut self, world: World, event_id: EventID)
        requires
            event_id.0 < world.events@.len(),
        ensures
            final(self).events_happening_during@ == if spans_overlap(
                old(self).start_time,
                world.events@[event_id.0 as int].start_time,
                old(self).end_time,
                world.events@[event_id.0 as int].end_time,
            ) {
                old(self).events_happening_during@.push(event_id)
            } else {
                old(self).events_happening_during@
            },
            final(self).characters@ == old(self).characters@,
            final(self).start_time == old(self).start_time,
            final(self).end_time == old(self).end_time,
            final(self).event_type == old(self).event_type,
            final(self).summary@ == old(self).summary@,
    {
        let event = &world.events[event_id.0];
        let valid = durations_overlap(self.start_time, event.start_time, self.end_time, event.end_time);
        if valid {
            self.events_happening_during.push(event_id);
        }
    }
}


// -- The world --

/// Number of settlement layers, from the start (0) to the end.
pub const NUM_LAYERS: usize = 5;

/// The world: settlements, characters, the event ledger (indexed by event
/// id, with the settlement each event took place in) and the items.
pub struct World {
    pub cities: Vec<City>,
    pub characters: Vec<Character>,
    pub events: Vec<Event>,
    pub items: Vec<Item>,
    pub city_id_counter: usize,
    pub event_id_counter: usize,
    pub character_id_counter: usize,
    pub item_id_counter: usize,
    pub layers: Vec<Vec<CityID>>,
    pub event_places: Vec<CityID>,
}

/// The decimal digits of a number, most significant first.
pub open spec fn decimal_text(n: nat) -> Seq<char>
    decreases n,
{
    let digit = seq!['0', '1', '2', '3', '4', '5', '6', '7', '8', '9'][(n % 10) as int];
    if n < 10 {
        seq![digit]
    } else {
        decimal_text(n / 10).push(digit)
    }
}

/// The digit `d` as text.
fn digit_text(d: usize) -> (r: &'static str)
    requires
        d < 10,
    ensures
        r@ == seq![seq!['0', '1', '2', '3', '4', '5', '6', '7', '8', '9'][d as int]],
{
    proof {
        reveal_strlit("0");
        reveal_strlit("1");
        reveal_strlit("2");
        reveal_strlit("3");
        reveal_strlit("4");
        reveal_strlit("5");
        reveal_strlit("6");
        reveal_strlit("7");
        reveal_strlit("8");
        reveal_strlit("9");
    }
    let r = if d == 0 {
        "0"
    } else if d == 1 {
        "1"
    } else if d == 2 {
        "2"
    } else if d == 3 {
        "3"
    } else if d == 4 {
        "4"
    } else if d == 5 {
        "5"
    } else if d == 6 {
        "6"
    } else if d == 7 {
        "7"
    } else if d == 8 {
        "8"
    } else {
        "9"
    };
    assert(r@ =~= seq![seq!['0', '1', '2', '3', '4', '5', '6', '7', '8', '9'][d as int]]);
    r
}

/// Appends the decimal digits of `n` to `s`.
fn append_number(s: &mut String, n: usize)
    ensures
        final(s)@ == old(s)@ + decimal_text(n as nat),
    decreases n,
{
    let ghost start = s@;
    if n >= 10 {
        append_number(s, n / 10);
    }
    s.append(digit_text(n % 10));
    assert(s@ =~= start + decimal_text(n as nat));
}

/// Text of the form `<a><x><b><y>`.
pub(crate) fn summary_of(a: &str, x: usize, b: &str, y: usize) -> (r: String)
    ensures
        r@ == a@ + decimal_text(x as nat) + b@ + decimal_text(y as nat),
{
    let mut s = String::new();
    s.append(a);
    append_number(&mut s, x);
    s.append(b);
    append_number(&mut s, y);
    assert(s@ =~= a@ + decimal_text(x as nat) + b@ + decimal_text(y as nat));
    s
}

/// Text of the form `<a><x><b><y><c><z>`.
pub(crate) fn long_summary_of(a: &str, x: usize, b: &str, y: usize, c: &str, z: usize) -> (r: String)
    ensures
        r@ == a@ + decimal_text(x as nat) + b@ + decimal_text(y as nat) + c@ + decimal_text(z as nat),
{
    let mut s = summary_of(a, x, b, y);
    s.append(c);
    append_number(&mut s, z);
    assert(s@ =~= a@ + decimal_text(x as nat) + b@ + decimal_text(y as nat) + c@ + decimal_text(z as nat));
    s
}

proof fn lemma_push_contains<A>(s: Seq<A>, x: A, y: A)
    ensures
        s.push(x).contains(y) == (s.contains(y) || x == y),
{
    if s.push(x).contains(y) {
        let j = choose|j: int| 0 <= j < s.len() + 1 && s.push(x)[j] == y;
        if j < s.len() {
            assert(s[j] == y);
        }
    }
    if s.contains(y) {
        lemma_push_keeps(s, x, y);
    }
    if x == y {
        assert(s.push(x)[s.len() as int] == y);
    }
}

proof fn lemma_push_keeps<A>(s: Seq<A>, x: A, y: A)
    requires
        s.contains(y),
    ensures
        s.push(x).contains(y),
{
    let j = choose|j: int| 0 <= j < s.len() && s[j] == y;
    assert(s.push(x)[j] == y);
}

/// How many characters take part in an event of kind `t`: two in an
/// encounter, one in any other.
pub open spec fn participant_count(t: EventType) -> nat {
    if t == EventType::EventEncounter {
        2
    } else {
        1
    }
}

/// Who held an item just before event `ev` recorded a change to it: the
/// character met in an encounter, else the acting character.
pub open spec fn previous_holder(ev: Event) -> CharacterID {
    if ev.event_type == EventType::EventEncounter {
        ev.characters@[1]
    } else {
        ev.characters@[0]
    }
}

/// Who held an item just before event `e`: the owner named by the last
/// record of its chain caused by an earlier event.
pub open spec fn holder_before(recs: Seq<crate::item::ItemMoveRecord>, e: int) -> Option<CharacterID>
    decreases recs.len(),
{
    if recs.len() == 0 {
        None
    } else if ((recs.last().event->0).0 as int) < e {
        recs.last().new_owner
    } else {
        holder_before(recs.drop_last(), e)
    }
}

/// Events in which a character acts on the world (as opposed to being met).
pub open spec fn is_action(t: EventType) -> bool {
    t == EventType::EventMove || t == EventType::EventDeath || t == EventType::EventEncounter
}

impl World {
    /// Event `e` is recorded at a known settlement with known participants,
    /// and both its settlement and each participant list it.
    pub open spec fn event_ok(self, e: int) -> bool {
        let ev = self.events@[e];
        let place = self.event_places@[e];
        &&& place.0 < self.cities@.len()
        &&& self.cities@[place.0 as int].events@.contains(EventID(e as usize))
        &&& ev.characters@.len() == participant_count(ev.event_type)
        &&& ev.characters@.no_duplicates()
        &&& ev.event_type != EventType::EventIdle
        &&& ev.event_type != EventType::EventBirth
        &&& forall|k: int|
            0 <= k < ev.characters@.len() ==> {
                &&& (#[trigger] ev.characters@[k]).0 < self.characters@.len()
                &&& self.characters@[ev.characters@[k].0 as int].events@.contains(EventID(e as usize))
            }
    }

    /// Each event that character `c` lists exists and has `c` among its
    /// participants; the list is in increasing id order.
    pub open spec fn character_ok(self, c: int) -> bool {
        let evs = self.characters@[c].events@;
        &&& forall|j: int|
            0 <= j < evs.len() ==> {
                &&& (#[trigger] evs[j]).0 < self.events@.len()
                &&& self.events@[evs[j].0 as int].characters@.contains(CharacterID(c as usize))
            }
        &&& forall|i: int, j: int| 0 <= i < j < evs.len() ==> (#[trigger] evs[i]).0 < (#[trigger] evs[j]).0
    }

    /// Each neighbour of settlement `c` exists, and each event it lists
    /// exists and took place there; the list is in increasing id order.
    pub open spec fn city_ok(self, c: int) -> bool {
        let city = self.cities@[c];
        &&& forall|j: int| 0 <= j < city.neighbours@.len() ==> (#[trigger] city.neighbours@[j]).0 < self.cities@.len()
        &&& forall|j: int|
            0 <= j < city.events@.len() ==> {
                &&& (#[trigger] city.events@[j]).0 < self.events@.len()
                &&& self.event_places@[city.events@[j].0 as int] == CityID(c as usize)
            }
        &&& forall|i: int, j: int|
            0 <= i < j < city.events@.len() ==> (#[trigger] city.events@[i]).0 < (#[trigger] city.events@[j]).0
    }

    /// Record `k` of item `i` agrees with the event it names: same time, the
    /// owner is the acting participant and the location is where it happened.
    /// The first record is the item's creation; later ones a move, a death or
    /// an encounter, caused by an event later than the one before, and
    /// custody passes on: a move or a death is recorded for the item's holder,
    /// an encounter takes it from the character met.
    pub open spec fn record_ok(self, i: int, k: int) -> bool {
        let r = self.items@[i].owner_records@[k];
        let e = (r.event->0).0 as int;
        &&& 0 <= e < self.events@.len()
        &&& self.events@[e].start_time == r.time
        &&& (r.new_owner->0).0 < self.characters@.len()
        &&& self.events@[e].characters@[0] == r.new_owner->0
        &&& self.event_places@[e] == r.new_location->0
        &&& k == 0 ==> self.events@[e].event_type == EventType::EventCreation(ItemID(i as usize))
        &&& k > 0 ==> is_action(self.events@[e].event_type)
        &&& k > 0 ==> {
            let prev = self.items@[i].owner_records@[k - 1];
            &&& (prev.event->0).0 < e
            &&& prev.new_owner == Some(previous_holder(self.events@[e]))
        }
    }

    pub open spec fn item_ok(self, i: int) -> bool {
        &&& chain_wf(self.items@[i].owner_records@)
        &&& forall|k: int| 0 <= k < self.items@[i].owner_records@.len() ==> #[trigger] self.record_ok(i, k)
    }

    /// The ledger and its indexes agree, and the items' chains agree with
    /// the ledger.
    pub open spec fn wf(self) -> bool {
        &&& self.cities@.len() == self.city_id_counter
        &&& self.characters@.len() == self.character_id_counter
        &&& self.events@.len() == self.event_id_counter
        &&& self.items@.len() == self.item_id_counter
        &&& self.event_places@.len() == self.events@.len()
        &&& forall|e: int| 0 <= e < self.events@.len() ==> #[trigger] self.event_ok(e)
        &&& forall|c: int| 0 <= c < self.characters@.len() ==> #[trigger] self.character_ok(c)
        &&& forall|c: int| 0 <= c < self.cities@.len() ==> #[trigger] self.city_ok(c)
        &&& forall|i: int| 0 <= i < self.items@.len() ==> #[trigger] self.item_ok(i)
        &&& forall|e1: int, e2: int|
            0 <= e1 <= e2 < self.events@.len() ==> (#[trigger] self.events@[e1]).start_time
                <= (#[trigger] self.events@[e2]).start_time
    }

    /// Once a character's death is recorded, no later event has that
    /// character acting (moving, dying or meeting someone).
    pub open spec fn no_action_after_death(self) -> bool {
        forall|e1: int, e2: int|
            0 <= e1 < e2 < self.events@.len() && (#[trigger] self.events@[e1]).event_type == EventType::EventDeath
                && (#[trigger] self.events@[e2]).characters@[0] == self.events@[e1].characters@[0] ==> !is_action(
                self.events@[e2].event_type,
            )
    }

    /// Where character `c` is after the first `n` events, starting from
    /// `start`: the settlement of its latest Move among them.
    pub open spec fn position_after(self, c: CharacterID, n: int, start: CityID) -> CityID
        decreases n,
    {
        if n <= 0 {
            start
        } else if self.events@[n - 1].event_type == EventType::EventMove && self.events@[n - 1].characters@[0] == c {
            self.event_places@[n - 1]
        } else {
            self.position_after(c, n - 1, start)
        }
    }

    /// Every Move leads along an outbound edge of the settlement where its
    /// character was, everybody having started at `start`.
    pub open spec fn moves_follow_edges(self, start: CityID) -> bool {
        forall|e: int|
            0 <= e < self.events@.len() && (#[trigger] self.events@[e]).event_type == EventType::EventMove
                ==> self.cities@[self.position_after(self.events@[e].characters@[0], e, start).0 as int].neighbours@.contains(
                self.event_places@[e],
            )
    }

    /// Positions depend only on the events they look at.
    pub proof fn lemma_position_prefix(self, other: World, c: CharacterID, n: int, start: CityID)
        requires
            0 <= n <= self.events@.len(),
            n <= other.events@.len(),
            forall|e: int| 0 <= e < n ==> #[trigger] other.events@[e] == self.events@[e],
            forall|e: int| 0 <= e < n ==> #[trigger] other.event_places@[e] == self.event_places@[e],
        ensures
            other.position_after(c, n, start) == self.position_after(c, n, start),
        decreases n,
    {
        if n > 0 {
            assert(other.events@[n - 1] == self.events@[n - 1]);
            assert(other.event_places@[n - 1] == self.event_places@[n - 1]);
            self.lemma_position_prefix(other, c, n - 1, start);
        }
    }

    /// A position is a known settlement when the start is.
    pub proof fn lemma_position_valid(self, c: CharacterID, n: int, start: CityID)
        requires
            self.wf(),
            0 <= n <= self.events@.len(),
            start.0 < self.cities@.len(),
        ensures
            self.position_after(c, n, start).0 < self.cities@.len(),
        decreases n,
    {
        if n > 0 {
            assert(self.event_ok(n - 1));
            self.lemma_position_valid(c, n - 1, start);
        }
    }

    /// An encounter passes at most one item, and it passes one whenever the
    /// character met held an item just before it.
    pub open spec fn passes_ok(self) -> bool {
        &&& forall|i1: int, k1: int, i2: int, k2: int|
            0 <= i1 < self.items@.len() && 0 <= i2 < self.items@.len() && 0 <= k1
                < self.items@[i1].owner_records@.len() && 0 <= k2 < self.items@[i2].owner_records@.len()
                && (#[trigger] self.items@[i1].owner_records@[k1]).event == (#[trigger] self.items@[i2].owner_records@[k2]).event
                && self.events@[(self.items@[i1].owner_records@[k1].event->0).0 as int].event_type
                == EventType::EventEncounter ==> i1 == i2
        &&& forall|e: int|
            0 <= e < self.events@.len() && (#[trigger] self.events@[e]).event_type == EventType::EventEncounter && (exists|
                i: int,
            |
                0 <= i < self.items@.len() && #[trigger] holder_before(self.items@[i].owner_records@, e) == Some(
                    self.events@[e].characters@[1],
                )) ==> exists|i: int, k: int|
                0 <= i < self.items@.len() && 0 <= k < self.items@[i].owner_records@.len() && (#[trigger] self.items@[i].owner_records@[k]).event
                    == Some(EventID(e as usize))
    }

    /// No recorded event has an end time: events are instantaneous.
    pub open spec fn instantaneous(self) -> bool {
        forall|e: int| 0 <= e < self.events@.len() ==> (#[trigger] self.events@[e]).end_time.is_none()
    }

    /// Every item was created at `start`.
    pub open spec fn created_at(self, start: CityID) -> bool {
        forall|i: int| 0 <= i < self.items@.len() ==> (#[trigger] self.items@[i]).owner_records@[0].new_location == Some(start)
    }

    /// Every settlement and every character carries a generated name.
    pub open spec fn names_ok(self) -> bool {
        &&& forall|c: int| 0 <= c < self.cities@.len() ==> is_city_name((#[trigger] self.cities@[c]).name@)
        &&& forall|c: int| 0 <= c < self.characters@.len() ==> is_character_name((#[trigger] self.characters@[c]).name@)
    }

    /// The time of the latest event, or 0 for an empty ledger.
    pub open spec fn latest_time(self) -> usize {
        if self.events@.len() == 0 {
            0
        } else {
            self.events@.last().start_time
        }
    }

    /// `self` is `old` with one more event, `id`, appended to the ledger and
    /// to the lists of its settlement and of each of its participants;
    /// nothing else changed.
    pub open spec fn appended_event(
        self,
        old: World,
        id: EventID,
        parts: Seq<CharacterID>,
        start_time: usize,
        event_type: EventType,
        place: CityID,
    ) -> bool {
        &&& self.ledger_appended(old, id, parts, start_time, event_type, place)
        &&& self.items@ == old.items@
        &&& self.item_id_counter == old.item_id_counter
    }

    /// The part of `appended_event` that speaks of settlements, characters
    /// and the ledger.
    pub open spec fn ledger_appended(
        self,
        old: World,
        id: EventID,
        parts: Seq<CharacterID>,
        start_time: usize,
        event_type: EventType,
        place: CityID,
    ) -> bool {
        &&& id.0 == old.events@.len()
        &&& self.events@.len() == old.events@.len() + 1
        &&& forall|e: int| 0 <= e < old.events@.len() ==> #[trigger] self.events@[e] == old.events@[e]
        &&& self.events@[id.0 as int].characters@ == parts
        &&& self.events@[id.0 as int].start_time == start_time
        &&& self.events@[id.0 as int].event_type == event_type
        &&& self.event_places@ == old.event_places@.push(place)
        &&& self.layers@ == old.layers@
        &&& self.city_id_counter == old.city_id_counter
        &&& self.character_id_counter == old.character_id_counter
        &&& self.cities@.len() == old.cities@.len()
        &&& forall|c: int|
            0 <= c < self.cities@.len() ==> {
                &&& (#[trigger] self.cities@[c]).neighbours@ == old.cities@[c].neighbours@
                &&& self.cities@[c].name@ == old.cities@[c].name@
                &&& self.cities@[c].events@ == if place.0 == c {
                    old.cities@[c].events@.push(id)
                } else {
                    old.cities@[c].events@
                }
            }
        &&& self.characters@.len() == old.characters@.len()
        &&& forall|c: int|
            0 <= c < self.characters@.len() ==> {
                &&& (#[trigger] self.characters@[c]).name@ == old.characters@[c].name@
                &&& self.characters@[c].events@ == if parts.contains(CharacterID(c as usize)) {
                    old.characters@[c].events@.push(id)
                } else {
                    old.characters@[c].events@
                }
            }
    }

    /// A new settlement with a random name and no edges; its id is the next
    /// unused one.
    pub fn add_city(&mut self, layer: usize) -> (r: CityID)
        requires
            old(self).wf(),
            old(self).cities@.len() < usize::MAX,
        ensures
            final(self).wf(),
            r.0 == old(self).cities@.len(),
            final(self).cities@.len() == old(self).cities@.len() + 1,
            final(self).cities@[r.0 as int].neighbours@.len() == 0,
            is_city_name(final(self).cities@[r.0 as int].name@),
            forall|c: int| 0 <= c < old(self).cities@.len() ==> #[trigger] final(self).cities@[c] == old(self).cities@[c],
            final(self).layers@ == old(self).layers@,
            final(self).events@ == old(self).events@,
            final(self).characters@ == old(self).characters@,
            final(self).items@ == old(self).items@,
            final(self).event_places@ == old(self).event_places@,
    {
        let id = self.city_id_counter;
        self.city_id_counter += 1;
        let name = City::name_gen();
        let city = City::new(name);
        self.cities.push(city);
        proof {
            assert forall|c: int| 0 <= c < self.cities@.len() implies #[trigger] self.city_ok(c) by {
                if c < old(self).cities@.len() {
                    assert(old(self).city_ok(c));
                }
            }
            assert forall|i: int| 0 <= i < self.items@.len() implies #[trigger] self.item_ok(i) by {
                assert(old(self).item_ok(i));
                assert forall|k: int| 0 <= k < self.items@[i].owner_records@.len() implies #[trigger] self.record_ok(i, k) by {
                    assert(old(self).record_ok(i, k));
                }
            }
            assert forall|e: int| 0 <= e < self.events@.len() implies #[trigger] self.event_ok(e) by {
                assert(old(self).event_ok(e));
            }
            assert forall|c: int| 0 <= c < self.characters@.len() implies #[trigger] self.character_ok(c) by {
                assert(old(self).character_ok(c));
            }
        }
        CityID(id)
    }

    /// Adds a directed edge from `id1` to `id2`.
    pub fn connect_cities(&mut self, id1: &CityID, id2: &CityID)
        requires
            old(self).wf(),
            id1.0 < old(self).cities@.len(),
            id2.0 < old(self).cities@.len(),
        ensures
            final(self).wf(),
            final(self).cities@.len() == old(self).cities@.len(),
            final(self).cities@[id1.0 as int].neighbours@ == old(self).cities@[id1.0 as int].neighbours@.push(*id2),
            forall|c: int|
                0 <= c < old(self).cities@.len() && c != id1.0 ==> #[trigger] final(self).cities@[c] == old(self).cities@[c],
            final(self).cities@[id1.0 as int].events@ == old(self).cities@[id1.0 as int].events@,
            final(self).cities@[id1.0 as int].name@ == old(self).cities@[id1.0 as int].name@,
            final(self).layers@ == old(self).layers@,
            final(self).events@ == old(self).events@,
            final(self).characters@ == old(self).characters@,
            final(self).items@ == old(self).items@,
            final(self).event_places@ == old(self).event_places@,
    {
        self.cities[id1.0].neighbours.push(*id2);
        proof {
            assert forall|c: int| 0 <= c < self.cities@.len() implies #[trigger] self.city_ok(c) by {
                assert(old(self).city_ok(c));
            }
            assert forall|i: int| 0 <= i < self.items@.len() implies #[trigger] self.item_ok(i) by {
                assert(old(self).item_ok(i));
                assert forall|k: int| 0 <= k < self.items@[i].owner_records@.len() implies #[trigger] self.record_ok(i, k) by {
                    assert(old(self).record_ok(i, k));
                }
            }
            assert forall|e: int| 0 <= e < self.events@.len() implies #[trigger] self.event_ok(e) by {
                assert(old(self).event_ok(e));
            }
            assert forall|c: int| 0 <= c < self.characters@.len() implies #[trigger] self.character_ok(c) by {
                assert(old(self).character_ok(c));
            }
        }
    }

    /// A new character with the next unused id.
    pub fn add_character(&mut self) -> (r: CharacterID)
        requires
            old(self).wf(),
            old(self).characters@.len() < usize::MAX,
        ensures
            final(self).wf(),
            r.0 == old(self).characters@.len(),
            final(self).characters@.len() == old(self).characters@.len() + 1,
            final(self).characters@[r.0 as int].events@.len() == 0,
            is_character_name(final(self).characters@[r.0 as int].name@),
            forall|c: int|
                0 <= c < old(self).characters@.len() ==> #[trigger] final(self).characters@[c] == old(self).characters@[c],
            final(self).cities@ == old(self).cities@,
            final(self).layers@ == old(self).layers@,
            final(self).events@ == old(self).events@,
            final(self).items@ == old(self).items@,
            final(self).event_places@ == old(self).event_places@,
    {
        let id = self.character_id_counter;
        self.character_id_counter += 1;
        let ch = Character::new();
        self.characters.push(ch);
        proof {
            assert forall|c: int| 0 <= c < self.cities@.len() implies #[trigger] self.city_ok(c) by {
                assert(old(self).city_ok(c));
            }
            assert forall|i: int| 0 <= i < self.items@.len() implies #[trigger] self.item_ok(i) by {
                assert(old(self).item_ok(i));
                assert forall|k: int| 0 <= k < self.items@[i].owner_records@.len() implies #[trigger] self.record_ok(i, k) by {
                    assert(old(self).record_ok(i, k));
                }
            }
            assert forall|e: int| 0 <= e < self.events@.len() implies #[trigger] self.event_ok(e) by {
                assert(old(self).event_ok(e));
                let ev = self.events@[e];
                assert forall|k: int| 0 <= k < ev.characters@.len() implies
                    self.characters@[ev.characters@[k].0 as int].events@.contains(EventID(e as usize)) by {
                    assert(old(self).characters@[ev.characters@[k].0 as int] == self.characters@[ev.characters@[k].0 as int]);
                }
            }
            assert forall|c: int| 0 <= c < self.characters@.len() implies #[trigger] self.character_ok(c) by {
                if c < old(self).characters@.len() {
                    assert(old(self).character_ok(c));
                }
            }
        }
        CharacterID(id)
    }

    /// Records an event: it gets the next unused id and is listed by its
    /// settlement and by each of its participants.
    pub fn add_event(
        &mut self,
        characters: Vec<CharacterID>,
        start_time: usize,
        end_time: Option<usize>,
        event_type: EventType,
        event_place: CityID,
        summary: String,
    ) -> (r: EventID)
        requires
            old(self).wf(),
            old(self).events@.len() < usize::MAX,
            characters@.len() == participant_count(event_type),
            characters@.no_duplicates(),
            forall|k: int| 0 <= k < characters@.len() ==> (#[trigger] characters@[k]).0 < old(self).characters@.len(),
            event_place.0 < old(self).cities@.len(),
            event_type != EventType::EventIdle,
            event_type != EventType::EventBirth,
            old(self).latest_time() <= start_time,
        ensures
            final(self).wf(),
            final(self).appended_event(*old(self), r, characters@, start_time, event_type, event_place),
            final(self).events@[r.0 as int].end_time == end_time,
            final(self).events@[r.0 as int].summary@ == summary@,
            final(self).events@[r.0 as int].events_happening_during@.len() == 0,
            final(self).latest_time() == start_time,
    {
        let event_id = EventID(self.event_id_counter);
        self.event_id_counter += 1;
        let event = Event::new(characters, start_time, end_time, event_type, summary);
        let ghost parts = event.characters@;
        let ghost old_chars = self.characters@;
        let mut k: usize = 0;
        while k < event.characters.len()
            invariant
                k <= parts.len(),
                event.characters@ == parts,
                parts.no_duplicates(),
                forall|j: int| 0 <= j < parts.len() ==> (#[trigger] parts[j]).0 < old_chars.len(),
                self.characters@.len() == old_chars.len(),
                old_chars == old(self).characters@,
                old_chars.len() <= usize::MAX,
                self.cities@ == old(self).cities@,
                self.events@ == old(self).events@,
                self.event_places@ == old(self).event_places@,
                self.items@ == old(self).items@,
                self.layers@ == old(self).layers@,
                self.city_id_counter == old(self).city_id_counter,
                self.character_id_counter == old(self).character_id_counter,
                self.item_id_counter == old(self).item_id_counter,
                self.event_id_counter == old(self).event_id_counter + 1,
                event_id.0 == old(self).events@.len(),
                forall|c: int|
                    0 <= c < old_chars.len() ==> {
                        &&& (#[trigger] self.characters@[c]).name@ == old_chars[c].name@
                        &&& self.characters@[c].pronouns == old_chars[c].pronouns
                        &&& self.characters@[c].events@ == if parts.take(k as int).contains(CharacterID(c as usize)) {
                            old_chars[c].events@.push(event_id)
                        } else {
                            old_chars[c].events@
                        }
                    },
            decreases parts.len() - k,
        {
            let cid = event.characters[k].0;
            proof {
                assert forall|c: int| 0 <= c < old_chars.len() implies
                    parts.take(k as int + 1).contains(CharacterID(c as usize)) == (#[trigger] parts.take(k as int).contains(CharacterID(c as usize))
                        || c == cid) by {
                    assert(parts.take(k as int + 1) =~= parts.take(k as int).push(parts[k as int]));
                    lemma_push_contains(parts.take(k as int), parts[k as int], CharacterID(c as usize));
                }
                assert(!parts.take(k as int).contains(CharacterID(cid))) by {
                    if parts.take(k as int).contains(CharacterID(cid)) {
                        let j = choose|j: int| 0 <= j < k && parts.take(k as int)[j] == CharacterID(cid);
                        assert(parts[j] == parts[k as int]);
                    }
                }
            }
            self.characters[cid].events.push(event_id);
            k += 1;
        }
        assert(parts.take(parts.len() as int) == parts);
        self.cities[event_place.0].events.push(event_id);
        self.events.push(event);
        self.event_places.push(event_place);
        proof {
            let o = *old(self);
            assert forall|c: int| 0 <= c < self.cities@.len() implies #[trigger] self.city_ok(c) by {
                assert(o.city_ok(c));
                let evs = self.cities@[c].events@;
                assert forall|j: int| 0 <= j < evs.len() implies {
                    &&& (#[trigger] evs[j]).0 < self.events@.len()
                    &&& self.event_places@[evs[j].0 as int] == CityID(c as usize)
                } by {
                    if j < o.cities@[c].events@.len() {
                        assert(evs[j] == o.cities@[c].events@[j]);
                    }
                }
            }
            assert forall|i: int| 0 <= i < self.items@.len() implies #[trigger] self.item_ok(i) by {
                assert(o.item_ok(i));
                assert forall|k: int| 0 <= k < self.items@[i].owner_records@.len() implies #[trigger] self.record_ok(i, k) by {
                    assert(o.record_ok(i, k));
                }
            }
            assert forall|e: int| 0 <= e < self.events@.len() implies #[trigger] self.event_ok(e) by {
                if e < o.events@.len() {
                    assert(o.event_ok(e));
                    let ev = self.events@[e];
                    assert(ev == o.events@[e]);
                    let place = self.event_places@[e];
                    assert(o.cities@[place.0 as int].events@.contains(EventID(e as usize)));
                    lemma_push_keeps(o.cities@[place.0 as int].events@, event_id, EventID(e as usize));
                    assert forall|m: int| 0 <= m < ev.characters@.len() implies
                        self.characters@[(#[trigger] ev.characters@[m]).0 as int].events@.contains(EventID(e as usize)) by {
                        let c = ev.characters@[m].0 as int;
                        assert(o.characters@[c].events@.contains(EventID(e as usize)));
                        lemma_push_keeps(o.characters@[c].events@, event_id, EventID(e as usize));
                    }
                } else {
                    let ev = self.events@[e];
                    assert(ev.characters@ == parts);
                    assert(self.cities@[event_place.0 as int].events@.last() == event_id);
                    assert forall|m: int| 0 <= m < ev.characters@.len() implies
                        self.characters@[(#[trigger] ev.characters@[m]).0 as int].events@.contains(EventID(e as usize)) by {
                        let c = ev.characters@[m].0 as int;
                        assert(parts.contains(CharacterID(c as usize)));
                        assert(self.characters@[c].events@.last() == event_id);
                    }
                }
            }
            assert forall|c: int| 0 <= c < self.characters@.len() implies #[trigger] self.character_ok(c) by {
                assert(o.character_ok(c));
                let evs = self.characters@[c].events@;
                let oevs = o.characters@[c].events@;
                assert forall|j: int| 0 <= j < evs.len() implies {
                    &&& (#[trigger] evs[j]).0 < self.events@.len()
                    &&& self.events@[evs[j].0 as int].characters@.contains(CharacterID(c as usize))
                } by {
                    if j < oevs.len() {
                        assert(evs[j] == oevs[j]);
                    }
                }
                assert forall|i: int, j: int| 0 <= i < j < evs.len() implies (#[trigger] evs[i]).0 < (#[trigger] evs[j]).0 by {
                    if j < oevs.len() {
                        assert(evs[i] == oevs[i] && evs[j] == oevs[j]);
                    } else {
                        assert(evs[i] == oevs[i]);
                    }
                }
            }
            assert forall|e1: int, e2: int| 0 <= e1 <= e2 < self.events@.len() implies
                (#[trigger] self.events@[e1]).start_time <= (#[trigger] self.events@[e2]).start_time by {
                if e2 < o.events@.len() {
                    assert(self.events@[e1] == o.events@[e1]);
                    assert(self.events@[e2] == o.events@[e2]);
                } else if e1 < o.events@.len() {
                    assert(self.events@[e1] == o.events@[e1]);
                    assert(o.events@[e1].start_time <= o.events@.last().start_time);
                }
            }
        }
        event_id
    }

    /// Creates an item: its creation event is recorded first, then the item
    /// with its creation record, under the next unused item id.
    pub fn add_item(
        &mut self,
        item_type: ItemType,
        time: usize,
        initial_owner: CharacterID,
        initial_location: CityID,
    ) -> (r: ItemID)
        requires
            old(self).wf(),
            old(self).events@.len() < usize::MAX,
            old(self).items@.len() < usize::MAX,
            initial_owner.0 < old(self).characters@.len(),
            initial_location.0 < old(self).cities@.len(),
            time == 0,
            old(self).latest_time() == 0,
        ensures
            final(self).wf(),
            r.0 == old(self).items@.len(),
            final(self).items@.len() == old(self).items@.len() + 1,
            forall|i: int| 0 <= i < old(self).items@.len() ==> #[trigger] final(self).items@[i] == old(self).items@[i],
            final(self).items@[r.0 as int].item_type == item_type,
            final(self).items@[r.0 as int].owner_records@ == seq![crate::item::ItemMoveRecord {
                time: 0,
                new_owner: Some(initial_owner),
                new_location: Some(initial_location),
                event: Some(EventID(old(self).events@.len() as usize)),
            }],
            final(self).latest_time() == 0,
            final(self).events@[old(self).events@.len() as int].end_time.is_none(),
            final(self).ledger_appended(*old(self), EventID(old(self).events@.len() as usize), seq![initial_owner],
                time, EventType::EventCreation(r), initial_location),
    {
        let item_id = ItemID(self.item_id_counter);
        let summary = long_summary_of("Character #", initial_owner.0, " created Item #", item_id.0, " in City #",
            initial_location.0);
        let owners = vec![initial_owner];
        assert(owners@ =~= seq![initial_owner]);
        let creation_event = self.add_event(
            owners,
            time,
            None,
            EventType::EventCreation(item_id),
            initial_location,
            summary,
        );
        let ghost mid = *self;
        let item = Item::new(item_type, time, initial_owner, initial_location, creation_event);
        self.item_id_counter += 1;
        self.items.push(item);
        proof {
            assert forall|c: int| 0 <= c < self.cities@.len() implies #[trigger] self.city_ok(c) by {
                assert(mid.city_ok(c));
            }
            assert forall|e: int| 0 <= e < self.events@.len() implies #[trigger] self.event_ok(e) by {
                assert(mid.event_ok(e));
                let ev = self.events@[e];
                assert forall|k: int| 0 <= k < ev.characters@.len() implies
                    self.characters@[ev.characters@[k].0 as int].events@.contains(EventID(e as usize)) by {
                    assert(mid.characters@[ev.characters@[k].0 as int] == self.characters@[ev.characters@[k].0 as int]);
                }
            }
            assert forall|c: int| 0 <= c < self.characters@.len() implies #[trigger] self.character_ok(c) by {
                assert(mid.character_ok(c));
            }
            assert forall|i: int| 0 <= i < self.items@.len() implies #[trigger] self.item_ok(i) by {
                if i < mid.items@.len() {
                    assert(mid.item_ok(i));
                    assert forall|k: int| 0 <= k < self.items@[i].owner_records@.len() implies #[trigger] self.record_ok(i, k) by {
                        assert(mid.record_ok(i, k));
                    }
                } else {
                    assert forall|k: int| 0 <= k < self.items@[i].owner_records@.len() implies #[trigger] self.record_ok(i, k) by {
                        assert(k == 0);
                    }
                }
            }
        }
        item_id
    }

    /// Well-formedness does not depend on the layers.
    pub proof fn lemma_wf_frame(self, other: World)
        requires
            self.wf(),
            other.cities@ == self.cities@,
            other.characters@ == self.characters@,
            other.events@ == self.events@,
            other.items@ == self.items@,
            other.event_places@ == self.event_places@,
            other.city_id_counter == self.city_id_counter,
            other.character_id_counter == self.character_id_counter,
            other.event_id_counter == self.event_id_counter,
            other.item_id_counter == self.item_id_counter,
        ensures
            other.wf(),
    {
        assert forall|c: int| 0 <= c < other.cities@.len() implies #[trigger] other.city_ok(c) by {
            assert(self.city_ok(c));
        }
        assert forall|i: int| 0 <= i < other.items@.len() implies #[trigger] other.item_ok(i) by {
            assert(self.item_ok(i));
            assert forall|k: int| 0 <= k < other.items@[i].owner_records@.len() implies #[trigger] other.record_ok(i, k) by {
                assert(self.record_ok(i, k));
            }
        }
        assert forall|e: int| 0 <= e < other.events@.len() implies #[trigger] other.event_ok(e) by {
            assert(self.event_ok(e));
        }
        assert forall|c: int| 0 <= c < other.characters@.len() implies #[trigger] other.character_ok(c) by {
            assert(self.character_ok(c));
        }
    }

    /// An empty world.
    pub fn new() -> (r: World)
        ensures
            r.wf(),
            r.cities@.len() == 0,
            r.characters@.len() == 0,
            r.events@.len() == 0,
            r.items@.len() == 0,
            r.layers@.len() == NUM_LAYERS,
            forall|l: int| 0 <= l < NUM_LAYERS ==> (#[trigger] r.layers@[l])@.len() == 0,
    {
        let mut layers: Vec<Vec<CityID>> = Vec::new();
        let mut l: usize = 0;
        while l < NUM_LAYERS
            invariant
                l <= NUM_LAYERS,
                layers@.len() == l,
                forall|m: int| 0 <= m < l ==> (#[trigger] layers@[m])@.len() == 0,
            decreases NUM_LAYERS - l,
        {
            layers.push(Vec::new());
            l += 1;
        }
        World {
            cities: Vec::new(),
            characters: Vec::new(),
            events: Vec::new(),
            items: Vec::new(),
            city_id_counter: 0,
            event_id_counter: 0,
            character_id_counter: 0,
            item_id_counter: 0,
            layers,
            event_places: Vec::new(),
        }
    }
}

} // verus!
