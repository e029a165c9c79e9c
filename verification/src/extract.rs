//! Structured entries from the decrypted XML of each `.bin` file.
//!
//! Every extractor reads the XML event stream up to the first end of
//! document or error and folds it into entries. The folds are stated as spec
//! functions over event values; `*_from_events` compute them exactly, and
//! `extract_*` run them on the events that the reader yields for a document.

use vstd::prelude::*;
use vstd::string::{StringExecFns, StringSliceAdditionalSpecFns};
use crate::xml::{
    find_attr_from, bytes_eq, before_stop, events_view, get_attr, is_stop, lemma_stop_index, lemma_stop_index_exists, opt_view,
    stop_error, stop_index, stops_at, tag_attr, xml_events, read_xml_events, XmlEvent, XmlEventView,
    XmlTagView,
};

verus! {

/// An item of `items.bin`; `index` is its protocol ID, its position in the XML.
#[derive(Debug)]
pub struct ItemEntry {
    pub index: u32,
    pub uniquename: String,
}

/// A world cluster of `cluster/world.bin`.
#[derive(Debug)]
pub struct ClusterEntry {
    pub id: String,
    pub displayname: String,
    pub cluster_type: String,
    pub biome: String,
}

/// A mob of `mobs.bin`.
#[derive(Debug)]
pub struct MobEntry {
    pub index: u32,
    pub uniquename: String,
}

/// A spell of `spells.bin`.
#[derive(Debug)]
pub struct SpellEntry {
    pub index: u32,
    pub name: String,
}

/// A building definition of `buildings.bin`.
#[derive(Debug)]
pub struct BuildingEntry {
    pub index: u32,
    pub uniquename: String,
    pub displayname: String,
}

/// A translation of `localization.bin`.
#[derive(Debug)]
pub struct LocalizationEntry {
    pub key: String,
    pub value: String,
    pub language: String,
}

/// A setting of `gamedata.bin`.
#[derive(Debug)]
pub struct GameDataEntry {
    pub key: String,
    pub value: String,
}

/// Why a document could not be extracted.
#[derive(Debug)]
pub enum ExtractError {
    /// The XML reader reported an error; its message.
    Xml(String),
    /// The document has more entries than a `u32` index can number.
    TooManyEntries,
}

/// The tag of a `Start` or `Empty` event.
pub open spec fn opening_tag(e: XmlEventView) -> Option<XmlTagView> {
    match e {
        XmlEventView::Start(t) => Some(t),
        XmlEventView::Empty(t) => Some(t),
        _ => None,
    }
}

/// The string, or the empty string.
pub open spec fn or_empty(s: Option<Seq<char>>) -> Seq<char> {
    match s {
        Some(x) => x,
        None => Seq::empty(),
    }
}

/// The first of two optional strings that is present.
pub open spec fn or_else(a: Option<Seq<char>>, b: Option<Seq<char>>) -> Option<Seq<char>> {
    if a is Some { a } else { b }
}

/// The values that `pick` takes from the events, in order.
pub open spec fn picked<T>(events: Seq<XmlEventView>, pick: spec_fn(XmlEventView) -> Option<T>) -> Seq<T>
    decreases events.len(),
{
    if events.len() == 0 {
        Seq::empty()
    } else {
        let prev = picked(events.drop_last(), pick);
        match pick(events.last()) {
            Some(x) => prev.push(x),
            None => prev,
        }
    }
}

/// The outcome of reading a document: the error that ends it, or what `pick`
/// takes from the events before its end.
pub open spec fn picked_outcome<T>(events: Seq<XmlEventView>, pick: spec_fn(XmlEventView) -> Option<T>) -> Result<Seq<T>, Seq<char>> {
    match stop_error(events) {
        Some(m) => Err(m),
        None => Ok(picked(before_stop(events), pick)),
    }
}

/// Picking from one more event adds what that event gives, if anything.
pub proof fn lemma_picked_step<T>(events: Seq<XmlEventView>, i: int, pick: spec_fn(XmlEventView) -> Option<T>)
    requires
        0 <= i < events.len(),
    ensures
        picked(events.take(i + 1), pick) == match pick(events[i]) {
            Some(x) => picked(events.take(i), pick).push(x),
            None => picked(events.take(i), pick),
        },
{
    assert(events.take(i + 1).drop_last() =~= events.take(i));
}

/// At most one value is picked per event.
pub proof fn lemma_picked_len<T>(events: Seq<XmlEventView>, pick: spec_fn(XmlEventView) -> Option<T>)
    ensures
        picked(events, pick).len() <= events.len(),
    decreases events.len(),
{
    if events.len() > 0 {
        lemma_picked_len(events.drop_last(), pick);
    }
}

/// When reading ends at `i`, the outcome is the error at `i`, if any, or what
/// was picked from the first `i` events.
pub proof fn lemma_outcome_at<T>(events: Seq<XmlEventView>, i: int, pick: spec_fn(XmlEventView) -> Option<T>)
    requires
        stops_at(events, i),
    ensures
        stop_index(events) == i,
        picked_outcome(events, pick) == if i < events.len() && events[i] is Error {
            Err::<Seq<T>, Seq<char>>(events[i]->Error_0)
        } else {
            Ok::<Seq<T>, Seq<char>>(picked(events.take(i), pick))
        },
{
    lemma_stop_index(events, i);
}

/// A result that agrees with an outcome: the same error message, or entries
/// that `agree` with the values picked.
pub open spec fn result_agrees<E, V>(
    res: Result<Vec<E>, ExtractError>,
    outcome: Result<Seq<V>, Seq<char>>,
    agree: spec_fn(Seq<E>, Seq<V>) -> bool,
) -> bool {
    match outcome {
        Err(m) => res matches Err(ExtractError::Xml(msg)) && msg@ == m,
        Ok(vals) => res matches Ok(entries) && agree(entries@, vals),
    }
}

/// What an indexed extractor returns for a document with the events `events`:
/// a refusal when the entries before the end of reading are more than a
/// `u32` index can number, otherwise the outcome of the fold.
pub open spec fn indexed_extraction<E, V>(
    res: Result<Vec<E>, ExtractError>,
    events: Seq<XmlEventView>,
    pick: spec_fn(XmlEventView) -> Option<V>,
    agree: spec_fn(Seq<E>, Seq<V>) -> bool,
) -> bool {
    if picked(before_stop(events), pick).len() > u32::MAX {
        res matches Err(ExtractError::TooManyEntries)
    } else {
        result_agrees(res, picked_outcome(events, pick), agree)
    }
}

// ---- items ----

/// An item: any opening tag with a `uniquename` attribute.
pub open spec fn item_pick(e: XmlEventView) -> Option<Seq<char>> {
    match opening_tag(e) {
        Some(t) => tag_attr(t, "uniquename".spec_bytes()),
        None => None,
    }
}

pub open spec fn item_picker() -> spec_fn(XmlEventView) -> Option<Seq<char>> {
    |e: XmlEventView| item_pick(e)
}

/// Items numbered by their position, with the names picked.
pub open spec fn items_agree(items: Seq<ItemEntry>, names: Seq<Seq<char>>) -> bool {
    &&& items.len() == names.len()
    &&& forall|j: int| 0 <= j < names.len() ==> (#[trigger] items[j]).index == j && items[j].uniquename@ == names[j]
}

pub open spec fn items_agreement() -> spec_fn(Seq<ItemEntry>, Seq<Seq<char>>) -> bool {
    |items: Seq<ItemEntry>, names: Seq<Seq<char>>| items_agree(items, names)
}

fn pick_item(e: &XmlEvent) -> (r: Option<String>)
    ensures
        opt_view(r) == item_pick(e@),
{
    match e {
        XmlEvent::Start(t) | XmlEvent::Empty(t) => get_attr(t, "uniquename"),
        _ => None,
    }
}

/// An event that is not a stop, after none but non-stops, lies before the first stop.
proof fn lemma_not_stopped(ev: Seq<XmlEventView>, i: int)
    requires
        0 <= i < ev.len(),
        !is_stop(ev[i]),
        forall|j: int| 0 <= j < i ==> !is_stop(#[trigger] ev[j]),
        stops_at(ev, stop_index(ev)),
    ensures
        i + 1 <= stop_index(ev),
{
    let k = stop_index(ev);
    if k <= i {
        assert(!is_stop(ev[k]));
    }
}

/// The items of a stream of events: each opening tag with a `uniquename`
/// attribute is an item, numbered from 0 in document order.
pub fn items_from_events(events: &Vec<XmlEvent>) -> (res: Result<Vec<ItemEntry>, ExtractError>)
    requires
        picked(before_stop(events_view(events@)), item_picker()).len() <= u32::MAX,
    ensures
        result_agrees(res, picked_outcome(events_view(events@), item_picker()), items_agreement()),
{
    let ghost ev = events_view(events@);
    let ghost pick = item_picker();
    let mut items: Vec<ItemEntry> = Vec::new();
    let mut index: u32 = 0;
    let mut i: usize = 0;
    proof {
        lemma_stop_index_exists(ev);
    }
    while i < events.len() && !events[i].is_stop()
        invariant
            ev == events_view(events@),
            pick == item_picker(),
            i <= events@.len(),
            forall|j: int| 0 <= j < i ==> !is_stop(#[trigger] ev[j]),
            stops_at(ev, stop_index(ev)),
            picked(ev.take(stop_index(ev)), pick).len() <= u32::MAX,
            index == items@.len(),
            items_agree(items@, picked(ev.take(i as int), pick)),
        decreases events@.len() - i,
    {
        let found = pick_item(&events[i]);
        proof {
            lemma_picked_step(ev, i as int, pick);
            lemma_not_stopped(ev, i as int);
            lemma_picked_prefix(ev, i + 1, stop_index(ev), pick);
        }
        match found {
            Some(name) => {
                items.push(ItemEntry { index, uniquename: name });
                index = index + 1;
            },
            None => {},
        }
        i = i + 1;
    }
    proof {
        lemma_outcome_at(ev, i as int, pick);
    }
    if i < events.len() {
        if let XmlEvent::Error(m) = &events[i] {
            return Err(ExtractError::Xml(m.clone()));
        }
    }
    Ok(items)
}

/// What is picked from a prefix is a prefix of what is picked from a longer one.
pub proof fn lemma_picked_prefix<T>(events: Seq<XmlEventView>, i: int, k: int, pick: spec_fn(XmlEventView) -> Option<T>)
    requires
        0 <= i <= k <= events.len(),
    ensures
        picked(events.take(i), pick).len() <= picked(events.take(k), pick).len(),
        picked(events.take(i), pick) == picked(events.take(k), pick).take(picked(events.take(i), pick).len() as int),
    decreases k - i,
{
    if i < k {
        lemma_picked_prefix(events, i, k - 1, pick);
        lemma_picked_step(events, k - 1, pick);
    } else {
        assert(picked(events.take(k), pick).take(picked(events.take(k), pick).len() as int) =~= picked(events.take(k), pick));
    }
}

/// The number of items before the end of reading.
fn count_items(events: &Vec<XmlEvent>) -> (n: usize)
    ensures
        n == picked(before_stop(events_view(events@)), item_picker()).len(),
{
    let ghost ev = events_view(events@);
    let ghost pick = item_picker();
    let mut n: usize = 0;
    let mut i: usize = 0;
    while i < events.len() && !events[i].is_stop()
        invariant
            ev == events_view(events@),
            pick == item_picker(),
            i <= events@.len(),
            forall|j: int| 0 <= j < i ==> !is_stop(#[trigger] ev[j]),
            n == picked(ev.take(i as int), pick).len(),
            n <= i,
        decreases events@.len() - i,
    {
        let found = pick_item(&events[i]);
        proof {
            lemma_picked_step(ev, i as int, pick);
        }
        if found.is_some() {
            n = n + 1;
        }
        i = i + 1;
    }
    proof {
        lemma_stop_index(ev, i as int);
    }
    n
}

/// Extracts the items of `items.bin`: every opening tag with a `uniquename`
/// attribute, numbered by its position among them (its protocol ID).
pub fn extract_items(xml: &str) -> (res: Result<Vec<ItemEntry>, ExtractError>)
    ensures
        indexed_extraction(res, xml_events(xml@, false), item_picker(), items_agreement()),
{
    let events = read_xml_events(xml, false);
    if count_items(&events) > u32::MAX as usize {
        return Err(ExtractError::TooManyEntries);
    }
    items_from_events(&events)
}

// ---- mobs ----

/// A mob: a `Mob` opening tag with a `uniquename` attribute.
pub open spec fn mob_pick(e: XmlEventView) -> Option<Seq<char>> {
    match opening_tag(e) {
        Some(t) => if t.name == "Mob".spec_bytes() {
            tag_attr(t, "uniquename".spec_bytes())
        } else {
            None
        },
        None => None,
    }
}

pub open spec fn mob_picker() -> spec_fn(XmlEventView) -> Option<Seq<char>> {
    |e: XmlEventView| mob_pick(e)
}

/// Mobs numbered by their position, with the names picked.
pub open spec fn mobs_agree(mobs: Seq<MobEntry>, names: Seq<Seq<char>>) -> bool {
    &&& mobs.len() == names.len()
    &&& forall|j: int| 0 <= j < names.len() ==> (#[trigger] mobs[j]).index == j && mobs[j].uniquename@ == names[j]
}

pub open spec fn mobs_agreement() -> spec_fn(Seq<MobEntry>, Seq<Seq<char>>) -> bool {
    |mobs: Seq<MobEntry>, names: Seq<Seq<char>>| mobs_agree(mobs, names)
}

fn pick_mob(e: &XmlEvent) -> (r: Option<String>)
    ensures
        opt_view(r) == mob_pick(e@),
{
    match e {
        XmlEvent::Start(t) | XmlEvent::Empty(t) => {
            if bytes_eq(t.name.as_slice(), "Mob".as_bytes()) {
                get_attr(t, "uniquename")
            } else {
                None
            }
        },
        _ => None,
    }
}

/// The mobs of a stream of events: each `Mob` opening tag with a
/// `uniquename` attribute, numbered from 0 in document order.
pub fn mobs_from_events(events: &Vec<XmlEvent>) -> (res: Result<Vec<MobEntry>, ExtractError>)
    requires
        picked(before_stop(events_view(events@)), mob_picker()).len() <= u32::MAX,
    ensures
        result_agrees(res, picked_outcome(events_view(events@), mob_picker()), mobs_agreement()),
{
    let ghost ev = events_view(events@);
    let ghost pick = mob_picker();
    let mut mobs: Vec<MobEntry> = Vec::new();
    let mut index: u32 = 0;
    let mut i: usize = 0;
    proof {
        lemma_stop_index_exists(ev);
    }
    while i < events.len() && !events[i].is_stop()
        invariant
            ev == events_view(events@),
            pick == mob_picker(),
            i <= events@.len(),
            forall|j: int| 0 <= j < i ==> !is_stop(#[trigger] ev[j]),
            stops_at(ev, stop_index(ev)),
            picked(ev.take(stop_index(ev)), pick).len() <= u32::MAX,
            index == mobs@.len(),
            mobs_agree(mobs@, picked(ev.take(i as int), pick)),
        decreases events@.len() - i,
    {
        let found = pick_mob(&events[i]);
        proof {
            lemma_picked_step(ev, i as int, pick);
            lemma_not_stopped(ev, i as int);
            lemma_picked_prefix(ev, i + 1, stop_index(ev), pick);
        }
        match found {
            Some(name) => {
                mobs.push(MobEntry { index, uniquename: name });
                index = index + 1;
            },
            None => {},
        }
        i = i + 1;
    }
    proof {
        lemma_outcome_at(ev, i as int, pick);
    }
    if i < events.len() {
        if let XmlEvent::Error(m) = &events[i] {
            return Err(ExtractError::Xml(m.clone()));
        }
    }
    Ok(mobs)
}

/// The number of mobs before the end of reading.
fn count_mobs(events: &Vec<XmlEvent>) -> (n: usize)
    ensures
        n == picked(before_stop(events_view(events@)), mob_picker()).len(),
{
    let ghost ev = events_view(events@);
    let ghost pick = mob_picker();
    let mut n: usize = 0;
    let mut i: usize = 0;
    while i < events.len() && !events[i].is_stop()
        invariant
            ev == events_view(events@),
            pick == mob_picker(),
            i <= events@.len(),
            forall|j: int| 0 <= j < i ==> !is_stop(#[trigger] ev[j]),
            n == picked(ev.take(i as int), pick).len(),
            n <= i,
        decreases events@.len() - i,
    {
        let found = pick_mob(&events[i]);
        proof {
            lemma_picked_step(ev, i as int, pick);
        }
        if found.is_some() {
            n = n + 1;
        }
        i = i + 1;
    }
    proof {
        lemma_stop_index(ev, i as int);
    }
    n
}

/// Extracts the mobs of `mobs.bin`.
pub fn extract_mobs(xml: &str) -> (res: Result<Vec<MobEntry>, ExtractError>)
    ensures
        indexed_extraction(res, xml_events(xml@, false), mob_picker(), mobs_agreement()),
{
    let events = read_xml_events(xml, false);
    if count_mobs(&events) > u32::MAX as usize {
        return Err(ExtractError::TooManyEntries);
    }
    mobs_from_events(&events)
}

// ---- spells ----

/// Whether a tag name is one of the spell tags.
pub open spec fn is_spell_tag(n: Seq<u8>) -> bool {
    n == "activespell".spec_bytes() || n == "passivespell".spec_bytes() || n == "togglespell".spec_bytes()
}

/// A spell: every spell opening tag; its name is the `uniquename` attribute,
/// else the `name` attribute, else empty.
pub open spec fn spell_pick(e: XmlEventView) -> Option<Seq<char>> {
    match opening_tag(e) {
        Some(t) => if is_spell_tag(t.name) {
            Some(or_empty(or_else(tag_attr(t, "uniquename".spec_bytes()), tag_attr(t, "name".spec_bytes()))))
        } else {
            None
        },
        None => None,
    }
}

pub open spec fn spell_picker() -> spec_fn(XmlEventView) -> Option<Seq<char>> {
    |e: XmlEventView| spell_pick(e)
}

/// Spells numbered by their position, with the names picked.
pub open spec fn spells_agree(spells: Seq<SpellEntry>, names: Seq<Seq<char>>) -> bool {
    &&& spells.len() == names.len()
    &&& forall|j: int| 0 <= j < names.len() ==> (#[trigger] spells[j]).index == j && spells[j].name@ == names[j]
}

pub open spec fn spells_agreement() -> spec_fn(Seq<SpellEntry>, Seq<Seq<char>>) -> bool {
    |spells: Seq<SpellEntry>, names: Seq<Seq<char>>| spells_agree(spells, names)
}

/// The string, or the empty string.
fn unwrap_or_empty(s: Option<String>) -> (r: String)
    ensures
        r@ == or_empty(opt_view(s)),
{
    match s {
        Some(x) => x,
        None => String::new(),
    }
}

fn pick_spell(e: &XmlEvent) -> (r: Option<String>)
    ensures
        opt_view(r) == spell_pick(e@),
{
    match e {
        XmlEvent::Start(t) | XmlEvent::Empty(t) => {
            let n = t.name.as_slice();
            if bytes_eq(n, "activespell".as_bytes()) || bytes_eq(n, "passivespell".as_bytes())
                || bytes_eq(n, "togglespell".as_bytes()) {
                let name = match get_attr(t, "uniquename") {
                    Some(u) => Some(u),
                    None => get_attr(t, "name"),
                };
                Some(unwrap_or_empty(name))
            } else {
                None
            }
        },
        _ => None,
    }
}

/// The spells of a stream of events: every `activespell`, `passivespell` or
/// `togglespell` opening tag, numbered from 0 in document order.
pub fn spells_from_events(events: &Vec<XmlEvent>) -> (res: Result<Vec<SpellEntry>, ExtractError>)
    requires
        picked(before_stop(events_view(events@)), spell_picker()).len() <= u32::MAX,
    ensures
        result_agrees(res, picked_outcome(events_view(events@), spell_picker()), spells_agreement()),
{
    let ghost ev = events_view(events@);
    let ghost pick = spell_picker();
    let mut spells: Vec<SpellEntry> = Vec::new();
    let mut index: u32 = 0;
    let mut i: usize = 0;
    proof {
        lemma_stop_index_exists(ev);
    }
    while i < events.len() && !events[i].is_stop()
        invariant
            ev == events_view(events@),
            pick == spell_picker(),
            i <= events@.len(),
            forall|j: int| 0 <= j < i ==> !is_stop(#[trigger] ev[j]),
            stops_at(ev, stop_index(ev)),
            picked(ev.take(stop_index(ev)), pick).len() <= u32::MAX,
            index == spells@.len(),
            spells_agree(spells@, picked(ev.take(i as int), pick)),
        decreases events@.len() - i,
    {
        let found = pick_spell(&events[i]);
        proof {
            lemma_picked_step(ev, i as int, pick);
            lemma_not_stopped(ev, i as int);
            lemma_picked_prefix(ev, i + 1, stop_index(ev), pick);
        }
        match found {
            Some(name) => {
                spells.push(SpellEntry { index, name });
                index = index + 1;
            },
            None => {},
        }
        i = i + 1;
    }
    proof {
        lemma_outcome_at(ev, i as int, pick);
    }
    if i < events.len() {
        if let XmlEvent::Error(m) = &events[i] {
            return Err(ExtractError::Xml(m.clone()));
        }
    }
    Ok(spells)
}

/// The number of spells before the end of reading.
fn count_spells(events: &Vec<XmlEvent>) -> (n: usize)
    ensures
        n == picked(before_stop(events_view(events@)), spell_picker()).len(),
{
    let ghost ev = events_view(events@);
    let ghost pick = spell_picker();
    let mut n: usize = 0;
    let mut i: usize = 0;
    while i < events.len() && !events[i].is_stop()
        invariant
            ev == events_view(events@),
            pick == spell_picker(),
            i <= events@.len(),
            forall|j: int| 0 <= j < i ==> !is_stop(#[trigger] ev[j]),
            n == picked(ev.take(i as int), pick).len(),
            n <= i,
        decreases events@.len() - i,
    {
        let found = pick_spell(&events[i]);
        proof {
            lemma_picked_step(ev, i as int, pick);
        }
        if found.is_some() {
            n = n + 1;
        }
        i = i + 1;
    }
    proof {
        lemma_stop_index(ev, i as int);
    }
    n
}

/// Extracts the spells of `spells.bin`.
pub fn extract_spells(xml: &str) -> (res: Result<Vec<SpellEntry>, ExtractError>)
    ensures
        indexed_extraction(res, xml_events(xml@, false), spell_picker(), spells_agreement()),
{
    let events = read_xml_events(xml, false);
    if count_spells(&events) > u32::MAX as usize {
        return Err(ExtractError::TooManyEntries);
    }
    spells_from_events(&events)
}

// ---- buildings ----

/// Whether `suffix` ends `s`.
pub open spec fn ends_with(s: Seq<u8>, suffix: Seq<u8>) -> bool {
    suffix.len() <= s.len() && s.skip(s.len() - suffix.len()) == suffix
}

/// Whether a tag name is that of a building definition: longer than 8 bytes
/// and ending in `building`, or one of three other definition tags.
pub open spec fn is_building_tag(n: Seq<u8>) -> bool {
    ||| n.len() > 8 && ends_with(n, "building".spec_bytes())
    ||| n == "labourer".spec_bytes()
    ||| n == "fortificationtype".spec_bytes()
    ||| n == "durabilitythresholddefinition".spec_bytes()
}

/// A building: every building opening tag, with its `uniquename` and
/// `displayname` attributes (empty where missing).
pub open spec fn building_pick(e: XmlEventView) -> Option<(Seq<char>, Seq<char>)> {
    match opening_tag(e) {
        Some(t) => if is_building_tag(t.name) {
            Some((or_empty(tag_attr(t, "uniquename".spec_bytes())), or_empty(tag_attr(t, "displayname".spec_bytes()))))
        } else {
            None
        },
        None => None,
    }
}

pub open spec fn building_picker() -> spec_fn(XmlEventView) -> Option<(Seq<char>, Seq<char>)> {
    |e: XmlEventView| building_pick(e)
}

/// Buildings numbered by their position, with the names picked.
pub open spec fn buildings_agree(buildings: Seq<BuildingEntry>, names: Seq<(Seq<char>, Seq<char>)>) -> bool {
    &&& buildings.len() == names.len()
    &&& forall|j: int| 0 <= j < names.len() ==> (#[trigger] buildings[j]).index == j
        && buildings[j].uniquename@ == names[j].0 && buildings[j].displayname@ == names[j].1
}

pub open spec fn buildings_agreement() -> spec_fn(Seq<BuildingEntry>, Seq<(Seq<char>, Seq<char>)>) -> bool {
    |buildings: Seq<BuildingEntry>, names: Seq<(Seq<char>, Seq<char>)>| buildings_agree(buildings, names)
}

/// Whether `suffix` ends `s`.
pub fn bytes_end_with(s: &[u8], suffix: &[u8]) -> (r: bool)
    ensures
        r == ends_with(s@, suffix@),
{
    if suffix.len() > s.len() {
        return false;
    }
    let off = s.len() - suffix.len();
    let mut j: usize = 0;
    while j < suffix.len()
        invariant
            off == s@.len() - suffix@.len(),
            suffix@.len() <= s@.len(),
            s@.len() == s.len(),
            j <= suffix@.len(),
            forall|q: int| 0 <= q < j ==> s@[off + q] == suffix@[q],
        decreases suffix.len() - j,
    {
        assert(off + j < s@.len());
        if s[off + j] != suffix[j] {
            assert(s@.skip(off as int)[j as int] != suffix@[j as int]);
            return false;
        }
        j = j + 1;
    }
    assert(s@.skip(off as int) =~= suffix@);
    true
}

fn pick_building(e: &XmlEvent) -> (r: Option<(String, String)>)
    ensures
        match r {
            Some((u, d)) => building_pick(e@) == Some((u@, d@)),
            None => building_pick(e@) is None,
        },
{
    match e {
        XmlEvent::Start(t) | XmlEvent::Empty(t) => {
            let n = t.name.as_slice();
            if (n.len() > 8 && bytes_end_with(n, "building".as_bytes())) || bytes_eq(n, "labourer".as_bytes())
                || bytes_eq(n, "fortificationtype".as_bytes())
                || bytes_eq(n, "durabilitythresholddefinition".as_bytes()) {
                let uniquename = unwrap_or_empty(get_attr(t, "uniquename"));
                let displayname = unwrap_or_empty(get_attr(t, "displayname"));
                Some((uniquename, displayname))
            } else {
                None
            }
        },
        _ => None,
    }
}

/// The buildings of a stream of events: every building opening tag,
/// numbered from 0 in document order.
pub fn buildings_from_events(events: &Vec<XmlEvent>) -> (res: Result<Vec<BuildingEntry>, ExtractError>)
    requires
        picked(before_stop(events_view(events@)), building_picker()).len() <= u32::MAX,
    ensures
        result_agrees(res, picked_outcome(events_view(events@), building_picker()), buildings_agreement()),
{
    let ghost ev = events_view(events@);
    let ghost pick = building_picker();
    let mut buildings: Vec<BuildingEntry> = Vec::new();
    let mut index: u32 = 0;
    let mut i: usize = 0;
    proof {
        lemma_stop_index_exists(ev);
    }
    while i < events.len() && !events[i].is_stop()
        invariant
            ev == events_view(events@),
            pick == building_picker(),
            i <= events@.len(),
            forall|j: int| 0 <= j < i ==> !is_stop(#[trigger] ev[j]),
            stops_at(ev, stop_index(ev)),
            picked(ev.take(stop_index(ev)), pick).len() <= u32::MAX,
            index == buildings@.len(),
            buildings_agree(buildings@, picked(ev.take(i as int), pick)),
        decreases events@.len() - i,
    {
        let found = pick_building(&events[i]);
        proof {
            lemma_picked_step(ev, i as int, pick);
            lemma_not_stopped(ev, i as int);
            lemma_picked_prefix(ev, i + 1, stop_index(ev), pick);
        }
        match found {
            Some((uniquename, displayname)) => {
                buildings.push(BuildingEntry { index, uniquename, displayname });
                index = index + 1;
            },
            None => {},
        }
        i = i + 1;
    }
    proof {
        lemma_outcome_at(ev, i as int, pick);
    }
    if i < events.len() {
        if let XmlEvent::Error(m) = &events[i] {
            return Err(ExtractError::Xml(m.clone()));
        }
    }
    Ok(buildings)
}

/// The number of buildings before the end of reading.
fn count_buildings(events: &Vec<XmlEvent>) -> (n: usize)
    ensures
        n == picked(before_stop(events_view(events@)), building_picker()).len(),
{
    let ghost ev = events_view(events@);
    let ghost pick = building_picker();
    let mut n: usize = 0;
    let mut i: usize = 0;
    while i < events.len() && !events[i].is_stop()
        invariant
            ev == events_view(events@),
            pick == building_picker(),
            i <= events@.len(),
            forall|j: int| 0 <= j < i ==> !is_stop(#[trigger] ev[j]),
            n == picked(ev.take(i as int), pick).len(),
            n <= i,
        decreases events@.len() - i,
    {
        let found = pick_building(&events[i]);
        proof {
            lemma_picked_step(ev, i as int, pick);
        }
        if found.is_some() {
            n = n + 1;
        }
        i = i + 1;
    }
    proof {
        lemma_stop_index(ev, i as int);
    }
    n
}

/// Extracts the building definitions of `buildings.bin`.
pub fn extract_buildings(xml: &str) -> (res: Result<Vec<BuildingEntry>, ExtractError>)
    ensures
        indexed_extraction(res, xml_events(xml@, false), building_picker(), buildings_agreement()),
{
    let events = read_xml_events(xml, false);
    if count_buildings(&events) > u32::MAX as usize {
        return Err(ExtractError::TooManyEntries);
    }
    buildings_from_events(&events)
}

// ---- game settings ----

/// A setting: every opening tag with a `name` (else `key`) attribute; its
/// value is the `value` attribute, or empty.
pub open spec fn setting_pick(e: XmlEventView) -> Option<(Seq<char>, Seq<char>)> {
    match opening_tag(e) {
        Some(t) => match or_else(tag_attr(t, "name".spec_bytes()), tag_attr(t, "key".spec_bytes())) {
            Some(k) => Some((k, or_empty(tag_attr(t, "value".spec_bytes())))),
            None => None,
        },
        None => None,
    }
}

pub open spec fn setting_picker() -> spec_fn(XmlEventView) -> Option<(Seq<char>, Seq<char>)> {
    |e: XmlEventView| setting_pick(e)
}

/// Settings with the keys and values picked.
pub open spec fn settings_agree(settings: Seq<GameDataEntry>, pairs: Seq<(Seq<char>, Seq<char>)>) -> bool {
    &&& settings.len() == pairs.len()
    &&& forall|j: int| 0 <= j < pairs.len() ==> (#[trigger] settings[j]).key@ == pairs[j].0 && settings[j].value@ == pairs[j].1
}

pub open spec fn settings_agreement() -> spec_fn(Seq<GameDataEntry>, Seq<(Seq<char>, Seq<char>)>) -> bool {
    |settings: Seq<GameDataEntry>, pairs: Seq<(Seq<char>, Seq<char>)>| settings_agree(settings, pairs)
}

fn pick_setting(e: &XmlEvent) -> (r: Option<(String, String)>)
    ensures
        match r {
            Some((k, v)) => setting_pick(e@) == Some((k@, v@)),
            None => setting_pick(e@) is None,
        },
{
    match e {
        XmlEvent::Start(t) | XmlEvent::Empty(t) => {
            let key = match get_attr(t, "name") {
                Some(k) => Some(k),
                None => get_attr(t, "key"),
            };
            match key {
                Some(k) => Some((k, unwrap_or_empty(get_attr(t, "value")))),
                None => None,
            }
        },
        _ => None,
    }
}

/// The settings of a stream of events, in document order.
pub fn gamedata_from_events(events: &Vec<XmlEvent>) -> (res: Result<Vec<GameDataEntry>, ExtractError>)
    ensures
        result_agrees(res, picked_outcome(events_view(events@), setting_picker()), settings_agreement()),
{
    let ghost ev = events_view(events@);
    let ghost pick = setting_picker();
    let mut settings: Vec<GameDataEntry> = Vec::new();
    let mut i: usize = 0;
    while i < events.len() && !events[i].is_stop()
        invariant
            ev == events_view(events@),
            pick == setting_picker(),
            i <= events@.len(),
            forall|j: int| 0 <= j < i ==> !is_stop(#[trigger] ev[j]),
            settings_agree(settings@, picked(ev.take(i as int), pick)),
        decreases events@.len() - i,
    {
        let found = pick_setting(&events[i]);
        proof {
            lemma_picked_step(ev, i as int, pick);
        }
        match found {
            Some((key, value)) => {
                settings.push(GameDataEntry { key, value });
            },
            None => {},
        }
        i = i + 1;
    }
    proof {
        lemma_outcome_at(ev, i as int, pick);
    }
    if i < events.len() {
        if let XmlEvent::Error(m) = &events[i] {
            return Err(ExtractError::Xml(m.clone()));
        }
    }
    Ok(settings)
}

/// Extracts the settings of `gamedata.bin`.
pub fn extract_gamedata(xml: &str) -> (res: Result<Vec<GameDataEntry>, ExtractError>)
    ensures
        result_agrees(res, picked_outcome(xml_events(xml@, false), setting_picker()), settings_agreement()),
{
    let events = read_xml_events(xml, false);
    gamedata_from_events(&events)
}

// ---- world clusters ----

/// The state of the world fold: whether a cluster is open, the fields read
/// for it so far, and the clusters closed so far as
/// `(id, displayname, type, biome)`.
pub struct WorldState {
    pub in_cluster: bool,
    pub id: Seq<char>,
    pub display: Seq<char>,
    pub typ: Seq<char>,
    pub biome: Seq<char>,
    pub clusters: Seq<(Seq<char>, Seq<char>, Seq<char>, Seq<char>)>,
}

pub open spec fn world_init() -> WorldState {
    WorldState {
        in_cluster: false,
        id: Seq::empty(),
        display: Seq::empty(),
        typ: Seq::empty(),
        biome: Seq::empty(),
        clusters: Seq::empty(),
    }
}

/// One event of the world fold. A `cluster` opening tag starts a cluster
/// (its `id`, `displayname` and `type`, empty where missing, and no biome);
/// a `biome` opening tag inside a cluster sets its biome from `type`; a
/// `cluster` end tag inside a cluster closes it.
pub open spec fn world_step(s: WorldState, e: XmlEventView) -> WorldState {
    match opening_tag(e) {
        Some(t) => if t.name == "cluster".spec_bytes() {
            WorldState {
                in_cluster: true,
                id: or_empty(tag_attr(t, "id".spec_bytes())),
                display: or_empty(tag_attr(t, "displayname".spec_bytes())),
                typ: or_empty(tag_attr(t, "type".spec_bytes())),
                biome: Seq::empty(),
                clusters: s.clusters,
            }
        } else if t.name == "biome".spec_bytes() && s.in_cluster {
            WorldState { biome: or_empty(tag_attr(t, "type".spec_bytes())), ..s }
        } else {
            s
        },
        None => match e {
            XmlEventView::End(n) => if n == "cluster".spec_bytes() && s.in_cluster {
                WorldState {
                    in_cluster: false,
                    id: Seq::empty(),
                    display: Seq::empty(),
                    typ: Seq::empty(),
                    biome: Seq::empty(),
                    clusters: s.clusters.push((s.id, s.display, s.typ, s.biome)),
                }
            } else {
                s
            },
            _ => s,
        },
    }
}

/// The world fold over a sequence of events.
pub open spec fn world_fold(events: Seq<XmlEventView>) -> WorldState
    decreases events.len(),
{
    if events.len() == 0 {
        world_init()
    } else {
        world_step(world_fold(events.drop_last()), events.last())
    }
}

/// The clusters of a document with the events `events`, or the error that ends it.
pub open spec fn world_outcome(events: Seq<XmlEventView>) -> Result<Seq<(Seq<char>, Seq<char>, Seq<char>, Seq<char>)>, Seq<char>> {
    match stop_error(events) {
        Some(m) => Err(m),
        None => Ok(world_fold(before_stop(events)).clusters),
    }
}

/// The fields of a cluster entry.
pub open spec fn cluster_view(c: ClusterEntry) -> (Seq<char>, Seq<char>, Seq<char>, Seq<char>) {
    (c.id@, c.displayname@, c.cluster_type@, c.biome@)
}

/// Clusters with the fields folded.
pub open spec fn clusters_agree(clusters: Seq<ClusterEntry>, vals: Seq<(Seq<char>, Seq<char>, Seq<char>, Seq<char>)>) -> bool {
    clusters.map_values(|c: ClusterEntry| cluster_view(c)) == vals
}

pub open spec fn clusters_agreement() -> spec_fn(Seq<ClusterEntry>, Seq<(Seq<char>, Seq<char>, Seq<char>, Seq<char>)>) -> bool {
    |clusters: Seq<ClusterEntry>, vals: Seq<(Seq<char>, Seq<char>, Seq<char>, Seq<char>)>| clusters_agree(clusters, vals)
}

proof fn lemma_world_step(events: Seq<XmlEventView>, i: int)
    requires
        0 <= i < events.len(),
    ensures
        world_fold(events.take(i + 1)) == world_step(world_fold(events.take(i)), events[i]),
{
    assert(events.take(i + 1).drop_last() =~= events.take(i));
}

/// The world clusters of a stream of events.
pub fn world_from_events(events: &Vec<XmlEvent>) -> (res: Result<Vec<ClusterEntry>, ExtractError>)
    ensures
        result_agrees(res, world_outcome(events_view(events@)), clusters_agreement()),
{
    let ghost ev = events_view(events@);
    let mut clusters: Vec<ClusterEntry> = Vec::new();
    let mut in_cluster = false;
    let mut current_id = String::new();
    let mut current_display = String::new();
    let mut current_type = String::new();
    let mut current_biome = String::new();
    let mut i: usize = 0;
    assert(clusters@.map_values(|c: ClusterEntry| cluster_view(c)) =~= world_fold(ev.take(0)).clusters);
    while i < events.len() && !events[i].is_stop()
        invariant
            ev == events_view(events@),
            i <= events@.len(),
            forall|j: int| 0 <= j < i ==> !is_stop(#[trigger] ev[j]),
            world_fold(ev.take(i as int)) == (WorldState {
                in_cluster,
                id: current_id@,
                display: current_display@,
                typ: current_type@,
                biome: current_biome@,
                clusters: clusters@.map_values(|c: ClusterEntry| cluster_view(c)),
            }),
        decreases events@.len() - i,
    {
        proof {
            lemma_world_step(ev, i as int);
        }
        let ghost before = clusters@;
        match &events[i] {
            XmlEvent::Start(t) | XmlEvent::Empty(t) => {
                if bytes_eq(t.name.as_slice(), "cluster".as_bytes()) {
                    current_id = unwrap_or_empty(get_attr(t, "id"));
                    current_display = unwrap_or_empty(get_attr(t, "displayname"));
                    current_type = unwrap_or_empty(get_attr(t, "type"));
                    current_biome = String::new();
                    in_cluster = true;
                } else if bytes_eq(t.name.as_slice(), "biome".as_bytes()) && in_cluster {
                    current_biome = unwrap_or_empty(get_attr(t, "type"));
                }
            },
            XmlEvent::End(n) => {
                if bytes_eq(n.as_slice(), "cluster".as_bytes()) && in_cluster {
                    clusters.push(ClusterEntry {
                        id: current_id,
                        displayname: current_display,
                        cluster_type: current_type,
                        biome: current_biome,
                    });
                    current_id = String::new();
                    current_display = String::new();
                    current_type = String::new();
                    current_biome = String::new();
                    in_cluster = false;
                    assert(clusters@.map_values(|c: ClusterEntry| cluster_view(c))
                        =~= before.map_values(|c: ClusterEntry| cluster_view(c)).push(cluster_view(clusters@.last())));
                }
            },
            _ => {},
        }
        i = i + 1;
    }
    proof {
        lemma_stop_index(ev, i as int);
    }
    if i < events.len() {
        if let XmlEvent::Error(m) = &events[i] {
            return Err(ExtractError::Xml(m.clone()));
        }
    }
    Ok(clusters)
}

/// Extracts the world clusters of `cluster/world.bin` (text trimmed).
pub fn extract_world(xml: &str) -> (res: Result<Vec<ClusterEntry>, ExtractError>)
    ensures
        result_agrees(res, world_outcome(xml_events(xml@, true)), clusters_agreement()),
{
    let events = read_xml_events(xml, true);
    world_from_events(&events)
}

// ---- localization (TMX) ----

/// Where the TMX fold is: outside a translation unit, inside one, or inside
/// a translation variant of the given language.
pub enum TuPlace {
    Outside,
    InTu,
    InTuv(Seq<char>),
}

/// The state of the TMX fold: the place, the segment text gathered, whether
/// a segment is open, the translations of the current unit as
/// `(language, text)` with each language once, and the translations put out
/// so far as `(language, text)`.
pub struct TmxState {
    pub place: TuPlace,
    pub seg: Seq<char>,
    pub in_seg: bool,
    pub unit: Seq<(Seq<char>, Seq<char>)>,
    pub out: Seq<(Seq<char>, Seq<char>)>,
}

pub open spec fn tmx_init() -> TmxState {
    TmxState { place: TuPlace::Outside, seg: Seq::empty(), in_seg: false, unit: Seq::empty(), out: Seq::empty() }
}

/// The position of the first pair at or after `i` with language `lang`, or
/// the length when there is none.
pub open spec fn unit_find(unit: Seq<(Seq<char>, Seq<char>)>, lang: Seq<char>, i: int) -> int
    decreases unit.len() - i,
{
    if i < 0 || i >= unit.len() {
        unit.len() as int
    } else if unit[i].0 == lang {
        i
    } else {
        unit_find(unit, lang, i + 1)
    }
}

/// Sets the text of `lang` in a unit: replaced where the language is there
/// already, appended otherwise.
pub open spec fn unit_insert(unit: Seq<(Seq<char>, Seq<char>)>, lang: Seq<char>, text: Seq<char>) -> Seq<(Seq<char>, Seq<char>)> {
    let j = unit_find(unit, lang, 0);
    if j < unit.len() {
        unit.update(j, (lang, text))
    } else {
        unit.push((lang, text))
    }
}

/// The language of a variant: its own, or `en-US` when it has none.
pub open spec fn language_or_default(lang: Seq<char>) -> Seq<char> {
    if lang.len() == 0 {
        "en-US"@
    } else {
        lang
    }
}

/// One event of the TMX fold.
/// - `<tu>` empties the unit; `<tuv>` enters a variant whose language is its
///   `xml:lang` (else `lang`) attribute, or empty; `<seg>` opens a segment
///   with no text. Only opening tags count, not self-closing ones.
/// - Text inside a segment is appended to it, when it could be unescaped.
/// - `</seg>` closes the segment; `</tuv>` stores the segment text under the
///   variant's language (or `en-US`) and goes back to the unit; `</tu>` puts
///   out every translation of the unit, in order, and leaves it.
pub open spec fn tmx_step(s: TmxState, e: XmlEventView) -> TmxState {
    match e {
        XmlEventView::Start(t) => if t.name == "tu".spec_bytes() {
            TmxState { unit: Seq::empty(), place: TuPlace::InTu, ..s }
        } else if t.name == "tuv".spec_bytes() {
            TmxState {
                place: TuPlace::InTuv(or_empty(or_else(tag_attr(t, "xml:lang".spec_bytes()), tag_attr(t, "lang".spec_bytes())))),
                ..s
            }
        } else if t.name == "seg".spec_bytes() {
            TmxState { seg: Seq::empty(), in_seg: true, ..s }
        } else {
            s
        },
        XmlEventView::Text(x) => if s.in_seg && x is Some {
            TmxState { seg: s.seg + x->0, ..s }
        } else {
            s
        },
        XmlEventView::End(n) => if n == "seg".spec_bytes() {
            TmxState { in_seg: false, ..s }
        } else if n == "tuv".spec_bytes() {
            match s.place {
                TuPlace::InTuv(lang) => TmxState {
                    unit: unit_insert(s.unit, language_or_default(lang), s.seg),
                    place: TuPlace::InTu,
                    ..s
                },
                _ => TmxState { place: TuPlace::InTu, ..s },
            }
        } else if n == "tu".spec_bytes() {
            TmxState { out: s.out + s.unit, place: TuPlace::Outside, ..s }
        } else {
            s
        },
        _ => s,
    }
}

/// The TMX fold over a sequence of events.
pub open spec fn tmx_fold(events: Seq<XmlEventView>) -> TmxState
    decreases events.len(),
{
    if events.len() == 0 {
        tmx_init()
    } else {
        tmx_step(tmx_fold(events.drop_last()), events.last())
    }
}

/// The translations `(language, text)` of a document with the events
/// `events`, or the error that ends it.
pub open spec fn localization_outcome(events: Seq<XmlEventView>) -> Result<Seq<(Seq<char>, Seq<char>)>, Seq<char>> {
    match stop_error(events) {
        Some(m) => Err(m),
        None => Ok(tmx_fold(before_stop(events)).out),
    }
}

/// Translations with the pairs folded; every key is empty.
pub open spec fn translations_agree(entries: Seq<LocalizationEntry>, pairs: Seq<(Seq<char>, Seq<char>)>) -> bool {
    &&& entries.len() == pairs.len()
    &&& forall|j: int| 0 <= j < pairs.len() ==> (#[trigger] entries[j]).key@.len() == 0
        && entries[j].language@ == pairs[j].0 && entries[j].value@ == pairs[j].1
}

pub open spec fn translations_agreement() -> spec_fn(Seq<LocalizationEntry>, Seq<(Seq<char>, Seq<char>)>) -> bool {
    |entries: Seq<LocalizationEntry>, pairs: Seq<(Seq<char>, Seq<char>)>| translations_agree(entries, pairs)
}

proof fn lemma_tmx_step(events: Seq<XmlEventView>, i: int)
    requires
        0 <= i < events.len(),
    ensures
        tmx_fold(events.take(i + 1)) == tmx_step(tmx_fold(events.take(i)), events[i]),
{
    assert(events.take(i + 1).drop_last() =~= events.take(i));
}

/// The place of the TMX fold while it runs.
enum Place {
    Outside,
    InTu,
    InTuv(String),
}

spec fn place_view(p: Place) -> TuPlace {
    match p {
        Place::Outside => TuPlace::Outside,
        Place::InTu => TuPlace::InTu,
        Place::InTuv(l) => TuPlace::InTuv(l@),
    }
}

spec fn pairs_view(pairs: Seq<(String, String)>) -> Seq<(Seq<char>, Seq<char>)> {
    pairs.map_values(|p: (String, String)| (p.0@, p.1@))
}

/// Stores `text` under `lang` in a unit, as `unit_insert` states.
fn store_translation(unit: &mut Vec<(String, String)>, lang: String, text: String)
    ensures
        pairs_view(final(unit)@) == unit_insert(pairs_view(old(unit)@), lang@, text@),
{
    let ghost u = pairs_view(unit@);
    let mut j: usize = 0;
    while j < unit.len()
        invariant
            u == pairs_view(unit@),
            u == pairs_view(old(unit)@),
            j <= unit@.len(),
            unit_find(u, lang@, 0) == unit_find(u, lang@, j as int),
            forall|q: int| 0 <= q < j ==> u[q].0 != lang@,
        decreases unit.len() - j,
    {
        if unit[j].0 == lang {
            assert(u[j as int].0 == lang@);
            assert(unit_find(u, lang@, j as int) == j);
            let ghost lv = lang@;
            let ghost tv = text@;
            unit.set(j, (lang, text));
            assert(pairs_view(unit@) =~= unit_insert(u, lv, tv));
            return;
        }
        j = j + 1;
    }
    let ghost lv = lang@;
    let ghost tv = text@;
    unit.push((lang, text));
    assert(pairs_view(unit@) =~= unit_insert(u, lv, tv));
}

/// The translations of a stream of TMX events, unit by unit; within a unit
/// each language once, in the order the languages first appear.
pub fn localization_from_events(events: &Vec<XmlEvent>) -> (res: Result<Vec<LocalizationEntry>, ExtractError>)
    ensures
        result_agrees(res, localization_outcome(events_view(events@)), translations_agreement()),
{
    let ghost ev = events_view(events@);
    let mut results: Vec<LocalizationEntry> = Vec::new();
    let mut place = Place::Outside;
    let mut seg_text = String::new();
    let mut unit: Vec<(String, String)> = Vec::new();
    let mut in_seg = false;
    let mut i: usize = 0;
    assert(pairs_view(unit@) =~= Seq::<(Seq<char>, Seq<char>)>::empty());
    while i < events.len() && !events[i].is_stop()
        invariant
            ev == events_view(events@),
            i <= events@.len(),
            forall|j: int| 0 <= j < i ==> !is_stop(#[trigger] ev[j]),
            tmx_fold(ev.take(i as int)).place == place_view(place),
            tmx_fold(ev.take(i as int)).seg == seg_text@,
            tmx_fold(ev.take(i as int)).in_seg == in_seg,
            tmx_fold(ev.take(i as int)).unit == pairs_view(unit@),
            translations_agree(results@, tmx_fold(ev.take(i as int)).out),
        decreases events@.len() - i,
    {
        proof {
            lemma_tmx_step(ev, i as int);
        }
        match &events[i] {
            XmlEvent::Start(t) => {
                let n = t.name.as_slice();
                if bytes_eq(n, "tu".as_bytes()) {
                    unit = Vec::new();
                    place = Place::InTu;
                    assert(pairs_view(unit@) =~= Seq::<(Seq<char>, Seq<char>)>::empty());
                } else if bytes_eq(n, "tuv".as_bytes()) {
                    let lang = match get_attr(t, "xml:lang") {
                        Some(l) => Some(l),
                        None => get_attr(t, "lang"),
                    };
                    place = Place::InTuv(unwrap_or_empty(lang));
                } else if bytes_eq(n, "seg".as_bytes()) {
                    seg_text = String::new();
                    in_seg = true;
                }
            },
            XmlEvent::Text(x) => {
                if in_seg {
                    if let Some(text) = x {
                        seg_text.append(text.as_str());
                    }
                }
            },
            XmlEvent::End(n) => {
                let n = n.as_slice();
                if bytes_eq(n, "seg".as_bytes()) {
                    in_seg = false;
                } else if bytes_eq(n, "tuv".as_bytes()) {
                    if let Place::InTuv(lang) = &place {
                        let lang_val = if lang.as_str().is_empty() {
                            "en-US".to_owned()
                        } else {
                            lang.clone()
                        };
                        store_translation(&mut unit, lang_val, seg_text.clone());
                    }
                    place = Place::InTu;
                } else if bytes_eq(n, "tu".as_bytes()) {
                    let ghost before = results@;
                    let mut k: usize = 0;
                    while k < unit.len()
                        invariant
                            k <= unit@.len(),
                            results@.len() == before.len() + k,
                            forall|q: int| 0 <= q < before.len() ==> results@[q] == before[q],
                            forall|q: int| 0 <= q < k ==> (#[trigger] results@[before.len() + q]).key@.len() == 0
                                && results@[before.len() + q].language@ == unit@[q].0@
                                && results@[before.len() + q].value@ == unit@[q].1@,
                        decreases unit.len() - k,
                    {
                        results.push(LocalizationEntry {
                            key: String::new(),
                            value: unit[k].1.clone(),
                            language: unit[k].0.clone(),
                        });
                        k = k + 1;
                    }
                    place = Place::Outside;
                    assert forall|q: int| 0 <= q < results@.len() implies (#[trigger] results@[q]).key@.len() == 0
                        && results@[q].language@ == (tmx_fold(ev.take(i as int)).out + pairs_view(unit@))[q].0
                        && results@[q].value@ == (tmx_fold(ev.take(i as int)).out + pairs_view(unit@))[q].1 by {
                        let out = tmx_fold(ev.take(i as int)).out;
                        assert(before.len() == out.len());
                        if q >= before.len() {
                            let r = q - before.len();
                            assert(results@[before.len() + r] == results@[q]);
                            assert((out + pairs_view(unit@))[q] == pairs_view(unit@)[r]);
                        } else {
                            assert(results@[q] == before[q]);
                            assert((out + pairs_view(unit@))[q] == out[q]);
                        }
                    }
                }
            },
            _ => {},
        }
        i = i + 1;
    }
    proof {
        lemma_stop_index(ev, i as int);
    }
    if i < events.len() {
        if let XmlEvent::Error(m) = &events[i] {
            return Err(ExtractError::Xml(m.clone()));
        }
    }
    Ok(results)
}

/// Extracts the translations of `localization.bin` (TMX, text trimmed).
pub fn extract_localization(xml: &str) -> (res: Result<Vec<LocalizationEntry>, ExtractError>)
    ensures
        result_agrees(res, localization_outcome(xml_events(xml@, true)), translations_agreement()),
{
    let events = read_xml_events(xml, true);
    localization_from_events(&events)
}

/// Whether no language occurs twice in a unit.
pub open spec fn languages_distinct(unit: Seq<(Seq<char>, Seq<char>)>) -> bool {
    forall|i: int, j: int| 0 <= i < j < unit.len() ==> (#[trigger] unit[i]).0 != (#[trigger] unit[j]).0
}

proof fn lemma_unit_find(unit: Seq<(Seq<char>, Seq<char>)>, lang: Seq<char>, i: int)
    requires
        0 <= i <= unit.len(),
    ensures
        i <= unit_find(unit, lang, i) <= unit.len(),
        unit_find(unit, lang, i) < unit.len() ==> unit[unit_find(unit, lang, i)].0 == lang,
        forall|j: int| i <= j < unit_find(unit, lang, i) ==> (#[trigger] unit[j]).0 != lang,
    decreases unit.len() - i,
{
    if i < unit.len() && unit[i].0 != lang {
        lemma_unit_find(unit, lang, i + 1);
    }
}

/// Storing a translation keeps the languages of a unit distinct.
pub proof fn lemma_unit_insert_distinct(unit: Seq<(Seq<char>, Seq<char>)>, lang: Seq<char>, text: Seq<char>)
    requires
        languages_distinct(unit),
    ensures
        languages_distinct(unit_insert(unit, lang, text)),
{
    lemma_unit_find(unit, lang, 0);
}

/// Like the map of the original format, a translation unit holds each
/// language at most once, whatever events came before.
pub proof fn lemma_tmx_languages_distinct(events: Seq<XmlEventView>)
    ensures
        languages_distinct(tmx_fold(events).unit),
    decreases events.len(),
{
    if events.len() > 0 {
        let s = tmx_fold(events.drop_last());
        lemma_tmx_languages_distinct(events.drop_last());
        match s.place {
            TuPlace::InTuv(lang) => {
                lemma_unit_insert_distinct(s.unit, language_or_default(lang), s.seg);
            },
            _ => {},
        }
    }
}

// ---- laws of the extractors ----

/// The bytes of an ASCII string literal are its characters.
proof fn lemma_ascii_bytes(s: &str)
    requires
        vstd::string::is_ascii(s),
    ensures
        s.spec_bytes().len() == s@.len(),
        forall|k: int| 0 <= k < s@.len() ==> #[trigger] s.spec_bytes()[k] == s@[k] as u8,
{
    vstd::string::is_ascii_spec_bytes(s);
}

/// The tag names that the extractors look for, as bytes.
proof fn lemma_tag_name_bytes()
    ensures
        "building".spec_bytes() == seq![98u8, 117u8, 105u8, 108u8, 100u8, 105u8, 110u8, 103u8],
        "cluster".spec_bytes() == seq![99u8, 108u8, 117u8, 115u8, 116u8, 101u8, 114u8],
        "biome".spec_bytes() == seq![98u8, 105u8, 111u8, 109u8, 101u8],
        "tu".spec_bytes() == seq![116u8, 117u8],
        "tuv".spec_bytes() == seq![116u8, 117u8, 118u8],
        "seg".spec_bytes() == seq![115u8, 101u8, 103u8],
{
    reveal_strlit("tu");
    reveal_strlit("tuv");
    reveal_strlit("seg");
    assert(vstd::string::is_ascii("tu"));
    assert(vstd::string::is_ascii("tuv"));
    assert(vstd::string::is_ascii("seg"));
    lemma_ascii_bytes("tu");
    lemma_ascii_bytes("tuv");
    lemma_ascii_bytes("seg");
    assert("tu".spec_bytes() =~= seq![116u8, 117u8]);
    assert("tuv".spec_bytes() =~= seq![116u8, 117u8, 118u8]);
    assert("seg".spec_bytes() =~= seq![115u8, 101u8, 103u8]);
    reveal_strlit("building");
    reveal_strlit("cluster");
    reveal_strlit("biome");
    assert(vstd::string::is_ascii("building"));
    assert(vstd::string::is_ascii("cluster"));
    assert(vstd::string::is_ascii("biome"));
    lemma_ascii_bytes("building");
    lemma_ascii_bytes("cluster");
    lemma_ascii_bytes("biome");
    assert("building".spec_bytes() =~= seq![98u8, 117u8, 105u8, 108u8, 100u8, 105u8, 110u8, 103u8]);
    assert("cluster".spec_bytes() =~= seq![99u8, 108u8, 117u8, 115u8, 116u8, 101u8, 114u8]);
    assert("biome".spec_bytes() =~= seq![98u8, 105u8, 111u8, 109u8, 101u8]);
}

/// `or_empty` gives the string that is present, else the empty string;
/// `or_else` gives the first string that is present.
pub proof fn lemma_fallbacks(a: Option<Seq<char>>, b: Option<Seq<char>>)
    ensures
        a matches Some(x) ==> or_empty(a) == x && or_else(a, b) == a,
        a is None ==> or_empty(a).len() == 0 && or_else(a, b) == b,
{
}

/// The value of an attribute is that of the first attribute with its key:
/// `find_attr_from(attrs, key, 0)` is `Some(v)` exactly when some attribute
/// is `(key, v)` and none before it has that key, and `None` exactly when no
/// attribute has the key.
pub proof fn lemma_first_attribute(attrs: Seq<(Seq<u8>, Seq<u8>)>, key: Seq<u8>, i: int)
    requires
        0 <= i <= attrs.len(),
    ensures
        find_attr_from(attrs, key, i) matches Some(v) ==> exists|k: int|
            i <= k < attrs.len() && #[trigger] attrs[k] == (key, v) && forall|j: int| i <= j < k ==> (#[trigger] attrs[j]).0 != key,
        find_attr_from(attrs, key, i) is None ==> forall|j: int| i <= j < attrs.len() ==> (#[trigger] attrs[j]).0 != key,
    decreases attrs.len() - i,
{
    if i < attrs.len() {
        lemma_first_attribute(attrs, key, i + 1);
        if attrs[i].0 == key {
            assert(attrs[i] == (key, attrs[i].1));
        }
    }
}

/// Items do not depend on how a tag is closed: every opening tag, written
/// `<t ...>` or `<t .../>`, is an item exactly when it has a `uniquename`
/// attribute, and the item's name is that attribute.
pub proof fn lemma_item_pick(t: XmlTagView)
    ensures
        item_pick(XmlEventView::Start(t)) == item_pick(XmlEventView::Empty(t)),
        item_pick(XmlEventView::Start(t)) == tag_attr(t, "uniquename".spec_bytes()),
{
}

/// Mobs do not depend on how a tag is closed: a `Mob` opening tag with a
/// `uniquename` is a mob of that name, and no other tag is a mob.
pub proof fn lemma_mob_pick(t: XmlTagView)
    ensures
        mob_pick(XmlEventView::Start(t)) == mob_pick(XmlEventView::Empty(t)),
        t.name == "Mob".spec_bytes() ==> mob_pick(XmlEventView::Start(t)) == tag_attr(t, "uniquename".spec_bytes()),
        t.name != "Mob".spec_bytes() ==> mob_pick(XmlEventView::Start(t)) is None,
{
}

/// Spells do not depend on how a tag is closed: every `activespell`,
/// `passivespell` or `togglespell` opening tag is exactly one spell, named by
/// its `uniquename`, else its `name`, else nothing; no other tag is a spell.
pub proof fn lemma_spell_pick(t: XmlTagView)
    ensures
        spell_pick(XmlEventView::Start(t)) == spell_pick(XmlEventView::Empty(t)),
        (t.name == "activespell".spec_bytes() || t.name == "passivespell".spec_bytes() || t.name
            == "togglespell".spec_bytes()) ==> spell_pick(XmlEventView::Start(t)) == Some(
            match tag_attr(t, "uniquename".spec_bytes()) {
                Some(u) => u,
                None => match tag_attr(t, "name".spec_bytes()) {
                    Some(n) => n,
                    None => Seq::<char>::empty(),
                },
            },
        ),
        !(t.name == "activespell".spec_bytes() || t.name == "passivespell".spec_bytes() || t.name
            == "togglespell".spec_bytes()) ==> spell_pick(XmlEventView::Start(t)) is None,
{
}

/// Buildings do not depend on how a tag is closed: every opening tag whose
/// name is longer than 8 bytes and ends in `building`, or is `labourer`,
/// `fortificationtype` or `durabilitythresholddefinition`, is exactly one
/// building with its `uniquename` and `displayname` (empty where missing);
/// no other tag is a building.
pub proof fn lemma_building_pick(t: XmlTagView)
    ensures
        building_pick(XmlEventView::Start(t)) == building_pick(XmlEventView::Empty(t)),
        ({
            let n = t.name;
            let is_building = (n.len() > 8 && n.subrange(n.len() - 8, n.len() as int) == "building".spec_bytes())
                || n == "labourer".spec_bytes() || n == "fortificationtype".spec_bytes()
                || n == "durabilitythresholddefinition".spec_bytes();
            &&& is_building ==> building_pick(XmlEventView::Start(t)) == Some((
                match tag_attr(t, "uniquename".spec_bytes()) {
                    Some(u) => u,
                    None => Seq::<char>::empty(),
                },
                match tag_attr(t, "displayname".spec_bytes()) {
                    Some(d) => d,
                    None => Seq::<char>::empty(),
                },
            ))
            &&& !is_building ==> building_pick(XmlEventView::Start(t)) is None
        }),
{
    lemma_tag_name_bytes();
    let n = t.name;
    if n.len() > 8 {
        assert(n.skip(n.len() - 8) =~= n.subrange(n.len() - 8, n.len() as int));
    }
}

/// Settings do not depend on how a tag is closed: every opening tag with a
/// `name` (else `key`) attribute is a setting with that key and its `value`
/// attribute (empty where missing); no other tag is a setting.
pub proof fn lemma_setting_pick(t: XmlTagView)
    ensures
        setting_pick(XmlEventView::Start(t)) == setting_pick(XmlEventView::Empty(t)),
        ({
            let key = match tag_attr(t, "name".spec_bytes()) {
                Some(k) => Some(k),
                None => tag_attr(t, "key".spec_bytes()),
            };
            &&& key matches Some(k) ==> setting_pick(XmlEventView::Start(t)) == Some((
                k,
                match tag_attr(t, "value".spec_bytes()) {
                    Some(v) => v,
                    None => Seq::<char>::empty(),
                },
            ))
            &&& key is None ==> setting_pick(XmlEventView::Start(t)) is None
        }),
{
}

/// Only events that are not tags give nothing to the picking extractors.
pub proof fn lemma_non_tags_pick_nothing(e: XmlEventView)
    requires
        !(e is Start || e is Empty),
    ensures
        item_pick(e) is None,
        mob_pick(e) is None,
        spell_pick(e) is None,
        building_pick(e) is None,
        setting_pick(e) is None,
{
}

/// The world fold does not depend on how a tag is closed. A `cluster` opening
/// tag starts a cluster with its `id`, `displayname` and `type` (empty where
/// missing) and no biome, keeping the clusters closed so far; a `biome`
/// opening tag inside a cluster sets only the biome, to its `type`; a `biome`
/// tag outside a cluster changes nothing; a `cluster` end tag inside a
/// cluster closes it, adding exactly that cluster.
pub proof fn lemma_world_tags(s: WorldState, t: XmlTagView, n: Seq<u8>)
    ensures
        world_step(s, XmlEventView::Start(t)) == world_step(s, XmlEventView::Empty(t)),
        t.name == "cluster".spec_bytes() ==> world_step(s, XmlEventView::Start(t)) == (WorldState {
            in_cluster: true,
            id: match tag_attr(t, "id".spec_bytes()) {
                Some(x) => x,
                None => Seq::<char>::empty(),
            },
            display: match tag_attr(t, "displayname".spec_bytes()) {
                Some(x) => x,
                None => Seq::<char>::empty(),
            },
            typ: match tag_attr(t, "type".spec_bytes()) {
                Some(x) => x,
                None => Seq::<char>::empty(),
            },
            biome: Seq::<char>::empty(),
            clusters: s.clusters,
        }),
        t.name == "biome".spec_bytes() && s.in_cluster ==> world_step(s, XmlEventView::Start(t)) == (WorldState {
            biome: match tag_attr(t, "type".spec_bytes()) {
                Some(x) => x,
                None => Seq::<char>::empty(),
            },
            ..s
        }),
        t.name == "biome".spec_bytes() && !s.in_cluster ==> world_step(s, XmlEventView::Start(t)) == s,
        n == "cluster".spec_bytes() && s.in_cluster ==> world_step(s, XmlEventView::End(n)).clusters
            == s.clusters.push((s.id, s.display, s.typ, s.biome)) && !world_step(s, XmlEventView::End(n)).in_cluster,
        n != "cluster".spec_bytes() || !s.in_cluster ==> world_step(s, XmlEventView::End(n)) == s,
{
    lemma_tag_name_bytes();
}

/// Self-closing tags change nothing in the TMX fold: only `<tu>`, `<tuv>` and
/// `<seg>` written as opening tags (with content) count.
pub proof fn lemma_tmx_ignores_self_closing(s: TmxState, t: XmlTagView)
    ensures
        tmx_step(s, XmlEventView::Empty(t)) == s,
{
}

/// Storing a translation in a unit whose languages are distinct replaces
/// the text of that language where it is there, in place, and otherwise
/// appends the pair; every other pair stays where it was.
pub proof fn lemma_unit_insert_effect(unit: Seq<(Seq<char>, Seq<char>)>, lang: Seq<char>, text: Seq<char>)
    requires
        languages_distinct(unit),
    ensures
        (exists|j: int| 0 <= j < unit.len() && (#[trigger] unit[j]).0 == lang) ==> {
            &&& unit_insert(unit, lang, text).len() == unit.len()
            &&& forall|j: int| 0 <= j < unit.len() ==> #[trigger] unit_insert(unit, lang, text)[j]
                == if unit[j].0 == lang { (lang, text) } else { unit[j] }
        },
        (forall|j: int| 0 <= j < unit.len() ==> (#[trigger] unit[j]).0 != lang) ==> unit_insert(unit, lang, text)
            == unit.push((lang, text)),
{
    lemma_unit_find(unit, lang, 0);
    let k = unit_find(unit, lang, 0);
    if exists|j: int| 0 <= j < unit.len() && (#[trigger] unit[j]).0 == lang {
        let j0 = choose|j: int| 0 <= j < unit.len() && (#[trigger] unit[j]).0 == lang;
        assert(k <= j0);
        assert(k < unit.len());
        assert forall|j: int| 0 <= j < unit.len() implies #[trigger] unit_insert(unit, lang, text)[j]
            == if unit[j].0 == lang { (lang, text) } else { unit[j] } by {
            if j != k && unit[j].0 == lang {
                if j < k {
                    assert(unit[j].0 != unit[k].0);
                } else {
                    assert(unit[k].0 != unit[j].0);
                }
            }
        }
    }
}

/// What each TMX tag and text does. `<tu>` starts an empty unit; `<tuv>`
/// enters a variant of the language given by `xml:lang`, else `lang`, else
/// none; `<seg>` opens an empty segment; text inside a segment is appended to
/// it and text elsewhere is dropped; `</seg>` closes the segment; `</tuv>`
/// stores the segment text under the variant's language, `en-US` when it has
/// none; `</tu>` puts out the unit's translations in order.
pub proof fn lemma_tmx_tags(s: TmxState, t: XmlTagView, n: Seq<u8>, x: Option<Seq<char>>)
    ensures
        t.name == "tu".spec_bytes() ==> tmx_step(s, XmlEventView::Start(t)) == (TmxState {
            unit: Seq::empty(),
            place: TuPlace::InTu,
            ..s
        }),
        t.name == "tuv".spec_bytes() ==> tmx_step(s, XmlEventView::Start(t)) == (TmxState {
            place: TuPlace::InTuv(
                match tag_attr(t, "xml:lang".spec_bytes()) {
                    Some(l) => l,
                    None => match tag_attr(t, "lang".spec_bytes()) {
                        Some(l) => l,
                        None => Seq::<char>::empty(),
                    },
                },
            ),
            ..s
        }),
        t.name == "seg".spec_bytes() ==> tmx_step(s, XmlEventView::Start(t)) == (TmxState {
            seg: Seq::empty(),
            in_seg: true,
            ..s
        }),
        (s.in_seg && x is Some) ==> tmx_step(s, XmlEventView::Text(x)) == (TmxState { seg: s.seg + x->0, ..s }),
        !(s.in_seg && x is Some) ==> tmx_step(s, XmlEventView::Text(x)) == s,
        n == "seg".spec_bytes() ==> tmx_step(s, XmlEventView::End(n)) == (TmxState { in_seg: false, ..s }),
        n == "tuv".spec_bytes() ==> tmx_step(s, XmlEventView::End(n)).place == TuPlace::InTu,
        n == "tuv".spec_bytes() ==> match s.place {
            TuPlace::InTuv(lang) => tmx_step(s, XmlEventView::End(n)).unit == unit_insert(
                s.unit,
                if lang.len() == 0 { "en-US"@ } else { lang },
                s.seg,
            ),
            _ => tmx_step(s, XmlEventView::End(n)).unit == s.unit,
        },
        n == "tu".spec_bytes() ==> tmx_step(s, XmlEventView::End(n)) == (TmxState {
            out: s.out + s.unit,
            place: TuPlace::Outside,
            ..s
        }),
{
    lemma_tag_name_bytes();
    assert("tu".spec_bytes() != "tuv".spec_bytes()) by {
        assert("tu".spec_bytes().len() != "tuv".spec_bytes().len());
    }
    assert("tu".spec_bytes() != "seg".spec_bytes()) by {
        assert("tu".spec_bytes().len() != "seg".spec_bytes().len());
    }
    assert("tuv".spec_bytes() != "seg".spec_bytes()) by {
        assert("tuv".spec_bytes()[0] != "seg".spec_bytes()[0]);
    }
}

} // verus!
