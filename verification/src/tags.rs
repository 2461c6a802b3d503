//! What the tags of map elements say: the name and speed limit of a way,
//! whether it is one way or a roundabout, whether a node has a traffic
//! light.
use crate::builder::{NodeParseData, PBFParseResult, WayParseData};
use std::collections::BTreeMap;
use vstd::prelude::*;

verus! {

/// The value of a decimal digit.
pub open spec fn digit_value(c: char) -> Option<nat> {
    if '0' <= c <= '9' {
        Some((c as nat - '0' as nat) as nat)
    } else {
        None
    }
}

/// The number that a run of decimal digits writes; the empty run writes 0.
pub open spec fn decimal_value(digits: Seq<char>) -> Option<nat>
    decreases digits.len(),
{
    if digits.len() == 0 {
        Some(0)
    } else {
        match (decimal_value(digits.drop_last()), digit_value(digits.last())) {
            (Some(high), Some(low)) => Some(10 * high + low),
            _ => None,
        }
    }
}

/// The number below 256 that a text writes: decimal digits, at least one,
/// after at most one plus sign, and nothing else.
pub open spec fn parsed_u8(text: Seq<char>) -> Option<u8> {
    let digits = if text.len() > 0 && text[0] == '+' {
        text.skip(1)
    } else {
        text
    };
    if digits.len() == 0 {
        None
    } else {
        match decimal_value(digits) {
            Some(value) => if value <= 255 {
                Some(value as u8)
            } else {
                None
            },
            None => None,
        }
    }
}

/// `str::parse::<u8>`: the number that the text writes in decimal digits
/// after an optional plus sign, if it is below 256; nothing for any other
/// text.
#[verifier::external_body]
fn parse_u8(text: &str) -> (value: Option<u8>)
    ensures
        value == parsed_u8(text@),
{
    text.parse::<u8>().ok()
}

/// `str::eq`: whether two texts hold the same characters.
#[verifier::external_body]
fn text_equals(a: &str, b: &str) -> (same: bool)
    ensures
        same == (a@ == b@),
{
    a == b
}

/// The value of the first tag, from number `k` on, with key `name:en`.
pub open spec fn way_name_from(tags: Seq<(String, String)>, k: int) -> Option<String>
    decreases tags.len() - k,
{
    if 0 <= k < tags.len() {
        if tags[k].0@ == "name:en"@ {
            Some(tags[k].1)
        } else {
            way_name_from(tags, k + 1)
        }
    } else {
        None
    }
}

/// The number of the first tag, from number `k` on, with key `maxspeed`
/// whose value writes a number below 256.
pub open spec fn way_speed_from(tags: Seq<(String, String)>, k: int) -> Option<u8>
    decreases tags.len() - k,
{
    if 0 <= k < tags.len() {
        if tags[k].0@ == "maxspeed"@ && parsed_u8(tags[k].1@).is_some() {
            parsed_u8(tags[k].1@)
        } else {
            way_speed_from(tags, k + 1)
        }
    } else {
        None
    }
}

/// A tag says `oneway=yes`.
pub open spec fn says_oneway(tags: Seq<(String, String)>) -> bool {
    exists|k: int|
        0 <= k < tags.len() && (#[trigger] tags[k]).0@ == "oneway"@ && tags[k].1@ == "yes"@
}

/// A tag has the value `value`.
pub open spec fn says_value(tags: Seq<(String, String)>, value: Seq<char>) -> bool {
    exists|k: int| 0 <= k < tags.len() && (#[trigger] tags[k]).1@ == value
}

/// The way that an element with these tags and nodes gives.
pub open spec fn way_of(id: i64, tags: Seq<(String, String)>, refs: Vec<i64>) -> WayParseData {
    WayParseData {
        id,
        name: way_name_from(tags, 0),
        max_speed: way_speed_from(tags, 0),
        is_roundabout: says_value(tags, "roundabout"@),
        is_oneway: says_oneway(tags),
        refs,
    }
}

/// The value of the first tag with key `name:en`.
pub fn parse_way_name(tags: &Vec<(String, String)>) -> (name: Option<String>)
    ensures
        name == way_name_from(tags@, 0),
{
    let mut k: usize = 0;
    while k < tags.len()
        invariant
            k <= tags@.len(),
            way_name_from(tags@, k as int) == way_name_from(tags@, 0),
        decreases tags@.len() - k,
    {
        if text_equals(tags[k].0.as_str(), "name:en") {
            return Some(tags[k].1.clone());
        }
        k += 1;
    }
    None
}

/// The number of the first tag with key `maxspeed` whose value writes a
/// number below 256.
pub fn parse_way_max_speed(tags: &Vec<(String, String)>) -> (speed: Option<u8>)
    ensures
        speed == way_speed_from(tags@, 0),
{
    let mut k: usize = 0;
    while k < tags.len()
        invariant
            k <= tags@.len(),
            way_speed_from(tags@, k as int) == way_speed_from(tags@, 0),
        decreases tags@.len() - k,
    {
        if text_equals(tags[k].0.as_str(), "maxspeed") {
            let value = parse_u8(tags[k].1.as_str());
            if value.is_some() {
                return value;
            }
        }
        k += 1;
    }
    None
}

/// Whether a tag says `oneway=yes`.
pub fn is_oneway(tags: &Vec<(String, String)>) -> (oneway: bool)
    ensures
        oneway == says_oneway(tags@),
{
    let mut k: usize = 0;
    while k < tags.len()
        invariant
            k <= tags@.len(),
            forall|j: int|
                0 <= j < k ==> !((#[trigger] tags@[j]).0@ == "oneway"@ && tags@[j].1@ == "yes"@),
        decreases tags@.len() - k,
    {
        if text_equals(tags[k].0.as_str(), "oneway") && text_equals(tags[k].1.as_str(), "yes") {
            return true;
        }
        k += 1;
    }
    false
}

/// Whether a tag has the value `value`.
pub fn has_value(tags: &Vec<(String, String)>, value: &str) -> (found: bool)
    ensures
        found == says_value(tags@, value@),
{
    let mut k: usize = 0;
    while k < tags.len()
        invariant
            k <= tags@.len(),
            forall|j: int| 0 <= j < k ==> (#[trigger] tags@[j]).1@ != value@,
        decreases tags@.len() - k,
    {
        if text_equals(tags[k].1.as_str(), value) {
            return true;
        }
        k += 1;
    }
    false
}

/// Whether a tag has the value `roundabout`.
pub fn is_roundabout(tags: &Vec<(String, String)>) -> (roundabout: bool)
    ensures
        roundabout == says_value(tags@, "roundabout"@),
{
    has_value(tags, "roundabout")
}

/// Whether a tag has the value `traffic_signals`.
pub fn is_traffic_signal(tags: &Vec<(String, String)>) -> (signal: bool)
    ensures
        signal == says_value(tags@, "traffic_signals"@),
{
    has_value(tags, "traffic_signals")
}

impl PBFParseResult {
    /// A map without nodes and ways.
    pub fn new() -> (maps: Self)
        ensures
            maps.osm_id_to_node@ == Map::<i64, NodeParseData>::empty(),
            maps.ways@ == Map::<i64, WayParseData>::empty(),
    {
        Self { osm_id_to_node: BTreeMap::new(), ways: BTreeMap::new() }
    }

    /// Enters a node element: its position, in units of 1e-7 degree, and
    /// whether its tags give it a traffic light. Its dense index is the
    /// number of nodes entered before; a node of the same id is replaced.
    pub fn add_node(&mut self, id: i64, lat: i32, lon: i32, tags: &Vec<(String, String)>)
        ensures
            final(self).ways == old(self).ways,
            final(self).osm_id_to_node@ == old(self).osm_id_to_node@.insert(
                id,
                NodeParseData {
                    dense_index: old(self).osm_id_to_node@.dom().len() as usize,
                    lat,
                    lon,
                    is_traffic_signal: says_value(tags@, "traffic_signals"@),
                },
            ),
    {
        let is_traffic_signal = is_traffic_signal(tags);
        let node_data = NodeParseData {
            dense_index: self.osm_id_to_node.len(),
            lat,
            lon,
            is_traffic_signal,
        };
        let _ = self.osm_id_to_node.insert(id, node_data);
    }

    /// Enters a way element with what its tags say and the ids of its
    /// nodes; a way of the same id is replaced.
    pub fn add_way(&mut self, id: i64, tags: &Vec<(String, String)>, refs: Vec<i64>)
        ensures
            final(self).osm_id_to_node == old(self).osm_id_to_node,
            final(self).ways@ == old(self).ways@.insert(id, way_of(id, tags@, refs)),
    {
        let name = parse_way_name(tags);
        let max_speed = parse_way_max_speed(tags);
        let is_oneway = is_oneway(tags);
        let is_roundabout = is_roundabout(tags);
        let way_data = WayParseData { id, name, max_speed, is_roundabout, is_oneway, refs };
        let _ = self.ways.insert(id, way_data);
    }
}

} // verus!
