use crate::text::str_eq;
use std::collections::VecDeque;
use vstd::prelude::*;
use vstd::string::*;

verus! {

// ── Building kinds and roof shapes ──────────────────────────────────────────
/// Roof shapes the mesh generator knows how to build.
#[derive(PartialEq, Eq, Structural, Debug, Clone, Copy)]
pub enum RoofShape {
    Flat,
    Skillion,
    Gabled,
    Hipped,
    Pyramidal,
    Dome,
}

/// The roof shape named by an OSM `roof:shape` value; anything the mesh
/// generator cannot build is treated as flat.
pub open spec fn roof_shape_of(tag: Seq<char>) -> RoofShape {
    if tag == "skillion"@ {
        RoofShape::Skillion
    } else if tag == "gabled"@ {
        RoofShape::Gabled
    } else if tag == "hipped"@ {
        RoofShape::Hipped
    } else if tag == "pyramidal"@ {
        RoofShape::Pyramidal
    } else if tag == "dome"@ {
        RoofShape::Dome
    } else {
        RoofShape::Flat
    }
}

/// The five `roof:shape` values the mesh generator builds each name their
/// shape; every other value reads as flat.
pub proof fn lemma_roof_shape_names(tag: Seq<char>)
    ensures
        tag == "skillion"@ ==> roof_shape_of(tag) == RoofShape::Skillion,
        tag == "gabled"@ ==> roof_shape_of(tag) == RoofShape::Gabled,
        tag == "hipped"@ ==> roof_shape_of(tag) == RoofShape::Hipped,
        tag == "pyramidal"@ ==> roof_shape_of(tag) == RoofShape::Pyramidal,
        tag == "dome"@ ==> roof_shape_of(tag) == RoofShape::Dome,
        !set!["skillion"@, "gabled"@, "hipped"@, "pyramidal"@, "dome"@].contains(tag)
            ==> roof_shape_of(tag) == RoofShape::Flat,
{
    reveal_strlit("skillion");
    assert("skillion"@.len() == 8);
    reveal_strlit("gabled");
    assert("gabled"@.len() == 6 && "gabled"@[0] == 'g');
    reveal_strlit("hipped");
    assert("hipped"@.len() == 6 && "hipped"@[0] == 'h');
    reveal_strlit("pyramidal");
    assert("pyramidal"@.len() == 9);
    reveal_strlit("dome");
    assert("dome"@.len() == 4);
}

impl RoofShape {
    /// Read an OSM `roof:shape` value.
    pub fn from_tag(tag: &str) -> (shape: RoofShape)
        ensures
            shape == roof_shape_of(tag@),
            tag@ == "skillion"@ ==> shape == RoofShape::Skillion,
            tag@ == "gabled"@ ==> shape == RoofShape::Gabled,
            tag@ == "hipped"@ ==> shape == RoofShape::Hipped,
            tag@ == "pyramidal"@ ==> shape == RoofShape::Pyramidal,
            tag@ == "dome"@ ==> shape == RoofShape::Dome,
            !set!["skillion"@, "gabled"@, "hipped"@, "pyramidal"@, "dome"@].contains(tag@) ==> shape
                == RoofShape::Flat,
    {
        proof {
            lemma_roof_shape_names(tag@);
        }
        if str_eq(tag, "skillion") {
            RoofShape::Skillion
        } else if str_eq(tag, "gabled") {
            RoofShape::Gabled
        } else if str_eq(tag, "hipped") {
            RoofShape::Hipped
        } else if str_eq(tag, "pyramidal") {
            RoofShape::Pyramidal
        } else if str_eq(tag, "dome") {
            RoofShape::Dome
        } else {
            RoofShape::Flat
        }
    }
}

/// Building types whose untagged roofs are almost always gabled.
pub open spec fn is_house_kind(kind: Seq<char>) -> bool {
    kind == "house"@ || kind == "detached"@ || kind == "semidetached_house"@ || kind == "bungalow"@
        || kind == "cabin"@ || kind == "hut"@ || kind == "farmhouse"@
}

fn house_kind(kind: &str) -> (b: bool)
    ensures
        b == is_house_kind(kind@),
{
    str_eq(kind, "house") || str_eq(kind, "detached") || str_eq(kind, "semidetached_house")
        || str_eq(kind, "bungalow") || str_eq(kind, "cabin") || str_eq(kind, "hut") || str_eq(
        kind,
        "farmhouse",
    )
}

/// The OSM tags that decide what kind of element a building is and which
/// roof it gets. A tag is `Some` when the element carries it as a string.
pub struct BuildingTags {
    pub building: Option<String>,
    pub building_part: Option<String>,
    pub roof_shape: Option<String>,
}

/// A string tag that is present and not `no`.
pub open spec fn tag_set(tag: Option<String>) -> bool {
    match tag {
        Some(v) => v@ != "no"@,
        None => false,
    }
}

impl BuildingTags {
    /// A `building` outline (the `building` tag is set and not `no`).
    pub open spec fn spec_is_building(self) -> bool {
        tag_set(self.building)
    }

    /// A `building:part` that is not also a building outline.
    pub open spec fn spec_is_part(self) -> bool {
        !self.spec_is_building() && self.building_part is Some
    }

    /// The type value that classifies the element: `building:part` for
    /// parts, `building` otherwise.
    pub open spec fn kind(self) -> Option<String> {
        if self.spec_is_part() {
            self.building_part
        } else {
            self.building
        }
    }

    /// The roof: the `roof:shape` tag when present; otherwise gabled for a
    /// four-cornered house-like building, flat for anything else.
    pub open spec fn spec_roof(self, corner_count: usize) -> RoofShape {
        match self.roof_shape {
            Some(t) => roof_shape_of(t@),
            None => if corner_count == 4 && (self.kind() matches Some(k) && is_house_kind(k@)) {
                RoofShape::Gabled
            } else {
                RoofShape::Flat
            },
        }
    }

    pub fn is_building(&self) -> (b: bool)
        ensures
            b == self.spec_is_building(),
    {
        match &self.building {
            Some(v) => !str_eq(v.as_str(), "no"),
            None => false,
        }
    }

    pub fn is_part(&self) -> (b: bool)
        ensures
            b == self.spec_is_part(),
    {
        !self.is_building() && self.building_part.is_some()
    }

    /// Resolve the roof shape; `corner_count` is the number of distinct
    /// corners of the footprint.
    pub fn roof(&self, corner_count: usize) -> (shape: RoofShape)
        ensures
            shape == self.spec_roof(corner_count),
            self.roof_shape matches Some(t) ==> shape == roof_shape_of(t@),
            self.roof_shape is None ==> shape == if corner_count == 4 && ((if !tag_set(
                self.building,
            ) && self.building_part is Some {
                self.building_part
            } else {
                self.building
            }) matches Some(k) && set![
                "house"@,
                "detached"@,
                "semidetached_house"@,
                "bungalow"@,
                "cabin"@,
                "hut"@,
                "farmhouse"@,
            ].contains(k@)) {
                RoofShape::Gabled
            } else {
                RoofShape::Flat
            },
    {
        proof {
            if self.roof_shape is None {
                lemma_untagged_house_roofs(*self, corner_count);
            }
        }
        match &self.roof_shape {
            Some(t) => RoofShape::from_tag(t.as_str()),
            None => {
                let kind = if self.is_part() {
                    &self.building_part
                } else {
                    &self.building
                };
                let house = match kind {
                    Some(k) => house_kind(k.as_str()),
                    None => false,
                };
                if corner_count == 4 && house {
                    RoofShape::Gabled
                } else {
                    RoofShape::Flat
                }
            },
        }
    }
}

/// An element without a `roof:shape` tag gets a gabled roof exactly when its
/// footprint has four corners and its type (`building:part` for a part,
/// `building` otherwise) is house, detached, semidetached_house, bungalow,
/// cabin, hut or farmhouse; any other untagged element gets a flat roof.
pub proof fn lemma_untagged_house_roofs(tags: BuildingTags, corner_count: usize)
    requires
        tags.roof_shape is None,
    ensures
        tags.spec_roof(corner_count) == if corner_count == 4 && ((if !tag_set(tags.building)
            && tags.building_part is Some {
            tags.building_part
        } else {
            tags.building
        }) matches Some(k) && set![
            "house"@,
            "detached"@,
            "semidetached_house"@,
            "bungalow"@,
            "cabin"@,
            "hut"@,
            "farmhouse"@,
        ].contains(k@)) {
            RoofShape::Gabled
        } else {
            RoofShape::Flat
        },
{
}

/// Default heights in whole metres by OSM `building=` type.
pub open spec fn building_type_heights() -> Map<Seq<char>, u32> {
    map![
        "house"@ => 6u32, "detached"@ => 6u32, "bungalow"@ => 6u32, "cabin"@ => 6u32,
        "hut"@ => 6u32, "static_caravan"@ => 6u32,
        "garage"@ => 3u32, "garages"@ => 3u32, "shed"@ => 3u32, "carport"@ => 3u32,
        "roof"@ => 3u32, "kiosk"@ => 3u32,
        "apartments"@ => 15u32, "residential"@ => 15u32, "dormitory"@ => 15u32,
        "terrace"@ => 15u32,
        "commercial"@ => 14u32, "office"@ => 14u32, "hotel"@ => 14u32,
        "retail"@ => 8u32, "supermarket"@ => 8u32, "warehouse"@ => 8u32,
        "industrial"@ => 9u32, "manufacture"@ => 9u32, "hangar"@ => 9u32,
        "church"@ => 18u32, "cathedral"@ => 18u32, "mosque"@ => 18u32, "temple"@ => 18u32,
        "chapel"@ => 18u32, "basilica"@ => 18u32,
        "school"@ => 12u32, "university"@ => 12u32, "college"@ => 12u32,
        "hospital"@ => 12u32, "public"@ => 12u32, "civic"@ => 12u32, "government"@ => 12u32,
        "tower"@ => 40u32, "skyscraper"@ => 40u32,
        "colonnade"@ => 16u32
    ]
}

/// Plausible height in metres for an OSM `building=` type, so areas without
/// height data keep relative proportions; a building whose type is not one
/// of these (`building=yes` among them) gets the default 10 m.
pub open spec fn default_height_m(kind: Seq<char>) -> u32 {
    if kind == "house"@ || kind == "detached"@ || kind == "bungalow"@ || kind == "cabin"@ || kind
        == "hut"@ || kind == "static_caravan"@ {
        6
    } else if kind == "garage"@ || kind == "garages"@ || kind == "shed"@ || kind == "carport"@
        || kind == "roof"@ || kind == "kiosk"@ {
        3
    } else if kind == "apartments"@ || kind == "residential"@ || kind == "dormitory"@ || kind
        == "terrace"@ {
        15
    } else if kind == "commercial"@ || kind == "office"@ || kind == "hotel"@ {
        14
    } else if kind == "retail"@ || kind == "supermarket"@ || kind == "warehouse"@ {
        8
    } else if kind == "industrial"@ || kind == "manufacture"@ || kind == "hangar"@ {
        9
    } else if kind == "church"@ || kind == "cathedral"@ || kind == "mosque"@ || kind == "temple"@
        || kind == "chapel"@ || kind == "basilica"@ {
        18
    } else if kind == "school"@ || kind == "university"@ || kind == "college"@ || kind
        == "hospital"@ || kind == "public"@ || kind == "civic"@ || kind == "government"@ {
        12
    } else if kind == "tower"@ || kind == "skyscraper"@ {
        40
    } else if kind == "colonnade"@ {
        16
    } else {
        10
    }
}

/// Default height in whole metres for a building type.
pub fn default_height_for_type(kind: &str) -> (h: u32)
    ensures
        h == default_height_m(kind@),
        h == if building_type_heights().contains_key(kind@) {
            building_type_heights()[kind@]
        } else {
            10u32
        },
{
    proof {
        lemma_default_height_table(kind@);
    }
    if str_eq(kind, "house") || str_eq(kind, "detached") || str_eq(kind, "bungalow") || str_eq(
        kind,
        "cabin",
    ) || str_eq(kind, "hut") || str_eq(kind, "static_caravan") {
        6
    } else if str_eq(kind, "garage") || str_eq(kind, "garages") || str_eq(kind, "shed") || str_eq(
        kind,
        "carport",
    ) || str_eq(kind, "roof") || str_eq(kind, "kiosk") {
        3
    } else if str_eq(kind, "apartments") || str_eq(kind, "residential") || str_eq(kind, "dormitory")
        || str_eq(kind, "terrace") {
        15
    } else if str_eq(kind, "commercial") || str_eq(kind, "office") || str_eq(kind, "hotel") {
        14
    } else if str_eq(kind, "retail") || str_eq(kind, "supermarket") || str_eq(kind, "warehouse") {
        8
    } else if str_eq(kind, "industrial") || str_eq(kind, "manufacture") || str_eq(kind, "hangar") {
        9
    } else if str_eq(kind, "church") || str_eq(kind, "cathedral") || str_eq(kind, "mosque")
        || str_eq(kind, "temple") || str_eq(kind, "chapel") || str_eq(kind, "basilica") {
        18
    } else if str_eq(kind, "school") || str_eq(kind, "university") || str_eq(kind, "college")
        || str_eq(kind, "hospital") || str_eq(kind, "public") || str_eq(kind, "civic") || str_eq(
        kind,
        "government",
    ) {
        12
    } else if str_eq(kind, "tower") || str_eq(kind, "skyscraper") {
        40
    } else if str_eq(kind, "colonnade") {
        16
    } else {
        10
    }
}

/// The default height of a building type is its entry in the table of
/// building types, and 10 m for a type the table does not list.
pub proof fn lemma_default_height_table(kind: Seq<char>)
    ensures
        default_height_m(kind) == if building_type_heights().contains_key(kind) {
            building_type_heights()[kind]
        } else {
            10u32
        },
{
    reveal_strlit("house");
    assert("house"@.len() == 5 && "house"@[0] == 'h' && "house"@[2] == 'u');
    reveal_strlit("detached");
    assert("detached"@.len() == 8 && "detached"@[0] == 'd');
    reveal_strlit("bungalow");
    assert("bungalow"@.len() == 8 && "bungalow"@[0] == 'b' && "bungalow"@[1] == 'u');
    reveal_strlit("cabin");
    assert("cabin"@.len() == 5 && "cabin"@[0] == 'c' && "cabin"@[1] == 'a');
    reveal_strlit("hut");
    assert("hut"@.len() == 3);
    reveal_strlit("static_caravan");
    assert("static_caravan"@.len() == 14);
    reveal_strlit("garage");
    assert("garage"@.len() == 6 && "garage"@[0] == 'g');
    reveal_strlit("garages");
    assert("garages"@.len() == 7 && "garages"@[0] == 'g');
    reveal_strlit("shed");
    assert("shed"@.len() == 4 && "shed"@[0] == 's');
    reveal_strlit("carport");
    assert("carport"@.len() == 7 && "carport"@[0] == 'c' && "carport"@[1] == 'a');
    reveal_strlit("roof");
    assert("roof"@.len() == 4 && "roof"@[0] == 'r');
    reveal_strlit("kiosk");
    assert("kiosk"@.len() == 5 && "kiosk"@[0] == 'k');
    reveal_strlit("apartments");
    assert("apartments"@.len() == 10 && "apartments"@[0] == 'a');
    reveal_strlit("residential");
    assert("residential"@.len() == 11 && "residential"@[0] == 'r');
    reveal_strlit("dormitory");
    assert("dormitory"@.len() == 9 && "dormitory"@[0] == 'd');
    reveal_strlit("terrace");
    assert("terrace"@.len() == 7 && "terrace"@[0] == 't');
    reveal_strlit("commercial");
    assert("commercial"@.len() == 10 && "commercial"@[0] == 'c');
    reveal_strlit("office");
    assert("office"@.len() == 6 && "office"@[0] == 'o');
    reveal_strlit("hotel");
    assert("hotel"@.len() == 5 && "hotel"@[0] == 'h' && "hotel"@[2] == 't');
    reveal_strlit("retail");
    assert("retail"@.len() == 6 && "retail"@[0] == 'r');
    reveal_strlit("supermarket");
    assert("supermarket"@.len() == 11 && "supermarket"@[0] == 's');
    reveal_strlit("warehouse");
    assert("warehouse"@.len() == 9 && "warehouse"@[0] == 'w');
    reveal_strlit("industrial");
    assert("industrial"@.len() == 10 && "industrial"@[0] == 'i');
    reveal_strlit("manufacture");
    assert("manufacture"@.len() == 11 && "manufacture"@[0] == 'm');
    reveal_strlit("hangar");
    assert("hangar"@.len() == 6 && "hangar"@[0] == 'h');
    reveal_strlit("church");
    assert("church"@.len() == 6 && "church"@[0] == 'c' && "church"@[2] == 'u');
    reveal_strlit("cathedral");
    assert("cathedral"@.len() == 9 && "cathedral"@[0] == 'c' && "cathedral"@[1] == 'a');
    reveal_strlit("mosque");
    assert("mosque"@.len() == 6 && "mosque"@[0] == 'm');
    reveal_strlit("temple");
    assert("temple"@.len() == 6 && "temple"@[0] == 't');
    reveal_strlit("chapel");
    assert("chapel"@.len() == 6 && "chapel"@[0] == 'c' && "chapel"@[2] == 'a');
    reveal_strlit("basilica");
    assert("basilica"@.len() == 8 && "basilica"@[0] == 'b' && "basilica"@[1] == 'a');
    reveal_strlit("school");
    assert("school"@.len() == 6 && "school"@[0] == 's');
    reveal_strlit("university");
    assert("university"@.len() == 10 && "university"@[0] == 'u');
    reveal_strlit("college");
    assert("college"@.len() == 7 && "college"@[0] == 'c' && "college"@[1] == 'o');
    reveal_strlit("hospital");
    assert("hospital"@.len() == 8 && "hospital"@[0] == 'h');
    reveal_strlit("public");
    assert("public"@.len() == 6 && "public"@[0] == 'p');
    reveal_strlit("civic");
    assert("civic"@.len() == 5 && "civic"@[0] == 'c' && "civic"@[1] == 'i');
    reveal_strlit("government");
    assert("government"@.len() == 10 && "government"@[0] == 'g');
    reveal_strlit("tower");
    assert("tower"@.len() == 5 && "tower"@[0] == 't');
    reveal_strlit("skyscraper");
    assert("skyscraper"@.len() == 10 && "skyscraper"@[0] == 's');
    reveal_strlit("colonnade");
    assert("colonnade"@.len() == 9 && "colonnade"@[0] == 'c' && "colonnade"@[1] == 'o');
}

/// Deterministic per-building variation, in thousandths, seeded by the OSM
/// id: `(id · 2654435761 mod 2⁶⁴) mod 1000`. Defaulted heights are scaled by
/// `0.88 + 0.24 · permille / 1000`.
pub fn jitter_permille(id: u64) -> (p: u32)
    ensures
        p == id.wrapping_mul(2_654_435_761) % 1000,
        p < 1000,
{
    (id.wrapping_mul(2_654_435_761) % 1000) as u32
}

// ── Overpass / OSM API replies ──────────────────────────────────────────────
/// How a fetch treats an Overpass mirror's HTTP status.
#[derive(PartialEq, Eq, Structural, Debug, Clone, Copy)]
pub enum OverpassReply {
    /// 2xx: parse the elements.
    Parse,
    /// 429 or 406: rate-limited or rejected; try the next mirror.
    RateLimited,
    /// Any other status: try the next mirror.
    Failed,
}

pub fn classify_overpass_status(status: u16) -> (reply: OverpassReply)
    ensures
        reply == if 200 <= status <= 299 {
            OverpassReply::Parse
        } else if status == 429 || status == 406 {
            OverpassReply::RateLimited
        } else {
            OverpassReply::Failed
        },
{
    if 200 <= status && status <= 299 {
        OverpassReply::Parse
    } else if status == 429 || status == 406 {
        OverpassReply::RateLimited
    } else {
        OverpassReply::Failed
    }
}

/// How a fetch treats the OSM API's HTTP status.
#[derive(PartialEq, Eq, Structural, Debug, Clone, Copy)]
pub enum OsmApiReply {
    /// 2xx: parse the elements.
    Parse,
    /// 509: the tile holds more than the API's node limit.
    TooDense,
    /// Any other status: the tile failed.
    Failed,
}

pub fn classify_osm_api_status(status: u16) -> (reply: OsmApiReply)
    ensures
        reply == if status == 509 {
            OsmApiReply::TooDense
        } else if 200 <= status <= 299 {
            OsmApiReply::Parse
        } else {
            OsmApiReply::Failed
        },
{
    if status == 509 {
        OsmApiReply::TooDense
    } else if 200 <= status && status <= 299 {
        OsmApiReply::Parse
    } else {
        OsmApiReply::Failed
    }
}

/// The mirror tried at attempt `attempt` (from 0) for tile number `tile_no`:
/// the starting mirror rotates per tile to spread load.
pub fn overpass_mirror(tile_no: usize, attempt: usize, n_mirrors: usize) -> (m: usize)
    requires
        n_mirrors > 0,
        tile_no + attempt <= usize::MAX,
    ensures
        m == (tile_no + attempt) % (n_mirrors as int),
        m < n_mirrors,
{
    (tile_no + attempt) % n_mirrors
}

// ── Fetching one tile ───────────────────────────────────────────────────────
/// What happened to the last request of a tile fetch.
#[derive(PartialEq, Eq, Structural, Debug, Clone, Copy)]
pub enum TileFetchEvent {
    /// Nothing yet: the fetch begins.
    Start,
    /// An Overpass mirror answered with this HTTP status.
    OverpassStatus(u16),
    /// An Overpass mirror could not be reached.
    OverpassUnreachable,
    /// The OSM API answered with this HTTP status.
    OsmApiStatus(u16),
    /// The OSM API could not be reached.
    OsmApiUnreachable,
}

/// Why a tile could not be fetched.
#[derive(PartialEq, Eq, Structural, Debug, Clone, Copy)]
pub enum TileFailure {
    /// The OSM API refused the tile as too dense (status 509).
    TooDense,
    /// The OSM API answered with this unsuccessful status.
    OsmApiStatus(u16),
    /// The OSM API could not be reached.
    OsmApiUnreachable,
}

/// What to do next in a tile fetch.
#[derive(PartialEq, Eq, Structural, Debug, Clone, Copy)]
pub enum TileFetchAction {
    /// Send the Overpass query to mirror number `mirror`.
    QueryOverpass { mirror: usize },
    /// Parse the Overpass answer (`out geom` form).
    ParseOverpass,
    /// All mirrors failed: ask the OSM API for the tile.
    QueryOsmApi,
    /// Parse the OSM API answer (node-reference form).
    ParseOsmApi,
    /// The tile failed.
    Fail(TileFailure),
}

/// The fetch of one tile: the Overpass mirrors in turn, starting at a
/// mirror that rotates with the tile number, then the OSM API.
pub struct TileFetch {
    tile_no: usize,
    n_mirrors: usize,
    tried: usize,
}

/// The next Overpass mirror to try, or the OSM API once all were tried.
pub open spec fn next_source(tile_no: int, tried: int, n_mirrors: int) -> TileFetchAction {
    if tried < n_mirrors {
        TileFetchAction::QueryOverpass { mirror: ((tile_no + tried) % n_mirrors) as usize }
    } else {
        TileFetchAction::QueryOsmApi
    }
}

/// The action that follows `event` when `tried` mirrors were asked so far.
pub open spec fn fetch_action(tile_no: int, tried: int, n_mirrors: int, event: TileFetchEvent) -> TileFetchAction {
    match event {
        TileFetchEvent::Start => next_source(tile_no, tried, n_mirrors),
        TileFetchEvent::OverpassStatus(s) => if 200 <= s <= 299 {
            TileFetchAction::ParseOverpass
        } else {
            next_source(tile_no, tried, n_mirrors)
        },
        TileFetchEvent::OverpassUnreachable => next_source(tile_no, tried, n_mirrors),
        TileFetchEvent::OsmApiStatus(s) => if s == 509 {
            TileFetchAction::Fail(TileFailure::TooDense)
        } else if 200 <= s <= 299 {
            TileFetchAction::ParseOsmApi
        } else {
            TileFetchAction::Fail(TileFailure::OsmApiStatus(s))
        },
        TileFetchEvent::OsmApiUnreachable => TileFetchAction::Fail(TileFailure::OsmApiUnreachable),
    }
}

/// A tile fetch asks each Overpass mirror at most once: the queries made
/// after `k1` and after `k2` mirrors were tried go to different mirrors.
pub proof fn lemma_mirrors_asked_once(tile_no: int, n_mirrors: int, k1: int, k2: int)
    requires
        0 <= tile_no,
        0 <= k1 < k2 < n_mirrors <= usize::MAX,
    ensures
        next_source(tile_no, k1, n_mirrors) != next_source(tile_no, k2, n_mirrors),
{
    let a = tile_no + k1;
    let b = tile_no + k2;
    vstd::arithmetic::div_mod::lemma_fundamental_div_mod(a, n_mirrors);
    vstd::arithmetic::div_mod::lemma_fundamental_div_mod(b, n_mirrors);
    vstd::arithmetic::div_mod::lemma_mod_bound(a, n_mirrors);
    vstd::arithmetic::div_mod::lemma_mod_bound(b, n_mirrors);
    if a % n_mirrors == b % n_mirrors {
        let qa = a / n_mirrors;
        let qb = b / n_mirrors;
        assert(n_mirrors * (qb - qa) == k2 - k1) by (nonlinear_arith)
            requires
                a == n_mirrors * qa + a % n_mirrors,
                b == n_mirrors * qb + b % n_mirrors,
                a % n_mirrors == b % n_mirrors,
                b - a == k2 - k1,
        ;
        assert(false) by (nonlinear_arith)
            requires
                n_mirrors * (qb - qa) == k2 - k1,
                0 < k2 - k1 < n_mirrors,
        ;
    }
    assert(((a % n_mirrors) as usize) != ((b % n_mirrors) as usize));
}

/// A mirror that answers without success (any status outside 2xx, 429 and
/// 406 among them) or cannot be reached hands the tile on to the next mirror
/// in the rotation while mirrors remain; only once all `n_mirrors` were asked
/// does the fetch turn to the OSM API.
pub proof fn lemma_failed_mirror_moves_on(tile_no: int, tried: int, n_mirrors: int, event: TileFetchEvent)
    requires
        0 <= tile_no,
        0 <= tried <= n_mirrors,
        event is OverpassUnreachable || (event matches TileFetchEvent::OverpassStatus(s) && !(200 <= s
            <= 299)),
    ensures
        tried < n_mirrors ==> fetch_action(tile_no, tried, n_mirrors, event) == (
        TileFetchAction::QueryOverpass { mirror: ((tile_no + tried) % n_mirrors) as usize }),
        tried == n_mirrors ==> fetch_action(tile_no, tried, n_mirrors, event)
            == TileFetchAction::QueryOsmApi,
{
}

/// The OSM API is asked only after every mirror was: no event leads to it
/// while fewer than `n_mirrors` mirrors were tried.
pub proof fn lemma_osm_api_only_after_all_mirrors(
    tile_no: int,
    tried: int,
    n_mirrors: int,
    event: TileFetchEvent,
)
    requires
        0 <= tried <= n_mirrors,
    ensures
        fetch_action(tile_no, tried, n_mirrors, event) is QueryOsmApi ==> tried == n_mirrors,
{
}

impl TileFetch {
    pub closed spec fn tile(&self) -> int {
        self.tile_no as int
    }

    pub closed spec fn mirrors(&self) -> int {
        self.n_mirrors as int
    }

    /// Overpass mirrors asked so far.
    pub closed spec fn tried(&self) -> int {
        self.tried as int
    }

    pub open spec fn well_formed(&self) -> bool {
        &&& 0 <= self.tried() <= self.mirrors()
        &&& self.tile() + self.mirrors() <= usize::MAX
    }

    /// A fetch of tile number `tile_no` over `n_mirrors` Overpass mirrors.
    pub fn new(tile_no: usize, n_mirrors: usize) -> (f: TileFetch)
        requires
            tile_no + n_mirrors <= usize::MAX,
        ensures
            f.tile() == tile_no,
            f.mirrors() == n_mirrors,
            f.tried() == 0,
            f.well_formed(),
    {
        TileFetch { tile_no, n_mirrors, tried: 0 }
    }

    /// The next action after `event`: an Overpass success is parsed; any
    /// other Overpass answer, or none, moves to the next mirror and, after the
    /// last one, to the OSM API; the OSM API's answer is parsed on success and
    /// ends the fetch otherwise (509 meaning the tile is too dense).
    pub fn step(&mut self, event: TileFetchEvent) -> (action: TileFetchAction)
        requires
            old(self).well_formed(),
        ensures
            action == fetch_action(old(self).tile(), old(self).tried(), old(self).mirrors(), event),
            final(self).well_formed(),
            final(self).tile() == old(self).tile(),
            final(self).mirrors() == old(self).mirrors(),
            final(self).tried() == if action is QueryOverpass {
                old(self).tried() + 1
            } else {
                old(self).tried()
            },
            event is Start || event is OverpassUnreachable || (event matches TileFetchEvent::OverpassStatus(s)
                && !(200 <= s <= 299)) ==> if old(self).tried() < old(self).mirrors() {
                action == (TileFetchAction::QueryOverpass {
                    mirror: ((old(self).tile() + old(self).tried()) % old(self).mirrors()) as usize,
                })
            } else {
                action == TileFetchAction::QueryOsmApi
            },
            event matches TileFetchEvent::OverpassStatus(s) && 200 <= s <= 299 ==> action
                == TileFetchAction::ParseOverpass,
            event == TileFetchEvent::OsmApiStatus(509) ==> action == TileFetchAction::Fail(
                TileFailure::TooDense,
            ),
            event matches TileFetchEvent::OsmApiStatus(s) && 200 <= s <= 299 ==> action
                == TileFetchAction::ParseOsmApi,
            event matches TileFetchEvent::OsmApiStatus(s) ==> (s != 509 && !(200 <= s <= 299) ==> action
                == TileFetchAction::Fail(TileFailure::OsmApiStatus(s))),
            event is OsmApiUnreachable ==> action == TileFetchAction::Fail(
                TileFailure::OsmApiUnreachable,
            ),
            action is QueryOsmApi ==> old(self).tried() == old(self).mirrors(),
    {
        let retry = match event {
            TileFetchEvent::Start => true,
            TileFetchEvent::OverpassStatus(s) => !(200 <= s && s <= 299),
            TileFetchEvent::OverpassUnreachable => true,
            TileFetchEvent::OsmApiStatus(_) => false,
            TileFetchEvent::OsmApiUnreachable => false,
        };
        if retry {
            if self.tried < self.n_mirrors {
                let mirror = overpass_mirror(self.tile_no, self.tried, self.n_mirrors);
                self.tried = self.tried + 1;
                TileFetchAction::QueryOverpass { mirror }
            } else {
                TileFetchAction::QueryOsmApi
            }
        } else {
            match event {
                TileFetchEvent::OverpassStatus(_) => TileFetchAction::ParseOverpass,
                TileFetchEvent::OsmApiStatus(s) => match classify_osm_api_status(s) {
                    OsmApiReply::TooDense => TileFetchAction::Fail(TileFailure::TooDense),
                    OsmApiReply::Parse => TileFetchAction::ParseOsmApi,
                    OsmApiReply::Failed => TileFetchAction::Fail(TileFailure::OsmApiStatus(s)),
                },
                _ => TileFetchAction::Fail(TileFailure::OsmApiUnreachable),
            }
        }
    }
}

// ── Tile work queue ─────────────────────────────────────────────────────────
/// A failed tile is split 2×2 and retried at most this many times.
pub const MAX_TILE_SPLIT_DEPTH: u8 = 2;

/// Why a building fetch failed as a whole.
#[derive(PartialEq, Eq, Structural, Debug, Clone, Copy)]
pub enum FetchError {
    /// Every tile failed, even after splitting; the count of failed tiles.
    AllTilesFailed(usize),
}

/// The work queue of a tiled building fetch: tiles still to fetch with their
/// split depth, first in first out, and the running counts.
pub struct TileQueue<T> {
    pending: VecDeque<(T, u8)>,
    ok_tiles: usize,
    failed_tiles: usize,
    tile_no: usize,
}

impl<T> TileQueue<T> {
    /// Tiles still to fetch, in order, with their split depth.
    pub closed spec fn queued(&self) -> Seq<(T, u8)> {
        self.pending@
    }

    /// No queued tile is deeper than `MAX_TILE_SPLIT_DEPTH`: splitting stops there.
    pub open spec fn depths_bounded(&self) -> bool {
        forall|j: int| 0 <= j < self.queued().len() ==> #[trigger] self.queued()[j].1 <= MAX_TILE_SPLIT_DEPTH
    }

    /// Tiles fetched so far.
    pub closed spec fn oks(&self) -> usize {
        self.ok_tiles
    }

    /// Tiles that failed for good so far.
    pub closed spec fn fails(&self) -> usize {
        self.failed_tiles
    }

    /// Tiles taken from the queue so far (the number of the last one).
    pub closed spec fn taken(&self) -> usize {
        self.tile_no
    }

    pub fn ok_tiles(&self) -> (n: usize)
        ensures
            n == self.oks(),
    {
        self.ok_tiles
    }

    pub fn failed_tiles(&self) -> (n: usize)
        ensures
            n == self.fails(),
    {
        self.failed_tiles
    }

    pub fn tile_no(&self) -> (n: usize)
        ensures
            n == self.taken(),
    {
        self.tile_no
    }

    /// A queue holding the given tiles at depth 0.
    pub fn new(tiles: Vec<T>) -> (q: TileQueue<T>)
        ensures
            q.queued() == tiles@.map_values(|t: T| (t, 0u8)),
            q.depths_bounded(),
            q.oks() == 0,
            q.fails() == 0,
            q.taken() == 0,
    {
        let ghost all = tiles@;
        let mut tiles = tiles;
        let mut pending: VecDeque<(T, u8)> = VecDeque::new();
        let mut i: usize = 0;
        let n = tiles.len();
        while i < n
            invariant
                0 <= i <= n,
                n == all.len(),
                tiles@ == all.skip(i as int),
                pending@ == all.take(i as int).map_values(|t: T| (t, 0u8)),
            decreases n - i,
        {
            let t = tiles.remove(0);
            pending.push_back((t, 0u8));
            proof {
                assert(all.skip(i + 1) =~= all.skip(i as int).remove(0));
                assert(pending@ =~= all.take(i + 1).map_values(|t: T| (t, 0u8)));
            }
            i = i + 1;
        }
        proof {
            assert(all.take(n as int) =~= all);
        }
        TileQueue { pending, ok_tiles: 0, failed_tiles: 0, tile_no: 0 }
    }

    /// Take the next tile to fetch with its split depth and number it.
    pub fn next_tile(&mut self) -> (next: Option<(T, u8)>)
        requires
            old(self).taken() < usize::MAX,
        ensures
            old(self).queued().len() == 0 ==> {
                &&& next is None
                &&& final(self).queued() == old(self).queued()
                &&& final(self).taken() == old(self).taken()
                &&& final(self).oks() == old(self).oks()
                &&& final(self).fails() == old(self).fails()
            },
            old(self).queued().len() > 0 ==> {
                &&& next == Some(old(self).queued()[0])
                &&& final(self).queued() == old(self).queued().drop_first()
                &&& final(self).taken() == old(self).taken() + 1
                &&& final(self).oks() == old(self).oks()
                &&& final(self).fails() == old(self).fails()
            },
            old(self).depths_bounded() ==> final(self).depths_bounded(),
    {
        match self.pending.pop_front() {
            Some(entry) => {
                self.tile_no = self.tile_no + 1;
                proof {
                    assert(old(self).queued().drop_first() =~= self.pending@);
                }
                Some(entry)
            },
            None => None,
        }
    }

    /// Count a tile that was fetched.
    pub fn record_success(&mut self)
        requires
            old(self).oks() < usize::MAX,
        ensures
            final(self).oks() == old(self).oks() + 1,
            final(self).fails() == old(self).fails(),
            final(self).taken() == old(self).taken(),
            final(self).queued() == old(self).queued(),
    {
        self.ok_tiles = self.ok_tiles + 1;
    }

    /// A tile at split depth `depth` failed. Below `MAX_TILE_SPLIT_DEPTH` its
    /// four quarters `quarters` are queued one level deeper and `true` is
    /// returned; at the limit the tile counts as failed for good and `false`
    /// is returned (the quarters are dropped).
    pub fn record_failure(&mut self, depth: u8, quarters: Vec<T>) -> (split: bool)
        requires
            old(self).fails() < usize::MAX,
        ensures
            split == (depth < MAX_TILE_SPLIT_DEPTH),
            split ==> final(self).queued() == old(self).queued() + quarters@.map_values(
                |t: T| (t, (depth + 1) as u8),
            ) && final(self).fails() == old(self).fails(),
            !split ==> final(self).queued() == old(self).queued() && final(self).fails()
                == old(self).fails() + 1,
            final(self).oks() == old(self).oks(),
            final(self).taken() == old(self).taken(),
            old(self).depths_bounded() ==> final(self).depths_bounded(),
    {
        if depth < MAX_TILE_SPLIT_DEPTH {
            let ghost all = quarters@;
            let ghost start = self.pending@;
            let next_depth = depth + 1;
            let mut quarters = quarters;
            let n = quarters.len();
            let mut i: usize = 0;
            while i < n
                invariant
                    0 <= i <= n,
                    n == all.len(),
                    next_depth == depth + 1,
                    quarters@ == all.skip(i as int),
                    self.pending@ == start + all.take(i as int).map_values(|t: T| (t, next_depth)),
                    self.oks() == old(self).oks(),
                    self.fails() == old(self).fails(),
                    self.taken() == old(self).taken(),
                    start == old(self).queued(),
                decreases n - i,
            {
                let t = quarters.remove(0);
                self.pending.push_back((t, next_depth));
                proof {
                    assert(all.skip(i + 1) =~= all.skip(i as int).remove(0));
                    assert(self.pending@ =~= start + all.take(i + 1).map_values(
                        |t: T| (t, next_depth),
                    ));
                }
                i = i + 1;
            }
            proof {
                assert(all.take(n as int) =~= all);
                if old(self).depths_bounded() {
                    assert forall|j: int| 0 <= j < self.queued().len() implies #[trigger] self.queued()[j].1
                        <= MAX_TILE_SPLIT_DEPTH by {
                        if j < start.len() {
                            assert(self.queued()[j] == start[j]);
                        } else {
                            assert(self.queued()[j] == (all[j - start.len()], next_depth));
                        }
                    }
                }
            }
            true
        } else {
            self.failed_tiles = self.failed_tiles + 1;
            proof {
                assert(self.queued() == old(self).queued());
            }
            false
        }
    }

    /// The outcome once the queue is empty: an error when no tile succeeded
    /// and some failed; otherwise the number of failed tiles (coverage is
    /// partial when it is not zero).
    pub fn finish(&self) -> (outcome: Result<usize, FetchError>)
        ensures
            outcome == if self.oks() == 0 && self.fails() > 0 {
                Err::<usize, FetchError>(FetchError::AllTilesFailed(self.fails()))
            } else {
                Ok::<usize, FetchError>(self.fails())
            },
    {
        if self.ok_tiles == 0 && self.failed_tiles > 0 {
            Err(FetchError::AllTilesFailed(self.failed_tiles))
        } else {
            Ok(self.failed_tiles)
        }
    }
}

} // verus!
