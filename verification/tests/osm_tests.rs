use geoprint3d_backend::osm::{
    classify_osm_api_status, classify_overpass_status, default_height_for_type, jitter_permille,
    overpass_mirror, BuildingTags, FetchError, OsmApiReply, OverpassReply, RoofShape, TileFailure, TileFetch,
    TileFetchAction, TileFetchEvent, TileQueue, MAX_TILE_SPLIT_DEPTH,
};

fn tags(building: Option<&str>, part: Option<&str>, roof: Option<&str>) -> BuildingTags {
    BuildingTags {
        building: building.map(|s| s.to_string()),
        building_part: part.map(|s| s.to_string()),
        roof_shape: roof.map(|s| s.to_string()),
    }
}

#[test]
fn roof_shape_tags() {
    assert_eq!(RoofShape::from_tag("gabled"), RoofShape::Gabled);
    assert_eq!(RoofShape::from_tag("hipped"), RoofShape::Hipped);
    assert_eq!(RoofShape::from_tag("pyramidal"), RoofShape::Pyramidal);
    assert_eq!(RoofShape::from_tag("dome"), RoofShape::Dome);
    assert_eq!(RoofShape::from_tag("skillion"), RoofShape::Skillion);
    assert_eq!(RoofShape::from_tag("flat"), RoofShape::Flat);
    assert_eq!(RoofShape::from_tag("onion"), RoofShape::Flat);
    assert_eq!(RoofShape::from_tag("Gabled"), RoofShape::Flat);
}

#[test]
fn building_and_part_kinds() {
    assert!(tags(Some("yes"), None, None).is_building());
    assert!(!tags(Some("no"), None, None).is_building());
    assert!(!tags(Some("no"), Some("yes"), None).is_building());
    assert!(tags(Some("no"), Some("yes"), None).is_part());
    assert!(!tags(Some("house"), Some("yes"), None).is_part());
    assert!(tags(None, Some("no"), None).is_part());
    assert!(!tags(None, None, None).is_part());
}

#[test]
fn untagged_quad_house_gets_a_gabled_roof() {
    assert_eq!(tags(Some("house"), None, None).roof(4), RoofShape::Gabled);
    assert_eq!(tags(Some("detached"), None, None).roof(4), RoofShape::Gabled);
    assert_eq!(tags(Some("house"), None, None).roof(5), RoofShape::Flat);
    assert_eq!(tags(Some("apartments"), None, None).roof(4), RoofShape::Flat);
    assert_eq!(tags(Some("house"), None, Some("flat")).roof(4), RoofShape::Flat);
    assert_eq!(tags(Some("yes"), None, Some("dome")).roof(7), RoofShape::Dome);
    assert_eq!(tags(None, Some("hut"), None).roof(4), RoofShape::Gabled);
    assert_eq!(tags(Some("no"), Some("hut"), None).roof(4), RoofShape::Gabled);
}

#[test]
fn default_heights_by_type() {
    assert_eq!(default_height_for_type("house"), 6);
    assert_eq!(default_height_for_type("shed"), 3);
    assert_eq!(default_height_for_type("apartments"), 15);
    assert_eq!(default_height_for_type("office"), 14);
    assert_eq!(default_height_for_type("warehouse"), 8);
    assert_eq!(default_height_for_type("hangar"), 9);
    assert_eq!(default_height_for_type("cathedral"), 18);
    assert_eq!(default_height_for_type("hospital"), 12);
    assert_eq!(default_height_for_type("skyscraper"), 40);
    assert_eq!(default_height_for_type("colonnade"), 16);
    assert_eq!(default_height_for_type("yes"), 10);
    assert_eq!(default_height_for_type(""), 10);
}

#[test]
fn jitter_is_deterministic_per_id() {
    assert_eq!(jitter_permille(0), 0);
    assert_eq!(jitter_permille(1), 761);
    assert_eq!(jitter_permille(1000), 0);
    assert_eq!(jitter_permille(u64::MAX), (u64::MAX.wrapping_mul(2_654_435_761) % 1000) as u32);
    assert_eq!(jitter_permille(123456789), jitter_permille(123456789));
}

#[test]
fn overpass_statuses() {
    assert_eq!(classify_overpass_status(200), OverpassReply::Parse);
    assert_eq!(classify_overpass_status(429), OverpassReply::RateLimited);
    assert_eq!(classify_overpass_status(406), OverpassReply::RateLimited);
    assert_eq!(classify_overpass_status(504), OverpassReply::Failed);
    assert_eq!(classify_overpass_status(300), OverpassReply::Failed);
}

#[test]
fn osm_api_statuses() {
    assert_eq!(classify_osm_api_status(200), OsmApiReply::Parse);
    assert_eq!(classify_osm_api_status(509), OsmApiReply::TooDense);
    assert_eq!(classify_osm_api_status(400), OsmApiReply::Failed);
}

#[test]
fn mirrors_rotate_per_tile() {
    assert_eq!(overpass_mirror(0, 0, 3), 0);
    assert_eq!(overpass_mirror(1, 0, 3), 1);
    assert_eq!(overpass_mirror(1, 2, 3), 0);
    assert_eq!(overpass_mirror(5, 1, 3), 0);
}

#[test]
fn failed_tiles_split_until_the_depth_limit() {
    let mut q = TileQueue::new(vec!['a', 'b']);
    assert_eq!(q.next_tile(), Some(('a', 0)));
    assert_eq!(q.tile_no(), 1);
    q.record_success();
    assert_eq!(q.next_tile(), Some(('b', 0)));
    assert!(q.record_failure(0, vec!['c', 'd', 'e', 'f']));
    assert_eq!(q.next_tile(), Some(('c', 1)));
    assert!(q.record_failure(1, vec!['g', 'h', 'i', 'j']));
    assert_eq!(q.next_tile(), Some(('d', 1)));
    q.record_success();
    assert_eq!(q.next_tile(), Some(('e', 1)));
    q.record_success();
    assert_eq!(q.next_tile(), Some(('f', 1)));
    q.record_success();
    assert_eq!(q.next_tile(), Some(('g', MAX_TILE_SPLIT_DEPTH)));
    assert!(!q.record_failure(MAX_TILE_SPLIT_DEPTH, vec!['x', 'y', 'z', 'w']));
    for _ in 0..3 {
        assert!(q.next_tile().is_some());
        q.record_success();
    }
    assert_eq!(q.next_tile(), None);
    assert_eq!(q.tile_no(), 10);
    assert_eq!(q.ok_tiles(), 7);
    assert_eq!(q.failed_tiles(), 1);
    assert_eq!(q.finish(), Ok(1));
}

#[test]
fn all_tiles_failing_is_an_error() {
    let mut q = TileQueue::new(vec![1u32]);
    assert_eq!(q.next_tile(), Some((1, 0)));
    assert!(!q.record_failure(MAX_TILE_SPLIT_DEPTH, vec![]));
    assert_eq!(q.next_tile(), None);
    assert_eq!(q.finish(), Err(FetchError::AllTilesFailed(1)));
}

#[test]
fn empty_fetch_succeeds_with_nothing() {
    let mut q: TileQueue<u8> = TileQueue::new(vec![]);
    assert_eq!(q.next_tile(), None);
    assert_eq!(q.finish(), Ok(0));
}

#[test]
fn tile_fetch_tries_each_mirror_then_the_osm_api() {
    let mut f = TileFetch::new(4, 3);
    assert_eq!(f.step(TileFetchEvent::Start), TileFetchAction::QueryOverpass { mirror: 1 });
    assert_eq!(f.step(TileFetchEvent::OverpassStatus(429)), TileFetchAction::QueryOverpass { mirror: 2 });
    assert_eq!(f.step(TileFetchEvent::OverpassUnreachable), TileFetchAction::QueryOverpass { mirror: 0 });
    assert_eq!(f.step(TileFetchEvent::OverpassStatus(504)), TileFetchAction::QueryOsmApi);
    assert_eq!(f.step(TileFetchEvent::OsmApiStatus(200)), TileFetchAction::ParseOsmApi);
}

#[test]
fn tile_fetch_parses_the_first_overpass_success() {
    let mut f = TileFetch::new(0, 3);
    assert_eq!(f.step(TileFetchEvent::Start), TileFetchAction::QueryOverpass { mirror: 0 });
    assert_eq!(f.step(TileFetchEvent::OverpassStatus(200)), TileFetchAction::ParseOverpass);
}

#[test]
fn tile_fetch_osm_api_failures() {
    let mut f = TileFetch::new(0, 0);
    assert_eq!(f.step(TileFetchEvent::Start), TileFetchAction::QueryOsmApi);
    assert_eq!(f.step(TileFetchEvent::OsmApiStatus(509)), TileFetchAction::Fail(TileFailure::TooDense));
    assert_eq!(f.step(TileFetchEvent::OsmApiStatus(503)), TileFetchAction::Fail(TileFailure::OsmApiStatus(503)));
    assert_eq!(f.step(TileFetchEvent::OsmApiUnreachable), TileFetchAction::Fail(TileFailure::OsmApiUnreachable));
}
