use geoprint3d_backend::osm_parse::{
    parse_geom_response, parse_noderefs_response, Candidate, ElementTags, OsmElement, OsmMember, SeenElements,
};

type P = (i32, i32);

fn no_tags() -> ElementTags {
    ElementTags { building: None, building_part: None, type_tag: None }
}

fn building_tags(b: &str) -> ElementTags {
    ElementTags { building: Some(b.to_string()), building_part: None, type_tag: None }
}

fn element(kind: &str, id: u64) -> OsmElement<P> {
    OsmElement {
        element_type: Some(kind.to_string()),
        id: Some(id),
        coord: None,
        nodes: None,
        geometry: None,
        members: None,
        tags: no_tags(),
    }
}

fn node(id: u64, p: P) -> OsmElement<P> {
    OsmElement { coord: Some(p), ..element("node", id) }
}

fn way_refs(id: u64, refs: &[u64], tags: ElementTags) -> OsmElement<P> {
    OsmElement { nodes: Some(refs.iter().map(|r| Some(*r)).collect()), tags, ..element("way", id) }
}

fn member(kind: &str, reference: u64, role: &str, geometry: Option<Vec<Option<P>>>) -> OsmMember<P> {
    OsmMember {
        member_type: Some(kind.to_string()),
        reference: Some(reference),
        role: Some(role.to_string()),
        geometry,
    }
}

fn multipolygon(id: u64, members: Vec<OsmMember<P>>) -> OsmElement<P> {
    OsmElement {
        members: Some(members),
        tags: ElementTags {
            building: Some("yes".to_string()),
            building_part: None,
            type_tag: Some("multipolygon".to_string()),
        },
        ..element("relation", id)
    }
}

fn noderef_response() -> Vec<OsmElement<P>> {
    vec![
        node(1, (0, 0)),
        node(2, (10, 0)),
        node(3, (10, 10)),
        node(4, (0, 10)),
        node(5, (2, 2)),
        node(6, (4, 2)),
        node(7, (4, 4)),
        way_refs(10, &[1, 2, 3, 4, 1], building_tags("house")),
        way_refs(11, &[1, 2, 3, 4, 1], no_tags()),
        way_refs(12, &[5, 6, 7, 5], no_tags()),
        way_refs(13, &[1, 99, 98], building_tags("yes")),
        way_refs(14, &[5, 6, 7, 5], building_tags("no")),
        multipolygon(20, vec![member("way", 11, "outer", None), member("way", 12, "inner", None), member("node", 1, "", None)]),
    ]
}

#[test]
fn noderefs_resolve_positions_through_nodes() {
    let els = noderef_response();
    let mut seen = SeenElements::new();
    let parsed = parse_noderefs_response(&els, &mut seen);
    assert_eq!(parsed.candidates.len(), 2);
    assert_eq!(parsed.skipped, 1); // way 13 knows only one position
    assert_eq!(parsed.relations, 1);
    match &parsed.candidates[0] {
        Candidate::Way { element, id, footprint } => {
            assert_eq!(*element, 7);
            assert_eq!(*id, 10);
            assert_eq!(footprint, &vec![(0, 0), (10, 0), (10, 10), (0, 10), (0, 0)]);
        }
        _ => panic!("expected a way"),
    }
    match &parsed.candidates[1] {
        Candidate::Relation { element, id, outer, inner } => {
            assert_eq!(*element, 12);
            assert_eq!(*id, 20);
            assert_eq!(outer, &vec![vec![(0, 0), (10, 0), (10, 10), (0, 10), (0, 0)]]);
            assert_eq!(inner, &vec![vec![(2, 2), (4, 2), (4, 4), (2, 2)]]);
        }
        _ => panic!("expected a relation"),
    }
    // The building elements looked at are recorded; untagged member ways are not.
    assert!(!seen.insert(false, 10));
    assert!(!seen.insert(false, 13));
    assert!(!seen.insert(true, 20));
    assert!(seen.insert(false, 11));
}

#[test]
fn neighbouring_tile_elements_are_parsed_once() {
    let els = noderef_response();
    let mut seen = SeenElements::new();
    let first = parse_noderefs_response(&els, &mut seen);
    assert_eq!(first.candidates.len(), 2);
    let again = parse_noderefs_response(&els, &mut seen);
    assert_eq!(again.candidates.len(), 0);
    assert_eq!(again.skipped, 0);
    assert_eq!(again.relations, 0);
}

#[test]
fn non_multipolygon_relations_are_ignored() {
    let mut rel = multipolygon(30, vec![member("way", 11, "outer", None)]);
    rel.tags.type_tag = Some("site".to_string());
    let els = vec![node(1, (0, 0)), node(2, (1, 0)), way_refs(11, &[1, 2], no_tags()), rel];
    let mut seen = SeenElements::new();
    let parsed = parse_noderefs_response(&els, &mut seen);
    assert_eq!(parsed.candidates.len(), 0);
    assert_eq!(parsed.relations, 0);
    assert!(seen.insert(true, 30));
}

#[test]
fn short_member_ways_are_dropped() {
    let els = vec![
        node(1, (0, 0)),
        node(2, (1, 0)),
        way_refs(11, &[1], no_tags()),
        way_refs(12, &[1, 2], no_tags()),
        multipolygon(40, vec![member("way", 11, "outer", None), member("way", 12, "outer", None), member("way", 77, "outer", None)]),
    ];
    let mut seen = SeenElements::new();
    let parsed = parse_noderefs_response(&els, &mut seen);
    match &parsed.candidates[0] {
        Candidate::Relation { outer, inner, .. } => {
            assert_eq!(outer, &vec![vec![(0, 0), (1, 0)]]);
            assert!(inner.is_empty());
        }
        _ => panic!("expected a relation"),
    }
}

fn geom_way(id: u64, pts: Vec<Option<P>>) -> OsmElement<P> {
    OsmElement { geometry: Some(pts), tags: building_tags("yes"), ..element("way", id) }
}

#[test]
fn overpass_geometry_is_read_inline() {
    let square = vec![Some((0, 0)), Some((5, 0)), None, Some((5, 5)), Some((0, 0))];
    let els = vec![
        geom_way(1, square),
        element("way", 2), // no geometry: skipped
        OsmElement {
            members: Some(vec![
                member("way", 0, "outer", Some(vec![Some((0, 0)), Some((9, 0)), Some((9, 9))])),
                member("way", 0, "inner", Some(vec![Some((1, 1)), Some((2, 2))])),
                member("way", 0, "inner", Some(vec![Some((3, 3)), None])),
                member("way", 0, "outer", None),
            ]),
            ..element("relation", 3)
        },
        element("relation", 4), // no members: recorded, not counted
        element("node", 5),
        geom_way(1, vec![Some((7, 7))]), // already seen
    ];
    let mut seen = SeenElements::new();
    let parsed = parse_geom_response(&els, &mut seen);
    assert_eq!(parsed.skipped, 1);
    assert_eq!(parsed.relations, 1);
    assert_eq!(parsed.candidates.len(), 2);
    match &parsed.candidates[0] {
        Candidate::Way { element, id, footprint } => {
            assert_eq!((*element, *id), (0, 1));
            assert_eq!(footprint, &vec![(0, 0), (5, 0), (5, 5), (0, 0)]);
        }
        _ => panic!("expected a way"),
    }
    match &parsed.candidates[1] {
        Candidate::Relation { element, id, outer, inner } => {
            assert_eq!((*element, *id), (2, 3));
            assert_eq!(outer, &vec![vec![(0, 0), (9, 0), (9, 9)]]);
            assert_eq!(inner, &vec![vec![(1, 1), (2, 2)]]);
        }
        _ => panic!("expected a relation"),
    }
    assert!(!seen.insert(false, 2));
    assert!(!seen.insert(true, 4));
    assert!(seen.insert(false, 5));
}

#[test]
fn overpass_reparse_yields_nothing() {
    let els = vec![geom_way(1, vec![Some((0, 0)), Some((1, 1)), Some((2, 0))]), element("way", 2)];
    let mut seen = SeenElements::new();
    assert_eq!(parse_geom_response(&els, &mut seen).candidates.len(), 1);
    let again = parse_geom_response(&els, &mut seen);
    assert!(again.candidates.is_empty());
    assert_eq!((again.skipped, again.relations), (0, 0));
}

#[test]
fn seen_elements_tell_ways_from_relations() {
    let mut seen = SeenElements::new();
    assert!(seen.insert(false, 7));
    assert!(seen.insert(true, 7));
    assert!(!seen.insert(false, 7));
    assert!(seen.insert(false, u64::MAX));
    assert!(!seen.insert(false, u64::MAX));
}
