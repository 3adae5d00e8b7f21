use crate::osm::tag_set;
use crate::text::str_eq;
use std::collections::HashMap;
use std::collections::HashSet;
use vstd::prelude::*;
use vstd::string::*;

verus! {

broadcast use vstd::std_specs::hash::group_hash_axioms;

// ── OSM JSON elements, as the parsers read them ─────────────────────────────
/// The tags the element parsers look at; each is `Some` when present as a string.
pub struct ElementTags {
    pub building: Option<String>,
    pub building_part: Option<String>,
    pub type_tag: Option<String>,
}

/// A relation member. `geometry` entries are `None` where a point lacks a
/// numeric `lon` or `lat`.
pub struct OsmMember<C> {
    pub member_type: Option<String>,
    pub reference: Option<u64>,
    pub role: Option<String>,
    pub geometry: Option<Vec<Option<C>>>,
}

/// One element of an Overpass or OSM API JSON response. `coord` is the
/// node position when both `lon` and `lat` are numbers; `nodes` entries are
/// `None` where a node reference is not an unsigned integer.
pub struct OsmElement<C> {
    pub element_type: Option<String>,
    pub id: Option<u64>,
    pub coord: Option<C>,
    pub nodes: Option<Vec<Option<u64>>>,
    pub geometry: Option<Vec<Option<C>>>,
    pub members: Option<Vec<OsmMember<C>>>,
    pub tags: ElementTags,
}

/// A building found in a response, before clipping, filtering and tag
/// resolution. `element` is the index of its element in the response.
pub enum Candidate<C> {
    Way { element: usize, id: u64, footprint: Vec<C> },
    Relation { element: usize, id: u64, outer: Vec<Vec<C>>, inner: Vec<Vec<C>> },
}

/// The mathematical value of a candidate.
pub enum CandidateView<C> {
    Way { element: int, id: u64, footprint: Seq<C> },
    Relation { element: int, id: u64, outer: Seq<Seq<C>>, inner: Seq<Seq<C>> },
}

pub open spec fn lines_view<C>(lines: Seq<Vec<C>>) -> Seq<Seq<C>> {
    lines.map_values(|l: Vec<C>| l@)
}

pub open spec fn cands_view<C>(cands: Seq<Candidate<C>>) -> Seq<CandidateView<C>> {
    cands.map_values(|c: Candidate<C>| c@)
}

/// The positions of a way map, by way id.
pub open spec fn line_views<C>(m: Map<u64, Vec<C>>) -> Map<u64, Seq<C>> {
    m.map_values(|v: Vec<C>| v@)
}

impl<C> View for Candidate<C> {
    type V = CandidateView<C>;

    open spec fn view(&self) -> CandidateView<C> {
        match self {
            Candidate::Way { element, id, footprint } => CandidateView::Way {
                element: *element as int,
                id: *id,
                footprint: footprint@,
            },
            Candidate::Relation { element, id, outer, inner } => CandidateView::Relation {
                element: *element as int,
                id: *id,
                outer: lines_view(outer@),
                inner: lines_view(inner@),
            },
        }
    }
}

/// Elements already parsed (from a neighbouring tile), by kind and id:
/// `(true, id)` for relations, `(false, id)` for ways.
pub struct SeenElements {
    keys: HashSet<u128>,
}

pub open spec fn seen_key(relation: bool, id: u64) -> u128 {
    ((if relation {
        1int
    } else {
        0int
    }) * 0x1_0000_0000_0000_0000int + id) as u128
}

proof fn lemma_seen_key_injective(r1: bool, i1: u64, r2: bool, i2: u64)
    ensures
        seen_key(r1, i1) == seen_key(r2, i2) ==> r1 == r2 && i1 == i2,
{
}

impl SeenElements {
    pub closed spec fn contents(&self) -> Set<(bool, u64)> {
        Set::new(|e: (bool, u64)| self.keys@.contains(seen_key(e.0, e.1)))
    }

    pub fn new() -> (s: SeenElements)
        ensures
            s.contents() == Set::<(bool, u64)>::empty(),
    {
        let s = SeenElements { keys: HashSet::new() };
        proof {
            assert(s.contents() =~= Set::<(bool, u64)>::empty());
        }
        s
    }

    /// Record an element; `true` when it was not seen before.
    pub fn insert(&mut self, relation: bool, id: u64) -> (fresh: bool)
        ensures
            fresh == !old(self).contents().contains((relation, id)),
            final(self).contents() == old(self).contents().insert((relation, id)),
    {
        let key: u128 = (if relation {
            1u128
        } else {
            0u128
        }) * 0x1_0000_0000_0000_0000u128 + (id as u128);
        let fresh = self.keys.insert(key);
        proof {
            assert forall|e: (bool, u64)| #[trigger] self.contents().contains(e) == old(
                self,
            ).contents().insert((relation, id)).contains(e) by {
                lemma_seen_key_injective(e.0, e.1, relation, id);
            }
            assert(self.contents() =~= old(self).contents().insert((relation, id)));
        }
        fresh
    }
}

// ── The model of the parsers ────────────────────────────────────────────────
pub open spec fn is_text(t: Option<String>, s: Seq<char>) -> bool {
    t matches Some(v) && v@ == s
}

fn text_is(t: &Option<String>, s: &str) -> (b: bool)
    ensures
        b == is_text(*t, s@),
{
    match t {
        Some(v) => str_eq(v.as_str(), s),
        None => false,
    }
}

pub open spec fn id_or_zero(id: Option<u64>) -> u64 {
    match id {
        Some(x) => x,
        None => 0,
    }
}

/// The points of a geometry list that have both coordinates.
pub open spec fn points<C>(g: Seq<Option<C>>, k: int) -> Seq<C>
    decreases k,
{
    if k <= 0 {
        Seq::empty()
    } else {
        match g[k - 1] {
            Some(c) => points(g, k - 1).push(c),
            None => points(g, k - 1),
        }
    }
}

/// Node id → position, the last node element with an id and a position winning.
pub open spec fn node_map<C>(els: Seq<OsmElement<C>>, m: int) -> Map<u64, C>
    decreases m,
{
    if m <= 0 {
        Map::empty()
    } else {
        let e = els[m - 1];
        if is_text(e.element_type, "node"@) && e.id is Some && e.coord is Some {
            node_map(els, m - 1).insert(e.id->0, e.coord->0)
        } else {
            node_map(els, m - 1)
        }
    }
}

/// The positions of the referenced nodes that are known, in order.
pub open spec fn resolved<C>(refs: Seq<Option<u64>>, nodes: Map<u64, C>, k: int) -> Seq<C>
    decreases k,
{
    if k <= 0 {
        Seq::empty()
    } else {
        match refs[k - 1] {
            Some(r) => if nodes.contains_key(r) {
                resolved(refs, nodes, k - 1).push(nodes[r])
            } else {
                resolved(refs, nodes, k - 1)
            },
            None => resolved(refs, nodes, k - 1),
        }
    }
}

/// Way id → resolved positions, for every way element with an id and a node list.
pub open spec fn way_map<C>(els: Seq<OsmElement<C>>, m: int, nodes: Map<u64, C>) -> Map<
    u64,
    Seq<C>,
>
    decreases m,
{
    if m <= 0 {
        Map::empty()
    } else {
        let e = els[m - 1];
        if is_text(e.element_type, "way"@) && e.id is Some && e.nodes is Some {
            way_map(els, m - 1, nodes).insert(
                e.id->0,
                resolved(e.nodes->0@, nodes, e.nodes->0@.len() as int),
            )
        } else {
            way_map(els, m - 1, nodes)
        }
    }
}

/// Outer and inner member lines of a relation in node-reference form: way
/// members whose way is known and has at least two positions.
pub open spec fn ref_lines<C>(ms: Seq<OsmMember<C>>, ways: Map<u64, Seq<C>>, k: int) -> (
    Seq<Seq<C>>,
    Seq<Seq<C>>,
)
    decreases k,
{
    if k <= 0 {
        (Seq::empty(), Seq::empty())
    } else {
        let prev = ref_lines(ms, ways, k - 1);
        let m = ms[k - 1];
        if is_text(m.member_type, "way"@) && (m.reference matches Some(r) && ways.contains_key(r)
            && ways[r].len() >= 2) {
            let line = ways[m.reference->0];
            if is_text(m.role, "inner"@) {
                (prev.0, prev.1.push(line))
            } else {
                (prev.0.push(line), prev.1)
            }
        } else {
            prev
        }
    }
}

/// Outer and inner member lines of a relation with inline geometry: members
/// with a geometry of at least two points.
pub open spec fn geom_lines<C>(ms: Seq<OsmMember<C>>, k: int) -> (Seq<Seq<C>>, Seq<Seq<C>>)
    decreases k,
{
    if k <= 0 {
        (Seq::empty(), Seq::empty())
    } else {
        let prev = geom_lines(ms, k - 1);
        let m = ms[k - 1];
        match m.geometry {
            Some(g) => {
                let line = points(g@, g@.len() as int);
                if line.len() < 2 {
                    prev
                } else if is_text(m.role, "inner"@) {
                    (prev.0, prev.1.push(line))
                } else {
                    (prev.0.push(line), prev.1)
                }
            },
            None => prev,
        }
    }
}

/// What a parser has gathered: the elements seen, the candidates found, the
/// elements skipped for lack of geometry, and the relations read.
pub struct ParseModel<C> {
    pub seen: Set<(bool, u64)>,
    pub cands: Seq<CandidateView<C>>,
    pub skipped: nat,
    pub relations: nat,
}

/// One element of an OSM API (node-reference) response: building and
/// `building:part` ways with at least three known positions, and
/// multipolygon building relations; each way or relation only once.
pub open spec fn ref_step<C>(
    st: ParseModel<C>,
    els: Seq<OsmElement<C>>,
    i: int,
    ways: Map<u64, Seq<C>>,
) -> ParseModel<C> {
    let e = els[i];
    let id = id_or_zero(e.id);
    if !(tag_set(e.tags.building) || tag_set(e.tags.building_part)) {
        st
    } else if is_text(e.element_type, "way"@) {
        if st.seen.contains((false, id)) {
            st
        } else {
            let fp = if ways.contains_key(id) {
                ways[id]
            } else {
                Seq::empty()
            };
            if fp.len() < 3 {
                ParseModel { seen: st.seen.insert((false, id)), skipped: st.skipped + 1, ..st }
            } else {
                ParseModel {
                    seen: st.seen.insert((false, id)),
                    cands: st.cands.push(CandidateView::Way { element: i, id, footprint: fp }),
                    ..st
                }
            }
        }
    } else if is_text(e.element_type, "relation"@) {
        if !is_text(e.tags.type_tag, "multipolygon"@) || st.seen.contains((true, id)) {
            st
        } else {
            match e.members {
                None => ParseModel { seen: st.seen.insert((true, id)), ..st },
                Some(ms) => {
                    let lines = ref_lines(ms@, ways, ms@.len() as int);
                    ParseModel {
                        seen: st.seen.insert((true, id)),
                        cands: st.cands.push(
                            CandidateView::Relation {
                                element: i,
                                id,
                                outer: lines.0,
                                inner: lines.1,
                            },
                        ),
                        relations: st.relations + 1,
                        skipped: st.skipped,
                    }
                },
            }
        }
    } else {
        st
    }
}

pub open spec fn ref_parse<C>(
    start: ParseModel<C>,
    els: Seq<OsmElement<C>>,
    m: int,
    ways: Map<u64, Seq<C>>,
) -> ParseModel<C>
    decreases m,
{
    if m <= 0 {
        start
    } else {
        ref_step(ref_parse(start, els, m - 1, ways), els, m - 1, ways)
    }
}

/// One element of an Overpass `out geom` response: ways with inline
/// geometry (skipped without one) and relations with member geometry; each
/// way or relation only once.
pub open spec fn geom_step<C>(st: ParseModel<C>, els: Seq<OsmElement<C>>, i: int) -> ParseModel<C> {
    let e = els[i];
    let id = id_or_zero(e.id);
    if is_text(e.element_type, "way"@) {
        if st.seen.contains((false, id)) {
            st
        } else {
            match e.geometry {
                None => ParseModel {
                    seen: st.seen.insert((false, id)),
                    skipped: st.skipped + 1,
                    ..st
                },
                Some(g) => ParseModel {
                    seen: st.seen.insert((false, id)),
                    cands: st.cands.push(
                        CandidateView::Way { element: i, id, footprint: points(g@, g@.len() as int) },
                    ),
                    ..st
                },
            }
        }
    } else if is_text(e.element_type, "relation"@) {
        if st.seen.contains((true, id)) {
            st
        } else {
            match e.members {
                None => ParseModel { seen: st.seen.insert((true, id)), ..st },
                Some(ms) => {
                    let lines = geom_lines(ms@, ms@.len() as int);
                    ParseModel {
                        seen: st.seen.insert((true, id)),
                        cands: st.cands.push(
                            CandidateView::Relation {
                                element: i,
                                id,
                                outer: lines.0,
                                inner: lines.1,
                            },
                        ),
                        relations: st.relations + 1,
                        skipped: st.skipped,
                    }
                },
            }
        }
    } else {
        st
    }
}

pub open spec fn geom_parse<C>(start: ParseModel<C>, els: Seq<OsmElement<C>>, m: int) -> ParseModel<
    C,
>
    decreases m,
{
    if m <= 0 {
        start
    } else {
        geom_step(geom_parse(start, els, m - 1), els, m - 1)
    }
}

/// What one response yields.
pub struct ParsedElements<C> {
    pub candidates: Vec<Candidate<C>>,
    pub skipped: usize,
    pub relations: usize,
}

/// The model a parse returns, given the elements seen before it.
pub open spec fn parsed_model<C>(p: ParsedElements<C>, seen: Set<(bool, u64)>) -> ParseModel<C> {
    ParseModel {
        seen,
        cands: cands_view(p.candidates@),
        skipped: p.skipped as nat,
        relations: p.relations as nat,
    }
}

// ── The parsers ─────────────────────────────────────────────────────────────
fn tag_is_set(t: &Option<String>) -> (b: bool)
    ensures
        b == tag_set(*t),
{
    match t {
        Some(v) => !str_eq(v.as_str(), "no"),
        None => false,
    }
}

fn copy_points<C: Copy>(g: &Vec<Option<C>>) -> (line: Vec<C>)
    ensures
        line@ == points(g@, g@.len() as int),
{
    let mut line: Vec<C> = Vec::new();
    let mut k: usize = 0;
    while k < g.len()
        invariant
            k <= g@.len(),
            line@ == points(g@, k as int),
        decreases g@.len() - k,
    {
        match g[k] {
            Some(c) => line.push(c),
            None => {},
        }
        k += 1;
    }
    line
}

fn copy_line<C: Copy>(v: &Vec<C>) -> (w: Vec<C>)
    ensures
        w@ == v@,
{
    let mut w: Vec<C> = Vec::new();
    let mut k: usize = 0;
    while k < v.len()
        invariant
            k <= v@.len(),
            w@ == v@.subrange(0, k as int),
        decreases v@.len() - k,
    {
        w.push(v[k]);
        k += 1;
        proof {
            assert(w@ =~= v@.subrange(0, k as int));
        }
    }
    proof {
        assert(w@ =~= v@);
    }
    w
}

fn build_node_map<C: Copy>(els: &Vec<OsmElement<C>>) -> (nodes: HashMap<u64, C>)
    ensures
        nodes@ == node_map(els@, els@.len() as int),
{
    let mut nodes: HashMap<u64, C> = HashMap::new();
    let mut i: usize = 0;
    while i < els.len()
        invariant
            i <= els@.len(),
            nodes@ == node_map(els@, i as int),
        decreases els@.len() - i,
    {
        let e = &els[i];
        if text_is(&e.element_type, "node") {
            match e.id {
                Some(id) => match e.coord {
                    Some(c) => {
                        nodes.insert(id, c);
                    },
                    None => {},
                },
                None => {},
            }
        }
        i += 1;
    }
    nodes
}

fn resolve_refs<C: Copy>(refs: &Vec<Option<u64>>, nodes: &HashMap<u64, C>) -> (coords: Vec<C>)
    ensures
        coords@ == resolved(refs@, nodes@, refs@.len() as int),
{
    let mut coords: Vec<C> = Vec::new();
    let mut k: usize = 0;
    while k < refs.len()
        invariant
            k <= refs@.len(),
            coords@ == resolved(refs@, nodes@, k as int),
        decreases refs@.len() - k,
    {
        match refs[k] {
            Some(r) => match nodes.get(&r) {
                Some(c) => coords.push(*c),
                None => {},
            },
            None => {},
        }
        k += 1;
    }
    coords
}

fn build_way_map<C: Copy>(els: &Vec<OsmElement<C>>, nodes: &HashMap<u64, C>) -> (ways: HashMap<
    u64,
    Vec<C>,
>)
    ensures
        line_views(ways@) == way_map(els@, els@.len() as int, nodes@),
{
    let mut ways: HashMap<u64, Vec<C>> = HashMap::new();
    proof {
        assert(line_views(ways@) =~= Map::<u64, Seq<C>>::empty());
    }
    let mut i: usize = 0;
    while i < els.len()
        invariant
            i <= els@.len(),
            line_views(ways@) == way_map(els@, i as int, nodes@),
        decreases els@.len() - i,
    {
        let e = &els[i];
        if text_is(&e.element_type, "way") {
            match e.id {
                Some(id) => match &e.nodes {
                    Some(refs) => {
                        let coords = resolve_refs(refs, nodes);
                        let ghost before = ways@;
                        let ghost line = coords@;
                        ways.insert(id, coords);
                        proof {
                            assert(line_views(ways@) =~= line_views(before).insert(id, line));
                        }
                    },
                    None => {},
                },
                None => {},
            }
        }
        i += 1;
    }
    ways
}

fn ref_member_lines<C: Copy>(ms: &Vec<OsmMember<C>>, ways: &HashMap<u64, Vec<C>>) -> (lines: (
    Vec<Vec<C>>,
    Vec<Vec<C>>,
))
    ensures
        lines_view(lines.0@) == ref_lines(ms@, line_views(ways@), ms@.len() as int).0,
        lines_view(lines.1@) == ref_lines(ms@, line_views(ways@), ms@.len() as int).1,
{
    let ghost wm = line_views(ways@);
    let mut outer: Vec<Vec<C>> = Vec::new();
    let mut inner: Vec<Vec<C>> = Vec::new();
    proof {
        assert(lines_view(outer@) =~= Seq::<Seq<C>>::empty());
        assert(lines_view(inner@) =~= Seq::<Seq<C>>::empty());
    }
    let mut k: usize = 0;
    while k < ms.len()
        invariant
            k <= ms@.len(),
            wm == line_views(ways@),
            lines_view(outer@) == ref_lines(ms@, wm, k as int).0,
            lines_view(inner@) == ref_lines(ms@, wm, k as int).1,
        decreases ms@.len() - k,
    {
        let m = &ms[k];
        let ghost o0 = outer@;
        let ghost i0 = inner@;
        if text_is(&m.member_type, "way") {
            match m.reference {
                Some(r) => match ways.get(&r) {
                    Some(coords) => {
                        if coords.len() >= 2 {
                            let line = copy_line(coords);
                            if text_is(&m.role, "inner") {
                                inner.push(line);
                                proof {
                                    assert(lines_view(inner@) =~= lines_view(i0).push(wm[r]));
                                }
                            } else {
                                outer.push(line);
                                proof {
                                    assert(lines_view(outer@) =~= lines_view(o0).push(wm[r]));
                                }
                            }
                        }
                    },
                    None => {},
                },
                None => {},
            }
        }
        k += 1;
    }
    (outer, inner)
}

fn geom_member_lines<C: Copy>(ms: &Vec<OsmMember<C>>) -> (lines: (Vec<Vec<C>>, Vec<Vec<C>>))
    ensures
        lines_view(lines.0@) == geom_lines(ms@, ms@.len() as int).0,
        lines_view(lines.1@) == geom_lines(ms@, ms@.len() as int).1,
{
    let mut outer: Vec<Vec<C>> = Vec::new();
    let mut inner: Vec<Vec<C>> = Vec::new();
    proof {
        assert(lines_view(outer@) =~= Seq::<Seq<C>>::empty());
        assert(lines_view(inner@) =~= Seq::<Seq<C>>::empty());
    }
    let mut k: usize = 0;
    while k < ms.len()
        invariant
            k <= ms@.len(),
            lines_view(outer@) == geom_lines(ms@, k as int).0,
            lines_view(inner@) == geom_lines(ms@, k as int).1,
        decreases ms@.len() - k,
    {
        let m = &ms[k];
        let ghost o0 = outer@;
        let ghost i0 = inner@;
        match &m.geometry {
            Some(g) => {
                let line = copy_points(g);
                let ghost lv = line@;
                if line.len() >= 2 {
                    if text_is(&m.role, "inner") {
                        inner.push(line);
                        proof {
                            assert(lines_view(inner@) =~= lines_view(i0).push(lv));
                        }
                    } else {
                        outer.push(line);
                        proof {
                            assert(lines_view(outer@) =~= lines_view(o0).push(lv));
                        }
                    }
                }
            },
            None => {},
        }
        k += 1;
    }
    (outer, inner)
}

/// The model of a parse in progress.
pub open spec fn progress<C>(
    seen: Set<(bool, u64)>,
    cands: Seq<Candidate<C>>,
    skipped: usize,
    relations: usize,
) -> ParseModel<C> {
    ParseModel { seen, cands: cands_view(cands), skipped: skipped as nat, relations: relations as nat }
}

proof fn lemma_push_candidate<C>(cands: Seq<Candidate<C>>, c: Candidate<C>)
    ensures
        cands_view(cands.push(c)) == cands_view(cands).push(c@),
{
    assert(cands_view(cands.push(c)) =~= cands_view(cands).push(c@));
}

/// Parse an OSM API response in node-reference form: ways name their nodes
/// by id, relations their member ways; positions are resolved through the
/// nodes of the same response. Elements in `seen` are passed over, and every
/// building way or relation looked at is added to it.
pub fn parse_noderefs_response<C: Copy>(els: &Vec<OsmElement<C>>, seen: &mut SeenElements) -> (parsed:
    ParsedElements<C>)
    ensures
        parsed_model(parsed, final(seen).contents()) == ref_parse(
            ParseModel {
                seen: old(seen).contents(),
                cands: Seq::empty(),
                skipped: 0,
                relations: 0,
            },
            els@,
            els@.len() as int,
            way_map(els@, els@.len() as int, node_map(els@, els@.len() as int)),
        ),
        forall|i: int|
            0 <= i < els@.len() && is_text(#[trigger] els@[i].element_type, "way"@) && (tag_set(
                els@[i].tags.building,
            ) || tag_set(els@[i].tags.building_part)) ==> final(seen).contents().contains(
                (false, id_or_zero(els@[i].id)),
            ),
{
    let nodes = build_node_map(els);
    let ways = build_way_map(els, &nodes);
    let ghost wm = line_views(ways@);
    let ghost start = ParseModel {
        seen: seen.contents(),
        cands: Seq::<CandidateView<C>>::empty(),
        skipped: 0,
        relations: 0,
    };
    let mut candidates: Vec<Candidate<C>> = Vec::new();
    let mut skipped: usize = 0;
    let mut relations: usize = 0;
    proof {
        assert(cands_view(candidates@) =~= Seq::<CandidateView<C>>::empty());
    }
    let mut i: usize = 0;
    while i < els.len()
        invariant
            i <= els@.len(),
            wm == line_views(ways@),
            skipped <= i,
            relations <= i,
            progress(seen.contents(), candidates@, skipped, relations) == ref_parse(
                start,
                els@,
                i as int,
                wm,
            ),
        decreases els@.len() - i,
    {
        let e = &els[i];
        let ghost before = progress(seen.contents(), candidates@, skipped, relations);
        let ghost c0 = candidates@;
        let ghost s0 = seen.contents();
        let id: u64 = match e.id {
            Some(x) => x,
            None => 0,
        };
        if tag_is_set(&e.tags.building) || tag_is_set(&e.tags.building_part) {
            if text_is(&e.element_type, "way") {
                let fresh = seen.insert(false, id);
                if fresh {
                    let fp = match ways.get(&id) {
                        Some(v) => copy_line(v),
                        None => Vec::new(),
                    };
                    if fp.len() < 3 {
                        skipped += 1;
                    } else {
                        candidates.push(Candidate::Way { element: i, id, footprint: fp });
                        proof {
                            lemma_push_candidate(
                                c0,
                                Candidate::Way { element: i, id, footprint: fp },
                            );
                        }
                    }
                } else {
                    proof {
                        assert(seen.contents() =~= s0);
                    }
                }
            } else if text_is(&e.element_type, "relation") {
                if text_is(&e.tags.type_tag, "multipolygon") {
                    let fresh = seen.insert(true, id);
                    if fresh {
                        match &e.members {
                            Some(ms) => {
                                let (outer, inner) = ref_member_lines(ms, &ways);
                                let ghost cand = Candidate::Relation {
                                    element: i,
                                    id,
                                    outer,
                                    inner,
                                };
                                candidates.push(Candidate::Relation { element: i, id, outer, inner });
                                relations += 1;
                                proof {
                                    lemma_push_candidate(c0, cand);
                                }
                            },
                            None => {},
                        }
                    } else {
                        proof {
                            assert(seen.contents() =~= s0);
                        }
                    }
                }
            }
        }
        proof {
            assert(progress(seen.contents(), candidates@, skipped, relations) == ref_step(
                before,
                els@,
                i as int,
                wm,
            ));
        }
        i += 1;
    }
    proof {
        lemma_ref_parse_records_buildings(start, els@, els@.len() as int, wm);
    }
    ParsedElements { candidates, skipped, relations }
}

/// Parse an Overpass `out geom` response: ways carry their positions
/// inline, relations per member with `outer` / `inner` roles. Elements in
/// `seen` are passed over, and every way or relation looked at is added.
pub fn parse_geom_response<C: Copy>(els: &Vec<OsmElement<C>>, seen: &mut SeenElements) -> (parsed:
    ParsedElements<C>)
    ensures
        parsed_model(parsed, final(seen).contents()) == geom_parse(
            ParseModel {
                seen: old(seen).contents(),
                cands: Seq::empty(),
                skipped: 0,
                relations: 0,
            },
            els@,
            els@.len() as int,
        ),
        forall|i: int|
            0 <= i < els@.len() && is_text(#[trigger] els@[i].element_type, "way"@)
                ==> final(seen).contents().contains((false, id_or_zero(els@[i].id))),
        forall|i: int|
            0 <= i < els@.len() && is_text(#[trigger] els@[i].element_type, "relation"@)
                ==> final(seen).contents().contains((true, id_or_zero(els@[i].id))),
{
    let ghost start = ParseModel {
        seen: seen.contents(),
        cands: Seq::<CandidateView<C>>::empty(),
        skipped: 0,
        relations: 0,
    };
    let mut candidates: Vec<Candidate<C>> = Vec::new();
    let mut skipped: usize = 0;
    let mut relations: usize = 0;
    proof {
        assert(cands_view(candidates@) =~= Seq::<CandidateView<C>>::empty());
    }
    let mut i: usize = 0;
    while i < els.len()
        invariant
            i <= els@.len(),
            skipped <= i,
            relations <= i,
            progress(seen.contents(), candidates@, skipped, relations) == geom_parse(
                start,
                els@,
                i as int,
            ),
        decreases els@.len() - i,
    {
        let e = &els[i];
        let ghost before = progress(seen.contents(), candidates@, skipped, relations);
        let ghost c0 = candidates@;
        let ghost s0 = seen.contents();
        let id: u64 = match e.id {
            Some(x) => x,
            None => 0,
        };
        if text_is(&e.element_type, "way") {
            let fresh = seen.insert(false, id);
            if fresh {
                match &e.geometry {
                    Some(g) => {
                        let fp = copy_points(g);
                        let ghost cand = Candidate::Way { element: i, id, footprint: fp };
                        candidates.push(Candidate::Way { element: i, id, footprint: fp });
                        proof {
                            lemma_push_candidate(c0, cand);
                        }
                    },
                    None => {
                        skipped += 1;
                    },
                }
            } else {
                proof {
                    assert(seen.contents() =~= s0);
                }
            }
        } else if text_is(&e.element_type, "relation") {
            let fresh = seen.insert(true, id);
            if fresh {
                match &e.members {
                    Some(ms) => {
                        let (outer, inner) = geom_member_lines(ms);
                        let ghost cand = Candidate::Relation { element: i, id, outer, inner };
                        candidates.push(Candidate::Relation { element: i, id, outer, inner });
                        relations += 1;
                        proof {
                            lemma_push_candidate(c0, cand);
                        }
                    },
                    None => {},
                }
            } else {
                proof {
                    assert(seen.contents() =~= s0);
                }
            }
        }
        proof {
            assert(progress(seen.contents(), candidates@, skipped, relations) == geom_step(
                before,
                els@,
                i as int,
            ));
        }
        i += 1;
    }
    proof {
        lemma_geom_parse_records_ways_and_relations(start, els@, els@.len() as int);
    }
    ParsedElements { candidates, skipped, relations }
}

// ── What the parsers promise across tiles ───────────────────────────────────
/// The kind and id under which a candidate is recorded as seen.
pub open spec fn cand_key<C>(c: CandidateView<C>) -> (bool, u64) {
    match c {
        CandidateView::Way { id, .. } => (false, id),
        CandidateView::Relation { id, .. } => (true, id),
    }
}

/// The candidates after position `base` are recorded in `st.seen`, none of
/// them was in `before`, and no two share a kind and id; `before` is kept.
pub open spec fn yields_fresh_once<C>(before: Set<(bool, u64)>, base: int, st: ParseModel<C>) -> bool {
    &&& 0 <= base <= st.cands.len()
    &&& before.subset_of(st.seen)
    &&& forall|j: int|
        base <= j < st.cands.len() ==> st.seen.contains(#[trigger] cand_key(st.cands[j]))
            && !before.contains(cand_key(st.cands[j]))
    &&& forall|j: int, k: int|
        base <= j < k < st.cands.len() ==> #[trigger] cand_key(st.cands[j]) != #[trigger] cand_key(
            st.cands[k],
        )
}

/// The kind and id under which the Overpass parser records an element, if
/// it records it at all.
pub open spec fn geom_key<C>(e: OsmElement<C>) -> Option<(bool, u64)> {
    if is_text(e.element_type, "way"@) {
        Some((false, id_or_zero(e.id)))
    } else if is_text(e.element_type, "relation"@) {
        Some((true, id_or_zero(e.id)))
    } else {
        None
    }
}

/// The kind and id under which the OSM API parser records an element, if it
/// records it at all.
pub open spec fn ref_key<C>(e: OsmElement<C>) -> Option<(bool, u64)> {
    if !(tag_set(e.tags.building) || tag_set(e.tags.building_part)) {
        None
    } else if is_text(e.element_type, "way"@) {
        Some((false, id_or_zero(e.id)))
    } else if is_text(e.element_type, "relation"@) && is_text(e.tags.type_tag, "multipolygon"@) {
        Some((true, id_or_zero(e.id)))
    } else {
        None
    }
}

proof fn lemma_step_keeps_fresh_once<C>(
    before: Set<(bool, u64)>,
    base: int,
    st: ParseModel<C>,
    nx: ParseModel<C>,
    key: Option<(bool, u64)>,
)
    requires
        yields_fresh_once(before, base, st),
        key is None ==> nx == st,
        key matches Some(k) ==> (st.seen.contains(k) ==> nx == st),
        key matches Some(k) ==> (!st.seen.contains(k) ==> nx.seen == st.seen.insert(k) && (
        nx.cands == st.cands || (nx.cands.len() == st.cands.len() + 1 && nx.cands.drop_last()
            == st.cands && cand_key(nx.cands.last()) == k))),
    ensures
        yields_fresh_once(before, base, nx),
{
    if let Some(k) = key {
        if !st.seen.contains(k) && nx.cands != st.cands {
            let n = st.cands.len() as int;
            assert forall|j: int| base <= j < nx.cands.len() implies nx.seen.contains(
                #[trigger] cand_key(nx.cands[j]),
            ) && !before.contains(cand_key(nx.cands[j])) by {
                if j < n {
                    assert(nx.cands[j] == st.cands[j]);
                }
            }
            assert forall|j: int, i: int| base <= j < i < nx.cands.len() implies #[trigger] cand_key(
                nx.cands[j],
            ) != #[trigger] cand_key(nx.cands[i]) by {
                assert(nx.cands[j] == st.cands[j]);
                if i < n {
                    assert(nx.cands[i] == st.cands[i]);
                } else {
                    assert(st.seen.contains(cand_key(st.cands[j])));
                }
            }
        }
    }
}

/// An Overpass parse yields each way and each relation at most once, none
/// that was recorded before it, and records every one it yields.
pub proof fn lemma_geom_parse_yields_each_once<C>(
    start: ParseModel<C>,
    els: Seq<OsmElement<C>>,
    m: int,
)
    ensures
        yields_fresh_once(start.seen, start.cands.len() as int, geom_parse(start, els, m)),
    decreases m,
{
    if m > 0 {
        lemma_geom_parse_yields_each_once(start, els, m - 1);
        let st = geom_parse(start, els, m - 1);
        let nx = geom_step(st, els, m - 1);
        if let Some(k) = geom_key(els[m - 1]) {
            if !st.seen.contains(k) {
                assert(nx.cands == st.cands || (nx.cands.len() == st.cands.len() + 1
                    && nx.cands.drop_last() == st.cands && cand_key(nx.cands.last()) == k));
            }
        }
        lemma_step_keeps_fresh_once(
            start.seen,
            start.cands.len() as int,
            st,
            nx,
            geom_key(els[m - 1]),
        );
    }
}

/// An OSM API parse yields each way and each relation at most once, none
/// that was recorded before it, and records every one it yields.
pub proof fn lemma_ref_parse_yields_each_once<C>(
    start: ParseModel<C>,
    els: Seq<OsmElement<C>>,
    m: int,
    ways: Map<u64, Seq<C>>,
)
    ensures
        yields_fresh_once(start.seen, start.cands.len() as int, ref_parse(start, els, m, ways)),
    decreases m,
{
    if m > 0 {
        lemma_ref_parse_yields_each_once(start, els, m - 1, ways);
        let st = ref_parse(start, els, m - 1, ways);
        let nx = ref_step(st, els, m - 1, ways);
        if let Some(k) = ref_key(els[m - 1]) {
            if !st.seen.contains(k) {
                assert(nx.cands == st.cands || (nx.cands.len() == st.cands.len() + 1
                    && nx.cands.drop_last() == st.cands && cand_key(nx.cands.last()) == k));
            }
        }
        lemma_step_keeps_fresh_once(
            start.seen,
            start.cands.len() as int,
            st,
            nx,
            ref_key(els[m - 1]),
        );
    }
}

proof fn lemma_geom_records_all<C>(start: ParseModel<C>, els: Seq<OsmElement<C>>, m: int)
    ensures
        start.seen.subset_of(geom_parse(start, els, m).seen),
        forall|i: int|
            0 <= i < m && (#[trigger] geom_key(els[i])) is Some ==> geom_parse(
                start,
                els,
                m,
            ).seen.contains(geom_key(els[i])->0),
    decreases m,
{
    if m > 0 {
        lemma_geom_records_all(start, els, m - 1);
    }
}

proof fn lemma_geom_parse_nothing_new<C>(start: ParseModel<C>, els: Seq<OsmElement<C>>, m: int)
    requires
        forall|i: int|
            0 <= i < m && (#[trigger] geom_key(els[i])) is Some ==> start.seen.contains(
                geom_key(els[i])->0,
            ),
    ensures
        geom_parse(start, els, m) == start,
    decreases m,
{
    if m > 0 {
        lemma_geom_parse_nothing_new(start, els, m - 1);
        let _ = geom_key(els[m - 1]);
    }
}

/// Parsing an Overpass response again, with the elements the first parse
/// recorded, yields no building, skips nothing and records nothing new.
pub proof fn lemma_geom_reparse_yields_nothing<C>(seen: Set<(bool, u64)>, els: Seq<OsmElement<C>>)
    ensures
        ({
            let first = geom_parse(
                ParseModel { seen, cands: Seq::empty(), skipped: 0, relations: 0 },
                els,
                els.len() as int,
            );
            let again = ParseModel {
                seen: first.seen,
                cands: Seq::<CandidateView<C>>::empty(),
                skipped: 0,
                relations: 0,
            };
            geom_parse(again, els, els.len() as int) == again
        }),
{
    let first = geom_parse(
        ParseModel { seen, cands: Seq::empty(), skipped: 0, relations: 0 },
        els,
        els.len() as int,
    );
    let again = ParseModel {
        seen: first.seen,
        cands: Seq::<CandidateView<C>>::empty(),
        skipped: 0,
        relations: 0,
    };
    lemma_geom_records_all(
        ParseModel { seen, cands: Seq::empty(), skipped: 0, relations: 0 },
        els,
        els.len() as int,
    );
    lemma_geom_parse_nothing_new(again, els, els.len() as int);
}

proof fn lemma_ref_records_all<C>(
    start: ParseModel<C>,
    els: Seq<OsmElement<C>>,
    m: int,
    ways: Map<u64, Seq<C>>,
)
    ensures
        start.seen.subset_of(ref_parse(start, els, m, ways).seen),
        forall|i: int|
            0 <= i < m && (#[trigger] ref_key(els[i])) is Some ==> ref_parse(
                start,
                els,
                m,
                ways,
            ).seen.contains(ref_key(els[i])->0),
    decreases m,
{
    if m > 0 {
        lemma_ref_records_all(start, els, m - 1, ways);
    }
}

proof fn lemma_ref_parse_nothing_new<C>(
    start: ParseModel<C>,
    els: Seq<OsmElement<C>>,
    m: int,
    ways: Map<u64, Seq<C>>,
)
    requires
        forall|i: int|
            0 <= i < m && (#[trigger] ref_key(els[i])) is Some ==> start.seen.contains(
                ref_key(els[i])->0,
            ),
    ensures
        ref_parse(start, els, m, ways) == start,
    decreases m,
{
    if m > 0 {
        lemma_ref_parse_nothing_new(start, els, m - 1, ways);
        let _ = ref_key(els[m - 1]);
    }
}

/// Parsing an OSM API response again, with the elements the first parse
/// recorded, yields no building, skips nothing and records nothing new.
pub proof fn lemma_ref_reparse_yields_nothing<C>(
    seen: Set<(bool, u64)>,
    els: Seq<OsmElement<C>>,
    ways: Map<u64, Seq<C>>,
)
    ensures
        ({
            let first = ref_parse(
                ParseModel { seen, cands: Seq::empty(), skipped: 0, relations: 0 },
                els,
                els.len() as int,
                ways,
            );
            let again = ParseModel {
                seen: first.seen,
                cands: Seq::<CandidateView<C>>::empty(),
                skipped: 0,
                relations: 0,
            };
            ref_parse(again, els, els.len() as int, ways) == again
        }),
{
    let first = ref_parse(
        ParseModel { seen, cands: Seq::empty(), skipped: 0, relations: 0 },
        els,
        els.len() as int,
        ways,
    );
    let again = ParseModel {
        seen: first.seen,
        cands: Seq::<CandidateView<C>>::empty(),
        skipped: 0,
        relations: 0,
    };
    lemma_ref_records_all(
        ParseModel { seen, cands: Seq::empty(), skipped: 0, relations: 0 },
        els,
        els.len() as int,
        ways,
    );
    lemma_ref_parse_nothing_new(again, els, els.len() as int, ways);
}

// ── What the OSM API parser yields, element by element ──────────────────────
proof fn lemma_ref_seen_grows<C>(
    start: ParseModel<C>,
    els: Seq<OsmElement<C>>,
    i: int,
    m: int,
    ways: Map<u64, Seq<C>>,
)
    requires
        0 <= i <= m,
    ensures
        ref_parse(start, els, i, ways).seen.subset_of(ref_parse(start, els, m, ways).seen),
        ref_parse(start, els, i, ways).cands.len() <= ref_parse(start, els, m, ways).cands.len(),
        forall|j: int|
            0 <= j < ref_parse(start, els, i, ways).cands.len() ==> ref_parse(
                start,
                els,
                m,
                ways,
            ).cands[j] == #[trigger] ref_parse(start, els, i, ways).cands[j],
    decreases m - i,
{
    if i < m {
        lemma_ref_seen_grows(start, els, i, m - 1, ways);
        let st = ref_parse(start, els, m - 1, ways);
        let nx = ref_step(st, els, m - 1, ways);
        assert(st.seen.subset_of(nx.seen));
        assert(nx.cands == st.cands || nx.cands == st.cands.push(nx.cands.last()));
        assert forall|j: int| 0 <= j < st.cands.len() implies nx.cands[j] == st.cands[j] by {
            if nx.cands != st.cands {
                assert(nx.cands[j] == st.cands.push(nx.cands.last())[j]);
            }
        }
    }
}

proof fn lemma_ref_seen_ways_come_from<C>(
    start: ParseModel<C>,
    els: Seq<OsmElement<C>>,
    m: int,
    ways: Map<u64, Seq<C>>,
    x: u64,
)
    requires
        0 <= m,
        ref_parse(start, els, m, ways).seen.contains((false, x)),
        !start.seen.contains((false, x)),
    ensures
        exists|j: int|
            0 <= j < m && is_text(#[trigger] els[j].element_type, "way"@) && (tag_set(
                els[j].tags.building,
            ) || tag_set(els[j].tags.building_part)) && id_or_zero(els[j].id) == x,
    decreases m,
{
    if m > 0 {
        let st = ref_parse(start, els, m - 1, ways);
        if st.seen.contains((false, x)) {
            lemma_ref_seen_ways_come_from(start, els, m - 1, ways, x);
            let j = choose|j: int|
                0 <= j < m - 1 && is_text(#[trigger] els[j].element_type, "way"@) && (tag_set(
                    els[j].tags.building,
                ) || tag_set(els[j].tags.building_part)) && id_or_zero(els[j].id) == x;
            assert(0 <= j < m && is_text(els[j].element_type, "way"@));
        } else {
            assert(is_text(els[m - 1].element_type, "way"@));
        }
    }
}

/// The OSM API parser records every way, and every multipolygon relation,
/// whose `building` or `building:part` tag is set (and not `no`).
pub proof fn lemma_ref_parse_records_buildings<C>(
    start: ParseModel<C>,
    els: Seq<OsmElement<C>>,
    m: int,
    ways: Map<u64, Seq<C>>,
)
    requires
        0 <= m,
    ensures
        forall|i: int|
            0 <= i < m && is_text(#[trigger] els[i].element_type, "way"@) && (tag_set(
                els[i].tags.building,
            ) || tag_set(els[i].tags.building_part)) ==> ref_parse(start, els, m, ways).seen.contains(
                (false, id_or_zero(els[i].id)),
            ),
        forall|i: int|
            0 <= i < m && is_text(#[trigger] els[i].element_type, "relation"@) && is_text(
                els[i].tags.type_tag,
                "multipolygon"@,
            ) && (tag_set(els[i].tags.building) || tag_set(els[i].tags.building_part))
                ==> ref_parse(start, els, m, ways).seen.contains((true, id_or_zero(els[i].id))),
    decreases m,
{
    if m > 0 {
        lemma_ref_parse_records_buildings(start, els, m - 1, ways);
        lemma_ref_seen_grows(start, els, m - 1, m, ways);
        reveal_strlit("way");
        reveal_strlit("relation");
        assert("way"@.len() == 3 && "relation"@.len() == 8);
        let _ = els[m - 1].element_type;
    }
}

/// A way whose `building` or `building:part` tag is set, seen neither
/// before the parse nor earlier in the response, with at least three
/// resolved positions, is yielded as a way candidate with those positions.
pub proof fn lemma_ref_parse_yields_new_building_ways<C>(
    start: ParseModel<C>,
    els: Seq<OsmElement<C>>,
    m: int,
    ways: Map<u64, Seq<C>>,
    i: int,
)
    requires
        0 <= i < m,
        is_text(els[i].element_type, "way"@),
        tag_set(els[i].tags.building) || tag_set(els[i].tags.building_part),
        !start.seen.contains((false, id_or_zero(els[i].id))),
        forall|j: int|
            0 <= j < i && is_text(#[trigger] els[j].element_type, "way"@) && (tag_set(
                els[j].tags.building,
            ) || tag_set(els[j].tags.building_part)) ==> id_or_zero(els[j].id) != id_or_zero(
                els[i].id,
            ),
        ways.contains_key(id_or_zero(els[i].id)),
        ways[id_or_zero(els[i].id)].len() >= 3,
    ensures
        ref_parse(start, els, m, ways).cands.contains(
            CandidateView::Way {
                element: i,
                id: id_or_zero(els[i].id),
                footprint: ways[id_or_zero(els[i].id)],
            },
        ),
{
    let id = id_or_zero(els[i].id);
    let st = ref_parse(start, els, i, ways);
    if st.seen.contains((false, id)) {
        lemma_ref_seen_ways_come_from(start, els, i, ways, id);
    }
    let w = CandidateView::Way { element: i, id, footprint: ways[id] };
    let nx = ref_parse(start, els, i + 1, ways);
    assert(nx == ref_step(st, els, i, ways));
    assert(nx.cands == st.cands.push(w));
    lemma_ref_seen_grows(start, els, i + 1, m, ways);
    assert(nx.cands[st.cands.len() as int] == w);
    assert(ref_parse(start, els, m, ways).cands[st.cands.len() as int] == w);
}

/// Every candidate the OSM API parser yields comes from an element of the
/// response that carries a set `building` or `building:part` tag: a way
/// candidate from a way, with the way's resolved positions (at least
/// three), a relation candidate from a multipolygon relation, under that
/// element's id.
pub proof fn lemma_ref_parse_yields_only_buildings<C>(
    start: ParseModel<C>,
    els: Seq<OsmElement<C>>,
    m: int,
    ways: Map<u64, Seq<C>>,
)
    requires
        0 <= m,
    ensures
        forall|j: int|
            start.cands.len() <= j < ref_parse(start, els, m, ways).cands.len() ==> match #[trigger] ref_parse(
                start,
                els,
                m,
                ways,
            ).cands[j] {
                CandidateView::Way { element, id, footprint } => 0 <= element < m && is_text(
                    els[element].element_type,
                    "way"@,
                ) && (tag_set(els[element].tags.building) || tag_set(
                    els[element].tags.building_part,
                )) && id == id_or_zero(els[element].id) && ways.contains_key(id) && footprint
                    == ways[id] && footprint.len() >= 3,
                CandidateView::Relation { element, id, .. } => 0 <= element < m && is_text(
                    els[element].element_type,
                    "relation"@,
                ) && is_text(els[element].tags.type_tag, "multipolygon"@) && (tag_set(
                    els[element].tags.building,
                ) || tag_set(els[element].tags.building_part)) && id == id_or_zero(
                    els[element].id,
                ),
            },
    decreases m,
{
    if m > 0 {
        lemma_ref_parse_yields_only_buildings(start, els, m - 1, ways);
        lemma_ref_seen_grows(start, els, m - 1, m, ways);
        let st = ref_parse(start, els, m - 1, ways);
        let nx = ref_parse(start, els, m, ways);
        assert(nx == ref_step(st, els, m - 1, ways));
        assert forall|j: int| start.cands.len() <= j < nx.cands.len() implies match #[trigger] nx.cands[j] {
            CandidateView::Way { element, id, footprint } => 0 <= element < m && is_text(
                els[element].element_type,
                "way"@,
            ) && (tag_set(els[element].tags.building) || tag_set(els[element].tags.building_part))
                && id == id_or_zero(els[element].id) && ways.contains_key(id) && footprint == ways[id]
                && footprint.len() >= 3,
            CandidateView::Relation { element, id, .. } => 0 <= element < m && is_text(
                els[element].element_type,
                "relation"@,
            ) && is_text(els[element].tags.type_tag, "multipolygon"@) && (tag_set(
                els[element].tags.building,
            ) || tag_set(els[element].tags.building_part)) && id == id_or_zero(els[element].id),
        } by {
            if j < st.cands.len() {
                assert(nx.cands[j] == st.cands[j]);
            } else {
                assert(nx.cands.len() == st.cands.len() + 1);
            }
        }
    }
}

/// A multipolygon relation whose `building` or `building:part` tag is set,
/// seen neither before the parse nor earlier in the response, and that lists
/// members, is yielded as a relation candidate with its outer and inner lines.
pub proof fn lemma_ref_parse_yields_new_building_relations<C>(
    start: ParseModel<C>,
    els: Seq<OsmElement<C>>,
    m: int,
    ways: Map<u64, Seq<C>>,
    i: int,
)
    requires
        0 <= i < m,
        is_text(els[i].element_type, "relation"@),
        is_text(els[i].tags.type_tag, "multipolygon"@),
        tag_set(els[i].tags.building) || tag_set(els[i].tags.building_part),
        els[i].members is Some,
        !start.seen.contains((true, id_or_zero(els[i].id))),
        forall|j: int|
            0 <= j < i && is_text(#[trigger] els[j].element_type, "relation"@) && is_text(
                els[j].tags.type_tag,
                "multipolygon"@,
            ) && (tag_set(els[j].tags.building) || tag_set(els[j].tags.building_part))
                ==> id_or_zero(els[j].id) != id_or_zero(els[i].id),
    ensures
        ({
            let ms = els[i].members->0@;
            let lines = ref_lines(ms, ways, ms.len() as int);
            ref_parse(start, els, m, ways).cands.contains(
                CandidateView::Relation {
                    element: i,
                    id: id_or_zero(els[i].id),
                    outer: lines.0,
                    inner: lines.1,
                },
            )
        }),
{
    let id = id_or_zero(els[i].id);
    let ms = els[i].members->0@;
    let lines = ref_lines(ms, ways, ms.len() as int);
    let st = ref_parse(start, els, i, ways);
    reveal_strlit("way");
    reveal_strlit("relation");
    assert("way"@.len() == 3 && "relation"@.len() == 8);
    if st.seen.contains((true, id)) {
        lemma_ref_seen_relations_come_from(start, els, i, ways, id);
    }
    let r = CandidateView::Relation { element: i, id, outer: lines.0, inner: lines.1 };
    let nx = ref_parse(start, els, i + 1, ways);
    assert(nx == ref_step(st, els, i, ways));
    assert(nx.cands == st.cands.push(r));
    lemma_ref_seen_grows(start, els, i + 1, m, ways);
    assert(nx.cands[st.cands.len() as int] == r);
    assert(ref_parse(start, els, m, ways).cands[st.cands.len() as int] == r);
}

proof fn lemma_ref_seen_relations_come_from<C>(
    start: ParseModel<C>,
    els: Seq<OsmElement<C>>,
    m: int,
    ways: Map<u64, Seq<C>>,
    x: u64,
)
    requires
        0 <= m,
        ref_parse(start, els, m, ways).seen.contains((true, x)),
        !start.seen.contains((true, x)),
    ensures
        exists|j: int|
            0 <= j < m && is_text(#[trigger] els[j].element_type, "relation"@) && is_text(
                els[j].tags.type_tag,
                "multipolygon"@,
            ) && (tag_set(els[j].tags.building) || tag_set(els[j].tags.building_part))
                && id_or_zero(els[j].id) == x,
    decreases m,
{
    if m > 0 {
        let st = ref_parse(start, els, m - 1, ways);
        if st.seen.contains((true, x)) {
            lemma_ref_seen_relations_come_from(start, els, m - 1, ways, x);
            let j = choose|j: int|
                0 <= j < m - 1 && is_text(#[trigger] els[j].element_type, "relation"@) && is_text(
                    els[j].tags.type_tag,
                    "multipolygon"@,
                ) && (tag_set(els[j].tags.building) || tag_set(els[j].tags.building_part))
                    && id_or_zero(els[j].id) == x;
            assert(0 <= j < m && is_text(els[j].element_type, "relation"@));
        } else {
            assert(is_text(els[m - 1].element_type, "relation"@));
        }
    }
}

// ── What the Overpass parser yields, element by element ─────────────────────
proof fn lemma_geom_seen_grows<C>(start: ParseModel<C>, els: Seq<OsmElement<C>>, i: int, m: int)
    requires
        0 <= i <= m,
    ensures
        geom_parse(start, els, i).seen.subset_of(geom_parse(start, els, m).seen),
        geom_parse(start, els, i).cands.len() <= geom_parse(start, els, m).cands.len(),
        forall|j: int|
            0 <= j < geom_parse(start, els, i).cands.len() ==> geom_parse(start, els, m).cands[j]
                == #[trigger] geom_parse(start, els, i).cands[j],
    decreases m - i,
{
    if i < m {
        lemma_geom_seen_grows(start, els, i, m - 1);
        let st = geom_parse(start, els, m - 1);
        let nx = geom_step(st, els, m - 1);
        assert(st.seen.subset_of(nx.seen));
        assert(nx.cands == st.cands || nx.cands == st.cands.push(nx.cands.last()));
        assert forall|j: int| 0 <= j < st.cands.len() implies nx.cands[j] == st.cands[j] by {
            if nx.cands != st.cands {
                assert(nx.cands[j] == st.cands.push(nx.cands.last())[j]);
            }
        }
    }
}

proof fn lemma_geom_seen_comes_from<C>(
    start: ParseModel<C>,
    els: Seq<OsmElement<C>>,
    m: int,
    relation: bool,
    x: u64,
)
    requires
        0 <= m,
        geom_parse(start, els, m).seen.contains((relation, x)),
        !start.seen.contains((relation, x)),
    ensures
        exists|j: int|
            0 <= j < m && is_text(
                #[trigger] els[j].element_type,
                if relation {
                    "relation"@
                } else {
                    "way"@
                },
            ) && id_or_zero(els[j].id) == x,
    decreases m,
{
    reveal_strlit("way");
    reveal_strlit("relation");
    assert("way"@.len() == 3 && "relation"@.len() == 8);
    if m > 0 {
        let st = geom_parse(start, els, m - 1);
        let t = if relation {
            "relation"@
        } else {
            "way"@
        };
        if st.seen.contains((relation, x)) {
            lemma_geom_seen_comes_from(start, els, m - 1, relation, x);
            let j = choose|j: int|
                0 <= j < m - 1 && is_text(#[trigger] els[j].element_type, t) && id_or_zero(
                    els[j].id,
                ) == x;
            assert(0 <= j < m && is_text(els[j].element_type, t));
        } else {
            assert(is_text(els[m - 1].element_type, t));
        }
    }
}

/// The Overpass parser records every way and every relation of the response.
pub proof fn lemma_geom_parse_records_ways_and_relations<C>(
    start: ParseModel<C>,
    els: Seq<OsmElement<C>>,
    m: int,
)
    requires
        0 <= m,
    ensures
        forall|i: int|
            0 <= i < m && is_text(#[trigger] els[i].element_type, "way"@) ==> geom_parse(
                start,
                els,
                m,
            ).seen.contains((false, id_or_zero(els[i].id))),
        forall|i: int|
            0 <= i < m && is_text(#[trigger] els[i].element_type, "relation"@) ==> geom_parse(
                start,
                els,
                m,
            ).seen.contains((true, id_or_zero(els[i].id))),
    decreases m,
{
    if m > 0 {
        lemma_geom_parse_records_ways_and_relations(start, els, m - 1);
        lemma_geom_seen_grows(start, els, m - 1, m);
        reveal_strlit("way");
        reveal_strlit("relation");
        assert("way"@.len() == 3 && "relation"@.len() == 8);
        let _ = els[m - 1].element_type;
    }
}

/// A way with inline geometry, seen neither before the parse nor earlier in
/// the response, is yielded as a way candidate with the points of its
/// geometry that have both coordinates.
pub proof fn lemma_geom_parse_yields_new_ways<C>(
    start: ParseModel<C>,
    els: Seq<OsmElement<C>>,
    m: int,
    i: int,
)
    requires
        0 <= i < m,
        is_text(els[i].element_type, "way"@),
        els[i].geometry is Some,
        !start.seen.contains((false, id_or_zero(els[i].id))),
        forall|j: int|
            0 <= j < i && is_text(#[trigger] els[j].element_type, "way"@) ==> id_or_zero(els[j].id)
                != id_or_zero(els[i].id),
    ensures
        ({
            let g = els[i].geometry->0@;
            geom_parse(start, els, m).cands.contains(
                CandidateView::Way {
                    element: i,
                    id: id_or_zero(els[i].id),
                    footprint: points(g, g.len() as int),
                },
            )
        }),
{
    let id = id_or_zero(els[i].id);
    let g = els[i].geometry->0@;
    let st = geom_parse(start, els, i);
    if st.seen.contains((false, id)) {
        lemma_geom_seen_comes_from(start, els, i, false, id);
    }
    let w = CandidateView::Way { element: i, id, footprint: points(g, g.len() as int) };
    let nx = geom_parse(start, els, i + 1);
    assert(nx == geom_step(st, els, i));
    assert(nx.cands == st.cands.push(w));
    lemma_geom_seen_grows(start, els, i + 1, m);
    assert(nx.cands[st.cands.len() as int] == w);
    assert(geom_parse(start, els, m).cands[st.cands.len() as int] == w);
}

/// A relation that lists members, seen neither before the parse nor earlier
/// in the response, is yielded as a relation candidate with its outer and
/// inner member lines.
pub proof fn lemma_geom_parse_yields_new_relations<C>(
    start: ParseModel<C>,
    els: Seq<OsmElement<C>>,
    m: int,
    i: int,
)
    requires
        0 <= i < m,
        is_text(els[i].element_type, "relation"@),
        els[i].members is Some,
        !start.seen.contains((true, id_or_zero(els[i].id))),
        forall|j: int|
            0 <= j < i && is_text(#[trigger] els[j].element_type, "relation"@) ==> id_or_zero(
                els[j].id,
            ) != id_or_zero(els[i].id),
    ensures
        ({
            let ms = els[i].members->0@;
            let lines = geom_lines(ms, ms.len() as int);
            geom_parse(start, els, m).cands.contains(
                CandidateView::Relation {
                    element: i,
                    id: id_or_zero(els[i].id),
                    outer: lines.0,
                    inner: lines.1,
                },
            )
        }),
{
    let id = id_or_zero(els[i].id);
    let ms = els[i].members->0@;
    let lines = geom_lines(ms, ms.len() as int);
    let st = geom_parse(start, els, i);
    reveal_strlit("way");
    reveal_strlit("relation");
    assert("way"@.len() == 3 && "relation"@.len() == 8);
    if st.seen.contains((true, id)) {
        lemma_geom_seen_comes_from(start, els, i, true, id);
    }
    let r = CandidateView::Relation { element: i, id, outer: lines.0, inner: lines.1 };
    let nx = geom_parse(start, els, i + 1);
    assert(nx == geom_step(st, els, i));
    assert(nx.cands == st.cands.push(r));
    lemma_geom_seen_grows(start, els, i + 1, m);
    assert(nx.cands[st.cands.len() as int] == r);
    assert(geom_parse(start, els, m).cands[st.cands.len() as int] == r);
}

// ── Relation members: outer and inner lines ─────────────────────────────────
/// In node-reference form, each way member whose way is known with at least
/// two positions gives that way's positions as an inner line when its role
/// is `inner`, as an outer line otherwise.
pub proof fn lemma_ref_lines_follow_roles<C>(ms: Seq<OsmMember<C>>, ways: Map<u64, Seq<C>>, k: int)
    requires
        0 <= k <= ms.len(),
    ensures
        forall|i: int|
            0 <= i < k && is_text(#[trigger] ms[i].member_type, "way"@) && (ms[i].reference matches Some(
                r,
            ) && ways.contains_key(r) && ways[r].len() >= 2) ==> if is_text(ms[i].role, "inner"@) {
                ref_lines(ms, ways, k).1.contains(ways[ms[i].reference->0])
            } else {
                ref_lines(ms, ways, k).0.contains(ways[ms[i].reference->0])
            },
    decreases k,
{
    if k > 0 {
        lemma_ref_lines_follow_roles(ms, ways, k - 1);
        let prev = ref_lines(ms, ways, k - 1);
        let cur = ref_lines(ms, ways, k);
        assert forall|j: int| 0 <= j < prev.0.len() implies cur.0[j] == prev.0[j] by {
            if cur.0 != prev.0 {
                assert(cur.0 == prev.0.push(cur.0.last()));
            }
        }
        assert forall|j: int| 0 <= j < prev.1.len() implies cur.1[j] == prev.1[j] by {
            if cur.1 != prev.1 {
                assert(cur.1 == prev.1.push(cur.1.last()));
            }
        }
        assert forall|i: int|
            0 <= i < k && is_text(#[trigger] ms[i].member_type, "way"@) && (ms[i].reference matches Some(
                r,
            ) && ways.contains_key(r) && ways[r].len() >= 2) implies if is_text(ms[i].role, "inner"@) {
            cur.1.contains(ways[ms[i].reference->0])
        } else {
            cur.0.contains(ways[ms[i].reference->0])
        } by {
            let line = ways[ms[i].reference->0];
            if i < k - 1 {
                if is_text(ms[i].role, "inner"@) {
                    let j = choose|j: int| 0 <= j < prev.1.len() && prev.1[j] == line;
                    assert(cur.1[j] == line);
                } else {
                    let j = choose|j: int| 0 <= j < prev.0.len() && prev.0[j] == line;
                    assert(cur.0[j] == line);
                }
            } else if is_text(ms[i].role, "inner"@) {
                assert(cur.1[prev.1.len() as int] == line);
            } else {
                assert(cur.0[prev.0.len() as int] == line);
            }
        }
    }
}

/// In node-reference form, every inner line is the way of a way member
/// with role `inner`, and every outer line that of a way member with
/// another role; the way is known and has at least two positions.
pub proof fn lemma_ref_lines_come_from_members<C>(ms: Seq<OsmMember<C>>, ways: Map<u64, Seq<C>>, k: int)
    requires
        0 <= k <= ms.len(),
    ensures
        forall|j: int|
            #![trigger ref_lines(ms, ways, k).1[j]]
            0 <= j < ref_lines(ms, ways, k).1.len() ==> exists|i: int|
                #![trigger ms[i]]
                0 <= i < k && is_text(ms[i].member_type, "way"@) && ms[i].reference is Some
                    && ways.contains_key(ms[i].reference->0) && ways[ms[i].reference->0].len() >= 2
                    && is_text(ms[i].role, "inner"@) && ref_lines(ms, ways, k).1[j]
                    =~= ways[ms[i].reference->0],
        forall|j: int|
            #![trigger ref_lines(ms, ways, k).0[j]]
            0 <= j < ref_lines(ms, ways, k).0.len() ==> exists|i: int|
                #![trigger ms[i]]
                0 <= i < k && is_text(ms[i].member_type, "way"@) && ms[i].reference is Some
                    && ways.contains_key(ms[i].reference->0) && ways[ms[i].reference->0].len() >= 2
                    && !is_text(ms[i].role, "inner"@) && ref_lines(ms, ways, k).0[j]
                    =~= ways[ms[i].reference->0],
    decreases k,
{
    if k > 0 {
        lemma_ref_lines_come_from_members(ms, ways, k - 1);
        let prev = ref_lines(ms, ways, k - 1);
        let cur = ref_lines(ms, ways, k);
        let m = ms[k - 1];
        let usable = is_text(m.member_type, "way"@) && (m.reference matches Some(r)
            && ways.contains_key(r) && ways[r].len() >= 2);
        if usable && is_text(m.role, "inner"@) {
            assert(cur.0 == prev.0);
            assert(cur.1 == prev.1.push(ways[m.reference->0]));
        } else if usable {
            assert(cur.1 == prev.1);
            assert(cur.0 == prev.0.push(ways[m.reference->0]));
        } else {
            assert(cur == prev);
        }
        assert forall|j: int|
            #![trigger ref_lines(ms, ways, k).1[j]]
            0 <= j < ref_lines(ms, ways, k).1.len() implies exists|i: int|
            #![trigger ms[i]]
            0 <= i < k && is_text(ms[i].member_type, "way"@) && ms[i].reference is Some
                && ways.contains_key(ms[i].reference->0) && ways[ms[i].reference->0].len() >= 2
                && is_text(ms[i].role, "inner"@) && cur.1[j] =~= ways[ms[i].reference->0] by {
            if j < prev.1.len() {
                assert(cur.1[j] == prev.1[j]);
                let i = choose|i: int|
                    #![trigger ms[i]]
                    0 <= i < k - 1 && is_text(ms[i].member_type, "way"@) && ms[i].reference is Some
                        && ways.contains_key(ms[i].reference->0) && ways[ms[i].reference->0].len()
                        >= 2 && is_text(ms[i].role, "inner"@) && prev.1[j]
                        =~= ways[ms[i].reference->0];
                let _ = ms[i];
            } else {
                let _ = ms[k - 1];
            }
        }
        assert forall|j: int|
            #![trigger ref_lines(ms, ways, k).0[j]]
            0 <= j < ref_lines(ms, ways, k).0.len() implies exists|i: int|
            #![trigger ms[i]]
            0 <= i < k && is_text(ms[i].member_type, "way"@) && ms[i].reference is Some
                && ways.contains_key(ms[i].reference->0) && ways[ms[i].reference->0].len() >= 2
                && !is_text(ms[i].role, "inner"@) && cur.0[j] =~= ways[ms[i].reference->0] by {
            if j < prev.0.len() {
                assert(cur.0[j] == prev.0[j]);
                let i = choose|i: int|
                    #![trigger ms[i]]
                    0 <= i < k - 1 && is_text(ms[i].member_type, "way"@) && ms[i].reference is Some
                        && ways.contains_key(ms[i].reference->0) && ways[ms[i].reference->0].len()
                        >= 2 && !is_text(ms[i].role, "inner"@) && prev.0[j]
                        =~= ways[ms[i].reference->0];
                let _ = ms[i];
            } else {
                let _ = ms[k - 1];
            }
        }
    }
}

/// With inline geometry, each member whose geometry has at least two points
/// with both coordinates gives those points as an inner line when its role
/// is `inner`, as an outer line otherwise.
pub proof fn lemma_geom_lines_follow_roles<C>(ms: Seq<OsmMember<C>>, k: int)
    requires
        0 <= k <= ms.len(),
    ensures
        forall|i: int|
            #![trigger ms[i]]
            0 <= i < k && ms[i].geometry is Some && points(
                ms[i].geometry->0@,
                ms[i].geometry->0@.len() as int,
            ).len() >= 2 ==> if is_text(ms[i].role, "inner"@) {
                geom_lines(ms, k).1.contains(
                    points(ms[i].geometry->0@, ms[i].geometry->0@.len() as int),
                )
            } else {
                geom_lines(ms, k).0.contains(
                    points(ms[i].geometry->0@, ms[i].geometry->0@.len() as int),
                )
            },
    decreases k,
{
    if k > 0 {
        lemma_geom_lines_follow_roles(ms, k - 1);
        let prev = geom_lines(ms, k - 1);
        let cur = geom_lines(ms, k);
        assert forall|j: int| 0 <= j < prev.0.len() implies cur.0[j] == prev.0[j] by {
            if cur.0 != prev.0 {
                assert(cur.0 == prev.0.push(cur.0.last()));
            }
        }
        assert forall|j: int| 0 <= j < prev.1.len() implies cur.1[j] == prev.1[j] by {
            if cur.1 != prev.1 {
                assert(cur.1 == prev.1.push(cur.1.last()));
            }
        }
        assert forall|i: int|
            #![trigger ms[i]]
            0 <= i < k && ms[i].geometry is Some && points(
                ms[i].geometry->0@,
                ms[i].geometry->0@.len() as int,
            ).len() >= 2 implies if is_text(ms[i].role, "inner"@) {
            cur.1.contains(points(ms[i].geometry->0@, ms[i].geometry->0@.len() as int))
        } else {
            cur.0.contains(points(ms[i].geometry->0@, ms[i].geometry->0@.len() as int))
        } by {
            let line = points(ms[i].geometry->0@, ms[i].geometry->0@.len() as int);
            if i < k - 1 {
                if is_text(ms[i].role, "inner"@) {
                    let j = choose|j: int| 0 <= j < prev.1.len() && prev.1[j] == line;
                    assert(cur.1[j] == line);
                } else {
                    let j = choose|j: int| 0 <= j < prev.0.len() && prev.0[j] == line;
                    assert(cur.0[j] == line);
                }
            } else if is_text(ms[i].role, "inner"@) {
                assert(cur.1[prev.1.len() as int] == line);
            } else {
                assert(cur.0[prev.0.len() as int] == line);
            }
        }
    }
}

/// With inline geometry, every inner line is the geometry of a member with
/// role `inner`, and every outer line that of a member with another role;
/// the geometry has at least two points with both coordinates.
pub proof fn lemma_geom_lines_come_from_members<C>(ms: Seq<OsmMember<C>>, k: int)
    requires
        0 <= k <= ms.len(),
    ensures
        forall|j: int|
            #![trigger geom_lines(ms, k).1[j]]
            0 <= j < geom_lines(ms, k).1.len() ==> exists|i: int|
                #![trigger ms[i]]
                0 <= i < k && ms[i].geometry is Some && points(
                    ms[i].geometry->0@,
                    ms[i].geometry->0@.len() as int,
                ).len() >= 2 && is_text(ms[i].role, "inner"@) && geom_lines(ms, k).1[j] =~= points(
                    ms[i].geometry->0@,
                    ms[i].geometry->0@.len() as int,
                ),
        forall|j: int|
            #![trigger geom_lines(ms, k).0[j]]
            0 <= j < geom_lines(ms, k).0.len() ==> exists|i: int|
                #![trigger ms[i]]
                0 <= i < k && ms[i].geometry is Some && points(
                    ms[i].geometry->0@,
                    ms[i].geometry->0@.len() as int,
                ).len() >= 2 && !is_text(ms[i].role, "inner"@) && geom_lines(ms, k).0[j] =~= points(
                    ms[i].geometry->0@,
                    ms[i].geometry->0@.len() as int,
                ),
    decreases k,
{
    if k > 0 {
        lemma_geom_lines_come_from_members(ms, k - 1);
        let prev = geom_lines(ms, k - 1);
        let cur = geom_lines(ms, k);
        let m = ms[k - 1];
        let usable = m.geometry is Some && points(m.geometry->0@, m.geometry->0@.len() as int).len()
            >= 2;
        let line = points(m.geometry->0@, m.geometry->0@.len() as int);
        if usable && is_text(m.role, "inner"@) {
            assert(cur.0 == prev.0);
            assert(cur.1 == prev.1.push(line));
        } else if usable {
            assert(cur.1 == prev.1);
            assert(cur.0 == prev.0.push(line));
        } else {
            assert(cur == prev);
        }
        assert forall|j: int|
            #![trigger geom_lines(ms, k).1[j]]
            0 <= j < geom_lines(ms, k).1.len() implies exists|i: int|
            #![trigger ms[i]]
            0 <= i < k && ms[i].geometry is Some && points(
                ms[i].geometry->0@,
                ms[i].geometry->0@.len() as int,
            ).len() >= 2 && is_text(ms[i].role, "inner"@) && cur.1[j] =~= points(
                ms[i].geometry->0@,
                ms[i].geometry->0@.len() as int,
            ) by {
            if j < prev.1.len() {
                assert(cur.1[j] == prev.1[j]);
                let i = choose|i: int|
                    #![trigger ms[i]]
                    0 <= i < k - 1 && ms[i].geometry is Some && points(
                        ms[i].geometry->0@,
                        ms[i].geometry->0@.len() as int,
                    ).len() >= 2 && is_text(ms[i].role, "inner"@) && prev.1[j] =~= points(
                        ms[i].geometry->0@,
                        ms[i].geometry->0@.len() as int,
                    );
                let _ = ms[i];
            } else {
                let _ = ms[k - 1];
            }
        }
        assert forall|j: int|
            #![trigger geom_lines(ms, k).0[j]]
            0 <= j < geom_lines(ms, k).0.len() implies exists|i: int|
            #![trigger ms[i]]
            0 <= i < k && ms[i].geometry is Some && points(
                ms[i].geometry->0@,
                ms[i].geometry->0@.len() as int,
            ).len() >= 2 && !is_text(ms[i].role, "inner"@) && cur.0[j] =~= points(
                ms[i].geometry->0@,
                ms[i].geometry->0@.len() as int,
            ) by {
            if j < prev.0.len() {
                assert(cur.0[j] == prev.0[j]);
                let i = choose|i: int|
                    #![trigger ms[i]]
                    0 <= i < k - 1 && ms[i].geometry is Some && points(
                        ms[i].geometry->0@,
                        ms[i].geometry->0@.len() as int,
                    ).len() >= 2 && !is_text(ms[i].role, "inner"@) && prev.0[j] =~= points(
                        ms[i].geometry->0@,
                        ms[i].geometry->0@.len() as int,
                    );
                let _ = ms[i];
            } else {
                let _ = ms[k - 1];
            }
        }
    }
}

} // verus!
