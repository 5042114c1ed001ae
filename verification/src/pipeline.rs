//! From a document to the reduced network, with the caller's gauge for
//! everything that touches a coordinate as a number.

use vstd::prelude::*;
use crate::budget::lemma_sampled_len;
use crate::extract::{
    boundary_text, declared_boundary, junction_sources, junction_texts, junctions_among,
    lane_sources, lane_texts, lanes_among, or_empty, JunctionSource, JunctionText, LaneSource,
    LaneText,
};
use crate::network::{
    bounds_from, bounds_of, complete, complete_points, junction_from, junction_point_from, lane_from,
    lane_models, lane_of, lane_simplifier, lane_start, traffic_light_from, Bounds, Junction, JunctionModel,
    JunctionPoint, JunctionPointModel, Lane, LaneModel, ParsedNetwork, TrafficLight,
    TrafficLightModel, MAX_POINTS_PER_LANE, MIN_LANE_POINTS, MIN_POLYGON_POINTS,
};
use crate::select::{assemble, lemma_selected, lemma_selected_len};
use crate::simplify::{lemma_marked_at_most, lemma_work_bounded, marked, Simplifier};
use crate::text::{fields, pair_texts, pairs, split_fields, split_pairs, texts, words};
use crate::xml::{read_document, readable, tree_text, NodeText, ParseError, XmlNode};

verus! {

/// How coordinates are read and measured. Nothing is assumed of a gauge:
/// whatever it answers, the reduction goes through and ends. What a
/// reduction gives is stated over the answers that the gauge may give, so a
/// gauge that promises more of its answers passes that on to whoever calls
/// the reduction with it.
pub trait Gauge<C: Copy> {
    /// The finite number that `text` writes, or `None`.
    fn number(&self, text: &str) -> Option<C>;

    /// The speed that `text` writes, or `None`.
    fn speed(&self, text: &str) -> Option<C>;

    /// How far `p` lies from the chord between `v` and `w`, on a scale that
    /// grows with the distance.
    fn deviation(&self, p: (C, C), v: (C, C), w: (C, C)) -> u64;

    /// The largest deviation, on the same scale, that lets a point be
    /// dropped.
    fn tolerance(&self) -> u64;
}

/// Whether `reading` is what the gauge may answer when it is asked for the
/// number that `text` writes.
pub open spec fn reads<C: Copy, G: Gauge<C>>(gauge: &G, text: &str, reading: Option<C>) -> bool {
    call_ensures(G::number, (gauge, text), reading)
}

/// Dropping incomplete points never adds any.
pub proof fn lemma_complete_len<C>(readings: Seq<(Option<C>, Option<C>)>)
    ensures
        complete(readings).len() <= readings.len(),
    decreases readings.len(),
{
    if readings.len() > 0 {
        lemma_complete_len(readings.drop_last());
    }
}

/// Reads the points of a shape: of every word with exactly one comma the
/// gauge reads both fields, and the point counts where both are numbers.
pub fn read_points<C: Copy, G: Gauge<C>>(shape: &str, gauge: &G) -> (out: Vec<(C, C)>)
    ensures
        points_read(gauge, shape@, out@),
        out.len() <= pairs(words(shape@)).len(),
{
    let fields = split_pairs(shape);
    let mut readings: Vec<(Option<C>, Option<C>)> = Vec::new();
    let ghost mut asked: Seq<(&str, &str)> = Seq::empty();
    let mut i: usize = 0;
    while i < fields.len()
        invariant
            i <= fields.len(),
            readings.len() == i,
            asked.len() == i,
            forall|k: int|
                0 <= k < i ==> (#[trigger] asked[k]).0@ == fields[k].0@ && asked[k].1@
                    == fields[k].1@,
            forall|k: int|
                0 <= k < i ==> reads(gauge, asked[k].0, (#[trigger] readings[k]).0) && reads(
                    gauge,
                    asked[k].1,
                    readings[k].1,
                ),
        decreases fields.len() - i,
    {
        let left = fields[i].0.as_str();
        let right = fields[i].1.as_str();
        let x = gauge.number(left);
        let y = gauge.number(right);
        proof {
            asked = asked.push((left, right));
        }
        readings.push((x, y));
        i = i + 1;
    }
    let out = complete_points(readings.as_slice());
    proof {
        assert(str_pair_texts(asked) =~= pair_texts(fields@));
        assert(points_answered(gauge, shape@, asked, readings@, out@));
        lemma_complete_len(readings@);
    }
    out
}

/// Brings a simplification to its end: for every chord that waits, the
/// gauge measures the points under it, and the chord is decided from that.
pub fn finish<C: Copy, G: Gauge<C>>(points: &[(C, C)], simplifier: Simplifier, gauge: &G) -> (done:
    Simplifier)
    requires
        simplifier.wf(),
        simplifier.kept().len() == points@.len(),
    ensures
        finished_by(gauge, points@, simplifier, done),
        done.wf(),
        done.ranges().len() == 0,
        done.kept().len() == points@.len(),
        done.limit() == simplifier.limit(),
        simplifier.ranges().len() == 0 ==> done.kept() == simplifier.kept(),
{
    let mut s = simplifier;
    assert(runs_to(gauge, points@, simplifier, s, 0));
    loop
        invariant
            s.wf(),
            s.kept().len() == points@.len(),
            s.limit() == simplifier.limit(),
            simplifier.ranges().len() == 0 ==> s.kept() == simplifier.kept() && s.ranges().len()
                == 0,
            exists|steps: nat| runs_to(gauge, points@, simplifier, s, steps),
        ensures
            s.ranges().len() == 0,
        decreases s.work(),
    {
        match s.next_range() {
            None => {
                break ;
            },
            Some((start, end)) => {
                assert(s.chord_ok(s.ranges()[s.ranges().len() - 1]));
                let mut deviations: Vec<u64> = Vec::new();
                let mut i: usize = start + 1;
                while i < end
                    invariant
                        start < i <= end < points@.len(),
                        deviations.len() == i - start - 1,
                        forall|k: int|
                            0 <= k < deviations.len() ==> call_ensures(
                                G::deviation,
                                (gauge, points@[start + 1 + k], points@[start as int], points@[end as int]),
                                #[trigger] deviations[k],
                            ),
                    decreases end - i,
                {
                    deviations.push(gauge.deviation(points[i], points[start], points[end]));
                    i = i + 1;
                }
                let ghost before = s;
                let ghost taken = choose|steps: nat| runs_to(gauge, points@, simplifier, s, steps);
                let accepted = s.resolve(deviations.as_slice());
                assert(accepted);
                proof {
                    lemma_work_bounded(s);
                    assert(measured(gauge, points@, before.ranges().last(), deviations@));
                    assert(before.step(deviations@, s));
                    assert(runs_to(gauge, points@, simplifier, s, taken + 1));
                }
            },
        }
    }
    s
}

/// What a lane owes to its source whatever the gauge answered: its
/// identifier, its edge and whether it is internal; at least two points,
/// at most one more than the budget, and never more than its shape has
/// words with one comma.
pub open spec fn lane_answers<C>(lane: LaneModel<C>, source: LaneText) -> bool {
    &&& lane.id == source.id
    &&& lane.edge_id == Some(source.edge_id)
    &&& lane.is_internal == source.is_internal
    &&& MIN_LANE_POINTS <= lane.points.len() <= MAX_POINTS_PER_LANE + 1
    &&& lane.points.len() <= pairs(words(source.shape)).len()
}

/// Reduces one lane: reads its shape, simplifies it where it is long
/// enough, cuts it to the budget, and gives no lane where fewer than two
/// points are left.
pub fn reduce_lane<C: Copy, G: Gauge<C>>(source: &LaneSource, gauge: &G) -> (r: Option<Lane<C>>)
    ensures
        lane_reduced(gauge, source@, lane_model(r)),
        r matches Some(lane) ==> lane_answers(lane@, source@),
        pairs(words(source@.shape)).len() < MIN_LANE_POINTS ==> r is None,
{
    let points = read_points(source.shape.as_str(), gauge);
    let tolerance = gauge.tolerance();
    let simplifier = lane_simplifier(points.len(), tolerance);
    let done = finish(points.as_slice(), simplifier, gauge);
    let kept = done.retain(points.as_slice());
    let speed = match &source.speed {
        Some(text) => gauge.speed(text.as_str()),
        None => None,
    };
    proof {
        lemma_marked_at_most(points@, done.kept());
        lemma_sampled_len(kept@, MAX_POINTS_PER_LANE as nat);
    }
    let r = lane_from(source, kept.as_slice(), speed);
    proof {
        assert(speed_read(gauge, source@.speed, speed));
        assert(lane_reduced_with(
            gauge,
            source@,
            points@,
            tolerance,
            simplifier,
            done,
            speed,
            lane_model(r),
        ));
    }
    r
}

/// The texts of a sequence of string slices.
pub open spec fn str_texts(v: Seq<&str>) -> Seq<Seq<char>> {
    v.map_values(|s: &str| s@)
}

/// Whether `bounds` are the bounds that the gauge reads from `boundary`:
/// what its answers to the fields of the boundary declare.
pub open spec fn bounds_read<C: Copy, G: Gauge<C>>(
    gauge: &G,
    boundary: Seq<char>,
    bounds: Option<Bounds<C>>,
) -> bool {
    exists|asked: Seq<&str>, readings: Seq<Option<C>>|
        bounds_answered(gauge, boundary, asked, readings, bounds)
}

/// Reads the declared bounds from the boundary text: the gauge reads every
/// field, and the bounds are what four numbers declare; none unless the text
/// has exactly four fields and the gauge reads a number from each.
pub fn read_bounds<C: Copy, G: Gauge<C>>(boundary: &str, gauge: &G) -> (r: Option<Bounds<C>>)
    ensures
        bounds_read(gauge, boundary@, r),
        r is Some ==> fields(boundary@).len() == 4,
{
    let parts = split_fields(boundary);
    let mut readings: Vec<Option<C>> = Vec::new();
    let ghost mut asked: Seq<&str> = Seq::empty();
    let mut i: usize = 0;
    while i < parts.len()
        invariant
            i <= parts.len(),
            readings.len() == i,
            asked.len() == i,
            forall|k: int| 0 <= k < i ==> (#[trigger] asked[k])@ == parts[k]@,
            forall|k: int| 0 <= k < i ==> reads(gauge, asked[k], #[trigger] readings[k]),
        decreases parts.len() - i,
    {
        let text = parts[i].as_str();
        let reading = gauge.number(text);
        proof {
            asked = asked.push(text);
        }
        readings.push(reading);
        i = i + 1;
    }
    let r = bounds_from(readings.as_slice());
    proof {
        assert(str_texts(asked) =~= texts(parts@));
        assert(bounds_answered(gauge, boundary@, asked, readings@, r));
    }
    r
}

/// The records made from one junction.
pub struct JunctionRecords<C> {
    pub light: Option<TrafficLight<C>>,
    pub outline: Option<Junction<C>>,
    pub position: Option<JunctionPoint<C>>,
}

/// What a traffic light owes to its junction: the identifier, the type
/// `traffic_light`, both coordinates present, and the cluster from the `tl`
/// attribute or else the identifier.
pub open spec fn light_answers<C>(light: TrafficLightModel<C>, source: JunctionText) -> bool {
    &&& light.id == source.id
    &&& source.kind == Some("traffic_light"@)
    &&& source.x is Some
    &&& source.y is Some
    &&& light.cluster_id == match source.cluster {
        Some(cluster) => cluster,
        None => source.id,
    }
}

/// What an outline owes to its junction: the identifier, the type or the
/// empty text, a shape, and at least three points but no more than the
/// shape has words with one comma.
pub open spec fn outline_answers<C>(outline: JunctionModel<C>, source: JunctionText) -> bool {
    &&& outline.id == source.id
    &&& outline.junction_type == or_empty(source.kind)
    &&& source.shape is Some
    &&& MIN_POLYGON_POINTS <= outline.polygon.len() <= pairs(words(source.shape->Some_0)).len()
}

/// What a position owes to its junction: the identifier, and both
/// coordinates present.
pub open spec fn position_answers<C>(position: JunctionPointModel<C>, source: JunctionText) -> bool {
    &&& position.id == source.id
    &&& source.x is Some
    &&& source.y is Some
}

/// Reduces one junction to its records: the gauge reads the two coordinates
/// and the shape, and each record is made from what it read. The traffic
/// light and the position rest on the same two coordinates, so a traffic
/// light never comes without its position.
pub fn reduce_junction<C: Copy, G: Gauge<C>>(source: &JunctionSource, gauge: &G) -> (r:
    JunctionRecords<C>)
    ensures
        junction_reduced(gauge, source@, r@),
        r.light matches Some(light) ==> light_answers(light@, source@),
        r.outline matches Some(outline) ==> outline_answers(outline@, source@),
        r.position matches Some(position) ==> position_answers(position@, source@),
        source@.shape is None ==> r.outline is None,
        r.light is Some <==> r.position is Some && source@.kind == Some("traffic_light"@),
        r.light is Some ==> r.light->Some_0.lat == r.position->Some_0.lat && r.light->Some_0.lng
            == r.position->Some_0.lng,
{
    let x = match &source.x {
        Some(text) => {
            let asked = text.as_str();
            let reading = gauge.number(asked);
            assert(reads(gauge, asked, reading));
            reading
        },
        None => None,
    };
    let y = match &source.y {
        Some(text) => {
            let asked = text.as_str();
            let reading = gauge.number(asked);
            assert(reads(gauge, asked, reading));
            reading
        },
        None => None,
    };
    let ring = match &source.shape {
        Some(shape) => read_points(shape.as_str(), gauge),
        None => Vec::new(),
    };
    let r = JunctionRecords {
        light: traffic_light_from(source, x, y),
        outline: junction_from(source, ring.as_slice()),
        position: junction_point_from(source, x, y),
    };
    proof {
        assert(number_read(gauge, source@.x, x));
        assert(number_read(gauge, source@.y, y));
        assert(ring_read(gauge, source@.shape, ring@));
        assert(junction_reduced_with(gauge, source@, x, y, ring@, r@));
    }
    r
}

/// Whether `lane` answers one of `sources`.
pub open spec fn lane_known<C>(lane: LaneModel<C>, sources: Seq<LaneText>) -> bool {
    exists|k: int| 0 <= k < sources.len() && lane_answers(lane, #[trigger] sources[k])
}

/// Whether `light` answers one of `sources`.
pub open spec fn light_known<C>(light: TrafficLightModel<C>, sources: Seq<JunctionText>) -> bool {
    exists|k: int| 0 <= k < sources.len() && light_answers(light, #[trigger] sources[k])
}

/// Whether `outline` answers one of `sources`.
pub open spec fn outline_known<C>(outline: JunctionModel<C>, sources: Seq<JunctionText>) -> bool {
    exists|k: int| 0 <= k < sources.len() && outline_answers(outline, #[trigger] sources[k])
}

/// Whether `position` answers one of `sources`.
pub open spec fn position_known<C>(
    position: JunctionPointModel<C>,
    sources: Seq<JunctionText>,
) -> bool {
    exists|k: int| 0 <= k < sources.len() && position_answers(position, #[trigger] sources[k])
}

/// What the reduced network owes to its document whatever the gauge
/// answered. Every lane answers a lane with a shape under some edge; the
/// internal lanes come before all others, and no two of the others belong
/// to one edge. Every traffic light, outline and position answers a
/// junction with an identifier. There are bounds only where the first
/// location element declares a boundary of four fields.
pub open spec fn network_answers<C>(network: ParsedNetwork<C>, tree: Seq<NodeText>) -> bool {
    let lanes = lanes_among(tree, tree.len() as int);
    let junctions = junctions_among(tree, tree.len() as int);
    &&& forall|i: int|
        0 <= i < network.lanes.len() ==> lane_known((#[trigger] network.lanes[i])@, lanes)
    &&& forall|i: int, j: int|
        0 <= i < j < network.lanes.len() && (#[trigger] network.lanes[j]).is_internal ==> (
        #[trigger] network.lanes[i]).is_internal
    &&& forall|i: int, j: int|
        0 <= i < j < network.lanes.len() && !(#[trigger] network.lanes[i]).is_internal ==> (
        #[trigger] network.lanes[j])@.edge_id != network.lanes[i]@.edge_id
    &&& forall|i: int|
        0 <= i < network.tls.len() ==> light_known((#[trigger] network.tls[i])@, junctions)
    &&& forall|i: int|
        0 <= i < network.junctions.len() ==> outline_known(
            (#[trigger] network.junctions[i])@,
            junctions,
        )
    &&& forall|i: int|
        0 <= i < network.junction_points.len() ==> position_known(
            (#[trigger] network.junction_points[i])@,
            junctions,
        )
    &&& network.tls.len() <= network.junction_points.len() <= junctions.len()
    &&& network.junctions.len() <= junctions.len()
    &&& network.lanes.len() <= lanes.len()
    &&& network.bounds is Some ==> declared_boundary(tree) is Some && fields(
        declared_boundary(tree)->Some_0,
    ).len() == 4
}

/// Reduces the nodes of a document to its network: the declared bounds,
/// every lane that the document offers reduced and then selected, and the
/// records of every junction, each kind in document order. Whatever is amiss
/// in a lane or a junction leaves that record out and nothing else.
pub fn reduce_document<C: Copy, G: Gauge<C>>(nodes: &Vec<XmlNode>, gauge: &G) -> (network:
    ParsedNetwork<C>)
    ensures
        network_reduced(gauge, tree_text(nodes@), network),
        network_answers(network, tree_text(nodes@)),
{
    let ghost tree = tree_text(nodes@);
    let bounds = match boundary_text(nodes) {
        Some(text) => read_bounds(text.as_str(), gauge),
        None => None,
    };

    let sources = lane_sources(nodes);
    let ghost offered = lane_texts(sources@);
    let ghost mut made: Seq<Option<LaneModel<C>>> = Seq::empty();
    let mut candidates: Vec<Lane<C>> = Vec::new();
    let mut i: usize = 0;
    assert(lane_models(candidates@) =~= somes(made));
    while i < sources.len()
        invariant
            i <= sources.len(),
            offered == lane_texts(sources@),
            candidates.len() <= i,
            made.len() == i,
            forall|k: int| 0 <= k < i ==> lane_reduced(gauge, offered[k], #[trigger] made[k]),
            lane_models(candidates@) == somes(made),
            forall|c: int|
                0 <= c < candidates.len() ==> lane_known((#[trigger] candidates[c])@, offered),
        decreases sources.len() - i,
    {
        let lane = reduce_lane(&sources[i], gauge);
        proof {
            assert(offered[i as int] == sources[i as int]@);
            assert(made.push(lane_model(lane)).drop_last() =~= made);
            made = made.push(lane_model(lane));
        }
        match lane {
            Some(lane) => {
                assert(lane_models(candidates@.push(lane)) =~= lane_models(candidates@).push(
                    lane@,
                ));
                candidates.push(lane);
            },
            None => {},
        }
        i = i + 1;
    }

    let junctions = junction_sources(nodes);
    let ghost found = junction_texts(junctions@);
    let ghost mut records: Seq<JunctionRecordsModel<C>> = Seq::empty();
    let mut tls: Vec<TrafficLight<C>> = Vec::new();
    let mut outlines: Vec<Junction<C>> = Vec::new();
    let mut positions: Vec<JunctionPoint<C>> = Vec::new();
    let mut j: usize = 0;
    assert(light_models(tls@) =~= somes(lights(records)));
    assert(outline_models(outlines@) =~= somes(outlines_of(records)));
    assert(position_models(positions@) =~= somes(positions_of(records)));
    while j < junctions.len()
        invariant
            j <= junctions.len(),
            found == junction_texts(junctions@),
            tls.len() <= positions.len() <= j,
            outlines.len() <= j,
            records.len() == j,
            forall|k: int| 0 <= k < j ==> junction_reduced(gauge, found[k], #[trigger] records[k]),
            light_models(tls@) == somes(lights(records)),
            outline_models(outlines@) == somes(outlines_of(records)),
            position_models(positions@) == somes(positions_of(records)),
            forall|c: int| 0 <= c < tls.len() ==> light_known((#[trigger] tls[c])@, found),
            forall|c: int| 0 <= c < outlines.len() ==> outline_known((#[trigger] outlines[c])@, found),
            forall|c: int|
                0 <= c < positions.len() ==> position_known((#[trigger] positions[c])@, found),
        decreases junctions.len() - j,
    {
        let reduced = reduce_junction(&junctions[j], gauge);
        proof {
            assert(found[j as int] == junctions[j as int]@);
            let next = records.push(reduced@);
            assert(next.drop_last() =~= records);
            assert(lights(next) =~= lights(records).push(reduced@.light));
            assert(outlines_of(next) =~= outlines_of(records).push(reduced@.outline));
            assert(positions_of(next) =~= positions_of(records).push(reduced@.position));
            assert(lights(next).drop_last() =~= lights(records));
            assert(outlines_of(next).drop_last() =~= outlines_of(records));
            assert(positions_of(next).drop_last() =~= positions_of(records));
            records = next;
        }
        match reduced.light {
            Some(light) => {
                assert(light_models(tls@.push(light)) =~= light_models(tls@).push(light@));
                tls.push(light);
            },
            None => {},
        }
        match reduced.outline {
            Some(outline) => {
                assert(outline_models(outlines@.push(outline)) =~= outline_models(outlines@).push(
                    outline@,
                ));
                outlines.push(outline);
            },
            None => {},
        }
        match reduced.position {
            Some(position) => {
                assert(position_models(positions@.push(position)) =~= position_models(
                    positions@,
                ).push(position@));
                positions.push(position);
            },
            None => {},
        }
        j = j + 1;
    }

    let ghost offered_models = lane_models(candidates@);
    let network = assemble(candidates, bounds, tls, outlines, positions);
    proof {
        lemma_selected(offered_models);
        lemma_selected_len(offered_models);
        let chosen = lane_models(network.lanes@);
        assert forall|i: int| 0 <= i < network.lanes.len() implies lane_known(
            (#[trigger] network.lanes[i])@,
            offered,
        ) by {
            assert(chosen[i] == network.lanes[i]@);
            let k = choose|k: int|
                0 <= k < offered_models.len() && #[trigger] offered_models[k] == chosen[i];
            assert(lane_known(offered_models[k], offered));
        }
        assert forall|a: int, b: int|
            0 <= a < b < network.lanes.len() && (#[trigger] network.lanes[b]).is_internal implies (
        #[trigger] network.lanes[a]).is_internal by {
            assert(chosen[a] == network.lanes[a]@ && chosen[b] == network.lanes[b]@);
        }
        assert forall|a: int, b: int|
            0 <= a < b < network.lanes.len() && !(#[trigger] network.lanes[a]).is_internal implies (
        #[trigger] network.lanes[b])@.edge_id != network.lanes[a]@.edge_id by {
            assert(chosen[a] == network.lanes[a]@ && chosen[b] == network.lanes[b]@);
        }
        assert(network_made(gauge, tree, made, records, network));
    }
    network
}

/// Reduces a document to its network. Fails exactly where the document
/// cannot be read, before anything is extracted; everything else that is
/// amiss is left out of the network and never fails.
pub fn parse_network<C: Copy, G: Gauge<C>>(xml_text: &str, gauge: &G) -> (r: Result<
    ParsedNetwork<C>,
    ParseError,
>)
    ensures
        match r {
            Ok(network) => readable(xml_text@) matches Ok(tree) && network_reduced(
                gauge,
                tree,
                network,
            ) && network_answers(network, tree),
            Err(error) => readable(xml_text@) == Err::<Seq<NodeText>, _>(error@),
        },
{
    match read_document(xml_text) {
        Ok(nodes) => Ok(reduce_document(&nodes, gauge)),
        Err(error) => Err(error),
    }
}

/// The texts of a sequence of pairs of string slices.
pub open spec fn str_pair_texts(v: Seq<(&str, &str)>) -> Seq<(Seq<char>, Seq<char>)> {
    v.map_values(|p: (&str, &str)| (p.0@, p.1@))
}

/// Whether `bounds` are the bounds of `boundary` given that the gauge was
/// asked `asked`, the fields of the boundary in order, and answered
/// `readings`.
pub open spec fn bounds_answered<C: Copy, G: Gauge<C>>(
    gauge: &G,
    boundary: Seq<char>,
    asked: Seq<&str>,
    readings: Seq<Option<C>>,
    bounds: Option<Bounds<C>>,
) -> bool {
    &&& str_texts(asked) == fields(boundary)
    &&& readings.len() == asked.len()
    &&& forall|k: int| 0 <= k < asked.len() ==> reads(gauge, asked[k], #[trigger] readings[k])
    &&& bounds == bounds_of(readings)
}

/// Whether `points` are the points of `shape` given that the gauge was asked
/// `asked`, the field pairs of the shape in order, and answered `readings`.
pub open spec fn points_answered<C: Copy, G: Gauge<C>>(
    gauge: &G,
    shape: Seq<char>,
    asked: Seq<(&str, &str)>,
    readings: Seq<(Option<C>, Option<C>)>,
    points: Seq<(C, C)>,
) -> bool {
    &&& str_pair_texts(asked) == pairs(words(shape))
    &&& readings.len() == asked.len()
    &&& forall|k: int|
        0 <= k < asked.len() ==> reads(gauge, asked[k].0, (#[trigger] readings[k]).0) && reads(
            gauge,
            asked[k].1,
            readings[k].1,
        )
    &&& points == complete(readings)
}

/// Whether `points` are the points that the gauge reads from `shape`: those
/// of its field pairs for which the gauge answered two numbers.
pub open spec fn points_read<C: Copy, G: Gauge<C>>(
    gauge: &G,
    shape: Seq<char>,
    points: Seq<(C, C)>,
) -> bool {
    exists|asked: Seq<(&str, &str)>, readings: Seq<(Option<C>, Option<C>)>|
        points_answered(gauge, shape, asked, readings, points)
}

/// Whether `deviations` are what the gauge may answer for the points under
/// `chord`, in order, each measured against the two ends of the chord.
pub open spec fn measured<C: Copy, G: Gauge<C>>(
    gauge: &G,
    points: Seq<(C, C)>,
    chord: (usize, usize),
    deviations: Seq<u64>,
) -> bool {
    &&& deviations.len() == chord.1 - chord.0 - 1
    &&& forall|k: int|
        0 <= k < deviations.len() ==> call_ensures(
            G::deviation,
            (gauge, points[chord.0 + 1 + k], points[chord.0 as int], points[chord.1 as int]),
            #[trigger] deviations[k],
        )
}

/// Whether the simplification `from` comes to `to` in `steps` steps, each
/// of which decides the chord then on top from what the gauge measured
/// under it.
pub open spec fn runs_to<C: Copy, G: Gauge<C>>(
    gauge: &G,
    points: Seq<(C, C)>,
    from: Simplifier,
    to: Simplifier,
    steps: nat,
) -> bool
    decreases steps,
{
    if steps == 0 {
        from == to
    } else {
        exists|deviations: Seq<u64>, before: Simplifier|
            runs_to(gauge, points, from, before, (steps - 1) as nat) && #[trigger] before.step(
                deviations,
                to,
            ) && measured(gauge, points, before.ranges().last(), deviations)
    }
}

/// Whether `done` is where the simplification `from` ends with this gauge:
/// it is reached step by step, and no chord waits in it.
pub open spec fn finished_by<C: Copy, G: Gauge<C>>(
    gauge: &G,
    points: Seq<(C, C)>,
    from: Simplifier,
    done: Simplifier,
) -> bool {
    &&& done.ranges().len() == 0
    &&& exists|steps: nat| runs_to(gauge, points, from, done, steps)
}

/// Whether `speed` is what the gauge may answer for the speed of a lane:
/// nothing where the lane has no speed attribute.
pub open spec fn speed_read<C: Copy, G: Gauge<C>>(
    gauge: &G,
    text: Option<Seq<char>>,
    speed: Option<C>,
) -> bool {
    match text {
        Some(written) => exists|asked: &str|
            asked@ == written && #[trigger] call_ensures(G::speed, (gauge, asked), speed),
        None => speed is None,
    }
}

/// The model of an optional lane.
pub open spec fn lane_model<C>(lane: Option<Lane<C>>) -> Option<LaneModel<C>> {
    match lane {
        Some(lane) => Some(lane@),
        None => None,
    }
}

/// Whether `lane` is the lane of `source` given what the gauge answered:
/// `points` read from the shape, `tolerance`, the simplification from
/// `start` to `done`, and `speed`. The lane is made from the points that the
/// simplification kept.
pub open spec fn lane_reduced_with<C: Copy, G: Gauge<C>>(
    gauge: &G,
    source: LaneText,
    points: Seq<(C, C)>,
    tolerance: u64,
    start: Simplifier,
    done: Simplifier,
    speed: Option<C>,
    lane: Option<LaneModel<C>>,
) -> bool {
    &&& points_read(gauge, source.shape, points)
    &&& call_ensures(G::tolerance, (gauge,), tolerance)
    &&& lane_start(start, points.len(), tolerance)
    &&& finished_by(gauge, points, start, done)
    &&& speed_read(gauge, source.speed, speed)
    &&& lane == lane_of(source, marked(points, done.kept()), speed)
}

/// Whether `lane` is what reducing `source` with this gauge gives: the
/// lane made from its shape as the gauge reads it, simplified as the gauge
/// measures it, with the speed as the gauge reads it.
pub open spec fn lane_reduced<C: Copy, G: Gauge<C>>(
    gauge: &G,
    source: LaneText,
    lane: Option<LaneModel<C>>,
) -> bool {
    exists|
        points: Seq<(C, C)>,
        tolerance: u64,
        start: Simplifier,
        done: Simplifier,
        speed: Option<C>,
    |
        lane_reduced_with(gauge, source, points, tolerance, start, done, speed, lane)
}

/// The records of one junction with their texts as sequences.
pub struct JunctionRecordsModel<C> {
    pub light: Option<TrafficLightModel<C>>,
    pub outline: Option<JunctionModel<C>>,
    pub position: Option<JunctionPointModel<C>>,
}

impl<C> View for JunctionRecords<C> {
    type V = JunctionRecordsModel<C>;

    open spec fn view(&self) -> JunctionRecordsModel<C> {
        JunctionRecordsModel {
            light: match self.light {
                Some(light) => Some(light@),
                None => None,
            },
            outline: match self.outline {
                Some(outline) => Some(outline@),
                None => None,
            },
            position: match self.position {
                Some(position) => Some(position@),
                None => None,
            },
        }
    }
}

/// Whether `reading` is what the gauge may answer for a coordinate
/// attribute: nothing where the attribute is missing.
pub open spec fn number_read<C: Copy, G: Gauge<C>>(
    gauge: &G,
    text: Option<Seq<char>>,
    reading: Option<C>,
) -> bool {
    match text {
        Some(written) => exists|asked: &str|
            asked@ == written && #[trigger] reads(gauge, asked, reading),
        None => reading is None,
    }
}

/// Whether `ring` are the points that the gauge reads from the shape of a
/// junction: none where the junction has no shape.
pub open spec fn ring_read<C: Copy, G: Gauge<C>>(
    gauge: &G,
    shape: Option<Seq<char>>,
    ring: Seq<(C, C)>,
) -> bool {
    match shape {
        Some(written) => points_read(gauge, written, ring),
        None => ring.len() == 0,
    }
}

/// Whether `records` are the records of `source` given what the gauge
/// answered: `x` and `y` for the coordinates and `ring` for the shape.
pub open spec fn junction_reduced_with<C: Copy, G: Gauge<C>>(
    gauge: &G,
    source: JunctionText,
    x: Option<C>,
    y: Option<C>,
    ring: Seq<(C, C)>,
    records: JunctionRecordsModel<C>,
) -> bool {
    &&& number_read(gauge, source.x, x)
    &&& number_read(gauge, source.y, y)
    &&& ring_read(gauge, source.shape, ring)
    &&& records.light == crate::network::traffic_light_of(source, x, y)
    &&& records.outline == crate::network::junction_of(source, ring)
    &&& records.position == crate::network::junction_point_of(source, x, y)
}

/// Whether `records` are what reducing `source` with this gauge gives: the
/// traffic light, the outline and the position made from the coordinates
/// and the shape as the gauge reads them.
pub open spec fn junction_reduced<C: Copy, G: Gauge<C>>(
    gauge: &G,
    source: JunctionText,
    records: JunctionRecordsModel<C>,
) -> bool {
    exists|x: Option<C>, y: Option<C>, ring: Seq<(C, C)>|
        junction_reduced_with(gauge, source, x, y, ring, records)
}

/// The values that are there, in order.
pub open spec fn somes<T>(s: Seq<Option<T>>) -> Seq<T>
    decreases s.len(),
{
    if s.len() == 0 {
        Seq::empty()
    } else {
        match s.last() {
            Some(value) => somes(s.drop_last()).push(value),
            None => somes(s.drop_last()),
        }
    }
}

/// The traffic lights of a list of junction records, one place for each
/// junction.
pub open spec fn lights<C>(records: Seq<JunctionRecordsModel<C>>) -> Seq<
    Option<TrafficLightModel<C>>,
> {
    records.map_values(|r: JunctionRecordsModel<C>| r.light)
}

/// The outlines of a list of junction records, one place for each junction.
pub open spec fn outlines_of<C>(records: Seq<JunctionRecordsModel<C>>) -> Seq<
    Option<JunctionModel<C>>,
> {
    records.map_values(|r: JunctionRecordsModel<C>| r.outline)
}

/// The positions of a list of junction records, one place for each
/// junction.
pub open spec fn positions_of<C>(records: Seq<JunctionRecordsModel<C>>) -> Seq<
    Option<JunctionPointModel<C>>,
> {
    records.map_values(|r: JunctionRecordsModel<C>| r.position)
}

/// The models of a list of traffic lights.
pub open spec fn light_models<C>(v: Seq<TrafficLight<C>>) -> Seq<TrafficLightModel<C>> {
    v.map_values(|t: TrafficLight<C>| t@)
}

/// The models of a list of outlines.
pub open spec fn outline_models<C>(v: Seq<Junction<C>>) -> Seq<JunctionModel<C>> {
    v.map_values(|j: Junction<C>| j@)
}

/// The models of a list of positions.
pub open spec fn position_models<C>(v: Seq<JunctionPoint<C>>) -> Seq<JunctionPointModel<C>> {
    v.map_values(|p: JunctionPoint<C>| p@)
}

/// Whether `network` is the network of the document `tree` given what the
/// reduction of each lane (`made`) and of each junction (`records`) gave.
/// The lanes are those selected from the lanes that were made, in the order
/// in which the document offers them; the traffic lights, outlines and
/// positions are those that were made, in document order; the bounds are
/// read from the declared boundary, and there are none without one.
pub open spec fn network_made<C: Copy, G: Gauge<C>>(
    gauge: &G,
    tree: Seq<NodeText>,
    made: Seq<Option<LaneModel<C>>>,
    records: Seq<JunctionRecordsModel<C>>,
    network: ParsedNetwork<C>,
) -> bool {
    let lanes = lanes_among(tree, tree.len() as int);
    let junctions = junctions_among(tree, tree.len() as int);
    &&& made.len() == lanes.len()
    &&& forall|k: int| 0 <= k < lanes.len() ==> lane_reduced(gauge, lanes[k], #[trigger] made[k])
    &&& lane_models(network.lanes@) == crate::select::selected(somes(made))
    &&& records.len() == junctions.len()
    &&& forall|k: int|
        0 <= k < junctions.len() ==> junction_reduced(gauge, junctions[k], #[trigger] records[k])
    &&& light_models(network.tls@) == somes(lights(records))
    &&& outline_models(network.junctions@) == somes(outlines_of(records))
    &&& position_models(network.junction_points@) == somes(positions_of(records))
    &&& match declared_boundary(tree) {
        Some(boundary) => bounds_read(gauge, boundary, network.bounds),
        None => network.bounds is None,
    }
}

/// Whether `network` is what reducing the document `tree` with this gauge
/// gives.
pub open spec fn network_reduced<C: Copy, G: Gauge<C>>(
    gauge: &G,
    tree: Seq<NodeText>,
    network: ParsedNetwork<C>,
) -> bool {
    exists|made: Seq<Option<LaneModel<C>>>, records: Seq<JunctionRecordsModel<C>>|
        network_made(gauge, tree, made, records, network)
}

/// Whether every verdict of `s` holds a deviation that the gauge may have
/// answered for that point against the chord of the verdict.
pub open spec fn reported<C: Copy, G: Gauge<C>>(
    gauge: &G,
    points: Seq<(C, C)>,
    s: Simplifier,
) -> bool {
    forall|i: int|
        0 <= i < s.verdicts().len() ==> match #[trigger] s.verdicts()[i] {
            Some(v) => call_ensures(
                G::deviation,
                (gauge, points[i], points[v.start], points[v.end]),
                v.deviation,
            ),
            None => true,
        }
}

/// A run keeps the invariant of the simplification, its tolerance and the
/// number of its positions, and every verdict it adds holds a deviation
/// that the gauge answered for that point against that chord.
pub proof fn lemma_run<C: Copy, G: Gauge<C>>(
    gauge: &G,
    points: Seq<(C, C)>,
    from: Simplifier,
    to: Simplifier,
    steps: nat,
)
    requires
        from.wf(),
        reported(gauge, points, from),
        runs_to(gauge, points, from, to, steps),
    ensures
        to.wf(),
        reported(gauge, points, to),
        to.kept().len() == from.kept().len(),
        to.limit() == from.limit(),
    decreases steps,
{
    if steps > 0 {
        let (deviations, before) = choose|deviations: Seq<u64>, before: Simplifier|
            runs_to(gauge, points, from, before, (steps - 1) as nat) && #[trigger] before.step(
                deviations,
                to,
            ) && measured(gauge, points, before.ranges().last(), deviations);
        lemma_run(gauge, points, from, before, (steps - 1) as nat);
        crate::simplify::lemma_step_keeps_wf(before, deviations, to);
        let r = before.ranges().last();
        assert forall|i: int| 0 <= i < to.verdicts().len() implies match #[trigger] to.verdicts()[i] {
            Some(v) => call_ensures(
                G::deviation,
                (gauge, points[i], points[v.start], points[v.end]),
                v.deviation,
            ),
            None => true,
        } by {
            if !crate::simplify::splits(deviations, before.limit()) && r.0 < i < r.1 {
                let k = i - r.0 - 1;
                assert(call_ensures(
                    G::deviation,
                    (gauge, points[r.0 + 1 + k], points[r.0 as int], points[r.1 as int]),
                    deviations[k],
                ));
            } else {
                assert(to.verdicts()[i] == before.verdicts()[i]);
            }
        }
    }
}

/// Every point that a finished simplification dropped lies, by the gauge's
/// own answer, within the tolerance of a segment of the result: the gauge
/// answered a deviation within the tolerance for that point against a chord
/// whose two ends follow one another among the retained points. This holds
/// of every simplification that started with nothing decided.
pub proof fn lemma_dropped_as_measured<C: Copy, G: Gauge<C>>(
    gauge: &G,
    points: Seq<(C, C)>,
    start: Simplifier,
    done: Simplifier,
    i: int,
)
    requires
        start.wf(),
        start.verdicts() == crate::simplify::unsettled(points.len()),
        start.kept().len() == points.len(),
        finished_by(gauge, points, start, done),
        0 <= i < points.len(),
        !done.kept()[i],
    ensures
        done.verdicts()[i] is Some,
        ({
            let v = done.verdicts()[i]->Some_0;
            let k = crate::simplify::rank(done.kept(), v.start) as int;
            let result = marked(points, done.kept());
            &&& 0 <= v.start < i < v.end < points.len()
            &&& call_ensures(
                G::deviation,
                (gauge, points[i], points[v.start], points[v.end]),
                v.deviation,
            )
            &&& v.deviation <= start.limit()
            &&& k + 1 < result.len()
            &&& result[k] == points[v.start]
            &&& result[k + 1] == points[v.end]
        }),
{
    let steps = choose|steps: nat| runs_to(gauge, points, start, done, steps);
    lemma_run(gauge, points, start, done, steps);
    crate::simplify::lemma_dropped_near_result(done, points, i);
    assert(reported(gauge, points, done));
}

} // verus!
