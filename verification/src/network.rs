//! The reduced network: its records, how each is made from a source and the
//! numbers read for it, and which lanes survive.
//!
//! Every record is generic in the coordinate type `C`. A number that was
//! read from text arrives as `Option<C>`: `None` where the text was not a
//! finite number.

use vstd::prelude::*;
use crate::budget::{lemma_sampled_len, sample_points, sampled};
use crate::extract::{JunctionSource, JunctionText, LaneSource, LaneText};
use crate::simplify::Simplifier;

verus! {

/// Lanes with more points than this are simplified; shorter ones are cheap
/// enough as they are.
pub const SIMPLIFY_ABOVE: usize = 4;

/// The point budget of a lane.
pub const MAX_POINTS_PER_LANE: usize = 20;

/// The least number of points that make a lane.
pub const MIN_LANE_POINTS: usize = 2;

/// The least number of points that make a junction outline.
pub const MIN_POLYGON_POINTS: usize = 3;

/// A position in output order: the document's `y`, then its `x`.
#[derive(Debug, Clone, Copy, PartialEq)]
pub struct Point<C> {
    pub lat: C,
    pub lng: C,
}

/// A lane of the reduced network.
#[derive(Debug, Clone, PartialEq)]
pub struct Lane<C> {
    pub id: String,
    pub edge_id: Option<String>,
    pub points: Vec<Point<C>>,
    pub speed: Option<C>,
    pub is_internal: bool,
}

/// A lane with its texts as sequences.
pub struct LaneModel<C> {
    pub id: Seq<char>,
    pub edge_id: Option<Seq<char>>,
    pub points: Seq<Point<C>>,
    pub speed: Option<C>,
    pub is_internal: bool,
}

impl<C> View for Lane<C> {
    type V = LaneModel<C>;

    open spec fn view(&self) -> LaneModel<C> {
        LaneModel {
            id: self.id@,
            edge_id: match self.edge_id {
                Some(e) => Some(e@),
                None => None,
            },
            points: self.points@,
            speed: self.speed,
            is_internal: self.is_internal,
        }
    }
}

/// A junction that carries a traffic light, with the cluster it belongs to.
#[derive(Debug, Clone, PartialEq)]
pub struct TrafficLight<C> {
    pub id: String,
    pub cluster_id: String,
    pub lat: C,
    pub lng: C,
}

/// A traffic light with its texts as sequences.
pub struct TrafficLightModel<C> {
    pub id: Seq<char>,
    pub cluster_id: Seq<char>,
    pub lat: C,
    pub lng: C,
}

impl<C> View for TrafficLight<C> {
    type V = TrafficLightModel<C>;

    open spec fn view(&self) -> TrafficLightModel<C> {
        TrafficLightModel {
            id: self.id@,
            cluster_id: self.cluster_id@,
            lat: self.lat,
            lng: self.lng,
        }
    }
}

/// A junction with its outline.
#[derive(Debug, Clone, PartialEq)]
pub struct Junction<C> {
    pub id: String,
    pub junction_type: String,
    pub polygon: Vec<Point<C>>,
}

/// A junction with its texts as sequences.
pub struct JunctionModel<C> {
    pub id: Seq<char>,
    pub junction_type: Seq<char>,
    pub polygon: Seq<Point<C>>,
}

impl<C> View for Junction<C> {
    type V = JunctionModel<C>;

    open spec fn view(&self) -> JunctionModel<C> {
        JunctionModel { id: self.id@, junction_type: self.junction_type@, polygon: self.polygon@ }
    }
}

/// The position of a junction.
#[derive(Debug, Clone, PartialEq)]
pub struct JunctionPoint<C> {
    pub id: String,
    pub lat: C,
    pub lng: C,
}

/// A junction position with its text as a sequence.
pub struct JunctionPointModel<C> {
    pub id: Seq<char>,
    pub lat: C,
    pub lng: C,
}

impl<C> View for JunctionPoint<C> {
    type V = JunctionPointModel<C>;

    open spec fn view(&self) -> JunctionPointModel<C> {
        JunctionPointModel { id: self.id@, lat: self.lat, lng: self.lng }
    }
}

/// The rectangle that the document declares as its extent.
#[derive(Debug, Clone, PartialEq)]
pub struct Bounds<C> {
    pub min_x: C,
    pub min_y: C,
    pub max_x: C,
    pub max_y: C,
}

/// The reduced network, complete.
#[derive(Debug, Clone, PartialEq)]
pub struct ParsedNetwork<C> {
    pub lanes: Vec<Lane<C>>,
    pub bounds: Option<Bounds<C>>,
    pub tls: Vec<TrafficLight<C>>,
    pub junctions: Vec<Junction<C>>,
    pub junction_points: Vec<JunctionPoint<C>>,
}

/// The models of a list of lanes.
pub open spec fn lane_models<C>(lanes: Seq<Lane<C>>) -> Seq<LaneModel<C>> {
    lanes.map_values(|l: Lane<C>| l@)
}

/// The points whose two fields were both read as numbers, in order.
pub open spec fn complete<C>(readings: Seq<(Option<C>, Option<C>)>) -> Seq<(C, C)>
    decreases readings.len(),
{
    if readings.len() == 0 {
        Seq::empty()
    } else {
        match readings.last() {
            (Some(x), Some(y)) => complete(readings.drop_last()).push((x, y)),
            _ => complete(readings.drop_last()),
        }
    }
}

/// The same positions in output order: `(x, y)` becomes latitude `y` and
/// longitude `x`.
pub open spec fn swapped<C>(points: Seq<(C, C)>) -> Seq<Point<C>> {
    Seq::new(points.len(), |i: int| Point { lat: points[i].1, lng: points[i].0 })
}

/// The bounds that four numbers declare; anything but exactly four numbers
/// declares none.
pub open spec fn bounds_of<C>(readings: Seq<Option<C>>) -> Option<Bounds<C>> {
    if readings.len() == 4 && readings[0] is Some && readings[1] is Some && readings[2] is Some
        && readings[3] is Some {
        Some(
            Bounds {
                min_x: readings[0]->Some_0,
                min_y: readings[1]->Some_0,
                max_x: readings[2]->Some_0,
                max_y: readings[3]->Some_0,
            },
        )
    } else {
        None
    }
}

/// The lane made from a source and its simplified points: none below two
/// points, otherwise the points cut to the budget and put in output order.
pub open spec fn lane_of<C>(source: LaneText, points: Seq<(C, C)>, speed: Option<C>) -> Option<
    LaneModel<C>,
> {
    if points.len() < MIN_LANE_POINTS {
        None
    } else {
        Some(
            LaneModel {
                id: source.id,
                edge_id: Some(source.edge_id),
                points: swapped(sampled(points, MAX_POINTS_PER_LANE as int)),
                speed,
                is_internal: source.is_internal,
            },
        )
    }
}

/// The traffic light of a junction: only where the junction's type is
/// exactly `traffic_light` and both coordinates were read. The cluster is
/// the junction's `tl` attribute, or its own identifier without one.
pub open spec fn traffic_light_of<C>(source: JunctionText, x: Option<C>, y: Option<C>) -> Option<
    TrafficLightModel<C>,
> {
    if source.kind == Some("traffic_light"@) && x is Some && y is Some {
        Some(
            TrafficLightModel {
                id: source.id,
                cluster_id: match source.cluster {
                    Some(c) => c,
                    None => source.id,
                },
                lat: y->Some_0,
                lng: x->Some_0,
            },
        )
    } else {
        None
    }
}

/// The outline of a junction: only where the junction has a shape and that
/// shape gave at least three points. The points are kept as they are.
pub open spec fn junction_of<C>(source: JunctionText, ring: Seq<(C, C)>) -> Option<
    JunctionModel<C>,
> {
    if source.shape is Some && ring.len() >= MIN_POLYGON_POINTS {
        Some(
            JunctionModel {
                id: source.id,
                junction_type: match source.kind {
                    Some(k) => k,
                    None => Seq::empty(),
                },
                polygon: swapped(ring),
            },
        )
    } else {
        None
    }
}

/// The position of a junction: wherever both coordinates were read.
pub open spec fn junction_point_of<C>(source: JunctionText, x: Option<C>, y: Option<C>) -> Option<
    JunctionPointModel<C>,
> {
    if x is Some && y is Some {
        Some(JunctionPointModel { id: source.id, lat: y->Some_0, lng: x->Some_0 })
    } else {
        None
    }
}

/// Drops every point of which a field was not read as a number.
pub fn complete_points<C: Copy>(readings: &[(Option<C>, Option<C>)]) -> (out: Vec<(C, C)>)
    ensures
        out@ == complete(readings@),
{
    let mut out: Vec<(C, C)> = Vec::new();
    let mut i: usize = 0;
    while i < readings.len()
        invariant
            i <= readings.len(),
            out@ == complete(readings@.take(i as int)),
        decreases readings.len() - i,
    {
        assert(readings@.take(i + 1).drop_last() =~= readings@.take(i as int));
        let reading = readings[i];
        match reading {
            (Some(x), Some(y)) => {
                out.push((x, y));
            },
            _ => {},
        }
        i = i + 1;
    }
    assert(readings@.take(i as int) =~= readings@);
    out
}

/// Puts positions in output order.
pub fn swap_axes<C: Copy>(points: &[(C, C)]) -> (out: Vec<Point<C>>)
    ensures
        out@ == swapped(points@),
{
    let mut out: Vec<Point<C>> = Vec::new();
    let mut i: usize = 0;
    while i < points.len()
        invariant
            i <= points.len(),
            out.len() == i,
            forall|k: int| 0 <= k < i ==> out[k] == (Point { lat: points[k].1, lng: points[k].0 }),
        decreases points.len() - i,
    {
        let p = points[i];
        out.push(Point { lat: p.1, lng: p.0 });
        i = i + 1;
    }
    assert(out@ =~= swapped(points@));
    out
}

/// The declared bounds, from the numbers read for the fields of the
/// boundary text.
pub fn bounds_from<C: Copy>(readings: &[Option<C>]) -> (r: Option<Bounds<C>>)
    ensures
        r == bounds_of(readings@),
{
    if readings.len() != 4 {
        return None;
    }
    match (readings[0], readings[1], readings[2], readings[3]) {
        (Some(min_x), Some(min_y), Some(max_x), Some(max_y)) => Some(
            Bounds { min_x, min_y, max_x, max_y },
        ),
        _ => None,
    }
}

/// The simplifier for a lane of `len` points: a fresh one where the lane is
/// long enough to be worth simplifying, a finished one that keeps every
/// point otherwise.
pub fn lane_simplifier(len: usize, tolerance: u64) -> (s: Simplifier)
    ensures
        lane_start(s, len as nat, tolerance),
        s.wf(),
        s.limit() == tolerance,
        s.kept().len() == len,
        len > SIMPLIFY_ABOVE ==> s.kept() == crate::simplify::ends_only(len as nat) && s.ranges()
            == seq![(0usize, (len - 1) as usize)],
        len <= SIMPLIFY_ABOVE ==> s.kept() == Seq::new(len as nat, |i: int| true) && s.ranges()
            == Seq::<(usize, usize)>::empty(),
{
    let s = if len > SIMPLIFY_ABOVE {
        Simplifier::new(len, tolerance)
    } else {
        Simplifier::keep_all(len, tolerance)
    };
    proof {
        assert(s.verdicts() =~= crate::simplify::unsettled(len as nat));
        assert(s.kept() =~= lane_mask(len as nat));
    }
    s
}

/// The mask that the simplification of a lane starts from: both ends only
/// where the lane is long enough to be simplified, everything otherwise.
pub open spec fn lane_mask(len: nat) -> Seq<bool> {
    Seq::new(len, |i: int| len <= SIMPLIFY_ABOVE || i == 0 || i == len - 1)
}

/// Whether `start` is the state from which a lane of `len` points is
/// simplified: nothing decided yet, and the chord between the two ends
/// waiting only where the lane is long enough.
pub open spec fn lane_start(start: Simplifier, len: nat, tolerance: u64) -> bool {
    &&& start.wf()
    &&& start.limit() == tolerance
    &&& start.kept() == lane_mask(len)
    &&& start.verdicts() == crate::simplify::unsettled(len)
    &&& start.ranges() == if len > SIMPLIFY_ABOVE {
        seq![(0usize, (len - 1) as usize)]
    } else {
        Seq::<(usize, usize)>::empty()
    }
}

/// Makes the lane of a source from its simplified points and its speed.
pub fn lane_from<C: Copy>(source: &LaneSource, points: &[(C, C)], speed: Option<C>) -> (r: Option<
    Lane<C>,
>)
    ensures
        match r {
            Some(lane) => lane_of(source@, points@, speed) == Some(lane@),
            None => lane_of(source@, points@, speed) is None,
        },
{
    if points.len() < MIN_LANE_POINTS {
        return None;
    }
    let budgeted = sample_points(points, MAX_POINTS_PER_LANE);
    Some(
        Lane {
            id: source.id.clone(),
            edge_id: Some(source.edge_id.clone()),
            points: swap_axes(budgeted.as_slice()),
            speed,
            is_internal: source.is_internal,
        },
    )
}

/// Makes the traffic light of a junction from the numbers read for its
/// coordinates.
pub fn traffic_light_from<C: Copy>(source: &JunctionSource, x: Option<C>, y: Option<C>) -> (r:
    Option<TrafficLight<C>>)
    ensures
        match r {
            Some(light) => traffic_light_of(source@, x, y) == Some(light@),
            None => traffic_light_of(source@, x, y) is None,
        },
{
    let signalled = match &source.kind {
        Some(kind) => *kind == String::from_str("traffic_light"),
        None => false,
    };
    if !signalled {
        return None;
    }
    match (x, y) {
        (Some(x), Some(y)) => {
            let cluster_id = match &source.cluster {
                Some(cluster) => cluster.clone(),
                None => source.id.clone(),
            };
            Some(TrafficLight { id: source.id.clone(), cluster_id, lat: y, lng: x })
        },
        _ => None,
    }
}

/// Makes the outline of a junction from the points read for its shape.
pub fn junction_from<C: Copy>(source: &JunctionSource, ring: &[(C, C)]) -> (r: Option<Junction<C>>)
    ensures
        match r {
            Some(junction) => junction_of(source@, ring@) == Some(junction@),
            None => junction_of(source@, ring@) is None,
        },
{
    if source.shape.is_none() || ring.len() < MIN_POLYGON_POINTS {
        return None;
    }
    let junction_type = match &source.kind {
        Some(kind) => kind.clone(),
        None => String::new(),
    };
    Some(Junction { id: source.id.clone(), junction_type, polygon: swap_axes(ring) })
}

/// Makes the position of a junction from the numbers read for its
/// coordinates.
pub fn junction_point_from<C: Copy>(source: &JunctionSource, x: Option<C>, y: Option<C>) -> (r:
    Option<JunctionPoint<C>>)
    ensures
        match r {
            Some(point) => junction_point_of(source@, x, y) == Some(point@),
            None => junction_point_of(source@, x, y) is None,
        },
{
    match (x, y) {
        (Some(x), Some(y)) => Some(JunctionPoint { id: source.id.clone(), lat: y, lng: x }),
        _ => None,
    }
}

/// Every lane that is made has at least two points and at most one more
/// than the budget.
pub proof fn lemma_lane_point_count<C>(source: LaneText, points: Seq<(C, C)>, speed: Option<C>)
    requires
        lane_of(source, points, speed) is Some,
    ensures
        MIN_LANE_POINTS <= lane_of(source, points, speed)->Some_0.points.len()
            <= MAX_POINTS_PER_LANE + 1,
{
    lemma_sampled_len(points, MAX_POINTS_PER_LANE as nat);
}

/// Every junction outline that is made has at least three points: as many
/// as were read for it.
pub proof fn lemma_junction_point_count<C>(source: JunctionText, ring: Seq<(C, C)>)
    requires
        junction_of(source, ring) is Some,
    ensures
        junction_of(source, ring)->Some_0.polygon.len() == ring.len(),
        junction_of(source, ring)->Some_0.polygon.len() >= MIN_POLYGON_POINTS,
{
}

} // verus!
