use roadnet::network::{Bounds, ParsedNetwork, Point, TrafficLight};
use roadnet::pipeline::{
    finish, parse_network, read_bounds, read_points, reduce_document, reduce_junction, reduce_lane,
    Gauge,
};
use roadnet::extract::{JunctionSource, LaneSource};
use roadnet::simplify::Simplifier;
use roadnet::network::{Junction, JunctionPoint};
use roadnet::xml::{ParseError, XmlNode};

/// Coordinates as floating-point numbers, distances in the plane.
struct Plane {
    epsilon: f64,
}

fn distance_sq(p: (f64, f64), v: (f64, f64), w: (f64, f64)) -> f64 {
    let l2 = (v.0 - w.0).powi(2) + (v.1 - w.1).powi(2);
    if l2 == 0.0 {
        return (p.0 - v.0).powi(2) + (p.1 - v.1).powi(2);
    }
    let t = (((p.0 - v.0) * (w.0 - v.0) + (p.1 - v.1) * (w.1 - v.1)) / l2).max(0.0).min(1.0);
    let proj_x = v.0 + t * (w.0 - v.0);
    let proj_y = v.1 + t * (w.1 - v.1);
    (p.0 - proj_x).powi(2) + (p.1 - proj_y).powi(2)
}

fn key(value: f64) -> u64 {
    if value.is_nan() {
        0
    } else {
        value.to_bits()
    }
}

impl Gauge<f64> for Plane {
    fn number(&self, text: &str) -> Option<f64> {
        text.parse::<f64>().ok().filter(|v| v.is_finite())
    }

    fn speed(&self, text: &str) -> Option<f64> {
        text.parse::<f64>().ok()
    }

    fn deviation(&self, p: (f64, f64), v: (f64, f64), w: (f64, f64)) -> u64 {
        key(distance_sq(p, v, w))
    }

    fn tolerance(&self) -> u64 {
        key(self.epsilon * self.epsilon)
    }
}

/// Coordinates as whole numbers, deviation as the vertical offset from the
/// first end of the chord.
struct Grid;

impl Gauge<i64> for Grid {
    fn number(&self, text: &str) -> Option<i64> {
        text.parse::<i64>().ok()
    }

    fn speed(&self, text: &str) -> Option<i64> {
        text.parse::<i64>().ok()
    }

    fn deviation(&self, p: (i64, i64), v: (i64, i64), _w: (i64, i64)) -> u64 {
        p.1.abs_diff(v.1)
    }

    fn tolerance(&self) -> u64 {
        3
    }
}

const PLANE: Plane = Plane { epsilon: 5.0 };

fn points_of(shape: &str) -> Vec<(f64, f64)> {
    read_points(shape, &PLANE)
}

fn simplify(points: &[(f64, f64)], epsilon: f64) -> Vec<(f64, f64)> {
    let gauge = Plane { epsilon };
    let start = Simplifier::new(points.len(), gauge.tolerance());
    finish(points, start, &gauge).retain(points)
}

fn network_of(xml_text: &str) -> Result<ParsedNetwork<f64>, ParseError> {
    parse_network(xml_text, &PLANE)
}

fn shape_of(points: &[(f64, f64)]) -> String {
    let words: Vec<String> = points.iter().map(|(x, y)| format!("{},{}", x, y)).collect();
    words.join(" ")
}

fn zigzag(count: usize) -> Vec<(f64, f64)> {
    (0..count).map(|i| (i as f64 * 10.0, if i % 2 == 0 { 0.0 } else { 100.0 })).collect()
}

#[test]
fn malformed_tokens_are_left_out() {
    assert_eq!(points_of("1.0,2.0 bad,token 3.0,4.0"), vec![(1.0, 2.0), (3.0, 4.0)]);
}

#[test]
fn values_that_are_not_finite_are_left_out() {
    assert_eq!(points_of("inf,1 1,NaN 1e999,2 -infinity,0 2,3"), vec![(2.0, 3.0)]);
    assert_eq!(points_of("1,2,3 ,4 5, 6 7,8"), vec![(7.0, 8.0)]);
    assert_eq!(points_of("a,b c d,e"), vec![]);
    assert_eq!(points_of("1e2,-0.5 .5,+3"), vec![(100.0, -0.5), (0.5, 3.0)]);
}

#[test]
fn simplifier_keeps_what_deviates() {
    let line = [
        (0.0, 0.0),
        (1.0, 0.1),
        (2.0, -0.1),
        (3.0, 5.0),
        (4.0, 6.0),
        (5.0, 7.0),
        (6.0, 8.1),
        (7.0, 9.0),
        (8.0, 9.0),
        (9.0, 9.0),
    ];
    assert_eq!(
        simplify(&line, 1.0),
        vec![(0.0, 0.0), (2.0, -0.1), (3.0, 5.0), (7.0, 9.0), (9.0, 9.0)]
    );
}

#[test]
fn simplifier_drops_what_lies_on_the_chord() {
    let bumpy = [(0.0, 0.0), (10.0, 1.0), (20.0, 0.0), (30.0, 1.0), (40.0, 0.0), (50.0, 0.0)];
    assert_eq!(simplify(&bumpy, 5.0), vec![(0.0, 0.0), (50.0, 0.0)]);
    let peak = [(0.0, 0.0), (10.0, 0.0), (20.0, 0.0), (30.0, 40.0), (40.0, 0.0), (50.0, 0.0)];
    assert_eq!(
        simplify(&peak, 5.0),
        vec![(0.0, 0.0), (20.0, 0.0), (30.0, 40.0), (40.0, 0.0), (50.0, 0.0)]
    );
}

#[test]
fn simplifier_handles_a_chord_of_no_length() {
    let looped = [(0.0, 0.0), (3.0, 4.0), (0.0, 0.0)];
    assert_eq!(simplify(&looped, 4.9), vec![(0.0, 0.0), (3.0, 4.0), (0.0, 0.0)]);
    assert_eq!(simplify(&looped, 5.0), vec![(0.0, 0.0), (0.0, 0.0)]);
}

#[test]
fn dropped_points_lie_within_tolerance_of_the_result() {
    let line: Vec<(f64, f64)> = (0..200)
        .map(|i| {
            let x = i as f64;
            (x * 3.0, (x * 0.37).sin() * 20.0 + (x * 0.05).cos() * 60.0)
        })
        .collect();
    let epsilon = 5.0;
    let kept = simplify(&line, epsilon);
    assert_eq!(kept.first(), line.first());
    assert_eq!(kept.last(), line.last());
    assert!(kept.len() < line.len());
    for p in &line {
        let nearest = kept
            .windows(2)
            .map(|w| distance_sq(*p, w[0], w[1]))
            .fold(f64::INFINITY, f64::min);
        assert!(nearest <= epsilon * epsilon + 1e-9);
    }
}

#[test]
fn representative_of_an_edge_has_the_most_points() {
    let six = zigzag(6);
    let ten = zigzag(10);
    let xml = format!(
        "<net><edge id='e'><lane id='e_0' shape='{}'/><lane id='e_1' shape='{}'/></edge></net>",
        shape_of(&six),
        shape_of(&ten)
    );
    let network = network_of(&xml).unwrap();
    assert_eq!(network.lanes.len(), 1);
    assert_eq!(network.lanes[0].id, "e_1");
    assert_eq!(network.lanes[0].edge_id, Some("e".to_string()));
    assert_eq!(network.lanes[0].points.len(), 10);
    assert!(!network.lanes[0].is_internal);
}

#[test]
fn internal_lanes_are_all_kept() {
    let xml = "<net><edge id=':j' function='internal'>\
                 <lane id=':j_0' shape='0,0 1,1'/>\
                 <lane id=':j_1' shape='0,0 2,2 4,4'/>\
               </edge></net>";
    let network = network_of(xml).unwrap();
    let ids: Vec<&str> = network.lanes.iter().map(|l| l.id.as_str()).collect();
    assert_eq!(ids, vec![":j_0", ":j_1"]);
    assert!(network.lanes.iter().all(|l| l.is_internal));
}

#[test]
fn bounds_are_read_from_the_location() {
    let network = network_of("<net><location convBoundary='0,0,100,50'/></net>").unwrap();
    assert_eq!(network.bounds, Some(Bounds { min_x: 0.0, min_y: 0.0, max_x: 100.0, max_y: 50.0 }));
    let none = network_of("<net><edge id='e'/></net>").unwrap();
    assert_eq!(none.bounds, None);
}

#[test]
fn bounds_need_four_finite_numbers() {
    for boundary in ["0,0,100", "0,0,100,50,1", "0,0,x,50", "0,0,inf,50", ""] {
        let xml = format!("<net><location convBoundary='{}'/></net>", boundary);
        assert_eq!(network_of(&xml).unwrap().bounds, None);
    }
}

#[test]
fn minimal_network_end_to_end() {
    let xml = "<net>\
                 <location convBoundary='0,0,100,50'/>\
                 <edge id='e1'>\
                   <lane id='e1_0' speed='13.89' shape='0,0 10,0 20,0 30,40 40,0 50,0'/>\
                 </edge>\
                 <junction id='j1' type='traffic_light' tl='A' x='10' y='20'/>\
               </net>";
    let network = network_of(xml).unwrap();
    assert_eq!(network.lanes.len(), 1);
    let lane = &network.lanes[0];
    assert_eq!(lane.id, "e1_0");
    assert_eq!(lane.edge_id, Some("e1".to_string()));
    assert!(!lane.is_internal);
    assert_eq!(lane.speed, Some(13.89));
    assert_eq!(
        lane.points,
        vec![
            Point { lat: 0.0, lng: 0.0 },
            Point { lat: 0.0, lng: 20.0 },
            Point { lat: 40.0, lng: 30.0 },
            Point { lat: 0.0, lng: 40.0 },
            Point { lat: 0.0, lng: 50.0 },
        ]
    );
    assert_eq!(
        network.tls,
        vec![TrafficLight { id: "j1".to_string(), cluster_id: "A".to_string(), lat: 20.0, lng: 10.0 }]
    );
    assert_eq!(network.junctions, vec![]);
    assert_eq!(network.junction_points.len(), 1);
    assert_eq!(network.junction_points[0].id, "j1");
    assert_eq!(network.junction_points[0].lat, 20.0);
    assert_eq!(network.junction_points[0].lng, 10.0);
}

#[test]
fn short_lanes_are_not_simplified() {
    let xml = "<net><edge id='e'><lane id='l' shape='0,0 1,0 2,0 3,0'/></edge></net>";
    let network = network_of(xml).unwrap();
    assert_eq!(network.lanes[0].points.len(), 4);
    let five = "<net><edge id='e'><lane id='l' shape='0,0 1,0 2,0 3,0 4,0'/></edge></net>";
    assert_eq!(network_of(five).unwrap().lanes[0].points.len(), 2);
}

#[test]
fn long_lanes_are_cut_to_the_budget() {
    let xml = format!("<net><edge id='e'><lane id='l' shape='{}'/></edge></net>", shape_of(&zigzag(45)));
    let network = network_of(&xml).unwrap();
    let points = &network.lanes[0].points;
    assert_eq!(points.len(), 16);
    assert_eq!(points[1], Point { lat: 100.0, lng: 30.0 });
    assert_eq!(points[15], Point { lat: 0.0, lng: 440.0 });
    let xml = format!("<net><edge id='e'><lane id='l' shape='{}'/></edge></net>", shape_of(&zigzag(40)));
    let network = network_of(&xml).unwrap();
    let points = &network.lanes[0].points;
    assert_eq!(points.len(), 21);
    assert_eq!(points[19], Point { lat: 0.0, lng: 380.0 });
    assert_eq!(points[20], Point { lat: 100.0, lng: 390.0 });
}

#[test]
fn lanes_without_two_points_are_skipped() {
    let xml = "<net><edge id='e'>\
                 <lane id='none'/>\
                 <lane id='empty' shape=''/>\
                 <lane id='one' shape='1,1 x,y'/>\
                 <lane id='two' shape='1,1 x,y 2,2'/>\
               </edge></net>";
    let network = network_of(xml).unwrap();
    let ids: Vec<&str> = network.lanes.iter().map(|l| l.id.as_str()).collect();
    assert_eq!(ids, vec!["two"]);
}

#[test]
fn junction_records_overlap_by_identifier() {
    let xml = "<net>\
                 <junction id='a' type='priority' x='1' y='2' shape='0,0 4,0 4,3'/>\
                 <junction id='b' type='traffic_light' x='5' y='6' shape='0,0 1,1'/>\
                 <junction id='c' x='bad' y='6'/>\
               </net>";
    let network = network_of(xml).unwrap();
    let outlines: Vec<&str> = network.junctions.iter().map(|j| j.id.as_str()).collect();
    assert_eq!(outlines, vec!["a"]);
    assert_eq!(network.junctions[0].junction_type, "priority");
    assert_eq!(
        network.junctions[0].polygon,
        vec![Point { lat: 0.0, lng: 0.0 }, Point { lat: 0.0, lng: 4.0 }, Point { lat: 3.0, lng: 4.0 }]
    );
    let positions: Vec<&str> = network.junction_points.iter().map(|j| j.id.as_str()).collect();
    assert_eq!(positions, vec!["a", "b"]);
    let lights: Vec<(&str, &str)> =
        network.tls.iter().map(|t| (t.id.as_str(), t.cluster_id.as_str())).collect();
    assert_eq!(lights, vec![("b", "b")]);
}

#[test]
fn malformed_document_gives_no_network() {
    let error = network_of("<net><edge>").unwrap_err();
    assert!(error.message().starts_with("XML parse error: "));
}

#[test]
fn speed_is_read_as_it_stands() {
    let source = LaneSource {
        id: "l".to_string(),
        edge_id: "e".to_string(),
        is_internal: false,
        shape: "0,0 1,1".to_string(),
        speed: Some("inf".to_string()),
    };
    assert_eq!(reduce_lane(&source, &PLANE).unwrap().speed, Some(f64::INFINITY));
    let unread = LaneSource { speed: Some("fast".to_string()), ..source.clone() };
    assert_eq!(reduce_lane(&unread, &PLANE).unwrap().speed, None);
    let short = LaneSource { shape: "0,0 x,1".to_string(), ..source };
    assert_eq!(reduce_lane(&short, &PLANE), None);
}

#[test]
fn traffic_light_comes_with_its_position() {
    let source = JunctionSource {
        id: "j".to_string(),
        kind: Some("traffic_light".to_string()),
        cluster: None,
        x: Some("1.5".to_string()),
        y: Some("-2".to_string()),
        shape: None,
    };
    let records = reduce_junction(&source, &PLANE);
    let light = records.light.unwrap();
    let position = records.position.unwrap();
    assert_eq!((light.lat, light.lng), (-2.0, 1.5));
    assert_eq!((position.lat, position.lng), (-2.0, 1.5));
    assert_eq!(light.cluster_id, "j");
    assert_eq!(records.outline, None);
    let unplaced = JunctionSource { x: None, ..source };
    let records = reduce_junction(&unplaced, &PLANE);
    assert_eq!(records.light, None);
    assert_eq!(records.position, None);
}

#[test]
fn bounds_are_read_field_by_field() {
    assert_eq!(
        read_bounds("1,2,3,4", &Grid),
        Some(Bounds { min_x: 1, min_y: 2, max_x: 3, max_y: 4 })
    );
    assert_eq!(read_bounds("1,2,3,4.5", &Grid), None);
    assert_eq!(read_bounds("1,2,3", &Grid), None);
}

#[test]
fn reduction_works_with_any_gauge() {
    let xml = "<net><edge id='e'><lane id='l' shape='0,0 1,1 2,9 3,2 4,0 5,1'/></edge></net>";
    let network = parse_network(xml, &Grid).unwrap();
    let points: Vec<(i64, i64)> = network.lanes[0].points.iter().map(|p| (p.lng, p.lat)).collect();
    assert_eq!(points, vec![(0, 0), (2, 9), (3, 2), (4, 0), (5, 1)]);
}

#[test]
fn collinear_point_is_simplified_away() {
    let xml = "<net>\
                 <edge id='e1'><lane id='e1_0' shape='0,0 10,0 20,0 30,100 40,0 50,100'/></edge>\
                 <junction id='J1' type='traffic_light' x='10' y='20' tl='A'/>\
               </net>";
    let network = network_of(xml).unwrap();
    assert_eq!(network.lanes.len(), 1);
    assert_eq!(network.lanes[0].id, "e1_0");
    assert!(!network.lanes[0].is_internal);
    assert_eq!(
        network.lanes[0].points,
        vec![
            Point { lat: 0.0, lng: 0.0 },
            Point { lat: 0.0, lng: 20.0 },
            Point { lat: 100.0, lng: 30.0 },
            Point { lat: 0.0, lng: 40.0 },
            Point { lat: 100.0, lng: 50.0 },
        ]
    );
    assert_eq!(
        network.tls,
        vec![TrafficLight { id: "J1".to_string(), cluster_id: "A".to_string(), lat: 20.0, lng: 10.0 }]
    );
}

#[test]
fn internal_lanes_come_before_the_representative() {
    let xml = "<net>\
                 <edge id='e'><lane id='e_0' shape='0,0 10,1 20,1 30,0'/></edge>\
                 <edge id=':i' function='internal'><lane id=':i_0' shape='0,0 1,1'/></edge>\
               </net>";
    let network = network_of(xml).unwrap();
    assert_eq!(network.lanes.len(), 2);
    assert_eq!(network.lanes[0].id, ":i_0");
    assert!(network.lanes[0].is_internal);
    assert_eq!(network.lanes[1].id, "e_0");
    assert!(!network.lanes[1].is_internal);
    assert_eq!(
        network.lanes[1].points,
        vec![
            Point { lat: 0.0, lng: 0.0 },
            Point { lat: 1.0, lng: 10.0 },
            Point { lat: 1.0, lng: 20.0 },
            Point { lat: 0.0, lng: 30.0 },
        ]
    );
}

#[test]
fn traffic_light_junction_with_a_shape_gives_three_records() {
    let xml = "<net><junction id='J' type='traffic_light' x='1' y='2' shape='0,0 1,0 2,0 3,0 4,0'/></net>";
    let network = network_of(xml).unwrap();
    assert_eq!(network.lanes, vec![]);
    assert_eq!(
        network.tls,
        vec![TrafficLight { id: "J".to_string(), cluster_id: "J".to_string(), lat: 2.0, lng: 1.0 }]
    );
    assert_eq!(
        network.junctions,
        vec![Junction {
            id: "J".to_string(),
            junction_type: "traffic_light".to_string(),
            polygon: vec![
                Point { lat: 0.0, lng: 0.0 },
                Point { lat: 0.0, lng: 1.0 },
                Point { lat: 0.0, lng: 2.0 },
                Point { lat: 0.0, lng: 3.0 },
                Point { lat: 0.0, lng: 4.0 },
            ],
        }]
    );
    assert_eq!(
        network.junction_points,
        vec![JunctionPoint { id: "J".to_string(), lat: 2.0, lng: 1.0 }]
    );
}

#[test]
fn every_edge_keeps_its_longest_lane() {
    let xml = format!(
        "<net>\
           <edge id='a'><lane id='a_0' shape='{}'/><lane id='a_1' shape='{}'/></edge>\
           <edge id='b'><lane id='b_0' shape='x'/><lane id='b_1' shape='0,0 1,1'/></edge>\
           <edge id='c'><lane id='c_0' shape='0,0'/></edge>\
           <edge id='a'><lane id='a_2' shape='{}'/></edge>\
         </net>",
        shape_of(&zigzag(6)),
        shape_of(&zigzag(10)),
        shape_of(&zigzag(12)),
    );
    let network = network_of(&xml).unwrap();
    let kept: Vec<(&str, usize)> =
        network.lanes.iter().map(|l| (l.id.as_str(), l.points.len())).collect();
    assert_eq!(kept, vec![("a_2", 12), ("b_1", 2)]);
}

#[test]
fn nodes_are_reduced_without_a_parser() {
    let node = |tag: &str, attributes: &[(&str, &str)], span: usize| XmlNode {
        tag: tag.to_string(),
        attributes: attributes.iter().map(|(k, v)| (k.to_string(), v.to_string())).collect(),
        span,
    };
    let nodes = vec![
        node("net", &[], 5),
        node("location", &[("convBoundary", "0,0,9,9")], 1),
        node("edge", &[("id", "e")], 2),
        node("lane", &[("id", "e_0"), ("shape", "0,0 9,9")], 1),
        node("junction", &[("id", "j"), ("x", "3"), ("y", "4")], 1),
    ];
    let network = reduce_document(&nodes, &Grid);
    assert_eq!(network.bounds, Some(Bounds { min_x: 0, min_y: 0, max_x: 9, max_y: 9 }));
    assert_eq!(network.lanes.len(), 1);
    assert_eq!(network.lanes[0].points, vec![Point { lat: 0, lng: 0 }, Point { lat: 9, lng: 9 }]);
    assert_eq!(network.tls, vec![]);
    assert_eq!(network.junctions, vec![]);
    assert_eq!(network.junction_points, vec![JunctionPoint { id: "j".to_string(), lat: 4, lng: 3 }]);
}

#[test]
fn too_deep_document_gives_no_network() {
    let text = "<a>".repeat(1000);
    assert_eq!(network_of(&text), Err(ParseError::TooDeep));
}
