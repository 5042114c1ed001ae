//! What the document offers: lanes with a shape, junctions with an
//! identifier, and the declared boundary, all still as text.

use vstd::prelude::*;
use crate::xml::{attribute_of, end_of_subtree, opt_text, subtree_end, tree_text, NodeText, XmlNode};

verus! {

/// A lane as the document gives it, as plain text.
pub struct LaneText {
    pub id: Seq<char>,
    pub edge_id: Seq<char>,
    pub is_internal: bool,
    pub shape: Seq<char>,
    pub speed: Option<Seq<char>>,
}

/// A lane element with a shape, together with what it takes from the edge
/// above it: the edge's identifier, and whether the edge is internal.
#[derive(Debug, Clone, PartialEq, Eq)]
pub struct LaneSource {
    pub id: String,
    pub edge_id: String,
    pub is_internal: bool,
    pub shape: String,
    pub speed: Option<String>,
}

impl View for LaneSource {
    type V = LaneText;

    open spec fn view(&self) -> LaneText {
        LaneText {
            id: self.id@,
            edge_id: self.edge_id@,
            is_internal: self.is_internal,
            shape: self.shape@,
            speed: opt_text(self.speed),
        }
    }
}

/// A junction as the document gives it, as plain text.
pub struct JunctionText {
    pub id: Seq<char>,
    pub kind: Option<Seq<char>>,
    pub cluster: Option<Seq<char>>,
    pub x: Option<Seq<char>>,
    pub y: Option<Seq<char>>,
    pub shape: Option<Seq<char>>,
}

/// A junction element that has an identifier, with the attributes that
/// the records made from junctions draw on.
#[derive(Debug, Clone, PartialEq, Eq)]
pub struct JunctionSource {
    pub id: String,
    pub kind: Option<String>,
    pub cluster: Option<String>,
    pub x: Option<String>,
    pub y: Option<String>,
    pub shape: Option<String>,
}

impl View for JunctionSource {
    type V = JunctionText;

    open spec fn view(&self) -> JunctionText {
        JunctionText {
            id: self.id@,
            kind: opt_text(self.kind),
            cluster: opt_text(self.cluster),
            x: opt_text(self.x),
            y: opt_text(self.y),
            shape: opt_text(self.shape),
        }
    }
}

/// The texts of a list of lane sources.
pub open spec fn lane_texts(v: Seq<LaneSource>) -> Seq<LaneText> {
    v.map_values(|s: LaneSource| s@)
}

/// The texts of a list of junction sources.
pub open spec fn junction_texts(v: Seq<JunctionSource>) -> Seq<JunctionText> {
    v.map_values(|s: JunctionSource| s@)
}

/// The text of an attribute, or the empty text where it is missing.
pub open spec fn or_empty(value: Option<Seq<char>>) -> Seq<char> {
    match value {
        Some(text) => text,
        None => Seq::empty(),
    }
}

/// What the node `lane` contributes under the edge `edge`: a lane source if
/// it is a lane element with a shape, nothing otherwise. An edge is internal
/// where its function is exactly `internal`.
pub open spec fn lane_under(edge: NodeText, lane: NodeText) -> Option<LaneText> {
    if lane.tag == "lane"@ && attribute_of(lane, "shape"@) is Some {
        Some(
            LaneText {
                id: or_empty(attribute_of(lane, "id"@)),
                edge_id: or_empty(attribute_of(edge, "id"@)),
                is_internal: attribute_of(edge, "function"@) == Some("internal"@),
                shape: attribute_of(lane, "shape"@)->Some_0,
                speed: attribute_of(lane, "speed"@),
            },
        )
    } else {
        None
    }
}

/// The lane sources under the edge at position `edge`, among the nodes
/// from there up to position `upto`.
pub open spec fn edge_lanes(nodes: Seq<NodeText>, edge: int, upto: int) -> Seq<LaneText>
    decreases upto - edge,
{
    if upto <= edge {
        Seq::empty()
    } else {
        match lane_under(nodes[edge], nodes[upto - 1]) {
            Some(lane) => edge_lanes(nodes, edge, upto - 1).push(lane),
            None => edge_lanes(nodes, edge, upto - 1),
        }
    }
}

/// The lane sources of the edges among the first `count` nodes: for every
/// edge element in document order, the lanes in its subtree in document
/// order. No edge is left out, whatever its function.
pub open spec fn lanes_among(nodes: Seq<NodeText>, count: int) -> Seq<LaneText>
    decreases count,
{
    if count <= 0 {
        Seq::empty()
    } else if nodes[count - 1].tag == "edge"@ {
        lanes_among(nodes, count - 1) + edge_lanes(
            nodes,
            count - 1,
            subtree_end(nodes, count - 1),
        )
    } else {
        lanes_among(nodes, count - 1)
    }
}

/// What a node contributes as a junction: a source if it is a junction
/// element with an identifier.
pub open spec fn junction_at(node: NodeText) -> Option<JunctionText> {
    if node.tag == "junction"@ && attribute_of(node, "id"@) is Some {
        Some(
            JunctionText {
                id: attribute_of(node, "id"@)->Some_0,
                kind: attribute_of(node, "type"@),
                cluster: attribute_of(node, "tl"@),
                x: attribute_of(node, "x"@),
                y: attribute_of(node, "y"@),
                shape: attribute_of(node, "shape"@),
            },
        )
    } else {
        None
    }
}

/// The junction sources among the first `count` nodes, in document order.
pub open spec fn junctions_among(nodes: Seq<NodeText>, count: int) -> Seq<JunctionText>
    decreases count,
{
    if count <= 0 {
        Seq::empty()
    } else {
        match junction_at(nodes[count - 1]) {
            Some(junction) => junctions_among(nodes, count - 1).push(junction),
            None => junctions_among(nodes, count - 1),
        }
    }
}

/// The position of the first location element at or after `from`, or the
/// length of the list where there is none.
pub open spec fn first_location(nodes: Seq<NodeText>, from: int) -> int
    decreases nodes.len() - from,
{
    if from >= nodes.len() {
        nodes.len() as int
    } else if nodes[from].tag == "location"@ {
        from
    } else {
        first_location(nodes, from + 1)
    }
}

/// The declared boundary: the `convBoundary` attribute of the first
/// location element. A later location element is never consulted.
pub open spec fn declared_boundary(nodes: Seq<NodeText>) -> Option<Seq<char>> {
    let at = first_location(nodes, 0);
    if 0 <= at < nodes.len() {
        attribute_of(nodes[at], "convBoundary"@)
    } else {
        None
    }
}

/// The owned text of an attribute, empty where the attribute is missing.
fn text_or_empty(value: Option<String>) -> (text: String)
    ensures
        text@ == or_empty(opt_text(value)),
{
    match value {
        Some(text) => text,
        None => String::new(),
    }
}

/// Collects the lanes that have a shape, edge by edge in document order.
pub fn lane_sources(nodes: &Vec<XmlNode>) -> (out: Vec<LaneSource>)
    ensures
        lane_texts(out@) == lanes_among(tree_text(nodes@), nodes.len() as int),
{
    let ghost tree = tree_text(nodes@);
    let mut out: Vec<LaneSource> = Vec::new();
    let mut e: usize = 0;
    assert(lane_texts(out@) =~= lanes_among(tree, 0));
    while e < nodes.len()
        invariant
            e <= nodes.len(),
            tree == tree_text(nodes@),
            lane_texts(out@) == lanes_among(tree, e as int),
        decreases nodes.len() - e,
    {
        assert(tree[e as int] == nodes[e as int]@);
        if nodes[e].has_tag("edge") {
            let edge_id = text_or_empty(nodes[e].attribute("id"));
            let function = nodes[e].attribute("function");
            let is_internal = match function {
                Some(f) => f == String::from_str("internal"),
                None => false,
            };
            assert(is_internal == (attribute_of(tree[e as int], "function"@) == Some("internal"@)));
            let end = end_of_subtree(nodes, e);
            let ghost before = lane_texts(out@);
            let mut j: usize = e;
            assert(before + edge_lanes(tree, e as int, e as int) =~= before);
            while j < end
                invariant
                    e <= j <= end <= nodes.len(),
                    tree == tree_text(nodes@),
                    edge_id@ == or_empty(attribute_of(tree[e as int], "id"@)),
                    is_internal == (attribute_of(tree[e as int], "function"@) == Some("internal"@)),
                    lane_texts(out@) == before + edge_lanes(tree, e as int, j as int),
                decreases end - j,
            {
                assert(tree[j as int] == nodes[j as int]@);
                let ghost so_far = edge_lanes(tree, e as int, j as int);
                if nodes[j].has_tag("lane") {
                    match nodes[j].attribute("shape") {
                        Some(shape) => {
                            let source = LaneSource {
                                id: text_or_empty(nodes[j].attribute("id")),
                                edge_id: edge_id.clone(),
                                is_internal,
                                shape,
                                speed: nodes[j].attribute("speed"),
                            };
                            assert(Some(source@) == lane_under(tree[e as int], tree[j as int]));
                            assert(lane_texts(out@.push(source)) =~= lane_texts(out@).push(
                                source@,
                            ));
                            assert((before + so_far).push(source@) =~= before + so_far.push(
                                source@,
                            ));
                            out.push(source);
                        },
                        None => {},
                    }
                }
                j = j + 1;
            }
        }
        e = e + 1;
    }
    out
}

/// Collects the junctions that have an identifier, in document order.
pub fn junction_sources(nodes: &Vec<XmlNode>) -> (out: Vec<JunctionSource>)
    ensures
        junction_texts(out@) == junctions_among(tree_text(nodes@), nodes.len() as int),
{
    let ghost tree = tree_text(nodes@);
    let mut out: Vec<JunctionSource> = Vec::new();
    let mut i: usize = 0;
    assert(junction_texts(out@) =~= junctions_among(tree, 0));
    while i < nodes.len()
        invariant
            i <= nodes.len(),
            tree == tree_text(nodes@),
            junction_texts(out@) == junctions_among(tree, i as int),
        decreases nodes.len() - i,
    {
        assert(tree[i as int] == nodes[i as int]@);
        if nodes[i].has_tag("junction") {
            match nodes[i].attribute("id") {
                Some(id) => {
                    let source = JunctionSource {
                        id,
                        kind: nodes[i].attribute("type"),
                        cluster: nodes[i].attribute("tl"),
                        x: nodes[i].attribute("x"),
                        y: nodes[i].attribute("y"),
                        shape: nodes[i].attribute("shape"),
                    };
                    assert(Some(source@) == junction_at(tree[i as int]));
                    assert(junction_texts(out@.push(source)) =~= junction_texts(out@).push(
                        source@,
                    ));
                    out.push(source);
                },
                None => {},
            }
        }
        i = i + 1;
    }
    out
}

/// The text of the declared boundary, if the first location element has
/// one.
pub fn boundary_text(nodes: &Vec<XmlNode>) -> (r: Option<String>)
    ensures
        opt_text(r) == declared_boundary(tree_text(nodes@)),
{
    let ghost tree = tree_text(nodes@);
    let mut i: usize = 0;
    while i < nodes.len()
        invariant
            i <= nodes.len(),
            tree == tree_text(nodes@),
            first_location(tree, 0) == first_location(tree, i as int),
        decreases nodes.len() - i,
    {
        assert(tree[i as int] == nodes[i as int]@);
        if nodes[i].has_tag("location") {
            return nodes[i].attribute("convBoundary");
        }
        i = i + 1;
    }
    None
}

} // verus!
