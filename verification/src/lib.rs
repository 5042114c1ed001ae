//! Geometry reduction for road-network maps.
//!
//! A road network arrives as a document of named elements whose attributes
//! carry lane shapes, junction outlines and positions as text. This crate
//! reduces it to a compact model that is cheap to draw: polylines thinned by
//! chord deviation, cut down to a point budget, and one representative lane
//! for every edge that is not internal.
//!
//! Coordinates never appear as concrete numbers here. Every routine is
//! generic in the coordinate type and works on positions in a sequence; the
//! caller brings a [`pipeline::Gauge`], which reads numbers from text and
//! measures how far a point lies from a chord. Whatever the gauge answers,
//! the reduction ends, and its result keeps the shape that the contracts
//! state.
//!
//! The parts, leaf first:
//!
//! - [`budget`]: the point budget, uniform-stride sampling that keeps the
//!   last point.
//! - [`simplify`]: the line simplifier, as decisions over reported
//!   deviations.
//! - [`text`]: words and comma-separated fields of attribute text.
//! - [`xml`]: the document as a list of nodes, behind the XML parser.
//! - [`extract`]: the lanes, junctions and boundary that a document offers.
//! - [`network`]: the records of the reduced network and how each is made.
//! - [`select`]: which lanes survive, and the assembled network.
//! - [`pipeline`]: from a document to the reduced network.

pub mod budget;
pub mod simplify;
pub mod text;
pub mod xml;
pub mod extract;
pub mod network;
pub mod select;
pub mod pipeline;
