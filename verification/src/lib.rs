//! Estimation of average daily traffic on a road network.
//!
//! Shortest paths between sampled pairs of points are tallied on the edges of
//! a road network. This crate holds the integer core of that computation: the
//! network with its edge counters, the split of the network into polylines,
//! the weighted point clouds and the rules by which sources and destinations
//! are drawn, the binary layout of a collection of routes, the rules of the
//! comparison with counts from the road, and the text of the GeoJSON output.
//!
//! All quantities are fixed-point values: geographic positions in millionths
//! of a degree, projected positions in whole metres, angles in picoradians.
//! The projection itself, and whatever else takes trigonometry, is left to
//! the caller.

pub mod chance;
pub mod compare;
pub mod density;
pub mod geo;
pub mod geojson_writer;
pub mod network;
pub mod poi;
pub mod polyline;
pub mod render;
pub mod route;
pub mod sampling;
pub mod wire;
