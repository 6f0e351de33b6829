//! Least-cost routing over a road network.
//!
//! A `NetworkBuilder` accumulates raw nodes, directed arcs and way metadata
//! keyed by sparse external identifiers; building it compacts every used node
//! onto a dense index and yields an immutable `Network`; `dijkstra` answers
//! least-cost queries against that network, optionally reconstructing the
//! sequence of way names travelled.

pub mod dijkstra;
pub mod keyed;
pub mod network;
pub mod osm;
pub mod utils;
