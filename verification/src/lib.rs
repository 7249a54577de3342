//! Star-tracker image processing: connected-region detection, order
//! statistics, catalog formats and the decisions of the solver front end.

pub mod connect;
pub mod union_find;
pub mod runs;
pub mod mask;
pub mod regions;
pub mod ieee;
pub mod stats;
pub mod par;
pub mod background;
pub mod noise;
pub mod labels;
pub mod order;
pub mod convert;
pub mod blobs;
pub mod measure;
pub mod peak;
pub mod config;
pub mod fast;
pub mod ccl;
pub mod gray;
pub mod steady;
pub mod laws;
pub mod catalogs;
pub mod track;
pub mod distortion;
pub mod arguments;
