//! Verified core of the GeoPrint3D backend: mesh topology for watertight
//! 3D-printable terrain, and the decision logic around elevation and
//! building data.

pub mod mesh;
pub mod manifold;
pub mod building;
pub mod solid;
pub mod text;
pub mod logger;
pub mod api;
pub mod export;
pub mod elevation;
pub mod osm;
pub mod osm_parse;
