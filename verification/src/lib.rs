//! Liquid surfaces: where the water is, where it ends, what it mirrors and how it moves.

pub mod admission;
pub mod aim;
pub mod bearing;
pub mod bytes;
pub mod chart;
pub mod contour;
pub mod coverage;
pub mod depth;
pub mod drawing;
pub mod energy;
pub mod entity_table;
pub mod fixed;
pub mod frame;
pub mod geometry;
pub mod hammering;
pub mod liquid_assets;
pub mod liquid_mesh;
pub mod mirror;
pub mod noise;
pub mod numbers;
pub mod outfit;
pub mod outline;
pub mod pair_key;
pub mod plane;
pub mod prominence;
pub mod pushes;
pub mod ripple;
pub mod ripple_sim;
pub mod scalar;
pub mod scene_color;
pub mod shoreline;
pub mod sighting;
pub mod spawn;
pub mod stability;
pub mod style;
pub mod surface;
pub mod ties;
pub mod wading;
pub mod wake;
pub mod waterline;
pub mod waves;
pub mod wet_lattice;
pub mod window;
