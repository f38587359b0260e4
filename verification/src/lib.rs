pub mod ordered;
pub mod parameters;
pub mod split_ambiguity;
pub mod text;
pub mod tile;
pub mod trackparts;
pub mod point_collection;
pub mod wheel;
pub mod pdf;
pub mod waypoint;
pub mod waypoints_table;
pub mod zipexport;
pub mod svgtable;
pub mod typst;
pub mod waypoint_values;
pub mod trackfile;
