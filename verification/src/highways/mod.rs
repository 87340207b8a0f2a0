//! Highways: where they run, how high they lie, and what they are made of.

pub mod connectivity;
pub mod coverage;
pub mod features;
pub mod medians;
pub mod pillars;
pub mod slopes;
pub mod surfaces;

pub use connectivity::build_highway_connectivity_map;
pub use connectivity::should_add_slope_at_node;
pub use connectivity::HighwayConnectivityMap;
pub use coverage::collect_building_passage_coords;
pub use coverage::collect_road_surface_coords;
pub use coverage::highway_block_range;
pub use features::is_pedestrian_way;
pub use features::placed_feature;
pub use features::placed_feature_node;
pub use medians::perpendicular_median_ground_y;
pub use medians::perpendicular_median_raw;
pub use medians::precompute_row_medians;
pub use pillars::add_highway_support_pillar;
pub use pillars::add_highway_support_pillar_absolute;
pub use slopes::calculate_point_elevation;
pub use slopes::calculate_way_length;
pub use surfaces::generate_aeroway;
pub use surfaces::generate_siding;
