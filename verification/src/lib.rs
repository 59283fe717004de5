//! The verified core of a tactical map and globe: vector tile and OSM decoding, tile streaming, the
//! simulated clock and timeline, sensor rules, satellite catalogues and the decisions behind the
//! user interface.

pub mod area_laws;
pub mod camera;
pub mod civil;
pub mod class_laws;
pub mod decimal;
pub mod extract;
pub mod field_laws;
pub mod geo;
pub mod globe;
pub mod globe_tiles;
pub mod idmap;
pub mod input;
pub mod input_laws;
pub mod launch;
pub mod launch_laws;
pub mod map_laws;
pub mod map_render;
pub mod mesh;
pub mod mesh_laws;
pub mod mvt;
pub mod mvt_laws;
pub mod number_laws;
pub mod order;
pub mod osm;
pub mod osm_laws;
pub mod panel_laws;
pub mod ring_laws;
pub mod rule_laws;
pub mod sat_laws;
pub mod satellites;
pub mod sim;
pub mod sim_laws;
pub mod stream;
pub mod stream_laws;
pub mod string_laws;
pub mod text;
pub mod text_laws;
pub mod tile_laws;
pub mod tiles;
pub mod time_laws;
pub mod timeline;
pub mod ui;
pub mod unit_laws;
pub mod units;
pub mod view_laws;
pub mod web_cache;
pub mod weburl;
pub mod xml;
