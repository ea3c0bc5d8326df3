//! Slicing of triangle models into 3D Tiles.

pub mod assemble;
pub mod b3dm;
pub mod boxes;
pub mod bytes;
pub mod cell_laws;
pub mod component_laws;
pub mod drawing_laws;
pub mod extent_laws;
pub mod extract;
pub mod face_laws;
pub mod float;
pub mod glb;
pub mod gltf;
pub mod gltf_laws;
pub mod gltf_writer;
pub mod ground_laws;
pub mod halving;
pub mod identifier_laws;
pub mod ieee;
pub mod isotone;
pub mod json;
pub mod layer_laws;
pub mod lod;
pub mod material_laws;
pub mod mean_laws;
pub mod merge;
pub mod mesh;
pub mod mirror_laws;
pub mod model;
pub mod monotone;
pub mod names;
pub mod nearest_laws;
pub mod nearness;
pub mod normal_laws;
pub mod octree;
pub mod octree_laws;
pub mod order;
pub mod pipeline;
pub mod read_laws;
pub mod report;
pub mod root_laws;
pub mod rounding;
pub mod scene_laws;
pub mod scenetree;
pub mod search_laws;
pub mod simplify;
pub mod split_laws;
pub mod text;
pub mod texture;
pub mod texture_laws;
pub mod tile_laws;
pub mod tiles;
pub mod tileset;
pub mod turn_laws;
pub mod volume_laws;
