pub mod button;
pub mod color;
pub mod command;
pub mod cube;
pub mod drawables;
pub mod editor;
pub mod edits;
pub mod laws;
pub mod lod;
pub mod material;
pub mod model;
pub mod occlusion;
pub mod ocnode;
pub mod octree;
pub mod paint;
pub mod picking;
pub mod point;
pub mod selection;
pub mod storage;
pub mod stored_octree;
pub mod tree;
