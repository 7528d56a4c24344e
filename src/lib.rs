pub mod extrema;
pub mod face;
pub mod filename;
pub mod generator;
pub mod mesh;
pub mod raster;
pub mod settings;
pub mod spiral;
pub mod vec3;
