pub mod canvas;
pub mod file;
pub mod intersections;
pub mod lines;
pub mod matrix;
pub mod numerals;
pub mod ppm;
pub mod transformations;
