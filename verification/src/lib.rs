pub mod vector;
pub mod text;
pub mod pattern;
pub mod compositions;
pub mod system;
pub mod search;
pub mod optimum;
pub mod solver;
pub mod machine;
pub mod reduction;
pub mod lights;
pub mod dial;
pub mod repeats;
pub mod patterns;
pub mod battery;
pub mod shelf;
pub mod intervals;
pub mod homework;
pub mod grid;
pub mod columns;
pub mod manifold;
pub mod circuits;
pub mod tiles;
pub mod floor;
pub mod paths;
pub mod packing;
pub mod presents;
