//! Solvers for a set of daily puzzles: each module reads one puzzle's text into a model and
//! computes its answers, with every step stated and proved.

pub mod text;

pub mod calibration;
pub mod cubes;
pub mod schematic;
pub mod cards;
pub mod intervals;
pub mod races;
pub mod hands;
pub mod network;
pub mod sequences;
pub mod pipes;
pub mod galaxies;
pub mod springs;
pub mod mirrors;
pub mod rocks;
pub mod lenses;

