//! The rules, geometry and control logic of a particle-life playground.
use vstd::prelude::*;

pub mod rounding;
pub mod scalar;
pub mod order;
pub mod vector;
pub mod text;
pub mod model;
pub mod creatures;
pub mod doubling;
pub mod piles;
pub mod spacing;
pub mod interaction;
pub mod scatter;
pub mod ui;
pub mod input;
pub mod panel;
pub mod strips;
pub mod gpu;
pub mod laws;
pub mod camera;
pub mod layout;
pub mod lengths;
pub mod pointing;
pub mod pouring;
pub mod roughly;
pub mod measures;
pub mod nearly;
pub mod sliders;
pub mod seeds;
pub mod means;
pub mod clock;
pub mod blend;

verus! {

} // verus!
