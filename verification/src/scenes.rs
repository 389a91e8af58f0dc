use vstd::prelude::*;

verus! {

/// The configuration of the animated easing demonstration scene; its camera
/// and geometry are built in floating point by the program around this
/// library.
pub struct EasingConfig;

/// The configuration of the animated sphere scene; its camera and geometry
/// are built in floating point by the program around this library.
pub struct SphereConfig;

} // verus!
