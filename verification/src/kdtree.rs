use vstd::prelude::*;

verus! {

/// The builder of photon k-d trees; the trees and their queries, which work
/// on floating-point positions, belong to the program around this library.
pub struct KDTree;

} // verus!
