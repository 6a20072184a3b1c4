use vstd::prelude::*;

verus! {

/// The propellant a tank holds.
#[derive(Debug, PartialEq, Eq, Clone, Copy, Structural)]
pub enum FuelType {
    Methalox,
    Hydrogen,
}

} // verus!
