use vstd::prelude::*;

pub mod fuselage_names;
pub mod tanks;

verus! {

/// The two shapes of fuel tank the calculator builds stacks from.
#[derive(Debug, PartialEq, Eq, Clone, Copy, Structural)]
pub enum TankType {
    Cylindrical,
    Nosecone,
}

/// The name under which the high-pressure variant of a fuselage is listed.
pub open spec fn hp_name(name: Seq<char>) -> Seq<char> {
    "HP "@ + name
}

/// Returns the name of the high-pressure variant of the fuselage `name`:
/// the same name behind the prefix `HP `.
pub fn hp_fuselage_name(name: &str) -> (r: String)
    ensures
        r@ == hp_name(name@),
{
    let mut r = "HP ".to_owned();
    r.append(name);
    r
}

} // verus!
