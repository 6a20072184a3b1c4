use vstd::prelude::*;

verus! {

/// The size classes of rocket parts.
#[derive(Debug, PartialEq, Eq, Clone, Copy, Structural)]
pub enum Size {
    Xs,
    Sm,
    Md,
    Lg,
    Xl,
}

/// Whether a diameter is known for a size class.
pub open spec fn has_diameter(s: Size) -> bool {
    s is Xs || s is Sm
}

/// The diameter of a size class in millimetres, where one is known.
pub open spec fn diameter_mm(s: Size) -> nat {
    match s {
        Size::Xs => 300,
        Size::Sm => 1250,
        _ => 0,
    }
}

impl Size {
    /// Returns the diameter of this size in millimetres (0.3 m for `Xs`,
    /// 1.25 m for `Sm`). No diameter is defined for the larger sizes.
    pub fn get_diameter(&self) -> (r: u32)
        requires
            has_diameter(*self),
        ensures
            r == diameter_mm(*self),
    {
        match self {
            Size::Xs => 300,
            _ => 1250,
        }
    }
}

} // verus!
