//! The names of the fuselage materials tanks can be built from.
use vstd::prelude::*;

verus! {

pub const STEEL_FUSELAGE_NAME: &'static str = "Steel Fuselage";
pub const HP_STEEL_FUSELAGE_NAME: &'static str = "HP Steel Fuselage";
pub const AL_FUSELAGE_NAME: &'static str = "Al Fuselage";
pub const HP_AL_FUSELAGE_NAME: &'static str = "HP Al Fuselage";
pub const AL_STRINGER_TANK_NAME: &'static str = "Al Stringer Tank";
pub const HP_AL_STRINGER_TANK_NAME: &'static str = "HP Al Stringer Tank";
pub const REFINED_AL_STRINGER_TANK_NAME: &'static str = "Refined Al Stringer Tank";
pub const HP_REFINED_AL_STRINGER_TANK_NAME: &'static str = "HP Refined Al Stringer Tank";
pub const AL_LI_STRINGER_TANK_NAME: &'static str = "Al-Li Stringer Tank";
pub const HP_AL_LI_STRINGER_TANK_NAME: &'static str = "HP Al-Li Stringer Tank";
pub const REFINED_AL_LI_STRINGER_TANK_NAME: &'static str = "Refined Al-Li Stringer Tank";
pub const HP_REFINED_AL_LI_STRINGER_TANK_NAME: &'static str = "HP Refined Al-Li Stringer Tank";
pub const STEEL_STIR_WELDED_TANK_NAME: &'static str = "Steel Stir-Welded Tank";
pub const HP_STEEL_STIR_WELDED_TANK_NAME: &'static str = "HP Steel Stir-Welded Tank";

} // verus!
