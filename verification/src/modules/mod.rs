use vstd::prelude::*;

pub mod calculator;
pub mod engines;
pub mod fuel_type;
pub mod input;
pub mod size;
pub mod tanks;

verus! {

/// The errors the calculator reports.
#[derive(Debug, Clone)]
pub enum Error {
    MissingTech(String),
    MaxWetMassBelowCurrentMass,
    InvalidHeight,
    HeightTooLarge,
    HeightOutsideOfNoseconeRange,
}

/// The text shown to a user for an error.
pub open spec fn error_text(e: Error) -> Seq<char> {
    match e {
        Error::MissingTech(v) => v@,
        Error::MaxWetMassBelowCurrentMass => "Max wet mass is below current mass"@,
        Error::InvalidHeight => "Invalid height (NaN or negative)"@,
        Error::HeightTooLarge => "Height exceeds limit"@,
        Error::HeightOutsideOfNoseconeRange => "Nosecone height is outside of its range"@,
    }
}

impl Error {
    /// The text shown to a user for this error: the carried text of a
    /// missing tech, a fixed sentence for every other error.
    pub fn message(&self) -> (r: String)
        ensures
            r@ == error_text(*self),
    {
        match self {
            Error::MissingTech(v) => v.clone(),
            Error::MaxWetMassBelowCurrentMass => "Max wet mass is below current mass".to_owned(),
            Error::InvalidHeight => "Invalid height (NaN or negative)".to_owned(),
            Error::HeightTooLarge => "Height exceeds limit".to_owned(),
            Error::HeightOutsideOfNoseconeRange => "Nosecone height is outside of its range".to_owned(),
        }
    }
}

} // verus!
