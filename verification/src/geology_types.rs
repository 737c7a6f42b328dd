//! Plain geology enums and the plate identifier.
use vstd::prelude::*;

verus! {

/// Crust type: oceanic or continental crust.
#[derive(Debug, Clone, Copy, PartialEq, Eq, Structural)]
pub enum CrustType {
    Continental,
    Oceanic,
}

/// Tectonic regime of a planet.
#[derive(Debug, Clone, Copy, PartialEq, Eq, Structural)]
pub enum TectonicRegime {
    StagnantLid,
    MobileLid,
    ShatteredLid,
}

/// Fallback used when plates do not emerge on their own.
#[derive(Debug, Clone, Copy, PartialEq, Eq, Structural)]
pub enum PlateEmergenceFallbackKind {
    NoFallback,
    StagnantLidProtoPlates,
    ShatteredLidProtoBlocks,
    LegacyPowerVoronoi,
}

/// Which plate of a pair goes under the other.
#[derive(Debug, Clone, Copy, PartialEq, Eq, Structural)]
pub enum SubductionPolarity {
    AUnderB,
    BUnderA,
    NoSubduction,
}

impl Default for CrustType {
    fn default() -> (r: Self)
        ensures
            r == CrustType::Continental,
    {
        CrustType::Continental
    }
}

impl Default for TectonicRegime {
    fn default() -> (r: Self)
        ensures
            r == TectonicRegime::MobileLid,
    {
        TectonicRegime::MobileLid
    }
}

impl Default for PlateEmergenceFallbackKind {
    fn default() -> (r: Self)
        ensures
            r == PlateEmergenceFallbackKind::NoFallback,
    {
        PlateEmergenceFallbackKind::NoFallback
    }
}

impl Default for SubductionPolarity {
    fn default() -> (r: Self)
        ensures
            r == SubductionPolarity::NoSubduction,
    {
        SubductionPolarity::NoSubduction
    }
}

/// Plate identifier.
#[derive(Debug, Clone, Copy, PartialEq, Eq, Structural, Hash, PartialOrd, Ord)]
pub struct PlateId(pub u32);

impl Default for PlateId {
    fn default() -> (r: Self)
        ensures
            r == PlateId(0),
    {
        PlateId(0)
    }
}

impl PlateId {
    /// The raw identifier.
    pub fn as_u32(self) -> (r: u32)
        ensures
            r == self.0,
    {
        self.0
    }

    /// The identifier as an index.
    pub fn as_usize(self) -> (r: usize)
        ensures
            r == self.0,
    {
        self.0 as usize
    }
}

} // verus!
