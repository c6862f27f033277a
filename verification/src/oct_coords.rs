//! The ways in which the views of an imposter are spread over the directions.
use vstd::prelude::*;

verus! {

/// The bits of the flags that hold the grid mode.
pub const GRID_MASK: u32 = 3;

/// How the views of an imposter are spread over the directions.
#[derive(Clone, Copy, Debug, PartialEq, Eq, Structural)]
pub enum GridMode {
    /// Over the whole sphere.
    Spherical,
    /// Over the upper half of the sphere.
    Hemispherical,
    /// Round the horizon.
    Horizontal,
}

impl GridMode {
    /// The number of the mode in the flags.
    pub open spec fn flags(self) -> u32 {
        match self {
            GridMode::Spherical => 0,
            GridMode::Hemispherical => 1,
            GridMode::Horizontal => 2,
        }
    }

    /// The number of the mode in the flags.
    pub fn as_flags(&self) -> (r: u32)
        ensures
            r == self.flags(),
            r <= GRID_MASK,
            match self {
                GridMode::Spherical => r == 0,
                GridMode::Hemispherical => r == 1,
                GridMode::Horizontal => r == 2,
            },
    {
        match self {
            GridMode::Spherical => 0,
            GridMode::Hemispherical => 1,
            GridMode::Horizontal => 2,
        }
    }

    /// The name of the mode in a settings file.
    pub open spec fn name(self) -> Seq<char> {
        match self {
            GridMode::Spherical => "spherical"@,
            GridMode::Hemispherical => "hemispherical"@,
            GridMode::Horizontal => "Horizontal"@,
        }
    }

    /// The name of the mode in a settings file.
    pub fn as_name(&self) -> (r: &'static str)
        ensures
            r@ == self.name(),
            match self {
                GridMode::Spherical => r@ == "spherical"@,
                GridMode::Hemispherical => r@ == "hemispherical"@,
                GridMode::Horizontal => r@ == "Horizontal"@,
            },
    {
        match self {
            GridMode::Spherical => "spherical",
            GridMode::Hemispherical => "hemispherical",
            GridMode::Horizontal => "Horizontal",
        }
    }
}

/// Different modes have different numbers and different names, and no name holds a space.
pub proof fn lemma_modes_differ(a: GridMode, b: GridMode)
    ensures
        a != b ==> a.flags() != b.flags(),
        a != b ==> a.name() != b.name(),
        forall|i: int| 0 <= i < a.name().len() ==> 'A' <= #[trigger] a.name()[i] <= 'z',
        0 < a.name().len() < 20,
{
    reveal_strlit("spherical");
    reveal_strlit("hemispherical");
    reveal_strlit("Horizontal");
    if a.name() == b.name() {
        assert(a.name()[0] == b.name()[0]);
    }
}

/// The number and the name of every mode. Other numbers of two bits stand for no mode.
pub proof fn law_modes(mode: GridMode)
    ensures
        mode == GridMode::Spherical <==> mode.flags() == 0,
        mode == GridMode::Hemispherical <==> mode.flags() == 1,
        mode == GridMode::Horizontal <==> mode.flags() == 2,
        mode.flags() < 3,
        mode == GridMode::Spherical <==> mode.name() == "spherical"@,
        mode == GridMode::Hemispherical <==> mode.name() == "hemispherical"@,
        mode == GridMode::Horizontal <==> mode.name() == "Horizontal"@,
{
    lemma_modes_differ(mode, GridMode::Spherical);
    lemma_modes_differ(mode, GridMode::Hemispherical);
    lemma_modes_differ(mode, GridMode::Horizontal);
}

} // verus!
