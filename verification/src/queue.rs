//! Which visible entities are drawn by a material, and in which phase.
use vstd::prelude::*;

verus! {

/// What is known of a visible entity when it is queued.
#[derive(Clone, Copy, Debug, PartialEq, Eq)]
pub struct ItemFacts {
    /// Whether its material is of the type that is being queued, where it has one.
    pub material_matches: Option<bool>,
    /// Whether it has a mesh.
    pub has_mesh: bool,
    /// Whether its material is on the graphics device.
    pub material_on_gpu: bool,
    /// Whether its mesh is on the graphics device.
    pub mesh_on_gpu: bool,
}

/// What becomes of a visible entity.
#[derive(Clone, Copy, Debug, PartialEq, Eq, Structural)]
pub enum Triage {
    NoMaterial,
    WrongType,
    NoMesh,
    /// Its material or mesh is still on its way to the graphics device.
    NotOnGpu,
    Ready,
}

/// What becomes of a visible entity.
pub open spec fn triage_of(facts: ItemFacts) -> Triage {
    match facts.material_matches {
        None => Triage::NoMaterial,
        Some(matches) => if !matches {
            Triage::WrongType
        } else if !facts.has_mesh {
            Triage::NoMesh
        } else if facts.material_on_gpu && facts.mesh_on_gpu {
            Triage::Ready
        } else {
            Triage::NotOnGpu
        },
    }
}

/// What becomes of a visible entity.
pub fn triage(facts: &ItemFacts) -> (r: Triage)
    ensures
        r == triage_of(*facts),
        r is NoMaterial <==> facts.material_matches is None,
        r is WrongType <==> facts.material_matches == Some(false),
        r is NoMesh <==> facts.material_matches == Some(true) && !facts.has_mesh,
        r is NotOnGpu <==> facts.material_matches == Some(true) && facts.has_mesh && !(
        facts.material_on_gpu && facts.mesh_on_gpu),
        r is Ready <==> facts.material_matches == Some(true) && facts.has_mesh
            && facts.material_on_gpu && facts.mesh_on_gpu,
{
    match facts.material_matches {
        None => Triage::NoMaterial,
        Some(matches) => {
            if !matches {
                return Triage::WrongType;
            }
            if !facts.has_mesh {
                return Triage::NoMesh;
            }
            if !facts.material_on_gpu {
                return Triage::NotOnGpu;
            }
            if !facts.mesh_on_gpu {
                return Triage::NotOnGpu;
            }
            Triage::Ready
        },
    }
}

/// What became of the visible entities of a view.
#[derive(Clone, Copy, Debug, PartialEq, Eq, Structural)]
pub struct QueueCounts {
    pub queued: usize,
    pub no_material: usize,
    pub wrong_type: usize,
    pub no_mesh: usize,
    pub not_on_gpu: usize,
}

/// One more where `here`.
pub open spec fn one_more(count: usize, here: bool) -> int {
    if here {
        count + 1
    } else {
        count as int
    }
}

impl QueueCounts {
    /// No entity yet.
    pub fn new() -> (r: Self)
        ensures
            r == (QueueCounts {
                queued: 0,
                no_material: 0,
                wrong_type: 0,
                no_mesh: 0,
                not_on_gpu: 0,
            }),
    {
        QueueCounts { queued: 0, no_material: 0, wrong_type: 0, no_mesh: 0, not_on_gpu: 0 }
    }

    /// Whether an entity can be counted: the count that it belongs to is not full.
    pub open spec fn has_room(self, triage: Triage, has_pipeline: bool) -> bool {
        match triage {
            Triage::NoMaterial => self.no_material < usize::MAX,
            Triage::WrongType => self.wrong_type < usize::MAX,
            Triage::NoMesh => self.no_mesh < usize::MAX,
            Triage::NotOnGpu => self.not_on_gpu < usize::MAX,
            Triage::Ready => has_pipeline ==> self.queued < usize::MAX,
        }
    }

    /// Whether an entity can be counted.
    pub fn can_tally(&self, triage: Triage, has_pipeline: bool) -> (r: bool)
        ensures
            r == self.has_room(triage, has_pipeline),
            !r <==> match triage {
                Triage::NoMaterial => self.no_material == usize::MAX,
                Triage::WrongType => self.wrong_type == usize::MAX,
                Triage::NoMesh => self.no_mesh == usize::MAX,
                Triage::NotOnGpu => self.not_on_gpu == usize::MAX,
                Triage::Ready => has_pipeline && self.queued == usize::MAX,
            },
    {
        match triage {
            Triage::NoMaterial => self.no_material < usize::MAX,
            Triage::WrongType => self.wrong_type < usize::MAX,
            Triage::NoMesh => self.no_mesh < usize::MAX,
            Triage::NotOnGpu => self.not_on_gpu < usize::MAX,
            Triage::Ready => !has_pipeline || self.queued < usize::MAX,
        }
    }

    /// Counts an entity. One that is ready is queued, unless no pipeline could be made for it;
    /// then it is not counted at all.
    pub fn tally(&mut self, triage: Triage, has_pipeline: bool)
        requires
            old(self).has_room(triage, has_pipeline),
        ensures
            final(self).queued == one_more(old(self).queued, triage is Ready && has_pipeline),
            final(self).no_material == one_more(old(self).no_material, triage is NoMaterial),
            final(self).wrong_type == one_more(old(self).wrong_type, triage is WrongType),
            final(self).no_mesh == one_more(old(self).no_mesh, triage is NoMesh),
            final(self).not_on_gpu == one_more(old(self).not_on_gpu, triage is NotOnGpu),
            final(self).queued == old(self).queued + if triage is Ready && has_pipeline {
                1int
            } else {
                0
            },
            final(self).no_material == old(self).no_material + if triage is NoMaterial {
                1int
            } else {
                0
            },
            final(self).wrong_type == old(self).wrong_type + if triage is WrongType {
                1int
            } else {
                0
            },
            final(self).no_mesh == old(self).no_mesh + if triage is NoMesh {
                1int
            } else {
                0
            },
            final(self).not_on_gpu == old(self).not_on_gpu + if triage is NotOnGpu {
                1int
            } else {
                0
            },
    {
        match triage {
            Triage::NoMaterial => {
                self.no_material = self.no_material + 1;
            },
            Triage::WrongType => {
                self.wrong_type = self.wrong_type + 1;
            },
            Triage::NoMesh => {
                self.no_mesh = self.no_mesh + 1;
            },
            Triage::NotOnGpu => {
                self.not_on_gpu = self.not_on_gpu + 1;
            },
            Triage::Ready => {
                if has_pipeline {
                    self.queued = self.queued + 1;
                }
            },
        }
    }

    /// Whether the counts are worth a line in the trace: entities of other materials alone are
    /// not.
    pub fn worth_reporting(&self) -> (r: bool)
        ensures
            r == (self.queued > 0 || self.no_material > 0 || self.no_mesh > 0 || self.not_on_gpu
                > 0),
    {
        self.queued > 0 || self.no_material > 0 || self.no_mesh > 0 || self.not_on_gpu > 0
    }
}

/// The phases of a bake.
#[derive(Clone, Copy, Debug, PartialEq, Eq, Structural)]
pub enum Phase {
    Opaque,
    AlphaMask,
    Transparent,
}

/// The bits of a pipeline key that say how a material is blended.
#[derive(Clone, Copy, Debug, PartialEq, Eq, Structural)]
pub struct BlendBits {
    /// All the bits of the blend mode.
    pub reserved: u64,
    /// The bit of a material that may discard fragments.
    pub may_discard: u64,
    /// The blend mode of an opaque material.
    pub opaque: u64,
    /// The blend mode of alpha as coverage.
    pub alpha_to_coverage: u64,
}

/// The phase of a pipeline key: opaque or alpha as coverage, without discarding; discarding
/// alone; or anything else.
pub open spec fn phase_of(key: u64, bits: BlendBits) -> Phase {
    let blend = key & (bits.reserved | bits.may_discard);
    if blend == bits.opaque || blend == bits.alpha_to_coverage {
        Phase::Opaque
    } else if blend == bits.may_discard {
        Phase::AlphaMask
    } else {
        Phase::Transparent
    }
}

/// The phase of a pipeline key.
pub fn choose_phase(key: u64, bits: &BlendBits) -> (r: Phase)
    ensures
        r == phase_of(key, *bits),
        ({
            let blend = key & (bits.reserved | bits.may_discard);
            &&& r == Phase::Opaque <==> blend == bits.opaque || blend == bits.alpha_to_coverage
            &&& r == Phase::AlphaMask <==> blend == bits.may_discard && blend != bits.opaque
                && blend != bits.alpha_to_coverage
        }),
{
    let blend: u64 = key & (bits.reserved | bits.may_discard);
    if blend == bits.opaque || blend == bits.alpha_to_coverage {
        Phase::Opaque
    } else if blend == bits.may_discard {
        Phase::AlphaMask
    } else {
        Phase::Transparent
    }
}

/// What becomes of an entity, by what is known of it: it is drawn exactly where its material is of
/// the type that is queued, it has a mesh, and both are on the graphics device.
pub proof fn law_triage(facts: ItemFacts)
    ensures
        triage_of(facts) is NoMaterial <==> facts.material_matches is None,
        triage_of(facts) is WrongType <==> facts.material_matches == Some(false),
        triage_of(facts) is NoMesh <==> facts.material_matches == Some(true) && !facts.has_mesh,
        triage_of(facts) is NotOnGpu <==> facts.material_matches == Some(true) && facts.has_mesh
            && !(facts.material_on_gpu && facts.mesh_on_gpu),
        triage_of(facts) is Ready <==> facts.material_matches == Some(true) && facts.has_mesh
            && facts.material_on_gpu && facts.mesh_on_gpu,
{
}

/// The phase follows from the bits of the blend mode and of discarding alone: keys that agree in
/// them go to one phase. Opaque and coverage come first, then discarding, then all others.
pub proof fn law_phases(key: u64, other: u64, bits: BlendBits)
    ensures
        key & (bits.reserved | bits.may_discard) == other & (bits.reserved | bits.may_discard)
            ==> phase_of(key, bits) == phase_of(other, bits),
        key & (bits.reserved | bits.may_discard) == bits.opaque ==> phase_of(key, bits)
            == Phase::Opaque,
        key & (bits.reserved | bits.may_discard) == bits.alpha_to_coverage ==> phase_of(key, bits)
            == Phase::Opaque,
        ({
            let blend = key & (bits.reserved | bits.may_discard);
            &&& blend != bits.opaque && blend != bits.alpha_to_coverage ==> (phase_of(key, bits)
                == Phase::AlphaMask <==> blend == bits.may_discard)
            &&& blend != bits.opaque && blend != bits.alpha_to_coverage ==> (phase_of(key, bits)
                == Phase::Transparent <==> blend != bits.may_discard)
        }),
{
}

/// Entities of other materials are never worth a line in the trace; one of any other kind always
/// is.
pub proof fn law_other_materials_are_not_reported(counts: &QueueCounts, r: bool)
    requires
        call_ensures(QueueCounts::worth_reporting, (counts,), r),
    ensures
        !r <==> counts.queued == 0 && counts.no_material == 0 && counts.no_mesh == 0
            && counts.not_on_gpu == 0,
{
}

} // verus!
