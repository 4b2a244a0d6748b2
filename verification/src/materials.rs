//! Build materials: what a building element costs depends on the material
//! chosen for its element type.
use vstd::prelude::*;
use crate::resource::UniformResource;

verus! {

/// A list of resources and quantities.
pub type Cost = Vec<(UniformResource, u16)>;

/// The kind of building element, which selects its material cost.
#[derive(Clone, Copy, Debug, PartialEq, Eq, Hash, PartialOrd, Ord, Structural)]
pub enum ElementType {
    WallLike,
    RoofLike,
    PillarLike,
    GroundFloorLike,
    CantileverFloorLike,
}

/// Position of an element type in declaration order.
pub open spec fn element_rank(t: ElementType) -> nat {
    match t {
        ElementType::WallLike => 0,
        ElementType::RoofLike => 1,
        ElementType::PillarLike => 2,
        ElementType::GroundFloorLike => 3,
        ElementType::CantileverFloorLike => 4,
    }
}

impl Default for ElementType {
    fn default() -> (t: Self)
        ensures
            t == ElementType::WallLike,
    {
        ElementType::WallLike
    }
}

impl ElementType {
    pub fn label(self) -> (s: &'static str)
        ensures
            s@ == (match self {
                ElementType::WallLike => "Walls"@,
                ElementType::RoofLike => "Roof"@,
                ElementType::PillarLike => "Pillars"@,
                ElementType::GroundFloorLike => "Ground floor"@,
                ElementType::CantileverFloorLike => "Upper floor"@,
            }),
    {
        match self {
            ElementType::WallLike => "Walls",
            ElementType::RoofLike => "Roof",
            ElementType::PillarLike => "Pillars",
            ElementType::GroundFloorLike => "Ground floor",
            ElementType::CantileverFloorLike => "Upper floor",
        }
    }

    /// Position in declaration order (the order the derived `Ord` follows).
    pub fn rank(self) -> (n: u8)
        ensures
            n == element_rank(self),
    {
        match self {
            ElementType::WallLike => 0,
            ElementType::RoofLike => 1,
            ElementType::PillarLike => 2,
            ElementType::GroundFloorLike => 3,
            ElementType::CantileverFloorLike => 4,
        }
    }
}

/// Index of a build material in the material list.
#[derive(Clone, Copy, Debug, PartialEq, Eq, Hash, Structural)]
pub struct BuildMaterialId(pub u32);

/// The default material is Ashlar, the sixth in the bundled list, so cells
/// that never chose a material keep the marble look.
impl Default for BuildMaterialId {
    fn default() -> (id: Self)
        ensures
            id == BuildMaterialId(5),
    {
        BuildMaterialId(5)
    }
}

/// A build material: its name and its cost per element type it can build.
pub struct BuildMaterial {
    pub name: String,
    pub costs: Vec<(ElementType, Cost)>,
}

pub open spec fn has_cost_for(m: BuildMaterial, t: ElementType) -> bool {
    exists|k: int| 0 <= k < m.costs@.len() && #[trigger] m.costs@[k].0 == t
}

/// The indices, in order, of the materials that can build `t`.
pub open spec fn materials_for(ms: Seq<BuildMaterial>, t: ElementType) -> Seq<int>
    decreases ms.len(),
{
    if ms.len() == 0 {
        seq![]
    } else if has_cost_for(ms.last(), t) {
        materials_for(ms.drop_last(), t).push(ms.len() - 1)
    } else {
        materials_for(ms.drop_last(), t)
    }
}

/// `entry` pairs the material at index `sel[k]` with its id.
pub open spec fn picked(
    ms: Seq<BuildMaterial>,
    sel: Seq<int>,
    entry: (BuildMaterialId, &BuildMaterial),
    k: int,
) -> bool {
    &&& entry.0 == BuildMaterialId(sel[k] as u32)
    &&& *entry.1 == ms[sel[k]]
}

pub struct MaterialList {
    pub materials: Vec<BuildMaterial>,
}

impl BuildMaterial {
    pub fn has_cost(&self, t: ElementType) -> (b: bool)
        ensures
            b == has_cost_for(*self, t),
    {
        for k in 0..self.costs.len()
            invariant
                forall|j: int| 0 <= j < k ==> self.costs@[j].0 != t,
        {
            if self.costs[k].0 == t {
                return true;
            }
        }
        false
    }
}

impl MaterialList {
    /// Materials that have a cost entry for `stype`, in definition order,
    /// paired with their id (index) in the full list.
    pub fn for_type(&self, stype: ElementType) -> (v: Vec<(BuildMaterialId, &BuildMaterial)>)
        ensures
            v@.len() == materials_for(self.materials@, stype).len(),
            forall|k: int| 0 <= k < v@.len() ==>
                picked(self.materials@, materials_for(self.materials@, stype), #[trigger] v@[k], k),
    {
        let mut out: Vec<(BuildMaterialId, &BuildMaterial)> = Vec::new();
        for i in 0..self.materials.len()
            invariant
                out@.len() == materials_for(self.materials@.take(i as int), stype).len(),
                forall|k: int| 0 <= k < out@.len() ==>
                    picked(self.materials@, materials_for(self.materials@.take(i as int), stype), #[trigger] out@[k], k),
        {
            proof {
                assert(self.materials@.take(i + 1).drop_last() =~= self.materials@.take(i as int));
                lemma_materials_for_bounds(self.materials@.take(i as int), stype);
            }
            let ghost prev = out@;
            if self.materials[i].has_cost(stype) {
                out.push((BuildMaterialId(i as u32), &self.materials[i]));
            }
            proof {
                let sel = materials_for(self.materials@.take(i + 1), stype);
                assert forall|k: int| 0 <= k < out@.len() implies
                    picked(self.materials@, sel, #[trigger] out@[k], k) by {
                    if k < prev.len() {
                        assert(out@[k] == prev[k]);
                        assert(picked(self.materials@, materials_for(self.materials@.take(i as int), stype), prev[k], k));
                    }
                }
            }
        }
        proof {
            assert(self.materials@.take(self.materials@.len() as int) =~= self.materials@);
        }
        out
    }
}

proof fn lemma_materials_for_bounds(ms: Seq<BuildMaterial>, t: ElementType)
    ensures
        forall|k: int| 0 <= k < materials_for(ms, t).len() ==> 0 <= #[trigger] materials_for(ms, t)[k] < ms.len(),
    decreases ms.len(),
{
    if ms.len() > 0 {
        lemma_materials_for_bounds(ms.drop_last(), t);
        let prev = materials_for(ms.drop_last(), t);
        assert forall|k: int| 0 <= k < materials_for(ms, t).len() implies
            0 <= #[trigger] materials_for(ms, t)[k] < ms.len() by {
            if k < prev.len() {
                assert(materials_for(ms, t)[k] == prev[k]);
            }
        }
    }
}

} // verus!
