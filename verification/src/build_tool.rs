//! The build tool's own state and the decisions its controls make: which
//! layer is edited, which way new room objects face, how a wall-mounted
//! object is flipped, and which material each element type is built from.
use vstd::prelude::*;
use crate::materials::{materials_for, BuildMaterialId, ElementType, MaterialList};
use crate::sparse3d::Slot;

verus! {

/// The highest layer the tool edits.
pub const MAX_BUILD_LAYER: i32 = 10;

/// The build tool's state.
pub struct BuildState {
    /// Index of the chosen structure kind.
    pub selected_structure: usize,
    /// Facing of new room objects, 0 to 3.
    pub cur_dir: u8,
    /// The layer being edited.
    pub cur_y: i32,
    /// Whether a wall-mounted object on an x wall is turned round (`PosX`
    /// rather than `NegX`).
    pub wall_plop_flip_x: bool,
    /// Whether a wall-mounted object on a z wall is turned round (`PosZ`
    /// rather than `NegZ`). Kept apart from the x flag, so that turning an
    /// object on one kind of wall leaves the other's orientation as it was.
    pub wall_plop_flip_z: bool,
    /// The material chosen per element type: at most one entry per type.
    pub material_per_type: Vec<(ElementType, BuildMaterialId)>,
}

impl Default for BuildState {
    /// Nothing chosen, facing 0, on the ground layer, nothing flipped.
    fn default() -> (s: Self)
        ensures
            s.selected_structure == 0,
            s.cur_dir == 0,
            s.cur_y == 0,
            !s.wall_plop_flip_x,
            !s.wall_plop_flip_z,
            s.material_per_type@.len() == 0,
    {
        BuildState {
            selected_structure: 0,
            cur_dir: 0,
            cur_y: 0,
            wall_plop_flip_x: false,
            wall_plop_flip_z: false,
            material_per_type: Vec::new(),
        }
    }
}

/// The material recorded for `t` among `entries`, if any (the first).
pub open spec fn chosen_material(entries: Seq<(ElementType, BuildMaterialId)>, t: ElementType) -> Option<BuildMaterialId>
    decreases entries.len(),
{
    if entries.len() == 0 {
        None
    } else if entries[0].0 == t {
        Some(entries[0].1)
    } else {
        chosen_material(entries.drop_first(), t)
    }
}

/// The material a type gets when none was chosen: the first that can build
/// it, else the default material.
pub open spec fn first_material(list: MaterialList, t: ElementType) -> BuildMaterialId {
    if materials_for(list.materials@, t).len() > 0 {
        BuildMaterialId(materials_for(list.materials@, t)[0] as u32)
    } else {
        BuildMaterialId(5)
    }
}

fn find_material(entries: &Vec<(ElementType, BuildMaterialId)>, t: ElementType) -> (r: Option<BuildMaterialId>)
    ensures
        r == chosen_material(entries@, t),
{
    let mut i: usize = 0;
    proof {
        assert(entries@.skip(0) =~= entries@);
    }
    while i < entries.len()
        invariant
            i <= entries@.len(),
            chosen_material(entries@, t) == chosen_material(entries@.skip(i as int), t),
        decreases entries@.len() - i,
    {
        proof {
            assert(entries@.skip(i as int)[0] == entries@[i as int]);
            assert(entries@.skip(i as int).drop_first() =~= entries@.skip(i + 1));
        }
        if entries[i].0 == t {
            return Some(entries[i].1);
        }
        i += 1;
    }
    proof {
        assert(entries@.skip(i as int) =~= Seq::<(ElementType, BuildMaterialId)>::empty());
    }
    None
}

proof fn lemma_chosen_push(s: Seq<(ElementType, BuildMaterialId)>, e: (ElementType, BuildMaterialId), u: ElementType)
    ensures
        chosen_material(s, u) is Some ==> chosen_material(s.push(e), u) == chosen_material(s, u),
        chosen_material(s, u) is None && e.0 == u ==> chosen_material(s.push(e), u) == Some(e.1),
        chosen_material(s, u) is None && e.0 != u ==> chosen_material(s.push(e), u) is None,
    decreases s.len(),
{
    if s.len() > 0 {
        assert(s.push(e).drop_first() =~= s.drop_first().push(e));
        assert(s.push(e)[0] == s[0]);
        lemma_chosen_push(s.drop_first(), e, u);
        if s[0].0 != u {
            assert(chosen_material(s, u) == chosen_material(s.drop_first(), u));
            assert(chosen_material(s.push(e), u) == chosen_material(s.drop_first().push(e), u));
        }
    } else {
        assert(s.push(e).drop_first() =~= Seq::<(ElementType, BuildMaterialId)>::empty());
        assert(s.push(e)[0] == e);
        assert(chosen_material(s.push(e).drop_first(), u) is None);
    }
}

impl BuildState {
    /// The facing, as a number 0 to 3, that a wall-mounted object snapped
    /// onto `slot` takes: on an x wall 0 (`NegX`) or, turned round, 2
    /// (`PosX`); on a z wall 1 (`NegZ`) or, turned round, 3 (`PosZ`); 0 on a
    /// room or a floor.
    pub fn wall_plop_dir(&self, slot: Slot) -> (d: i32)
        ensures
            d == match slot {
                Slot::XLoWall => if self.wall_plop_flip_x { 2i32 } else { 0i32 },
                Slot::ZLoWall => if self.wall_plop_flip_z { 3i32 } else { 1i32 },
                Slot::Room | Slot::Floor => 0i32,
            },
    {
        match slot {
            Slot::XLoWall => if self.wall_plop_flip_x { 2 } else { 0 },
            Slot::ZLoWall => if self.wall_plop_flip_z { 3 } else { 1 },
            Slot::Room | Slot::Floor => 0,
        }
    }

    /// The material chosen for `stype`; when none was chosen yet, the first
    /// material that can build it (else the default material), which is
    /// then recorded as chosen.
    pub fn material_for_type(&mut self, stype: ElementType, material_list: &MaterialList) -> (m: BuildMaterialId)
        ensures
            match chosen_material(old(self).material_per_type@, stype) {
                Some(c) => m == c && final(self).material_per_type@ == old(self).material_per_type@,
                None => m == first_material(*material_list, stype)
                    && final(self).material_per_type@ == old(self).material_per_type@.push((stype, m)),
            },
            forall|t: ElementType| #[trigger] chosen_material(final(self).material_per_type@, t)
                == if t == stype { Some(m) } else { chosen_material(old(self).material_per_type@, t) },
            final(self).selected_structure == old(self).selected_structure,
            final(self).cur_dir == old(self).cur_dir,
            final(self).cur_y == old(self).cur_y,
            final(self).wall_plop_flip_x == old(self).wall_plop_flip_x,
            final(self).wall_plop_flip_z == old(self).wall_plop_flip_z,
    {
        match find_material(&self.material_per_type, stype) {
            Some(m) => m,
            None => {
                let options = material_list.for_type(stype);
                let m = if options.len() > 0 { options[0].0 } else { BuildMaterialId::default() };
                proof {
                    if options@.len() > 0 {
                        assert(crate::materials::picked(material_list.materials@, materials_for(material_list.materials@, stype), options@[0], 0));
                    }
                    assert forall|t: ElementType| #[trigger] chosen_material(self.material_per_type@.push((stype, m)), t)
                        == if t == stype { Some(m) } else { chosen_material(self.material_per_type@, t) } by {
                        lemma_chosen_push(self.material_per_type@, (stype, m), t);
                    }
                }
                self.material_per_type.push((stype, m));
                m
            },
        }
    }

    /// Moves the tool one layer up, no higher than `MAX_BUILD_LAYER`.
    pub fn raise_layer(&mut self)
        requires
            old(self).cur_y < i32::MAX,
        ensures
            final(self).cur_y == if old(self).cur_y + 1 < MAX_BUILD_LAYER { old(self).cur_y + 1 } else { MAX_BUILD_LAYER as int },
            final(self).selected_structure == old(self).selected_structure,
            final(self).cur_dir == old(self).cur_dir,
            final(self).wall_plop_flip_x == old(self).wall_plop_flip_x,
            final(self).wall_plop_flip_z == old(self).wall_plop_flip_z,
            final(self).material_per_type@ == old(self).material_per_type@,
    {
        let up = self.cur_y + 1;
        self.cur_y = if up < MAX_BUILD_LAYER { up } else { MAX_BUILD_LAYER };
    }

    /// Moves the tool one layer down, no lower than the ground layer 0.
    pub fn lower_layer(&mut self)
        requires
            old(self).cur_y > i32::MIN,
        ensures
            final(self).cur_y == if old(self).cur_y - 1 > 0 { old(self).cur_y - 1 } else { 0 },
            final(self).selected_structure == old(self).selected_structure,
            final(self).cur_dir == old(self).cur_dir,
            final(self).wall_plop_flip_x == old(self).wall_plop_flip_x,
            final(self).wall_plop_flip_z == old(self).wall_plop_flip_z,
            final(self).material_per_type@ == old(self).material_per_type@,
    {
        let down = self.cur_y - 1;
        self.cur_y = if down > 0 { down } else { 0 };
    }

    /// The rotate control. A wall-mounted kind only turns round, on the kind
    /// of wall the cursor is nearest (`nearest`; nothing turns when the
    /// cursor is off the ground or nearest a room or a floor); any other kind
    /// turns a quarter counter-clockwise: the facing steps back by one,
    /// modulo 4.
    pub fn rotate(&mut self, wall_plop: bool, nearest: Option<Slot>)
        requires
            old(self).cur_dir <= 252,
        ensures
            wall_plop ==> final(self).cur_dir == old(self).cur_dir
                && final(self).wall_plop_flip_x == (old(self).wall_plop_flip_x != (nearest == Some(Slot::XLoWall)))
                && final(self).wall_plop_flip_z == (old(self).wall_plop_flip_z != (nearest == Some(Slot::ZLoWall))),
            !wall_plop ==> final(self).cur_dir == (old(self).cur_dir + 3) % 4
                && final(self).wall_plop_flip_x == old(self).wall_plop_flip_x
                && final(self).wall_plop_flip_z == old(self).wall_plop_flip_z,
            final(self).selected_structure == old(self).selected_structure,
            final(self).cur_y == old(self).cur_y,
            final(self).material_per_type@ == old(self).material_per_type@,
    {
        if wall_plop {
            match nearest {
                Some(Slot::XLoWall) => self.wall_plop_flip_x = !self.wall_plop_flip_x,
                Some(Slot::ZLoWall) => self.wall_plop_flip_z = !self.wall_plop_flip_z,
                _ => {},
            }
        } else {
            self.cur_dir = (self.cur_dir + 3) % 4;
        }
    }
}

} // verus!
