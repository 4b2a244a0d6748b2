//! Grid coordinates: cubes, the slots of a cube, and a sparse map from slot
//! coordinates to cell contents.
use vstd::prelude::*;

verus! {

/// An integer cube coordinate.
#[derive(Clone, Copy, PartialEq, Eq, Debug, Hash, Structural)]
pub struct IVec3 {
    pub x: i32,
    pub y: i32,
    pub z: i32,
}

impl IVec3 {
    pub fn new(x: i32, y: i32, z: i32) -> (v: IVec3)
        ensures
            v == (IVec3 { x, y, z }),
    {
        IVec3 { x, y, z }
    }
}

/// Where within a cube something sits: its interior, its low-x or low-z
/// wall, or its floor.
#[derive(Clone, Copy, PartialEq, Eq, Debug, Hash, Structural)]
pub enum Slot {
    Room,
    XLoWall,
    ZLoWall,
    Floor,
}

/// A slot of a particular cube.
#[derive(Clone, Copy, PartialEq, Eq, Debug, Hash, Structural)]
pub struct SlotCoord {
    pub cube: IVec3,
    pub slot: Slot,
}

/// A slot named relative to its cube, including the high-side faces, which
/// are stored as the neighbouring cube's low-side ones.
#[derive(Clone, Copy, PartialEq, Eq, Debug, Hash, Structural)]
pub enum RelSlot {
    Room,
    XLoWall,
    XHiWall,
    ZLoWall,
    ZHiWall,
    Floor,
    Ceiling,
}

/// The stored slot that `rel` of `cube` names: a high-side face is the
/// low-side face of the neighbour on that side.
pub open spec fn spec_rel_slot_coord(cube: IVec3, rel: RelSlot) -> SlotCoord {
    match rel {
        RelSlot::Room => SlotCoord { cube, slot: Slot::Room },
        RelSlot::XLoWall => SlotCoord { cube, slot: Slot::XLoWall },
        RelSlot::XHiWall => SlotCoord { cube: IVec3 { x: (cube.x + 1) as i32, ..cube }, slot: Slot::XLoWall },
        RelSlot::ZLoWall => SlotCoord { cube, slot: Slot::ZLoWall },
        RelSlot::ZHiWall => SlotCoord { cube: IVec3 { z: (cube.z + 1) as i32, ..cube }, slot: Slot::ZLoWall },
        RelSlot::Floor => SlotCoord { cube, slot: Slot::Floor },
        RelSlot::Ceiling => SlotCoord { cube: IVec3 { y: (cube.y + 1) as i32, ..cube }, slot: Slot::Floor },
    }
}

/// The neighbour that a high-side slot of `cube` lies in exists.
pub open spec fn rel_in_range(cube: IVec3, rel: RelSlot) -> bool {
    &&& rel is XHiWall ==> cube.x < i32::MAX
    &&& rel is ZHiWall ==> cube.z < i32::MAX
    &&& rel is Ceiling ==> cube.y < i32::MAX
}

/// The stored slot that `rel` of `cube` names (see `spec_rel_slot_coord`).
pub fn rel_slot_coord(cube: IVec3, rel: RelSlot) -> (loc: SlotCoord)
    requires
        rel_in_range(cube, rel),
    ensures
        loc == spec_rel_slot_coord(cube, rel),
{
    match rel {
        RelSlot::Room => SlotCoord { cube, slot: Slot::Room },
        RelSlot::XLoWall => SlotCoord { cube, slot: Slot::XLoWall },
        RelSlot::XHiWall => SlotCoord { cube: IVec3 { x: cube.x + 1, y: cube.y, z: cube.z }, slot: Slot::XLoWall },
        RelSlot::ZLoWall => SlotCoord { cube, slot: Slot::ZLoWall },
        RelSlot::ZHiWall => SlotCoord { cube: IVec3 { x: cube.x, y: cube.y, z: cube.z + 1 }, slot: Slot::ZLoWall },
        RelSlot::Floor => SlotCoord { cube, slot: Slot::Floor },
        RelSlot::Ceiling => SlotCoord { cube: IVec3 { x: cube.x, y: cube.y + 1, z: cube.z }, slot: Slot::Floor },
    }
}

/// Which way a room object faces.
#[derive(Clone, Copy, PartialEq, Eq, Debug, Hash, Structural)]
pub enum Facing {
    NegX,
    NegZ,
    PosX,
    PosZ,
}

impl Default for Facing {
    fn default() -> (f: Self)
        ensures
            f == Facing::NegX,
    {
        Facing::NegX
    }
}


/// Position of the entry at `loc` among `entries`, searching from the back.
pub open spec fn slot_position<T>(entries: Seq<(SlotCoord, T)>, loc: SlotCoord) -> Option<int>
    decreases entries.len(),
{
    if entries.len() == 0 {
        None
    } else if entries.last().0 == loc {
        Some(entries.len() - 1)
    } else {
        slot_position(entries.drop_last(), loc)
    }
}

/// What `entries` hold at `loc`.
pub open spec fn slot_value<T>(entries: Seq<(SlotCoord, T)>, loc: SlotCoord) -> Option<T> {
    match slot_position(entries, loc) {
        Some(i) => Some(entries[i].1),
        None => None,
    }
}

/// No slot occurs twice among `entries`.
pub open spec fn slots_distinct<T>(entries: Seq<(SlotCoord, T)>) -> bool {
    forall|a: int, b: int| 0 <= a < b < entries.len() ==> (#[trigger] entries[a]).0 != (#[trigger] entries[b]).0
}

/// Where `slot_position` finds `loc`, that entry holds it and no later one
/// does; where it finds nothing, no entry holds it.
pub proof fn lemma_slot_position<T>(entries: Seq<(SlotCoord, T)>, loc: SlotCoord)
    ensures
        match slot_position(entries, loc) {
            Some(i) => 0 <= i < entries.len() && entries[i].0 == loc
                && forall|a: int| i < a < entries.len() ==> (#[trigger] entries[a]).0 != loc,
            None => forall|a: int| 0 <= a < entries.len() ==> (#[trigger] entries[a]).0 != loc,
        },
    decreases entries.len(),
{
    if entries.len() > 0 && entries.last().0 != loc {
        let d = entries.drop_last();
        lemma_slot_position(d, loc);
        match slot_position(d, loc) {
            Some(i) => {
                assert forall|a: int| i < a < entries.len() implies (#[trigger] entries[a]).0 != loc by {
                    if a < entries.len() - 1 {
                        assert(entries[a] == d[a]);
                    }
                }
            },
            None => {
                assert forall|a: int| 0 <= a < entries.len() implies (#[trigger] entries[a]).0 != loc by {
                    if a < entries.len() - 1 {
                        assert(entries[a] == d[a]);
                    }
                }
            },
        }
    }
}

proof fn lemma_slot_position_at<T>(entries: Seq<(SlotCoord, T)>, loc: SlotCoord, i: int)
    requires
        0 <= i < entries.len(),
        entries[i].0 == loc,
        forall|a: int| i < a < entries.len() ==> (#[trigger] entries[a]).0 != loc,
    ensures
        slot_position(entries, loc) == Some(i),
    decreases entries.len(),
{
    if entries.len() - 1 != i {
        assert forall|a: int| i < a < entries.drop_last().len() implies (#[trigger] entries.drop_last()[a]).0 != loc by {
            assert(entries.drop_last()[a] == entries[a]);
        }
        lemma_slot_position_at(entries.drop_last(), loc, i);
    }
}

proof fn lemma_slot_position_absent<T>(entries: Seq<(SlotCoord, T)>, loc: SlotCoord)
    requires
        forall|a: int| 0 <= a < entries.len() ==> (#[trigger] entries[a]).0 != loc,
    ensures
        slot_position(entries, loc) is None,
    decreases entries.len(),
{
    if entries.len() > 0 {
        assert forall|a: int| 0 <= a < entries.drop_last().len() implies (#[trigger] entries.drop_last()[a]).0 != loc by {
            assert(entries.drop_last()[a] == entries[a]);
        }
        lemma_slot_position_absent(entries.drop_last(), loc);
    }
}

/// A sparse grid: at most one value per slot coordinate.
pub struct Sparse3D<T> {
    entries: Vec<(SlotCoord, T)>,
}

impl<T> Sparse3D<T> {
    /// The occupied slots with their values, in the order they were first set.
    pub closed spec fn entries(&self) -> Seq<(SlotCoord, T)> {
        self.entries@
    }

    /// What the grid holds at `loc`.
    pub open spec fn at(&self, loc: SlotCoord) -> Option<T> {
        slot_value(self.entries(), loc)
    }

    pub open spec fn wf(&self) -> bool {
        slots_distinct(self.entries())
    }

    pub fn new() -> (g: Self)
        ensures
            g.wf(),
            g.entries() == Seq::<(SlotCoord, T)>::empty(),
            forall|loc: SlotCoord| g.at(loc) is None,
    {
        Sparse3D { entries: Vec::new() }
    }

    /// Number of occupied slots.
    pub fn size(&self) -> (n: usize)
        ensures
            n == self.entries().len(),
    {
        self.entries.len()
    }

    /// The value at `loc`, if any.
    pub fn get(&self, loc: SlotCoord) -> (r: Option<&T>)
        ensures
            r == (match self.at(loc) {
                Some(v) => Some(&v),
                None => None,
            }),
    {
        let mut i: usize = self.entries.len();
        while i > 0
            invariant
                i <= self.entries@.len(),
                forall|a: int| i <= a < self.entries@.len() ==> (#[trigger] self.entries@[a]).0 != loc,
            decreases i,
        {
            if self.entries[i - 1].0 == loc {
                proof {
                    lemma_slot_position_at(self.entries@, loc, i - 1);
                }
                return Some(&self.entries[i - 1].1);
            }
            i -= 1;
        }
        proof {
            lemma_slot_position_absent(self.entries@, loc);
        }
        None
    }

    /// Puts `value` at `loc`, replacing what was there.
    pub fn set(&mut self, loc: SlotCoord, value: T)
        requires
            old(self).wf(),
        ensures
            final(self).wf(),
            final(self).at(loc) == Some(value),
            forall|other: SlotCoord| other != loc ==> final(self).at(other) == old(self).at(other),
            forall|k: int| 0 <= k < final(self).entries().len() ==>
                #[trigger] final(self).entries()[k] == (loc, value) || old(self).entries().contains(final(self).entries()[k]),
    {
        let mut i: usize = self.entries.len();
        while i > 0
            invariant
                i <= self.entries@.len(),
                self.entries@ == old(self).entries@,
                slots_distinct(self.entries@),
                forall|a: int| i <= a < self.entries@.len() ==> (#[trigger] self.entries@[a]).0 != loc,
            decreases i,
        {
            if self.entries[i - 1].0 == loc {
                let ghost before = self.entries@;
                self.entries.set(i - 1, (loc, value));
                proof {
                    assert forall|a: int, b: int| 0 <= a < b < self.entries@.len() implies
                        (#[trigger] self.entries@[a]).0 != (#[trigger] self.entries@[b]).0 by {
                        assert(self.entries@[a].0 == before[a].0);
                        assert(self.entries@[b].0 == before[b].0);
                    }
                    lemma_slot_position_at(self.entries@, loc, i - 1);
                    assert forall|k: int| 0 <= k < self.entries@.len() implies
                        #[trigger] self.entries@[k] == (loc, value) || before.contains(self.entries@[k]) by {
                        if k != i - 1 {
                            assert(self.entries@[k] == before[k]);
                        }
                    }
                    assert forall|other: SlotCoord| other != loc implies
                        slot_value(self.entries@, other) == slot_value(before, other) by {
                        lemma_slot_position(before, other);
                        match slot_position(before, other) {
                            Some(j) => {
                                assert(forall|a: int| j < a < self.entries@.len() ==> (#[trigger] self.entries@[a]).0 == before[a].0);
                                lemma_slot_position_at(self.entries@, other, j);
                            },
                            None => {
                                assert(forall|a: int| 0 <= a < self.entries@.len() ==> (#[trigger] self.entries@[a]).0 == before[a].0);
                                lemma_slot_position_absent(self.entries@, other);
                            },
                        }
                    }
                }
                return;
            }
            i -= 1;
        }
        let ghost before = self.entries@;
        self.entries.push((loc, value));
        proof {
            assert forall|a: int, b: int| 0 <= a < b < self.entries@.len() implies
                (#[trigger] self.entries@[a]).0 != (#[trigger] self.entries@[b]).0 by {
                if b == before.len() {
                    assert(self.entries@[a] == before[a]);
                } else {
                    assert(self.entries@[a] == before[a]);
                    assert(self.entries@[b] == before[b]);
                }
            }
            assert(self.entries@.drop_last() =~= before);
            assert forall|k: int| 0 <= k < self.entries@.len() implies
                #[trigger] self.entries@[k] == (loc, value) || before.contains(self.entries@[k]) by {
                if k < before.len() {
                    assert(self.entries@[k] == before[k]);
                }
            }
            assert forall|other: SlotCoord| other != loc implies
                slot_value(self.entries@, other) == slot_value(before, other) by {
                assert(slot_position(self.entries@, other) == slot_position(before, other));
                lemma_slot_position(before, other);
                if let Some(j) = slot_position(before, other) {
                    assert(self.entries@[j] == before[j]);
                }
            }
        }
    }

    /// The occupied slot at position `i` of `entries()`, with its value.
    pub fn entry(&self, i: usize) -> (e: (SlotCoord, &T))
        requires
            i < self.entries().len(),
        ensures
            e.0 == self.entries()[i as int].0,
            *e.1 == self.entries()[i as int].1,
    {
        (self.entries[i].0, &self.entries[i].1)
    }
}

} // verus!
