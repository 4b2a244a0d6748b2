//! Structure kinds ("elements or furniture"): what can be placed in a slot of
//! the grid, and how the catalogue of them is searched and ordered.
use vstd::prelude::*;
use crate::materials::{Cost, ElementType, element_rank};
use crate::place::ParentRestriction;

verus! {

/// Index of a structure kind in the structure list.
#[derive(Clone, Copy, Debug, PartialEq, Eq, Hash, Structural)]
pub struct EorfId(pub u32);

impl EorfId {
    pub fn as_usize(self) -> (u: usize)
        ensures
            u == self.0,
    {
        self.0 as usize
    }
}

/// How a structure kind is placed by the player.
#[derive(PartialEq, Eq, Clone, Copy, Debug, Structural)]
pub enum PlacementStyle {
    WallDrag,
    FloorDrag,
    RoomPlop,
    RoomDrag,
    WallPlop,
}

/// What a structure kind is: furniture with a fixed cost, or a building
/// element priced by the build material chosen for its element type.
pub enum FurnitureOrElement {
    Furniture(Cost),
    Element(ElementType),
}

/// A structure kind.
pub struct EorfInfo {
    pub name: String,
    pub placement_style: PlacementStyle,
    /// Character used for it in saved grids on x walls.
    pub x_char: Option<char>,
    /// Character used for it in saved grids on rooms, floors and z walls.
    pub z_char: Option<char>,
    pub kind: FurnitureOrElement,
    /// Which place kinds may claim this furniture.
    pub restriction: ParentRestriction,
}

pub open spec fn spec_is_furniture(e: EorfInfo) -> bool {
    e.kind is Furniture
}

pub open spec fn spec_element_type(e: EorfInfo) -> Option<ElementType> {
    match e.kind {
        FurnitureOrElement::Element(t) => Some(t),
        FurnitureOrElement::Furniture(_) => None,
    }
}

impl EorfInfo {
    pub fn is_furniture(&self) -> (b: bool)
        ensures
            b == spec_is_furniture(*self),
    {
        matches!(self.kind, FurnitureOrElement::Furniture(_))
    }

    pub fn furniture_cost(&self) -> (c: Option<&Cost>)
        ensures
            match self.kind {
                FurnitureOrElement::Furniture(cost) => c == Some(&cost),
                FurnitureOrElement::Element(_) => c is None,
            },
    {
        match &self.kind {
            FurnitureOrElement::Furniture(cost) => Some(cost),
            FurnitureOrElement::Element(_) => None,
        }
    }

    pub fn element_type(&self) -> (t: Option<ElementType>)
        ensures
            t == spec_element_type(*self),
    {
        match self.kind {
            FurnitureOrElement::Element(stype) => Some(stype),
            FurnitureOrElement::Furniture(_) => None,
        }
    }
}

/// Display group of a structure kind: each element type in declared order,
/// then furniture last.
pub open spec fn display_group(e: EorfInfo) -> nat {
    match e.kind {
        FurnitureOrElement::Element(t) => element_rank(t),
        FurnitureOrElement::Furniture(_) => 5,
    }
}

/// The indices among the first `n` structures whose display group is `g`, in order.
pub open spec fn indices_in_group(s: Seq<EorfInfo>, g: nat, n: int) -> Seq<int>
    decreases n,
{
    if n <= 0 {
        seq![]
    } else if display_group(s[n - 1]) == g {
        indices_in_group(s, g, n - 1).push(n - 1)
    } else {
        indices_in_group(s, g, n - 1)
    }
}

/// Indices grouped by display group (groups `0..g`), each group in list order.
pub open spec fn grouped_indices(s: Seq<EorfInfo>, g: nat) -> Seq<int>
    decreases g,
{
    if g == 0 {
        seq![]
    } else {
        grouped_indices(s, (g - 1) as nat) + indices_in_group(s, (g - 1) as nat, s.len() as int)
    }
}

fn display_group_of(e: &EorfInfo) -> (g: u8)
    ensures
        g == display_group(*e),
{
    match &e.kind {
        FurnitureOrElement::Element(t) => t.rank(),
        FurnitureOrElement::Furniture(_) => 5,
    }
}

/// Indices into `structures` ordered by group (each element type in its
/// declared order, then furniture last), then by list position; the
/// order used for display and digit-key shortcuts.
pub fn sorted_structure_indices(structures: &[EorfInfo]) -> (idxs: Vec<usize>)
    ensures
        idxs@.len() == grouped_indices(structures@, 6).len(),
        forall|k: int| 0 <= k < idxs@.len() ==> idxs@[k] as int == #[trigger] grouped_indices(structures@, 6)[k],
{
    let mut idxs: Vec<usize> = Vec::new();
    let mut g: u8 = 0;
    while g < 6
        invariant
            g <= 6,
            idxs@.len() == grouped_indices(structures@, g as nat).len(),
            forall|k: int| 0 <= k < idxs@.len() ==> idxs@[k] as int == #[trigger] grouped_indices(structures@, g as nat)[k],
        decreases 6 - g,
    {
        let ghost before = idxs@;
        let mut i: usize = 0;
        while i < structures.len()
            invariant
                i <= structures@.len(),
                g < 6,
                before.len() == grouped_indices(structures@, g as nat).len(),
                forall|k: int| 0 <= k < before.len() ==> before[k] as int == #[trigger] grouped_indices(structures@, g as nat)[k],
                idxs@.len() == before.len() + indices_in_group(structures@, g as nat, i as int).len(),
                forall|k: int| 0 <= k < before.len() ==> idxs@[k] == before[k],
                forall|k: int| 0 <= k < indices_in_group(structures@, g as nat, i as int).len() ==>
                    idxs@[before.len() + k] as int == #[trigger] indices_in_group(structures@, g as nat, i as int)[k],
            decreases structures@.len() - i,
        {
            let ghost mid = idxs@;
            let hit = display_group_of(&structures[i]) == g;
            if hit {
                idxs.push(i);
            }
            proof {
                let cur = indices_in_group(structures@, g as nat, i as int);
                let nxt = indices_in_group(structures@, g as nat, i + 1);
                if hit {
                    assert(nxt == cur.push(i as int));
                    assert(idxs@ == mid.push(i));
                    assert(idxs@[(before.len() + cur.len()) as int] == i);
                } else {
                    assert(nxt == cur);
                    assert(idxs@ == mid);
                }
                assert forall|k: int| 0 <= k < nxt.len() implies
                    idxs@[before.len() + k] as int == #[trigger] nxt[k] by {
                    if k < cur.len() {
                        assert(nxt[k] == cur[k]);
                        assert(mid[before.len() + k] as int == cur[k]);
                        assert(idxs@[before.len() + k] == mid[before.len() + k]);
                    }
                }
            }
            i = i + 1;
        }
        proof {
            let grp = indices_in_group(structures@, g as nat, structures@.len() as int);
            let all = grouped_indices(structures@, (g + 1) as nat);
            assert(all == grouped_indices(structures@, g as nat) + grp);
            assert forall|k: int| 0 <= k < idxs@.len() implies idxs@[k] as int == #[trigger] all[k] by {
                if k < before.len() {
                    assert(idxs@[k] == before[k]);
                    assert(before[k] as int == grouped_indices(structures@, g as nat)[k]);
                } else {
                    assert(idxs@[before.len() + (k - before.len())] as int == grp[k - before.len()]);
                }
            }
        }
        g = g + 1;
    }
    idxs
}

/// The first index `i < n` whose name is `name`, if any.
pub open spec fn first_named(s: Seq<EorfInfo>, name: Seq<char>, n: int) -> Option<int>
    decreases n,
{
    if n <= 0 {
        None
    } else {
        match first_named(s, name, n - 1) {
            Some(i) => Some(i),
            None => if s[n - 1].name@ == name { Some(n - 1) } else { None },
        }
    }
}

/// The id of the first structure named `name`.
pub fn find_structure_by_name(structures: &[EorfInfo], name: &str) -> (r: Option<EorfId>)
    ensures
        r == (match first_named(structures@, name@, structures@.len() as int) {
            Some(i) => Some(EorfId(#[verifier::truncate] (i as u32))),
            None => None,
        }),
{
    for i in 0..structures.len()
        invariant
            first_named(structures@, name@, i as int) is None,
    {
        if crate::text::str_eq(structures[i].name.as_str(), name) {
            proof {
                lemma_first_named_stable(structures@, name@, i as int + 1, structures@.len() as int);
            }
            return Some(EorfId(#[verifier::truncate] (i as u32)));
        }
    }
    None
}

/// The first index named `name` is in range and holds that name.
pub proof fn lemma_first_named(s: Seq<EorfInfo>, name: Seq<char>, n: int)
    requires
        n <= s.len(),
    ensures
        first_named(s, name, n) matches Some(i) ==> 0 <= i < n && s[i].name@ == name,
    decreases n,
{
    if n > 0 {
        lemma_first_named(s, name, n - 1);
    }
}

proof fn lemma_first_named_stable(s: Seq<EorfInfo>, name: Seq<char>, m: int, n: int)
    requires
        0 <= m <= n,
        first_named(s, name, m) is Some,
    ensures
        first_named(s, name, n) == first_named(s, name, m),
    decreases n - m,
{
    if m < n {
        lemma_first_named_stable(s, name, m, n - 1);
    }
}

/// The mesh-file stem of a structure: its name with spaces turned into
/// underscores.
pub fn structure_mesh_stem(name: &str) -> (stem: String)
    ensures
        stem@ == name@.map_values(|c: char| if c == ' ' { '_' } else { c }),
{
    let mut stem = String::new();
    let n = name.unicode_len();
    for i in 0..n
        invariant
            n == name@.len(),
            stem@ == name@.take(i as int).map_values(|c: char| if c == ' ' { '_' } else { c }),
    {
        let c = name.get_char(i);
        let d = if c == ' ' { '_' } else { c };
        crate::text::push_char(&mut stem, d);
        proof {
            assert(name@.take(i + 1) =~= name@.take(i as int).push(c));
            assert(stem@ =~= name@.take(i + 1).map_values(|c: char| if c == ' ' { '_' } else { c }));
        }
    }
    proof {
        assert(name@.take(n as int) =~= name@);
    }
    stem
}


proof fn lemma_group_members(s: Seq<EorfInfo>, g: nat, n: int)
    requires
        n <= s.len(),
    ensures
        forall|k: int| 0 <= k < indices_in_group(s, g, n).len() ==>
            0 <= #[trigger] indices_in_group(s, g, n)[k] < n && display_group(s[indices_in_group(s, g, n)[k]]) == g,
    decreases n,
{
    if n > 0 {
        lemma_group_members(s, g, n - 1);
        let prev = indices_in_group(s, g, n - 1);
        let cur = indices_in_group(s, g, n);
        assert forall|k: int| 0 <= k < cur.len() implies
            0 <= #[trigger] cur[k] < n && display_group(s[cur[k]]) == g by {
            if display_group(s[n - 1]) == g {
                assert(cur == prev.push(n - 1));
                if k < prev.len() {
                    assert(cur[k] == prev[k]);
                }
            } else {
                assert(cur == prev);
            }
        }
    }
}

proof fn lemma_grouped_in_order(s: Seq<EorfInfo>, g: nat)
    ensures
        forall|k: int| 0 <= k < grouped_indices(s, g).len() ==>
            0 <= #[trigger] grouped_indices(s, g)[k] < s.len() && display_group(s[grouped_indices(s, g)[k]]) < g,
        forall|a: int, b: int| 0 <= a < b < grouped_indices(s, g).len() ==>
            display_group(s[#[trigger] grouped_indices(s, g)[a]]) <= display_group(s[#[trigger] grouped_indices(s, g)[b]]),
    decreases g,
{
    if g > 0 {
        let h = (g - 1) as nat;
        lemma_grouped_in_order(s, h);
        lemma_group_members(s, h, s.len() as int);
        let p = grouped_indices(s, h);
        let q = indices_in_group(s, h, s.len() as int);
        let r = grouped_indices(s, g);
        assert(r == p + q);
        assert forall|k: int| 0 <= k < r.len() implies
            0 <= #[trigger] r[k] < s.len() && display_group(s[r[k]]) < g by {
            if k < p.len() {
                assert(r[k] == p[k]);
            } else {
                assert(r[k] == q[k - p.len()]);
            }
        }
        assert forall|a: int, b: int| 0 <= a < b < r.len() implies
            display_group(s[#[trigger] r[a]]) <= display_group(s[#[trigger] r[b]]) by {
            if b < p.len() {
                assert(r[a] == p[a] && r[b] == p[b]);
            } else if a < p.len() {
                assert(r[a] == p[a] && r[b] == q[b - p.len()]);
            } else {
                assert(r[a] == q[a - p.len()] && r[b] == q[b - p.len()]);
            }
        }
    }
}

/// The build menu lists structure kinds in declaration order of their
/// element types, walls, then roofs, then pillars, then ground floors, then
/// upper floors, with furniture last: no entry of a later group ever comes
/// before one of an earlier group, so a pillar is always listed before a
/// ground floor.
pub proof fn lemma_menu_follows_declaration_order(s: Seq<EorfInfo>)
    ensures
        element_rank(ElementType::WallLike) < element_rank(ElementType::RoofLike),
        element_rank(ElementType::RoofLike) < element_rank(ElementType::PillarLike),
        element_rank(ElementType::PillarLike) < element_rank(ElementType::GroundFloorLike),
        element_rank(ElementType::GroundFloorLike) < element_rank(ElementType::CantileverFloorLike),
        forall|t: ElementType| #[trigger] element_rank(t) < 5,
        forall|e: EorfInfo| (#[trigger] display_group(e)) == (match e.kind {
            FurnitureOrElement::Element(t) => element_rank(t),
            FurnitureOrElement::Furniture(_) => 5nat,
        }),
        forall|a: int, b: int| 0 <= a < b < grouped_indices(s, 6).len() ==>
            display_group(s[#[trigger] grouped_indices(s, 6)[a]]) <= display_group(s[#[trigger] grouped_indices(s, 6)[b]]),
        forall|a: int, b: int| 0 <= a < b < grouped_indices(s, 6).len() ==>
            !(s[#[trigger] grouped_indices(s, 6)[a]].kind == FurnitureOrElement::Element(ElementType::GroundFloorLike)
              && s[#[trigger] grouped_indices(s, 6)[b]].kind == FurnitureOrElement::Element(ElementType::PillarLike)),
{
    lemma_grouped_in_order(s, 6);
}

} // verus!
