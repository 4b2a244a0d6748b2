//! The built city: its sparse grid of cells and the catalogues and placed
//! places that the place logic reads.
use vstd::prelude::*;
use crate::eorf::{EorfId, EorfInfo};
use crate::materials::BuildMaterialId;
use crate::place::{
    released, spec_allows, stripped, ParentRestriction, FulfilledPorf, ParticularPlace, Place, PlaceReq, PlacedPlaceId, PlacedPlaces, Porf,
    position_of,
};
use crate::resource::{
    no_uniform, Inventory, InventoryEntry, StorageKind, ToolKind, UniformResource, UniqueResource,
};
use crate::sparse3d::{Facing, IVec3, Slot, SlotCoord, Sparse3D};
use crate::text::str_eq;

verus! {

/// What occupies one slot of the grid.
#[derive(Clone, Copy, PartialEq, Eq, Debug, Structural)]
pub struct Cell {
    /// The structure kind, an index into the city's structure catalogue.
    pub id: EorfId,
    pub facing: Facing,
    pub build_material: BuildMaterialId,
}

/// The city as built.
pub struct ConstructedCity {
    pub contents: Sparse3D<Cell>,
    /// The structure catalogue that cells index.
    pub eorfs: Vec<EorfInfo>,
    /// The place kinds that placed places index.
    pub places: Vec<Place>,
    pub placed_places: PlacedPlaces,
    /// Items installed in the slots of room furniture, by cube.
    pub furniture_slots: Vec<(IVec3, Vec<Option<UniqueResource>>)>,
    /// Which place kinds may claim the furniture in a cube, by cube.
    pub furniture_restrictions: Vec<(IVec3, ParentRestriction)>,
}

impl ConstructedCity {
    /// Every cell names a known structure, every placed place a known kind,
    /// and the grid and the placed places are well formed.
    pub open spec fn wf(&self) -> bool {
        &&& self.contents.wf()
        &&& self.placed_places.wf()
        &&& forall|k: int| 0 <= k < self.contents.entries().len()
            ==> (#[trigger] self.contents.entries()[k]).1.id.0 < self.eorfs@.len()
        &&& forall|k: int| 0 <= k < self.placed_places.items().len()
            ==> (#[trigger] self.placed_places.items()[k]).1.place < self.places@.len()
    }

    /// The structure kind of the cell at `loc`, if the slot is occupied.
    pub open spec fn kind_at(&self, loc: SlotCoord) -> Option<EorfInfo> {
        match self.contents.at(loc) {
            Some(c) => Some(self.eorfs@[c.id.0 as int]),
            None => None,
        }
    }
}

/// The building elements that stop a line of sight.
pub open spec fn sightline_blocking_name(name: Seq<char>) -> bool {
    ||| name == "wall"@
    ||| name == "window"@
    ||| name == "doorway"@
    ||| name == "floor"@
    ||| name == "roof"@
}

/// Whether `cell` stops a line of sight: it is a building element (not
/// furniture) whose name is a wall, window, doorway, floor or roof.
pub fn blocks_sightline(cw: &ConstructedCity, cell: &Cell) -> (b: bool)
    requires
        cell.id.0 < cw.eorfs@.len(),
    ensures
        b == (!crate::eorf::spec_is_furniture(cw.eorfs@[cell.id.0 as int])
            && sightline_blocking_name(cw.eorfs@[cell.id.0 as int].name@)),
{
    let info = &cw.eorfs[cell.id.as_usize()];
    if info.is_furniture() {
        return false;
    }
    let name = info.name.as_str();
    str_eq(name, "wall") || str_eq(name, "window") || str_eq(name, "doorway") || str_eq(name, "floor")
        || str_eq(name, "roof")
}

/// The installed items `slots` record for `cube` (the first record for it).
pub open spec fn slots_at(slots: Seq<(IVec3, Vec<Option<UniqueResource>>)>, cube: IVec3) -> Option<Seq<Option<UniqueResource>>>
    decreases slots.len(),
{
    if slots.len() == 0 {
        None
    } else if slots[0].0 == cube {
        Some(slots[0].1@)
    } else {
        slots_at(slots.drop_first(), cube)
    }
}

/// Some slot among `items` holds a tool of `kind`.
pub open spec fn holds_tool(items: Seq<Option<UniqueResource>>, kind: ToolKind) -> bool {
    exists|k: int| 0 <= k < items.len() && #[trigger] items[k] == Some(UniqueResource::Tool(kind))
}

/// The room furniture at `cube` is named `furniture_name` and has a tool of
/// `kind` installed in one of its slots.
pub open spec fn spec_has_installed_tool(cw: ConstructedCity, cube: IVec3, kind: ToolKind, furniture_name: Seq<char>) -> bool {
    &&& match cw.kind_at(SlotCoord { cube, slot: Slot::Room }) {
        Some(info) => info.name@ == furniture_name,
        None => false,
    }
    &&& match slots_at(cw.furniture_slots@, cube) {
        Some(items) => holds_tool(items, kind),
        None => false,
    }
}

proof fn lemma_cell_known(cw: &ConstructedCity, loc: SlotCoord)
    requires
        cw.wf(),
    ensures
        cw.contents.at(loc) matches Some(c) ==> c.id.0 < cw.eorfs@.len(),
{
    crate::sparse3d::lemma_slot_position(cw.contents.entries(), loc);
}

pub(crate) fn name_of_cell(cw: &ConstructedCity, loc: SlotCoord) -> (r: Option<&EorfInfo>)
    requires
        cw.wf(),
    ensures
        match cw.kind_at(loc) {
            Some(info) => r == Some(&info),
            None => r is None,
        },
{
    proof {
        lemma_cell_known(cw, loc);
    }
    match cw.contents.get(loc) {
        Some(c) => Some(&cw.eorfs[c.id.as_usize()]),
        None => None,
    }
}

pub(crate) fn tool_installed(items: &Vec<Option<UniqueResource>>, kind: ToolKind) -> (b: bool)
    ensures
        b == holds_tool(items@, kind),
{
    let mut i: usize = 0;
    while i < items.len()
        invariant
            i <= items@.len(),
            forall|k: int| 0 <= k < i ==> #[trigger] items@[k] != Some(UniqueResource::Tool(kind)),
        decreases items@.len() - i,
    {
        match &items[i] {
            Some(UniqueResource::Tool(k)) => {
                if *k == kind {
                    return true;
                }
            },
            _ => {},
        }
        i += 1;
    }
    false
}

fn installed_at(slots: &Vec<(IVec3, Vec<Option<UniqueResource>>)>, cube: IVec3) -> (r: Option<&Vec<Option<UniqueResource>>>)
    ensures
        match slots_at(slots@, cube) {
            Some(items) => r matches Some(v) && v@ == items,
            None => r is None,
        },
{
    let mut i: usize = 0;
    proof {
        assert(slots@.skip(0) =~= slots@);
    }
    while i < slots.len()
        invariant
            i <= slots@.len(),
            slots_at(slots@, cube) == slots_at(slots@.skip(i as int), cube),
        decreases slots@.len() - i,
    {
        proof {
            assert(slots@.skip(i as int).drop_first() =~= slots@.skip(i + 1));
        }
        if slots[i].0 == cube {
            return Some(&slots[i].1);
        }
        i += 1;
    }
    None
}

/// True if the furniture at `cube` is named `furniture_name` and has a tool
/// of `kind` installed in one of its slots.
pub fn has_installed_tool(cw: &ConstructedCity, cube: IVec3, kind: ToolKind, furniture_name: &str) -> (b: bool)
    requires
        cw.wf(),
    ensures
        b == spec_has_installed_tool(*cw, cube, kind, furniture_name@),
{
    let is_named = match name_of_cell(cw, SlotCoord { cube, slot: Slot::Room }) {
        Some(info) => str_eq(info.name.as_str(), furniture_name),
        None => false,
    };
    is_named && match installed_at(&cw.furniture_slots, cube) {
        Some(items) => tool_installed(items, kind),
        None => false,
    }
}

/// The kind of the placed place `id`, if it is still placed.
pub open spec fn placed_kind(cw: ConstructedCity, id: PlacedPlaceId) -> Option<Place> {
    match position_of(cw.placed_places.items(), id) {
        Some(i) => Some(cw.places@[cw.placed_places.items()[i].1.place as int]),
        None => None,
    }
}

/// A fulfillment still satisfies the requirement it was chosen for.
pub open spec fn spec_fulfillment_matches(cw: ConstructedCity, f: FulfilledPorf, req: Porf) -> bool {
    match (f, req) {
        (FulfilledPorf::Furniture(loc), Porf::Furniture(name)) => match cw.kind_at(loc) {
            Some(info) => info.name@ == name@,
            None => false,
        },
        (FulfilledPorf::Place(id), Porf::Place(name)) => match placed_kind(cw, id) {
            Some(p) => p.name@ == name@,
            None => false,
        },
        (FulfilledPorf::Furniture(loc), Porf::InstalledTool(kind, name)) =>
            spec_has_installed_tool(cw, loc.cube, kind, name@),
        _ => false,
    }
}

proof fn lemma_placed_known(cw: &ConstructedCity, id: PlacedPlaceId)
    requires
        cw.wf(),
    ensures
        position_of(cw.placed_places.items(), id) matches Some(i) ==>
            0 <= i < cw.placed_places.items().len()
            && cw.placed_places.items()[i].1.place < cw.places@.len(),
{
    crate::place::lemma_position_in(cw.placed_places.items(), id);
}

/// True if fulfillment `f` still satisfies requirement `req`: the furniture
/// there has the required name (or, for a tool requirement, the named
/// furniture holds the tool), or the placed place is of the required kind.
pub fn fulfillment_matches(cw: &ConstructedCity, f: &FulfilledPorf, req: &Porf) -> (b: bool)
    requires
        cw.wf(),
    ensures
        b == spec_fulfillment_matches(*cw, *f, *req),
{
    match (f, req) {
        (FulfilledPorf::Furniture(loc), Porf::Furniture(name)) => match name_of_cell(cw, *loc) {
            Some(info) => str_eq(info.name.as_str(), name.as_str()),
            None => false,
        },
        (FulfilledPorf::Place(id), Porf::Place(name)) => {
            proof {
                lemma_placed_known(cw, *id);
            }
            match cw.placed_places.get(*id) {
                Some(pp) => str_eq(cw.places[pp.place].name.as_str(), name.as_str()),
                None => false,
            }
        },
        (FulfilledPorf::Furniture(loc), Porf::InstalledTool(kind, name)) =>
            has_installed_tool(cw, loc.cube, *kind, name.as_str()),
        _ => false,
    }
}

/// Index (in placement order) of the first placed place among the first `n`
/// whose fulfillments contain `f`.
pub open spec fn first_owner(items: Seq<(PlacedPlaceId, ParticularPlace)>, f: FulfilledPorf, n: int) -> Option<int>
    decreases n,
{
    if n <= 0 {
        None
    } else {
        match first_owner(items, f, n - 1) {
            Some(i) => Some(i),
            None => if items[n - 1].1.fulfillments@.contains(f) { Some(n - 1) } else { None },
        }
    }
}

proof fn lemma_first_owner_stable(items: Seq<(PlacedPlaceId, ParticularPlace)>, f: FulfilledPorf, m: int, n: int)
    requires
        m <= n,
        first_owner(items, f, m) is Some,
    ensures
        first_owner(items, f, n) == first_owner(items, f, m),
    decreases n - m,
{
    if m < n {
        lemma_first_owner_stable(items, f, m, n - 1);
    }
}

/// The placed place directly holding fulfillment `f` (not through nested
/// places): the first in placement order.
pub fn owner_of(cw: &ConstructedCity, f: &FulfilledPorf) -> (r: Option<PlacedPlaceId>)
    ensures
        r == (match first_owner(cw.placed_places.items(), *f, cw.placed_places.items().len() as int) {
            Some(i) => Some(cw.placed_places.items()[i].0),
            None => None,
        }),
{
    let n = cw.placed_places.len();
    let mut i: usize = 0;
    while i < n
        invariant
            i <= n,
            n == cw.placed_places.items().len(),
            first_owner(cw.placed_places.items(), *f, i as int) is None,
        decreases n - i,
    {
        let (id, pp) = cw.placed_places.entry(i);
        let mut k: usize = 0;
        let mut found = false;
        while k < pp.fulfillments.len()
            invariant
                k <= pp.fulfillments@.len(),
                found <==> exists|j: int| 0 <= j < k && pp.fulfillments@[j] == *f,
            decreases pp.fulfillments@.len() - k,
        {
            if pp.fulfillments[k] == *f {
                found = true;
            }
            k += 1;
        }
        if found {
            proof {
                assert(cw.placed_places.items()[i as int].1.fulfillments@.contains(*f));
                lemma_first_owner_stable(cw.placed_places.items(), *f, i + 1, n as int);
            }
            return Some(id);
        }
        i += 1;
    }
    None
}

/// Removes a placed place, discarding its inventory.
pub fn unassign_place(cw: &mut ConstructedCity, id: PlacedPlaceId)
    requires
        old(cw).wf(),
    ensures
        final(cw).wf(),
        final(cw).placed_places.items() == (match position_of(old(cw).placed_places.items(), id) {
            Some(i) => old(cw).placed_places.items().remove(i),
            None => old(cw).placed_places.items(),
        }),
        final(cw).placed_places.fresh() == old(cw).placed_places.fresh(),
        final(cw).contents == old(cw).contents,
        final(cw).eorfs == old(cw).eorfs,
        final(cw).places == old(cw).places,
        final(cw).furniture_slots == old(cw).furniture_slots,
        final(cw).furniture_restrictions == old(cw).furniture_restrictions,
{
    cw.placed_places.remove(id);
    proof {
        let before = old(cw).placed_places.items();
        assert forall|k: int| 0 <= k < cw.placed_places.items().len()
            implies (#[trigger] cw.placed_places.items()[k]).1.place < cw.places@.len() by {
            if let Some(i) = position_of(before, id) {
                crate::place::lemma_position_in(before, id);
                let sk = if k < i { k } else { k + 1 };
                assert(cw.placed_places.items()[k] == before[sk]);
            }
        }
    }
}

/// Number of fulfillments among `fs` that are furniture named
/// `furniture_name`.
pub open spec fn furniture_named_count(cw: ConstructedCity, fs: Seq<FulfilledPorf>, furniture_name: Seq<char>) -> nat
    decreases fs.len(),
{
    if fs.len() == 0 {
        0
    } else {
        furniture_named_count(cw, fs.drop_last(), furniture_name) + match fs.last() {
            FulfilledPorf::Furniture(loc) => match cw.kind_at(loc) {
                Some(info) => if info.kind is Furniture && info.name@ == furniture_name { 1nat } else { 0 },
                None => 0,
            },
            FulfilledPorf::Place(_) => 0,
        }
    }
}

/// Over the first `n` placed places whose kind is named `place_name`, the
/// number of their fulfillments that are furniture named `furniture_name`.
pub open spec fn furniture_in_places_count(cw: ConstructedCity, furniture_name: Seq<char>, place_name: Seq<char>, n: int) -> nat
    decreases n,
{
    if n <= 0 {
        0
    } else {
        let pp = cw.placed_places.items()[n - 1].1;
        furniture_in_places_count(cw, furniture_name, place_name, n - 1)
            + if cw.places@[pp.place as int].name@ == place_name {
                furniture_named_count(cw, pp.fulfillments@, furniture_name)
            } else {
                0
            }
    }
}

proof fn lemma_named_count_bound(cw: ConstructedCity, fs: Seq<FulfilledPorf>, furniture_name: Seq<char>)
    ensures
        furniture_named_count(cw, fs, furniture_name) <= fs.len(),
    decreases fs.len(),
{
    if fs.len() > 0 {
        lemma_named_count_bound(cw, fs.drop_last(), furniture_name);
    }
}

proof fn lemma_in_places_mono(cw: ConstructedCity, furniture_name: Seq<char>, place_name: Seq<char>, a: int, b: int)
    requires
        a <= b,
    ensures
        furniture_in_places_count(cw, furniture_name, place_name, a)
            <= furniture_in_places_count(cw, furniture_name, place_name, b),
    decreases b - a,
{
    if a < b {
        lemma_in_places_mono(cw, furniture_name, place_name, a, b - 1);
    }
}

/// Number of furniture pieces named `furniture_name` fulfilling placed
/// places of the kind named `place_name`.
pub fn count_furniture_named_in_places(cw: &ConstructedCity, furniture_name: &str, place_name: &str) -> (n: usize)
    requires
        cw.wf(),
        furniture_in_places_count(*cw, furniture_name@, place_name@, cw.placed_places.items().len() as int) <= usize::MAX,
    ensures
        n == furniture_in_places_count(*cw, furniture_name@, place_name@, cw.placed_places.items().len() as int),
{
    let total = cw.placed_places.len();
    let mut count: usize = 0;
    let mut i: usize = 0;
    while i < total
        invariant
            i <= total,
            total == cw.placed_places.items().len(),
            cw.wf(),
            count == furniture_in_places_count(*cw, furniture_name@, place_name@, i as int),
            furniture_in_places_count(*cw, furniture_name@, place_name@, total as int) <= usize::MAX,
        decreases total - i,
    {
        let (_, pp) = cw.placed_places.entry(i);
        assert(cw.placed_places.items()[i as int].1.place < cw.places@.len());
        if str_eq(cw.places[pp.place].name.as_str(), place_name) {
            let mut k: usize = 0;
            let mut here: usize = 0;
            while k < pp.fulfillments.len()
                invariant
                    k <= pp.fulfillments@.len(),
                    cw.wf(),
                    here == furniture_named_count(*cw, pp.fulfillments@.take(k as int), furniture_name@),
                    here <= k,
                decreases pp.fulfillments@.len() - k,
            {
                proof {
                    assert(pp.fulfillments@.take(k + 1).drop_last() =~= pp.fulfillments@.take(k as int));
                }
                match pp.fulfillments[k] {
                    FulfilledPorf::Furniture(loc) => {
                        match name_of_cell(cw, loc) {
                            Some(info) => {
                                if info.is_furniture() && str_eq(info.name.as_str(), furniture_name) {
                                    here = here + 1;
                                }
                            },
                            None => {},
                        }
                    },
                    FulfilledPorf::Place(_) => {},
                }
                k += 1;
            }
            proof {
                assert(pp.fulfillments@.take(pp.fulfillments@.len() as int) =~= pp.fulfillments@);
                lemma_named_count_bound(*cw, pp.fulfillments@, furniture_name@);
            }
            proof {
                lemma_in_places_mono(*cw, furniture_name@, place_name@, i + 1, total as int);
            }
            count = count + here;
        }
        i += 1;
    }
    count
}

/// Number of market stands placed across all market places: how many farms
/// can be invited per month.
pub fn market_stand_count(cw: &ConstructedCity) -> (n: usize)
    requires
        cw.wf(),
        furniture_in_places_count(*cw, "market stand"@, "market"@, cw.placed_places.items().len() as int) <= usize::MAX,
    ensures
        n == furniture_in_places_count(*cw, "market stand"@, "market"@, cw.placed_places.items().len() as int),
{
    count_furniture_named_in_places(cw, "market stand", "market")
}


/// Number of fulfillments among `fs`, not among `pulled`, that still satisfy
/// `req`.
pub open spec fn kept_matching(cw: ConstructedCity, fs: Seq<FulfilledPorf>, pulled: Seq<FulfilledPorf>, req: Porf) -> nat
    decreases fs.len(),
{
    if fs.len() == 0 {
        0
    } else {
        kept_matching(cw, fs.drop_last(), pulled, req)
            + if !pulled.contains(fs.last()) && spec_fulfillment_matches(cw, fs.last(), req) { 1nat } else { 0 }
    }
}

/// A placed place of kind `def` that loses the fulfillments `pulled` still
/// meets the minimum of every requirement of its kind.
pub open spec fn spec_still_meets(cw: ConstructedCity, def: Place, fs: Seq<FulfilledPorf>, pulled: Seq<FulfilledPorf>) -> bool {
    forall|k: int| 0 <= k < def.requirements@.len() ==>
        kept_matching(cw, fs, pulled, (#[trigger] def.requirements@[k]).requirement) >= def.requirements@[k].min
}

fn contains_fulfillment(fs: &[FulfilledPorf], f: FulfilledPorf) -> (b: bool)
    ensures
        b == fs@.contains(f),
{
    let mut i: usize = 0;
    while i < fs.len()
        invariant
            i <= fs@.len(),
            forall|k: int| 0 <= k < i ==> fs@[k] != f,
        decreases fs@.len() - i,
    {
        if fs[i] == f {
            return true;
        }
        i += 1;
    }
    false
}

proof fn lemma_kept_bound(cw: ConstructedCity, fs: Seq<FulfilledPorf>, pulled: Seq<FulfilledPorf>, req: Porf)
    ensures
        kept_matching(cw, fs, pulled, req) <= fs.len(),
    decreases fs.len(),
{
    if fs.len() > 0 {
        lemma_kept_bound(cw, fs.drop_last(), pulled, req);
    }
}

/// Whether the placed place `pp`, after losing the fulfillments in `pulled`
/// to a new place, still meets every minimum of its kind; a donor that does
/// not is destroyed when the new place is committed.
pub fn donor_still_meets(cw: &ConstructedCity, pp: &ParticularPlace, pulled: &[FulfilledPorf]) -> (b: bool)
    requires
        cw.wf(),
        pp.place < cw.places@.len(),
    ensures
        b == spec_still_meets(*cw, cw.places@[pp.place as int], pp.fulfillments@, pulled@),
{
    let def = &cw.places[pp.place];
    let mut k: usize = 0;
    while k < def.requirements.len()
        invariant
            k <= def.requirements@.len(),
            cw.wf(),
            *def == cw.places@[pp.place as int],
            forall|j: int| 0 <= j < k ==>
                kept_matching(*cw, pp.fulfillments@, pulled@, (#[trigger] def.requirements@[j]).requirement)
                    >= def.requirements@[j].min,
        decreases def.requirements@.len() - k,
    {
        let req = &def.requirements[k];
        let mut count: usize = 0;
        let mut i: usize = 0;
        while i < pp.fulfillments.len()
            invariant
                i <= pp.fulfillments@.len(),
                cw.wf(),
                count == kept_matching(*cw, pp.fulfillments@.take(i as int), pulled@, req.requirement),
                count <= i,
            decreases pp.fulfillments@.len() - i,
        {
            proof {
                assert(pp.fulfillments@.take(i + 1).drop_last() =~= pp.fulfillments@.take(i as int));
            }
            let f = pp.fulfillments[i];
            if !contains_fulfillment(pulled, f) && fulfillment_matches(cw, &f, &req.requirement) {
                count = count + 1;
            }
            i += 1;
        }
        proof {
            assert(pp.fulfillments@.take(pp.fulfillments@.len() as int) =~= pp.fulfillments@);
        }
        if count < req.min as usize {
            return false;
        }
        k += 1;
    }
    true
}


/// Among `fs[..k]`, some fulfillment is furniture in `cube` or a nested
/// place containing it, following at most `fuel` levels of nesting.
pub open spec fn any_contains(cw: ConstructedCity, fs: Seq<FulfilledPorf>, cube: IVec3, fuel: nat, k: int) -> bool
    decreases fuel, 1nat, k,
{
    if k <= 0 {
        false
    } else {
        any_contains(cw, fs, cube, fuel, k - 1) || match fs[k - 1] {
            FulfilledPorf::Furniture(loc) => loc.cube == cube,
            FulfilledPorf::Place(inner) => contains_within(cw, inner, cube, fuel),
        }
    }
}

/// The placed place `id` holds furniture in `cube`, directly or through
/// nested places, found within `fuel` levels of nesting.
pub open spec fn contains_within(cw: ConstructedCity, id: PlacedPlaceId, cube: IVec3, fuel: nat) -> bool
    decreases fuel, 0nat, 0int,
{
    if fuel == 0 {
        false
    } else {
        match position_of(cw.placed_places.items(), id) {
            Some(i) => {
                let fs = cw.placed_places.items()[i].1.fulfillments@;
                any_contains(cw, fs, cube, (fuel - 1) as nat, fs.len() as int)
            },
            None => false,
        }
    }
}

/// Whether placed place `id` holds furniture in `cube`, directly or through
/// nested places, following at most `fuel` levels of nesting. Nesting
/// deeper than the number of placed places means a cycle; the search gives
/// up there.
fn place_contains(cw: &ConstructedCity, id: PlacedPlaceId, cube: IVec3, fuel: usize) -> (b: bool)
    requires
        cw.wf(),
    ensures
        b == contains_within(*cw, id, cube, fuel as nat),
    decreases fuel,
{
    if fuel == 0 {
        return false;
    }
    proof {
        crate::place::lemma_position_in(cw.placed_places.items(), id);
    }
    match cw.placed_places.get(id) {
        Some(pp) => {
            let ghost fs = pp.fulfillments@;
            proof {
                let i = position_of(cw.placed_places.items(), id)->0;
                assert(fs == cw.placed_places.items()[i].1.fulfillments@);
                assert(contains_within(*cw, id, cube, fuel as nat)
                    == any_contains(*cw, fs, cube, (fuel - 1) as nat, fs.len() as int));
            }
            let mut k: usize = 0;
            while k < pp.fulfillments.len()
                invariant
                    k <= fs.len(),
                    fs == pp.fulfillments@,
                    fuel > 0,
                    cw.wf(),
                    !any_contains(*cw, fs, cube, (fuel - 1) as nat, k as int),
                contains_within(*cw, id, cube, fuel as nat)
                    == any_contains(*cw, fs, cube, (fuel - 1) as nat, fs.len() as int),
                decreases fs.len() - k,
            {
                let hit = match pp.fulfillments[k] {
                    FulfilledPorf::Furniture(loc) => loc.cube == cube,
                    FulfilledPorf::Place(inner) => place_contains(cw, inner, cube, fuel - 1),
                };
                if hit {
                    proof {
                        assert(any_contains(*cw, fs, cube, (fuel - 1) as nat, k + 1));
                        lemma_any_contains_stable(*cw, fs, cube, (fuel - 1) as nat, k + 1, fs.len() as int);
                    }
                    return true;
                }
                k += 1;
            }
            false
        },
        None => false,
    }
}

proof fn lemma_any_contains_stable(cw: ConstructedCity, fs: Seq<FulfilledPorf>, cube: IVec3, fuel: nat, m: int, n: int)
    requires
        m <= n,
        any_contains(cw, fs, cube, fuel, m),
    ensures
        any_contains(cw, fs, cube, fuel, n),
    decreases n - m,
{
    if m < n {
        lemma_any_contains_stable(cw, fs, cube, fuel, m, n - 1);
    }
}

/// Index (in placement order) of the first of the first `n` placed places
/// that holds `cube`, searching `fuel` levels of nesting.
pub open spec fn first_holder(cw: ConstructedCity, cube: IVec3, fuel: nat, n: int) -> Option<int>
    decreases n,
{
    if n <= 0 {
        None
    } else {
        match first_holder(cw, cube, fuel, n - 1) {
            Some(i) => Some(i),
            None => if contains_within(cw, cw.placed_places.items()[n - 1].0, cube, fuel) { Some(n - 1) } else { None },
        }
    }
}

proof fn lemma_first_holder_stable(cw: ConstructedCity, cube: IVec3, fuel: nat, m: int, n: int)
    requires
        m <= n,
        first_holder(cw, cube, fuel, m) is Some,
    ensures
        first_holder(cw, cube, fuel, n) == first_holder(cw, cube, fuel, m),
    decreases n - m,
{
    if m < n {
        lemma_first_holder_stable(cw, cube, fuel, m, n - 1);
    }
}

/// The placed place holding `cube`, directly or through nested places: the
/// first in placement order. Nesting is followed as deep as there are placed
/// places.
pub fn place_id_at(cw: &ConstructedCity, cube: IVec3) -> (r: Option<PlacedPlaceId>)
    requires
        cw.wf(),
    ensures
        r == (match first_holder(*cw, cube, cw.placed_places.items().len() as nat, cw.placed_places.items().len() as int) {
            Some(i) => Some(cw.placed_places.items()[i].0),
            None => None,
        }),
{
    let n = cw.placed_places.len();
    let mut i: usize = 0;
    while i < n
        invariant
            i <= n,
            n == cw.placed_places.items().len(),
            cw.wf(),
            first_holder(*cw, cube, n as nat, i as int) is None,
        decreases n - i,
    {
        let (id, _) = cw.placed_places.entry(i);
        if place_contains(cw, id, cube, n) {
            proof {
                lemma_first_holder_stable(*cw, cube, n as nat, i + 1, n as int);
            }
            return Some(id);
        }
        i += 1;
    }
    None
}


/// Where placed place `id` is: the cube of its first fulfillment, resolved
/// through nested places, following at most `fuel` levels of nesting. None
/// for an unknown id, a place without fulfillments, or nesting deeper than
/// `fuel`.
pub open spec fn location_within(cw: ConstructedCity, id: PlacedPlaceId, fuel: nat) -> Option<IVec3>
    decreases fuel,
{
    if fuel == 0 {
        None
    } else {
        match position_of(cw.placed_places.items(), id) {
            Some(i) => {
                let fs = cw.placed_places.items()[i].1.fulfillments@;
                if fs.len() == 0 {
                    None
                } else {
                    match fs[0] {
                        FulfilledPorf::Furniture(loc) => Some(loc.cube),
                        FulfilledPorf::Place(inner) => location_within(cw, inner, (fuel - 1) as nat),
                    }
                }
            },
            None => None,
        }
    }
}

fn location_of(cw: &ConstructedCity, id: PlacedPlaceId, fuel: usize) -> (r: Option<IVec3>)
    requires
        cw.wf(),
    ensures
        r == location_within(*cw, id, fuel as nat),
    decreases fuel,
{
    if fuel == 0 {
        return None;
    }
    proof {
        crate::place::lemma_position_in(cw.placed_places.items(), id);
    }
    match cw.placed_places.get(id) {
        Some(pp) => {
            if pp.fulfillments.len() == 0 {
                None
            } else {
                match pp.fulfillments[0] {
                    FulfilledPorf::Furniture(loc) => Some(loc.cube),
                    FulfilledPorf::Place(inner) => location_of(cw, inner, fuel - 1),
                }
            }
        },
        None => None,
    }
}

/// Where placed place `id` is (see `location_within`), following nesting
/// as deep as there are placed places: deeper nesting means a cycle, and
/// gives none.
pub fn try_place_location(cw: &ConstructedCity, id: PlacedPlaceId) -> (r: Option<IVec3>)
    requires
        cw.wf(),
    ensures
        r == location_within(*cw, id, cw.placed_places.items().len() as nat),
{
    location_of(cw, id, cw.placed_places.len())
}

/// Where placed place `id` is, for an id that resolves (see
/// `try_place_location`).
pub fn place_location(cw: &ConstructedCity, id: PlacedPlaceId) -> (loc: IVec3)
    requires
        cw.wf(),
        location_within(*cw, id, cw.placed_places.items().len() as nat) is Some,
    ensures
        Some(loc) == location_within(*cw, id, cw.placed_places.items().len() as nat),
{
    match try_place_location(cw, id) {
        Some(loc) => loc,
        None => IVec3 { x: 0, y: 0, z: 0 },
    }
}

/// `id` followed by the places holding it, each directly holding the one
/// before, at most `fuel` of them.
pub open spec fn owner_chain(cw: ConstructedCity, id: PlacedPlaceId, fuel: nat) -> Seq<PlacedPlaceId>
    decreases fuel,
{
    if fuel == 0 {
        seq![]
    } else {
        seq![id] + match owner_id(cw, FulfilledPorf::Place(id)) {
            Some(parent) => owner_chain(cw, parent, (fuel - 1) as nat),
            None => seq![],
        }
    }
}

/// The places containing `cube`, innermost first (see `place_id_at`), then
/// each place's holder up to the outermost; no longer than the number of
/// placed places, which only a cycle of holders would reach.
pub fn containing_chain(cw: &ConstructedCity, cube: IVec3) -> (chain: Vec<PlacedPlaceId>)
    requires
        cw.wf(),
    ensures
        chain@ == (match place_id_at_spec(*cw, cube) {
            Some(id) => owner_chain(*cw, id, cw.placed_places.items().len() as nat),
            None => Seq::<PlacedPlaceId>::empty(),
        }),
{
    let mut chain: Vec<PlacedPlaceId> = Vec::new();
    let first = place_id_at(cw, cube);
    let n = cw.placed_places.len();
    match first {
        None => chain,
        Some(start) => {
            let mut id = start;
            let mut fuel: usize = n;
            loop
                invariant_except_break
                    owner_chain(*cw, start, n as nat) == chain@ + owner_chain(*cw, id, fuel as nat),
                invariant
                    fuel <= n,
                    n == cw.placed_places.items().len(),
                ensures
                    owner_chain(*cw, start, n as nat) == chain@,
                decreases fuel,
            {
                if fuel == 0 {
                    assert(chain@ + Seq::<PlacedPlaceId>::empty() =~= chain@);
                    break;
                }
                let ghost before = chain@;
                chain.push(id);
                let parent = owner_of(cw, &FulfilledPorf::Place(id));
                match parent {
                    Some(p) => {
                        proof {
                            assert(before + owner_chain(*cw, id, fuel as nat)
                                =~= chain@ + owner_chain(*cw, p, (fuel - 1) as nat));
                        }
                        id = p;
                        fuel = fuel - 1;
                    },
                    None => {
                        proof {
                            assert(before + owner_chain(*cw, id, fuel as nat) =~= chain@);
                        }
                        break;
                    },
                }
            }
            chain
        },
    }
}

/// A containing chain starts at its place, each later place directly holds
/// the one before it, and the chain is no longer than its bound.
pub proof fn lemma_owner_chain_links(cw: ConstructedCity, id: PlacedPlaceId, fuel: nat)
    ensures
        owner_chain(cw, id, fuel).len() <= fuel,
        fuel > 0 ==> owner_chain(cw, id, fuel)[0] == id,
        forall|k: int| 0 < k < owner_chain(cw, id, fuel).len() ==>
            owner_id(cw, FulfilledPorf::Place(#[trigger] owner_chain(cw, id, fuel)[k - 1])) == Some(owner_chain(cw, id, fuel)[k]),
    decreases fuel,
{
    if fuel > 0 {
        let chain = owner_chain(cw, id, fuel);
        match owner_id(cw, FulfilledPorf::Place(id)) {
            Some(parent) => {
                let rest = owner_chain(cw, parent, (fuel - 1) as nat);
                lemma_owner_chain_links(cw, parent, (fuel - 1) as nat);
                assert forall|k: int| 0 < k < chain.len() implies
                    owner_id(cw, FulfilledPorf::Place(#[trigger] chain[k - 1])) == Some(chain[k]) by {
                    assert(chain[k] == rest[k - 1]);
                    if k > 1 {
                        assert(chain[k - 1] == rest[k - 2]);
                    }
                }
            },
            None => {
                assert(chain =~= seq![id]);
            },
        }
    }
}

/// The placed place holding `cube` that `place_id_at` finds.
pub open spec fn place_id_at_spec(cw: ConstructedCity, cube: IVec3) -> Option<PlacedPlaceId> {
    match first_holder(cw, cube, cw.placed_places.items().len() as nat, cw.placed_places.items().len() as int) {
        Some(i) => Some(cw.placed_places.items()[i].0),
        None => None,
    }
}

/// The cubes of the furniture named `name` among the grid's first `n`
/// entries, in entry order, once per occupied slot.
pub open spec fn furniture_cubes_named(cw: ConstructedCity, name: Seq<char>, n: int) -> Seq<IVec3>
    decreases n,
{
    if n <= 0 {
        seq![]
    } else {
        let e = cw.contents.entries()[n - 1];
        let info = cw.eorfs@[e.1.id.0 as int];
        let prev = furniture_cubes_named(cw, name, n - 1);
        if crate::eorf::spec_is_furniture(info) && info.name@ == name { prev.push(e.0.cube) } else { prev }
    }
}

/// The cubes of all furniture named `name` anywhere in the grid, at any
/// slot, in entry order (see `furniture_cubes_named`): the candidate cores
/// when places are formed without a chosen cube.
pub fn all_furniture_named(cw: &ConstructedCity, name: &str) -> (cubes: Vec<IVec3>)
    requires
        cw.wf(),
    ensures
        cubes@ == furniture_cubes_named(*cw, name@, cw.contents.entries().len() as int),
{
    let n = cw.contents.size();
    let mut cubes: Vec<IVec3> = Vec::new();
    let mut k: usize = 0;
    while k < n
        invariant
            k <= n,
            n == cw.contents.entries().len(),
            cw.wf(),
            cubes@ == furniture_cubes_named(*cw, name@, k as int),
        decreases n - k,
    {
        let (loc, cell) = cw.contents.entry(k);
        let info = &cw.eorfs[cell.id.as_usize()];
        if info.is_furniture() && str_eq(info.name.as_str(), name) {
            cubes.push(loc.cube);
        }
        k += 1;
    }
    cubes
}

/// A planned assignment of fulfillments to a new place, shared by the
/// preview and the commit so that they agree.
pub struct AssignmentPlan {
    /// The fulfillments the new place will own.
    pub chosen: Vec<FulfilledPorf>,
    /// How many of them had to be pulled from other places to meet a minimum.
    pub pulled: usize,
    /// The places that fall below a minimum and are destroyed, by id.
    pub destroy: Vec<PlacedPlaceId>,
}

/// The place directly holding `f` (the first in placement order), by id.
pub open spec fn owner_id(cw: ConstructedCity, f: FulfilledPorf) -> Option<PlacedPlaceId> {
    match first_owner(cw.placed_places.items(), f, cw.placed_places.items().len() as int) {
        Some(i) => Some(cw.placed_places.items()[i].0),
        None => None,
    }
}

/// The candidates not already chosen, in order.
pub open spec fn unclaimed(cands: Seq<FulfilledPorf>, chosen: Seq<FulfilledPorf>) -> Seq<FulfilledPorf>
    decreases cands.len(),
{
    if cands.len() == 0 {
        seq![]
    } else {
        let rest = unclaimed(cands.drop_last(), chosen);
        if chosen.contains(cands.last()) { rest } else { rest.push(cands.last()) }
    }
}

/// Those of `xs` that no place holds (`free`), or that some place holds.
pub open spec fn by_ownership(cw: ConstructedCity, xs: Seq<FulfilledPorf>, free: bool) -> Seq<FulfilledPorf>
    decreases xs.len(),
{
    if xs.len() == 0 {
        seq![]
    } else {
        let rest = by_ownership(cw, xs.drop_last(), free);
        if (owner_id(cw, xs.last()) is None) == free { rest.push(xs.last()) } else { rest }
    }
}

/// The most a requirement takes: its `max`, unbounded when unset.
pub open spec fn req_limit(req: PlaceReq) -> int {
    match req.max {
        Some(m) => m as int,
        None => usize::MAX as int,
    }
}

/// How many free candidates a requirement takes (up to its limit), and how
/// many held ones it pulls to reach its minimum (never past its limit).
pub open spec fn take_counts(req: PlaceReq, nfree: int, nheld: int) -> (int, int) {
    let lim = req_limit(req);
    let nf = if nfree <= lim { nfree } else { lim };
    let target = if (req.min as int) <= lim { req.min as int } else { lim };
    let want = target - nf;
    let np = if want <= 0 { 0 } else if nheld <= want { nheld } else { want };
    (nf, np)
}

/// Chosen and pulled fulfillments after the first `k` requirements, given
/// each requirement's candidates in reach.
pub open spec fn plan_state(cw: ConstructedCity, reqs: Seq<PlaceReq>, cands: Seq<Seq<FulfilledPorf>>, k: int)
    -> (Seq<FulfilledPorf>, Seq<FulfilledPorf>)
    decreases k,
{
    if k <= 0 {
        (seq![], seq![])
    } else {
        let (chosen, pulled) = plan_state(cw, reqs, cands, k - 1);
        let open_ = unclaimed(cands[k - 1], chosen);
        let free = by_ownership(cw, open_, true);
        let held = by_ownership(cw, open_, false);
        let (nf, np) = take_counts(reqs[k - 1], free.len() as int, held.len() as int);
        (chosen + free.take(nf) + held.take(np), pulled + held.take(np))
    }
}

/// The pulled fulfillments whose owner is `id`.
pub open spec fn pulled_from(cw: ConstructedCity, pulled: Seq<FulfilledPorf>, id: PlacedPlaceId) -> Seq<FulfilledPorf>
    decreases pulled.len(),
{
    if pulled.len() == 0 {
        seq![]
    } else {
        let rest = pulled_from(cw, pulled.drop_last(), id);
        if owner_id(cw, pulled.last()) == Some(id) { rest.push(pulled.last()) } else { rest }
    }
}

/// Ids, in placement order, of the first `n` placed places that lose
/// something to the pull and then miss a minimum.
pub open spec fn destroy_upto(cw: ConstructedCity, pulled: Seq<FulfilledPorf>, n: int) -> Seq<PlacedPlaceId>
    decreases n,
{
    if n <= 0 {
        seq![]
    } else {
        let rest = destroy_upto(cw, pulled, n - 1);
        let e = cw.placed_places.items()[n - 1];
        let lost = pulled_from(cw, pulled, e.0);
        if lost.len() > 0 && !spec_still_meets(cw, cw.places@[e.1.place as int], e.1.fulfillments@, lost) {
            rest.push(e.0)
        } else {
            rest
        }
    }
}

fn contains_fp(v: &Vec<FulfilledPorf>, f: FulfilledPorf) -> (b: bool)
    ensures
        b == v@.contains(f),
{
    contains_fulfillment(v.as_slice(), f)
}

/// Plans a new place of kind `place_idx` from the candidates in reach of its
/// core, one list per requirement: each requirement takes free candidates
/// (held by no place, and not chosen for an earlier requirement) up to its
/// maximum, and pulls held ones only as far as its minimum needs; a place
/// that loses fulfillments and then misses a minimum is destroyed.
pub fn plan_with_candidates(cw: &ConstructedCity, place_idx: usize, candidates: &[Vec<FulfilledPorf>]) -> (plan: AssignmentPlan)
    requires
        cw.wf(),
        place_idx < cw.places@.len(),
        candidates@.len() == cw.places@[place_idx as int].requirements@.len(),
    ensures
        ({
            let reqs = cw.places@[place_idx as int].requirements@;
            let cands = candidates@.map_values(|v: Vec<FulfilledPorf>| v@);
            let (chosen, pulled) = plan_state(*cw, reqs, cands, reqs.len() as int);
            &&& plan.chosen@ == chosen
            &&& plan.pulled == pulled.len()
            &&& plan.destroy@ == destroy_upto(*cw, pulled, cw.placed_places.items().len() as int)
        }),
{
    let place = &cw.places[place_idx];
    let ghost reqs = place.requirements@;
    let ghost cands = candidates@.map_values(|v: Vec<FulfilledPorf>| v@);
    let mut chosen: Vec<FulfilledPorf> = Vec::new();
    let mut pulled: Vec<(FulfilledPorf, PlacedPlaceId)> = Vec::new();
    let mut k: usize = 0;
    while k < place.requirements.len()
        invariant
            k <= reqs.len(),
            reqs == place.requirements@,
            cands == candidates@.map_values(|v: Vec<FulfilledPorf>| v@),
            candidates@.len() == reqs.len(),
            cw.wf(),
            chosen@ == plan_state(*cw, reqs, cands, k as int).0,
            pulled@.map_values(|p: (FulfilledPorf, PlacedPlaceId)| p.0) == plan_state(*cw, reqs, cands, k as int).1,
            forall|j: int| 0 <= j < pulled@.len() ==> owner_id(*cw, (#[trigger] pulled@[j]).0) == Some(pulled@[j].1),
        decreases reqs.len() - k,
    {
        let req = &place.requirements[k];
        let list = &candidates[k];
        let ghost before = chosen@;
        // Split the unchosen candidates into free and held ones.
        let mut free: Vec<FulfilledPorf> = Vec::new();
        let mut held: Vec<(FulfilledPorf, PlacedPlaceId)> = Vec::new();
        let ghost open_ = unclaimed(list@, before);
        let mut i: usize = 0;
        while i < list.len()
            invariant
                i <= list@.len(),
                cw.wf(),
                chosen@ == before,
                free@ == by_ownership(*cw, unclaimed(list@.take(i as int), before), true),
                held@.map_values(|p: (FulfilledPorf, PlacedPlaceId)| p.0) == by_ownership(*cw, unclaimed(list@.take(i as int), before), false),
                forall|j: int| 0 <= j < held@.len() ==> owner_id(*cw, (#[trigger] held@[j]).0) == Some(held@[j].1),
            decreases list@.len() - i,
        {
            let c = list[i];
            proof {
                assert(list@.take(i + 1).drop_last() =~= list@.take(i as int));
            }
            if !contains_fp(&chosen, c) {
                let ghost u = unclaimed(list@.take(i as int), before);
                proof {
                    assert(unclaimed(list@.take(i + 1), before) == u.push(c));
                    assert(u.push(c).drop_last() =~= u);
                }
                match owner_of(cw, &c) {
                    None => {
                        free.push(c);
                    },
                    Some(o) => {
                        let ghost hv = held@;
                        held.push((c, o));
                        proof {
                            assert(held@.map_values(|p: (FulfilledPorf, PlacedPlaceId)| p.0)
                                =~= hv.map_values(|p: (FulfilledPorf, PlacedPlaceId)| p.0).push(c));
                        }
                    },
                }
            }
            i += 1;
        }
        proof {
            assert(list@.take(list@.len() as int) =~= list@);
            assert(cands[k as int] == list@);
        }
        let ghost hs = held@.map_values(|p: (FulfilledPorf, PlacedPlaceId)| p.0);
        let lim: usize = match req.max {
            Some(m) => m as usize,
            None => usize::MAX,
        };
        let minv: usize = req.min as usize;
        let ghost counts = take_counts(*req, free@.len() as int, hs.len() as int);
        // Take free candidates up to the limit.
        let mut t: usize = 0;
        while t < free.len() && t < lim
            invariant
                t <= free@.len(),
                t <= lim,
                cw.wf(),
                chosen@ == before + free@.take(t as int),
            decreases free@.len() - t,
        {
            chosen.push(free[t]);
            proof {
                assert(free@.take(t + 1) =~= free@.take(t as int).push(free@[t as int]));
                assert(before + free@.take(t + 1) =~= (before + free@.take(t as int)).push(free@[t as int]));
            }
            t += 1;
        }
        assert(t == counts.0);
        // Pull held ones only while below the minimum and the limit.
        let ghost pulled_before = pulled@;
        let need: usize = if minv > t { minv - t } else { 0 };
        let room: usize = lim - t;
        let mut h: usize = 0;
        while h < held.len() && h < need && h < room
            invariant
                h <= held@.len(),
                h <= need,
                h <= room,
                t == counts.0,
                cw.wf(),
                hs == held@.map_values(|p: (FulfilledPorf, PlacedPlaceId)| p.0),
                chosen@ == before + free@.take(t as int) + hs.take(h as int),
                pulled@ == pulled_before + held@.take(h as int),
                forall|j: int| 0 <= j < held@.len() ==> owner_id(*cw, (#[trigger] held@[j]).0) == Some(held@[j].1),
            decreases held@.len() - h,
        {
            let p = held[h];
            chosen.push(p.0);
            pulled.push(p);
            proof {
                assert(hs[h as int] == p.0);
                assert(hs.take(h + 1) =~= hs.take(h as int).push(p.0));
                assert(before + free@.take(t as int) + hs.take(h + 1)
                    =~= (before + free@.take(t as int) + hs.take(h as int)).push(p.0));
                assert(held@.take(h + 1) =~= held@.take(h as int).push(p));
                assert(pulled_before + held@.take(h + 1) =~= (pulled_before + held@.take(h as int)).push(p));
            }
            h += 1;
        }
        proof {
            assert(h == counts.1);
            assert(held@.take(h as int).map_values(|p: (FulfilledPorf, PlacedPlaceId)| p.0) =~= hs.take(h as int));
            assert(pulled@.map_values(|p: (FulfilledPorf, PlacedPlaceId)| p.0)
                =~= pulled_before.map_values(|p: (FulfilledPorf, PlacedPlaceId)| p.0) + hs.take(h as int));
            assert forall|j: int| 0 <= j < pulled@.len() implies owner_id(*cw, (#[trigger] pulled@[j]).0) == Some(pulled@[j].1) by {
                if j >= pulled_before.len() {
                    assert(pulled@[j] == held@[j - pulled_before.len()]);
                } else {
                    assert(pulled@[j] == pulled_before[j]);
                }
            }
        }
        k += 1;
    }
    let ghost all_pulled = pulled@.map_values(|p: (FulfilledPorf, PlacedPlaceId)| p.0);
    // Donors that miss a minimum once their pulled members are gone.
    let n = cw.placed_places.len();
    let mut destroy: Vec<PlacedPlaceId> = Vec::new();
    let mut d: usize = 0;
    while d < n
        invariant
            d <= n,
            n == cw.placed_places.items().len(),
            cw.wf(),
            all_pulled == pulled@.map_values(|p: (FulfilledPorf, PlacedPlaceId)| p.0),
            forall|j: int| 0 <= j < pulled@.len() ==> owner_id(*cw, (#[trigger] pulled@[j]).0) == Some(pulled@[j].1),
            destroy@ == destroy_upto(*cw, all_pulled, d as int),
        decreases n - d,
    {
        let (id, pp) = cw.placed_places.entry(d);
        let mut lost: Vec<FulfilledPorf> = Vec::new();
        let mut j: usize = 0;
        while j < pulled.len()
            invariant
                j <= pulled@.len(),
                all_pulled == pulled@.map_values(|p: (FulfilledPorf, PlacedPlaceId)| p.0),
                forall|w: int| 0 <= w < pulled@.len() ==> owner_id(*cw, (#[trigger] pulled@[w]).0) == Some(pulled@[w].1),
                lost@ == pulled_from(*cw, all_pulled.take(j as int), id),
            decreases pulled@.len() - j,
        {
            proof {
                assert(all_pulled.take(j + 1).drop_last() =~= all_pulled.take(j as int));
                assert(all_pulled.take(j + 1).last() == pulled@[j as int].0);
            }
            if pulled[j].1 == id {
                lost.push(pulled[j].0);
            }
            j += 1;
        }
        proof {
            assert(all_pulled.take(all_pulled.len() as int) =~= all_pulled);
            assert(cw.placed_places.items()[d as int].1.place < cw.places@.len());
        }
        if lost.len() > 0 && !donor_still_meets(cw, pp, lost.as_slice()) {
            destroy.push(id);
        }
        d += 1;
    }
    let count = pulled.len();
    AssignmentPlan { chosen, pulled: count, destroy }
}


/// What a newly formed place holds: nothing, with the given capacities,
/// except that a camp starts with 18 planks, 6 canvas and 20 potatoes.
pub fn starting_contents(place_name: &str, capacities: Vec<(StorageKind, u64)>) -> (inv: Inventory)
    ensures
        inv.caps() == capacities@,
        inv.entries() == (if place_name@ == "camp"@ {
            seq![
                InventoryEntry::Uniform(UniformResource::Plank, 18),
                InventoryEntry::Uniform(UniformResource::Canvas, 6),
                InventoryEntry::Uniform(UniformResource::Potato, 20),
            ]
        } else {
            Seq::<InventoryEntry>::empty()
        }),
{
    let mut contents = Inventory::new(capacities);
    if str_eq(place_name, "camp") {
        proof {
            lemma_no_uniform_empty(UniformResource::Plank);
        }
        contents.add_uniform(UniformResource::Plank, 18);
        proof {
            lemma_no_uniform_one(UniformResource::Plank, 18, UniformResource::Canvas);
        }
        contents.add_uniform(UniformResource::Canvas, 6);
        proof {
            lemma_no_uniform_two(UniformResource::Plank, 18, UniformResource::Canvas, 6, UniformResource::Potato);
        }
        contents.add_uniform(UniformResource::Potato, 20);
    }
    contents
}

proof fn lemma_no_uniform_empty(r: UniformResource)
    ensures
        no_uniform(Seq::<InventoryEntry>::empty(), r),
{
}

proof fn lemma_no_uniform_one(a: UniformResource, qa: u32, r: UniformResource)
    requires
        a != r,
    ensures
        no_uniform(seq![InventoryEntry::Uniform(a, qa)], r),
{
}

proof fn lemma_no_uniform_two(a: UniformResource, qa: u32, b: UniformResource, qb: u32, r: UniformResource)
    requires
        a != r,
        b != r,
    ensures
        no_uniform(seq![InventoryEntry::Uniform(a, qa), InventoryEntry::Uniform(b, qb)], r),
{
}

/// `items` with the places `ids` removed one after the other (stale ids
/// change nothing).
pub open spec fn remove_ids(items: Seq<(PlacedPlaceId, ParticularPlace)>, ids: Seq<PlacedPlaceId>) -> Seq<(PlacedPlaceId, ParticularPlace)>
    decreases ids.len(),
{
    if ids.len() == 0 {
        items
    } else {
        let rest = remove_ids(items, ids.drop_last());
        match position_of(rest, ids.last()) {
            Some(i) => rest.remove(i),
            None => rest,
        }
    }
}

/// Commits a planned place of kind `place_idx`: its chosen fulfillments are
/// taken from whatever place held them, the starved donors are destroyed
/// (their contents discarded), and the new place is added, unrestricted,
/// under a fresh id with contents as `starting_contents` gives them.
pub fn commit_plan(cw: &mut ConstructedCity, place_idx: usize, plan: AssignmentPlan, capacities: Vec<(StorageKind, u64)>) -> (id: PlacedPlaceId)
    requires
        old(cw).wf(),
        place_idx < old(cw).places@.len(),
        old(cw).placed_places.fresh() < u32::MAX,
    ensures
        final(cw).wf(),
        final(cw).contents == old(cw).contents,
        final(cw).eorfs == old(cw).eorfs,
        final(cw).places == old(cw).places,
        final(cw).furniture_slots == old(cw).furniture_slots,
        final(cw).furniture_restrictions == old(cw).furniture_restrictions,
        id.0 == old(cw).placed_places.fresh(),
        final(cw).placed_places.fresh() == old(cw).placed_places.fresh() + 1,
        ({
            let after = final(cw).placed_places.items();
            let made = after.last().1;
            &&& after.len() > 0
            &&& after.last().0 == id
            &&& made.place == place_idx
            &&& made.fulfillments@ == plan.chosen@
            &&& made.restriction is Unrestricted
            &&& made.contents.caps() == capacities@
            &&& made.contents.entries() == (if old(cw).places@[place_idx as int].name@ == "camp"@ {
                seq![
                    InventoryEntry::Uniform(UniformResource::Plank, 18),
                    InventoryEntry::Uniform(UniformResource::Canvas, 6),
                    InventoryEntry::Uniform(UniformResource::Potato, 20),
                ]
            } else {
                Seq::<InventoryEntry>::empty()
            })
            &&& exists|mid: Seq<(PlacedPlaceId, ParticularPlace)>|
                released(old(cw).placed_places.items(), mid, plan.chosen@)
                && #[trigger] remove_ids(mid, plan.destroy@) == after.drop_last()
        }),
{
    let ghost start = cw.placed_places.items();
    cw.placed_places.release(plan.chosen.as_slice());
    let ghost mid = cw.placed_places.items();
    proof {
        crate::place::lemma_placed_ids_increase(cw.placed_places);
        assert forall|k: int| 0 <= k < cw.placed_places.items().len()
            implies (#[trigger] cw.placed_places.items()[k]).1.place < cw.places@.len() by {
            assert(cw.placed_places.items()[k].1.place == start[k].1.place);
        }
    }
    let mut d: usize = 0;
    while d < plan.destroy.len()
        invariant
            d <= plan.destroy@.len(),
            cw.wf(),
            cw.places == old(cw).places,
            cw.contents == old(cw).contents,
            cw.eorfs == old(cw).eorfs,
            cw.furniture_slots == old(cw).furniture_slots,
            cw.furniture_restrictions == old(cw).furniture_restrictions,
            cw.placed_places.fresh() == old(cw).placed_places.fresh(),
            cw.placed_places.items() == remove_ids(mid, plan.destroy@.take(d as int)),
        decreases plan.destroy@.len() - d,
    {
        let ghost before = cw.placed_places.items();
        let target = plan.destroy[d];
        unassign_place(cw, target);
        proof {
            assert(plan.destroy@.take(d + 1).drop_last() =~= plan.destroy@.take(d as int));
            assert(plan.destroy@.take(d + 1).last() == target);
        }
        d += 1;
    }
    proof {
        assert(plan.destroy@.take(plan.destroy@.len() as int) =~= plan.destroy@);
    }
    let name = cw.places[place_idx].name.as_str();
    let contents = starting_contents(name, capacities);
    let ghost kept = cw.placed_places.items();
    let made = ParticularPlace {
        place: place_idx,
        fulfillments: plan.chosen,
        contents,
        restriction: ParentRestriction::Unrestricted,
    };
    let id = cw.placed_places.insert(made);
    proof {
        assert(cw.placed_places.items().drop_last() =~= kept);
        assert(released(start, mid, plan.chosen@));
        assert forall|k: int| 0 <= k < cw.placed_places.items().len()
            implies (#[trigger] cw.placed_places.items()[k]).1.place < cw.places@.len() by {
            if k < kept.len() {
                assert(cw.placed_places.items()[k] == kept[k]);
            }
        }
    }
    id
}


/// The restriction set on the furniture in `cube` (the first recorded).
pub open spec fn restriction_at(rs: Seq<(IVec3, ParentRestriction)>, cube: IVec3) -> Option<ParentRestriction>
    decreases rs.len(),
{
    if rs.len() == 0 {
        None
    } else if rs[0].0 == cube {
        Some(rs[0].1)
    } else {
        restriction_at(rs.drop_first(), cube)
    }
}

/// The place kind named `parent` may keep fulfillment `f`: furniture whose
/// cube carries no restriction or one that allows it, or a placed place
/// that still exists and whose own restriction allows it.
pub open spec fn spec_allowed(cw: ConstructedCity, f: FulfilledPorf, parent: Seq<char>) -> bool {
    match f {
        FulfilledPorf::Furniture(loc) => match restriction_at(cw.furniture_restrictions@, loc.cube) {
            Some(r) => spec_allows(r, parent),
            None => true,
        },
        FulfilledPorf::Place(pid) => match position_of(cw.placed_places.items(), pid) {
            Some(i) => spec_allows(cw.placed_places.items()[i].1.restriction, parent),
            None => false,
        },
    }
}

/// The `(place, fulfillment)` pairs, over the first `n` placed places in
/// order and each one's fulfillments in order, that are no longer allowed.
pub open spec fn disallowed_upto(cw: ConstructedCity, n: int) -> Seq<(PlacedPlaceId, FulfilledPorf)>
    decreases n,
{
    if n <= 0 {
        seq![]
    } else {
        let e = cw.placed_places.items()[n - 1];
        disallowed_upto(cw, n - 1) + disallowed_in(cw, e.0, e.1.fulfillments@, cw.places@[e.1.place as int].name@)
    }
}

/// The pairs `(id, f)` for the fulfillments `f` among `fs` that `parent` may
/// not keep.
pub open spec fn disallowed_in(cw: ConstructedCity, id: PlacedPlaceId, fs: Seq<FulfilledPorf>, parent: Seq<char>) -> Seq<(PlacedPlaceId, FulfilledPorf)>
    decreases fs.len(),
{
    if fs.len() == 0 {
        seq![]
    } else {
        let rest = disallowed_in(cw, id, fs.drop_last(), parent);
        if spec_allowed(cw, fs.last(), parent) { rest } else { rest.push((id, fs.last())) }
    }
}

pub(crate) fn restriction_of(rs: &Vec<(IVec3, ParentRestriction)>, cube: IVec3) -> (r: Option<&ParentRestriction>)
    ensures
        match restriction_at(rs@, cube) {
            Some(x) => r == Some(&x),
            None => r is None,
        },
{
    let mut i: usize = 0;
    proof {
        assert(rs@.skip(0) =~= rs@);
    }
    while i < rs.len()
        invariant
            i <= rs@.len(),
            restriction_at(rs@, cube) == restriction_at(rs@.skip(i as int), cube),
        decreases rs@.len() - i,
    {
        proof {
            assert(rs@.skip(i as int).drop_first() =~= rs@.skip(i + 1));
        }
        if rs[i].0 == cube {
            return Some(&rs[i].1);
        }
        i += 1;
    }
    None
}

fn allowed(cw: &ConstructedCity, f: FulfilledPorf, parent: &str) -> (b: bool)
    requires
        cw.wf(),
    ensures
        b == spec_allowed(*cw, f, parent@),
{
    match f {
        FulfilledPorf::Furniture(loc) => match restriction_of(&cw.furniture_restrictions, loc.cube) {
            Some(r) => r.allows(parent),
            None => true,
        },
        FulfilledPorf::Place(pid) => match cw.placed_places.get(pid) {
            Some(p) => p.restriction.allows(parent),
            None => false,
        },
    }
}

/// Every held fulfillment whose restriction no longer allows the place
/// holding it, as `(holder, fulfillment)` in placement order.
pub fn disallowed_fulfillments(cw: &ConstructedCity) -> (ev: Vec<(PlacedPlaceId, FulfilledPorf)>)
    requires
        cw.wf(),
    ensures
        ev@ == disallowed_upto(*cw, cw.placed_places.items().len() as int),
{
    let n = cw.placed_places.len();
    let mut ev: Vec<(PlacedPlaceId, FulfilledPorf)> = Vec::new();
    let mut i: usize = 0;
    while i < n
        invariant
            i <= n,
            n == cw.placed_places.items().len(),
            cw.wf(),
            ev@ == disallowed_upto(*cw, i as int),
        decreases n - i,
    {
        let (id, pp) = cw.placed_places.entry(i);
        assert(cw.placed_places.items()[i as int].1.place < cw.places@.len());
        let parent = cw.places[pp.place].name.as_str();
        let ghost before = ev@;
        let mut k: usize = 0;
        while k < pp.fulfillments.len()
            invariant
                k <= pp.fulfillments@.len(),
                cw.wf(),
                ev@ == before + disallowed_in(*cw, id, pp.fulfillments@.take(k as int), parent@),
            decreases pp.fulfillments@.len() - k,
        {
            proof {
                assert(pp.fulfillments@.take(k + 1).drop_last() =~= pp.fulfillments@.take(k as int));
            }
            let f = pp.fulfillments[k];
            if !allowed(cw, f, parent) {
                ev.push((id, f));
                proof {
                    assert(before + disallowed_in(*cw, id, pp.fulfillments@.take(k + 1), parent@)
                        =~= (before + disallowed_in(*cw, id, pp.fulfillments@.take(k as int), parent@)).push((id, f)));
                }
            }
            k += 1;
        }
        proof {
            assert(pp.fulfillments@.take(pp.fulfillments@.len() as int) =~= pp.fulfillments@);
        }
        i += 1;
    }
    ev
}

/// Evicts every held fulfillment whose restriction no longer allows its
/// holder (the first step of re-forming places); returns whether there was
/// anything to evict.
pub fn evict_disallowed(cw: &mut ConstructedCity) -> (changed: bool)
    requires
        old(cw).wf(),
    ensures
        final(cw).wf(),
        final(cw).contents == old(cw).contents,
        final(cw).eorfs == old(cw).eorfs,
        final(cw).places == old(cw).places,
        final(cw).furniture_slots == old(cw).furniture_slots,
        final(cw).furniture_restrictions == old(cw).furniture_restrictions,
        final(cw).placed_places.fresh() == old(cw).placed_places.fresh(),
        stripped(old(cw).placed_places.items(), final(cw).placed_places.items(), Seq::<FulfilledPorf>::empty(),
            disallowed_upto(*old(cw), old(cw).placed_places.items().len() as int)),
        changed == (disallowed_upto(*old(cw), old(cw).placed_places.items().len() as int).len() > 0),
{
    let ev = disallowed_fulfillments(cw);
    let ghost start = cw.placed_places.items();
    cw.placed_places.evict(ev.as_slice());
    proof {
        assert forall|k: int| 0 <= k < cw.placed_places.items().len()
            implies (#[trigger] cw.placed_places.items()[k]).1.place < cw.places@.len() by {
            assert(cw.placed_places.items()[k].1.place == start[k].1.place);
        }
    }
    ev.len() > 0
}

} // verus!
