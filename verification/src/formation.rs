//! Where places may form without a chosen cube: every candidate core of
//! every place kind, in a stable scan order, and the starting camp wagon.
use vstd::prelude::*;
use crate::city::{
    all_furniture_named, furniture_cubes_named, holds_tool, location_within, name_of_cell, place_location,
    restriction_at, restriction_of, tool_installed, try_place_location, Cell, ConstructedCity,
};
use crate::eorf::{find_structure_by_name, first_named, EorfId};
use crate::materials::BuildMaterialId;
use crate::place::{spec_allows, Porf};
use crate::resource::ToolKind;
use crate::sparse3d::{Facing, IVec3, Slot, SlotCoord};
use crate::text::str_eq;

verus! {

/// The cubes, in slot-record order among the first `n` records, of room
/// furniture named `name` with a tool of `kind` installed.
pub open spec fn tool_cubes(cw: ConstructedCity, kind: ToolKind, name: Seq<char>, n: int) -> Seq<IVec3>
    decreases n,
{
    if n <= 0 {
        seq![]
    } else {
        let r = cw.furniture_slots@[n - 1];
        let prev = tool_cubes(cw, kind, name, n - 1);
        let named = match cw.kind_at(SlotCoord { cube: r.0, slot: Slot::Room }) {
            Some(info) => info.name@ == name,
            None => false,
        };
        if holds_tool(r.1@, kind) && named { prev.push(r.0) } else { prev }
    }
}

/// The cubes of all room furniture named `furniture_name` with a tool of
/// `kind` installed (see `tool_cubes`).
pub fn all_furniture_with_installed_tool(cw: &ConstructedCity, kind: ToolKind, furniture_name: &str) -> (cubes: Vec<IVec3>)
    requires
        cw.wf(),
    ensures
        cubes@ == tool_cubes(*cw, kind, furniture_name@, cw.furniture_slots@.len() as int),
{
    let mut cubes: Vec<IVec3> = Vec::new();
    let mut k: usize = 0;
    while k < cw.furniture_slots.len()
        invariant
            k <= cw.furniture_slots@.len(),
            cw.wf(),
            cubes@ == tool_cubes(*cw, kind, furniture_name@, k as int),
        decreases cw.furniture_slots@.len() - k,
    {
        let cube = cw.furniture_slots[k].0;
        let has_tool = tool_installed(&cw.furniture_slots[k].1, kind);
        let named = match name_of_cell(cw, SlotCoord { cube, slot: Slot::Room }) {
            Some(info) => str_eq(info.name.as_str(), furniture_name),
            None => false,
        };
        if has_tool && named {
            cubes.push(cube);
        }
        k += 1;
    }
    cubes
}

/// The furniture in `cube` may be claimed by a place kind named `parent`:
/// the cube carries no restriction, or one that allows it.
pub open spec fn cube_allows(cw: ConstructedCity, cube: IVec3, parent: Seq<char>) -> bool {
    match restriction_at(cw.furniture_restrictions@, cube) {
        Some(r) => spec_allows(r, parent),
        None => true,
    }
}

/// The cubes among `cubes` whose furniture `parent` may claim, in order.
pub open spec fn allowed_cubes(cw: ConstructedCity, cubes: Seq<IVec3>, parent: Seq<char>) -> Seq<IVec3>
    decreases cubes.len(),
{
    if cubes.len() == 0 {
        seq![]
    } else {
        let prev = allowed_cubes(cw, cubes.drop_last(), parent);
        if cube_allows(cw, cubes.last(), parent) { prev.push(cubes.last()) } else { prev }
    }
}

/// Every placed place resolves to a location (see `location_within`).
pub open spec fn all_located(cw: ConstructedCity) -> bool {
    forall|i: int| 0 <= i < cw.placed_places.items().len() ==>
        (#[trigger] location_within(cw, cw.placed_places.items()[i].0, cw.placed_places.items().len() as nat)) is Some
}

/// The locations, in placement order among the first `n` placed places, of
/// the places of the kind named `name` that a kind named `parent` may nest.
pub open spec fn place_core_cubes(cw: ConstructedCity, name: Seq<char>, parent: Seq<char>, n: int) -> Seq<IVec3>
    decreases n,
{
    if n <= 0 {
        seq![]
    } else {
        let e = cw.placed_places.items()[n - 1];
        let prev = place_core_cubes(cw, name, parent, n - 1);
        if cw.places@[e.1.place as int].name@ == name && spec_allows(e.1.restriction, parent) {
            prev.push(location_within(cw, e.0, cw.placed_places.items().len() as nat)->0)
        } else {
            prev
        }
    }
}

/// The cubes a place of kind `idx` could form around: by its first (core)
/// requirement, the furniture of that name anywhere, the places of that
/// kind, or the furniture of that name with the tool installed, each that
/// the kind may claim. A kind without requirements has none.
pub open spec fn core_cubes(cw: ConstructedCity, idx: int) -> Seq<IVec3> {
    let place = cw.places@[idx];
    let parent = place.name@;
    if place.requirements@.len() == 0 {
        seq![]
    } else {
        match place.requirements@[0].requirement {
            Porf::Furniture(name) => allowed_cubes(cw, furniture_cubes_named(cw, name@, cw.contents.entries().len() as int), parent),
            Porf::Place(name) => place_core_cubes(cw, name@, parent, cw.placed_places.items().len() as int),
            Porf::InstalledTool(kind, name) => allowed_cubes(cw, tool_cubes(cw, kind, name@, cw.furniture_slots@.len() as int), parent),
        }
    }
}

/// The candidate cores of the first `m` place kinds, kind by kind.
pub open spec fn candidates_upto(cw: ConstructedCity, m: int) -> Seq<(IVec3, usize)>
    decreases m,
{
    if m <= 0 {
        seq![]
    } else {
        candidates_upto(cw, m - 1) + core_cubes(cw, m - 1).map_values(|c: IVec3| (c, (m - 1) as usize))
    }
}

/// `a` comes before `b` in scan order: by cube x, then y, then z, then
/// place kind.
pub open spec fn scan_before(a: (IVec3, usize), b: (IVec3, usize)) -> bool {
    ||| a.0.x < b.0.x
    ||| a.0.x == b.0.x && a.0.y < b.0.y
    ||| a.0.x == b.0.x && a.0.y == b.0.y && a.0.z < b.0.z
    ||| a.0.x == b.0.x && a.0.y == b.0.y && a.0.z == b.0.z && a.1 < b.1
}

/// `sorted` with `x` put after every entry that does not come after it.
pub open spec fn insert_in_scan(sorted: Seq<(IVec3, usize)>, x: (IVec3, usize)) -> Seq<(IVec3, usize)>
    decreases sorted.len(),
{
    if sorted.len() == 0 {
        seq![x]
    } else if !scan_before(x, sorted.last()) {
        sorted.push(x)
    } else {
        insert_in_scan(sorted.drop_last(), x).push(sorted.last())
    }
}

/// `s` in scan order, equal entries keeping their order.
pub open spec fn in_scan_order(s: Seq<(IVec3, usize)>) -> Seq<(IVec3, usize)>
    decreases s.len(),
{
    if s.len() == 0 {
        s
    } else {
        insert_in_scan(in_scan_order(s.drop_last()), s.last())
    }
}

fn before(a: (IVec3, usize), b: (IVec3, usize)) -> (r: bool)
    ensures
        r == scan_before(a, b),
{
    a.0.x < b.0.x
        || (a.0.x == b.0.x && a.0.y < b.0.y)
        || (a.0.x == b.0.x && a.0.y == b.0.y && a.0.z < b.0.z)
        || (a.0.x == b.0.x && a.0.y == b.0.y && a.0.z == b.0.z && a.1 < b.1)
}

fn insert_scan(out: &mut Vec<(IVec3, usize)>, x: (IVec3, usize))
    ensures
        final(out)@ == insert_in_scan(old(out)@, x),
{
    let ghost s = out@;
    let mut j: usize = out.len();
    proof {
        assert(s.take(j as int) =~= s);
        assert(insert_in_scan(s, x) + s.skip(j as int) =~= insert_in_scan(s, x));
    }
    loop
        invariant
            out@ == s,
            j <= s.len(),
            insert_in_scan(s, x) == insert_in_scan(s.take(j as int), x) + s.skip(j as int),
        ensures
            j == 0 || !scan_before(x, s[j - 1]),
        decreases j,
    {
        if j == 0 {
            break;
        }
        if !before(x, out[j - 1]) {
            break;
        }
        proof {
            let t = s.take(j as int);
            assert(t.drop_last() =~= s.take(j - 1));
            assert(t.last() == s[j - 1]);
            assert(insert_in_scan(t, x) == insert_in_scan(s.take(j - 1), x).push(s[j - 1]));
            assert(insert_in_scan(s.take(j - 1), x).push(s[j - 1]) + s.skip(j as int)
                =~= insert_in_scan(s.take(j - 1), x) + s.skip(j - 1));
        }
        j = j - 1;
    }
    proof {
        let t = s.take(j as int);
        if j > 0 {
            assert(t.last() == s[j - 1]);
        }
        assert(insert_in_scan(t, x) == t.push(x));
        assert(t.push(x) + s.skip(j as int) =~= s.insert(j as int, x));
    }
    out.insert(j, x);
}

fn push_kind(all: &mut Vec<(IVec3, usize)>, cubes: &Vec<IVec3>, idx: usize)
    ensures
        final(all)@ == old(all)@ + cubes@.map_values(|c: IVec3| (c, idx)),
{
    let ghost start = all@;
    let mut k: usize = 0;
    while k < cubes.len()
        invariant
            k <= cubes@.len(),
            all@ == start + cubes@.take(k as int).map_values(|c: IVec3| (c, idx)),
        decreases cubes@.len() - k,
    {
        all.push((cubes[k], idx));
        proof {
            assert(cubes@.take(k + 1).map_values(|c: IVec3| (c, idx))
                =~= cubes@.take(k as int).map_values(|c: IVec3| (c, idx)).push((cubes@[k as int], idx)));
        }
        k += 1;
    }
    proof {
        assert(cubes@.take(cubes@.len() as int) =~= cubes@);
    }
}

fn keep_allowed(cw: &ConstructedCity, cubes: &Vec<IVec3>, parent: &str) -> (kept: Vec<IVec3>)
    ensures
        kept@ == allowed_cubes(*cw, cubes@, parent@),
{
    let mut kept: Vec<IVec3> = Vec::new();
    let mut k: usize = 0;
    while k < cubes.len()
        invariant
            k <= cubes@.len(),
            kept@ == allowed_cubes(*cw, cubes@.take(k as int), parent@),
        decreases cubes@.len() - k,
    {
        proof {
            assert(cubes@.take(k + 1).drop_last() =~= cubes@.take(k as int));
            assert(cubes@.take(k + 1).last() == cubes@[k as int]);
        }
        let ok = match restriction_of(&cw.furniture_restrictions, cubes[k]) {
            Some(r) => r.allows(parent),
            None => true,
        };
        if ok {
            kept.push(cubes[k]);
        }
        k += 1;
    }
    proof {
        assert(cubes@.take(cubes@.len() as int) =~= cubes@);
    }
    kept
}

fn place_cores(cw: &ConstructedCity, name: &str, parent: &str) -> (cubes: Vec<IVec3>)
    requires
        cw.wf(),
        all_located(*cw),
    ensures
        cubes@ == place_core_cubes(*cw, name@, parent@, cw.placed_places.items().len() as int),
{
    let n = cw.placed_places.len();
    let mut cubes: Vec<IVec3> = Vec::new();
    let mut i: usize = 0;
    while i < n
        invariant
            i <= n,
            n == cw.placed_places.items().len(),
            cw.wf(),
            all_located(*cw),
            cubes@ == place_core_cubes(*cw, name@, parent@, i as int),
        decreases n - i,
    {
        let (id, pp) = cw.placed_places.entry(i);
        if str_eq(cw.places[pp.place].name.as_str(), name) && pp.restriction.allows(parent) {
            proof {
                assert(location_within(*cw, cw.placed_places.items()[i as int].0, n as nat) is Some);
            }
            cubes.push(place_location(cw, id));
        }
        i += 1;
    }
    cubes
}

/// Every candidate core across all place kinds (see `core_cubes`), paired
/// with the kind's index, in scan order: by cube x, then y, then z, then
/// place kind. Needs every placed place to resolve to a location, as it does
/// once places that do not have been dissolved.
pub fn core_candidates(cw: &ConstructedCity) -> (candidates: Vec<(IVec3, usize)>)
    requires
        cw.wf(),
        all_located(*cw),
    ensures
        candidates@ == in_scan_order(candidates_upto(*cw, cw.places@.len() as int)),
{
    let mut all: Vec<(IVec3, usize)> = Vec::new();
    let mut idx: usize = 0;
    while idx < cw.places.len()
        invariant
            idx <= cw.places@.len(),
            cw.wf(),
            all_located(*cw),
            all@ == candidates_upto(*cw, idx as int),
        decreases cw.places@.len() - idx,
    {
        let place = &cw.places[idx];
        let parent = place.name.as_str();
        if place.requirements.len() > 0 {
            let cubes = match &place.requirements[0].requirement {
                Porf::Furniture(name) => {
                    let named = all_furniture_named(cw, name.as_str());
                    keep_allowed(cw, &named, parent)
                },
                Porf::Place(name) => place_cores(cw, name.as_str(), parent),
                Porf::InstalledTool(kind, name) => {
                    let tooled = all_furniture_with_installed_tool(cw, *kind, name.as_str());
                    keep_allowed(cw, &tooled, parent)
                },
            };
            push_kind(&mut all, &cubes, idx);
        } else {
            proof {
                assert(core_cubes(*cw, idx as int).map_values(|c: IVec3| (c, idx)) =~= Seq::<(IVec3, usize)>::empty());
                assert(all@ + Seq::<(IVec3, usize)>::empty() =~= all@);
            }
        }
        idx += 1;
    }
    let mut sorted: Vec<(IVec3, usize)> = Vec::new();
    let mut k: usize = 0;
    while k < all.len()
        invariant
            k <= all@.len(),
            sorted@ == in_scan_order(all@.take(k as int)),
        decreases all@.len() - k,
    {
        proof {
            assert(all@.take(k + 1).drop_last() =~= all@.take(k as int));
            assert(all@.take(k + 1).last() == all@[k as int]);
        }
        insert_scan(&mut sorted, all[k]);
        k += 1;
    }
    proof {
        assert(all@.take(all@.len() as int) =~= all@);
    }
    sorted
}

/// The entries of `s` never step back in scan order.
pub open spec fn scan_sorted(s: Seq<(IVec3, usize)>) -> bool {
    forall|a: int, b: int| 0 <= a < b < s.len() ==> !scan_before(#[trigger] s[b], #[trigger] s[a])
}

proof fn lemma_scan_total(a: (IVec3, usize), b: (IVec3, usize), c: (IVec3, usize))
    ensures
        !scan_before(a, b) && !scan_before(b, c) ==> !scan_before(a, c),
        !scan_before(a, b) ==> scan_before(b, a) || a == b,
{
}

proof fn lemma_insert_scan(sorted: Seq<(IVec3, usize)>, x: (IVec3, usize))
    ensures
        insert_in_scan(sorted, x).len() == sorted.len() + 1,
        scan_sorted(sorted) ==> scan_sorted(insert_in_scan(sorted, x)),
        forall|k: int| 0 <= k < insert_in_scan(sorted, x).len() ==>
            (#[trigger] insert_in_scan(sorted, x)[k] == x || sorted.contains(insert_in_scan(sorted, x)[k])),
        insert_in_scan(sorted, x).contains(x),
        forall|k: int| 0 <= k < sorted.len() ==> insert_in_scan(sorted, x).contains(#[trigger] sorted[k]),
    decreases sorted.len(),
{
    let r = insert_in_scan(sorted, x);
    if sorted.len() == 0 {
        assert(r[0] == x);
    } else if !scan_before(x, sorted.last()) {
        assert(r == sorted.push(x));
        assert(r[sorted.len() as int] == x);
        assert forall|k: int| 0 <= k < r.len() implies (#[trigger] r[k] == x || sorted.contains(r[k])) by {
            if k < sorted.len() {
                assert(r[k] == sorted[k]);
            }
        }
        assert forall|k: int| 0 <= k < sorted.len() implies r.contains(#[trigger] sorted[k]) by {
            assert(r[k] == sorted[k]);
        }
        if scan_sorted(sorted) {
            assert forall|a: int, b: int| 0 <= a < b < r.len() implies !scan_before(#[trigger] r[b], #[trigger] r[a]) by {
                if b < sorted.len() {
                    assert(r[a] == sorted[a] && r[b] == sorted[b]);
                } else {
                    assert(r[a] == sorted[a]);
                    let l = sorted.len() - 1;
                    assert(sorted[l] == sorted.last());
                    if a < l {
                        assert(!scan_before(sorted[l], sorted[a]));
                        lemma_scan_total(x, sorted[l], sorted[a]);
                    }
                }
            }
        }
    } else {
        let d = sorted.drop_last();
        let i = insert_in_scan(d, x);
        lemma_insert_scan(d, x);
        assert(r == i.push(sorted.last()));
        assert(r[i.len() as int] == sorted.last());
        assert forall|k: int| 0 <= k < r.len() implies (#[trigger] r[k] == x || sorted.contains(r[k])) by {
            if k < i.len() {
                assert(r[k] == i[k]);
                if i[k] != x {
                    let w = choose|w: int| 0 <= w < d.len() && d[w] == i[k];
                    assert(sorted[w] == d[w]);
                }
            } else {
                assert(sorted[sorted.len() - 1] == sorted.last());
            }
        }
        assert(r.contains(x)) by {
            let w = choose|w: int| 0 <= w < i.len() && i[w] == x;
            assert(r[w] == i[w]);
        }
        assert forall|k: int| 0 <= k < sorted.len() implies r.contains(#[trigger] sorted[k]) by {
            if k < d.len() {
                assert(d[k] == sorted[k]);
                assert(i.contains(d[k]));
                let w = choose|w: int| 0 <= w < i.len() && i[w] == d[k];
                assert(r[w] == i[w]);
            } else {
                assert(sorted[k] == sorted.last());
            }
        }
        if scan_sorted(sorted) {
            assert(scan_sorted(d)) by {
                assert forall|a: int, b: int| 0 <= a < b < d.len() implies !scan_before(#[trigger] d[b], #[trigger] d[a]) by {
                    assert(d[a] == sorted[a] && d[b] == sorted[b]);
                }
            }
            let l = sorted.len() - 1;
            assert(sorted[l] == sorted.last());
            assert forall|k: int| 0 <= k < i.len() implies !scan_before(sorted.last(), #[trigger] i[k]) by {
                if i[k] == x {
                    lemma_scan_total(sorted.last(), x, x);
                } else {
                    let w = choose|w: int| 0 <= w < d.len() && d[w] == i[k];
                    assert(sorted[w] == d[w]);
                }
            }
            assert forall|a: int, b: int| 0 <= a < b < r.len() implies !scan_before(#[trigger] r[b], #[trigger] r[a]) by {
                assert(r[a] == i[a]);
                if b < i.len() {
                    assert(r[b] == i[b]);
                }
            }
        }
    }
}

/// Candidates in scan order are sorted, and sorting neither drops nor adds
/// a candidate: every entry of the input is in the output and every entry
/// of the output was in the input, with the count unchanged.
pub proof fn lemma_scan_order_sorts(s: Seq<(IVec3, usize)>)
    ensures
        scan_sorted(in_scan_order(s)),
        in_scan_order(s).len() == s.len(),
        forall|k: int| 0 <= k < s.len() ==> in_scan_order(s).contains(#[trigger] s[k]),
        forall|k: int| 0 <= k < s.len() ==> s.contains(#[trigger] in_scan_order(s)[k]),
    decreases s.len(),
{
    if s.len() > 0 {
        let d = s.drop_last();
        lemma_scan_order_sorts(d);
        let sd = in_scan_order(d);
        lemma_insert_scan(sd, s.last());
        let r = in_scan_order(s);
        assert forall|k: int| 0 <= k < s.len() implies r.contains(#[trigger] s[k]) by {
            if k < d.len() {
                assert(s[k] == d[k]);
                let w = choose|w: int| 0 <= w < sd.len() && sd[w] == d[k];
                assert(sd.contains(sd[w]));
            }
        }
        assert forall|k: int| 0 <= k < s.len() implies s.contains(#[trigger] r[k]) by {
            if r[k] == s.last() {
                assert(s[s.len() - 1] == s.last());
            } else {
                let w = choose|w: int| 0 <= w < sd.len() && sd[w] == r[k];
                assert(d.contains(sd[w]));
                let v = choose|v: int| 0 <= v < d.len() && d[v] == sd[w];
                assert(s[v] == d[v]);
            }
        }
    }
}

/// The cube whose room the starting camp wagon stands in.
pub open spec fn wagon_cube() -> IVec3 {
    IVec3 { x: 7, y: 0, z: -1i32 }
}

/// Puts the starting camp wagon into the city as built, from which a camp
/// forms and gives the player storage from the start: the first structure
/// named "wagon", in the room of cube (7, 0, -1), with the default facing
/// and material. Returns the cell changes made.
pub fn place_initial_places(cw: &mut ConstructedCity) -> (changes: Vec<(SlotCoord, Option<Cell>)>)
    requires
        old(cw).wf(),
        old(cw).eorfs@.len() <= u32::MAX,
        first_named(old(cw).eorfs@, "wagon"@, old(cw).eorfs@.len() as int) is Some,
    ensures
        final(cw).wf(),
        ({
            let loc = SlotCoord { cube: wagon_cube(), slot: Slot::Room };
            let id = EorfId(first_named(old(cw).eorfs@, "wagon"@, old(cw).eorfs@.len() as int)->0 as u32);
            let cell = Cell { id, facing: Facing::NegX, build_material: BuildMaterialId(5) };
            &&& changes@ == seq![(loc, Some(cell))]
            &&& final(cw).contents.at(loc) == Some(cell)
            &&& forall|other: SlotCoord| other != loc ==> final(cw).contents.at(other) == old(cw).contents.at(other)
        }),
        final(cw).eorfs@ == old(cw).eorfs@,
        final(cw).places@ == old(cw).places@,
        final(cw).placed_places == old(cw).placed_places,
        final(cw).furniture_slots@ == old(cw).furniture_slots@,
        final(cw).furniture_restrictions@ == old(cw).furniture_restrictions@,
{
    proof {
        crate::eorf::lemma_first_named(cw.eorfs@, "wagon"@, cw.eorfs@.len() as int);
    }
    let id = match find_structure_by_name(cw.eorfs.as_slice(), "wagon") {
        Some(id) => id,
        None => EorfId(0),
    };
    let loc = SlotCoord { cube: IVec3 { x: 7, y: 0, z: -1 }, slot: Slot::Room };
    let cell = Cell { id, facing: Facing::default(), build_material: BuildMaterialId::default() };
    let ghost before = cw.contents.entries();
    cw.contents.set(loc, cell);
    proof {
        assert forall|k: int| 0 <= k < cw.contents.entries().len() implies
            (#[trigger] cw.contents.entries()[k]).1.id.0 < cw.eorfs@.len() by {
            if cw.contents.entries()[k] != (loc, cell) {
                let j = choose|j: int| 0 <= j < before.len() && before[j] == cw.contents.entries()[k];
                assert(before[j].1.id.0 < cw.eorfs@.len());
            }
        }
    }
    let mut changes: Vec<(SlotCoord, Option<Cell>)> = Vec::new();
    changes.push((loc, Some(cell)));
    changes
}

} // verus!
