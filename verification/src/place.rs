//! Places: kinds of room defined by the furniture (or nested places) they
//! require, and the bookkeeping of placed instances.
use vstd::prelude::*;
use crate::eorf::EorfInfo;
use crate::resource::{Approximation, Inventory, ToolKind};
use crate::sparse3d::SlotCoord;
use crate::text::str_eq;

verus! {

/// Which place kinds may claim a furniture or place kind.
pub enum ParentRestriction {
    /// May be claimed by any place kind that requires it.
    Unrestricted,
    /// May never be claimed.
    Excluded,
    /// May only be claimed by the named place kind.
    RestrictedTo(String),
}

pub open spec fn spec_allows(r: ParentRestriction, parent: Seq<char>) -> bool {
    match r {
        ParentRestriction::Unrestricted => true,
        ParentRestriction::Excluded => false,
        ParentRestriction::RestrictedTo(name) => name@ == parent,
    }
}

impl Default for ParentRestriction {
    fn default() -> (r: Self)
        ensures
            r is Unrestricted,
    {
        ParentRestriction::Unrestricted
    }
}

impl ParentRestriction {
    /// Whether a place kind named `parent_name` may claim under this restriction.
    pub fn allows(&self, parent_name: &str) -> (b: bool)
        ensures
            b == spec_allows(*self, parent_name@),
    {
        match self {
            ParentRestriction::Unrestricted => true,
            ParentRestriction::Excluded => false,
            ParentRestriction::RestrictedTo(name) => str_eq(name.as_str(), parent_name),
        }
    }
}


/// What assigning a worker to a workplace does.
#[derive(Clone, Copy, PartialEq, Eq, Debug, Structural)]
pub enum WorkEffect {
    /// Find the tool installed in the place, and apply its effect.
    ToolEffect,
    /// No effect yet.
    TodoEffect,
}

/// Which need an individual can satisfy by being assigned to a place.
#[derive(Clone, Copy, PartialEq, Eq, Debug, Hash, Structural)]
pub enum AssignmentFlavor {
    Sleep,
    Work,
}

impl AssignmentFlavor {
    /// Short human-readable label.
    pub fn label(&self) -> (s: &'static str)
        ensures
            s@ == (match *self {
                AssignmentFlavor::Sleep => "Sleep"@,
                AssignmentFlavor::Work => "Work"@,
            }),
    {
        match self {
            AssignmentFlavor::Sleep => "Sleep",
            AssignmentFlavor::Work => "Work",
        }
    }
}

/// What a place requirement is fulfilled by: a piece of furniture, another
/// (nested) place, or a furniture piece with a tool installed in it. Named by
/// the definition it points at.
pub enum Porf {
    Furniture(String),
    Place(String),
    InstalledTool(ToolKind, String),
}

/// The definition name a requirement points at.
pub open spec fn porf_name(p: Porf) -> Seq<char> {
    match p {
        Porf::Furniture(n) => n@,
        Porf::Place(n) => n@,
        Porf::InstalledTool(_, n) => n@,
    }
}

impl Porf {
    /// The furniture or place name this requirement points at.
    pub fn name(&self) -> (n: &str)
        ensures
            n@ == porf_name(*self),
    {
        match self {
            Porf::Furniture(n) => n.as_str(),
            Porf::Place(n) => n.as_str(),
            Porf::InstalledTool(_, n) => n.as_str(),
        }
    }
}

/// One requirement of a place kind: between `min` and `max` (unbounded when
/// `None`) fulfillments of `requirement`.
pub struct PlaceReq {
    pub requirement: Porf,
    pub min: u8,
    pub max: Option<u8>,
}

/// A place kind. The first requirement is its core.
pub struct Place {
    pub name: String,
    pub requirements: Vec<PlaceReq>,
    /// Whether it provides storage with the storage furniture it holds.
    pub public_storage: bool,
    /// Display rounding for its storage; the default applies when unset.
    pub accounting: Option<Approximation>,
    /// The need individuals assigned to it satisfy, if any.
    pub assignable_for: Option<AssignmentFlavor>,
    /// Set for workplaces: what staffing them does each month.
    pub work: Option<WorkEffect>,
}

/// Display rounding of storage when a place does not set its own: one
/// significant digit, reported up to 100.
pub fn default_storage_accounting() -> (a: Approximation)
    ensures
        a == (Approximation { digits: 1, max: 100 }),
{
    Approximation { digits: 1, max: 100 }
}

/// Whether a requirement `req` of some place kind names the furniture or
/// place kind `porf`: same kind of thing and same name, where a furniture
/// kind also matches a requirement for a tool installed in furniture of that
/// name.
pub open spec fn requirement_names(req: Porf, porf: Porf) -> bool {
    match (req, porf) {
        (Porf::Furniture(a), Porf::Furniture(b)) => a@ == b@,
        (Porf::Place(a), Porf::Place(b)) => a@ == b@,
        (Porf::InstalledTool(_, a), Porf::Furniture(b)) => a@ == b@,
        _ => false,
    }
}

/// Some requirement of `p` names `porf`.
pub open spec fn place_wants(p: Place, porf: Porf) -> bool {
    exists|k: int| 0 <= k < p.requirements@.len()
        && #[trigger] requirement_names(p.requirements@[k].requirement, porf)
}

/// Names of the place kinds among `places[..n]` that want `porf`, in order.
pub open spec fn eligible_names(places: Seq<Place>, porf: Porf, n: int) -> Seq<Seq<char>>
    decreases n,
{
    if n <= 0 {
        seq![]
    } else {
        let rest = eligible_names(places, porf, n - 1);
        if place_wants(places[n - 1], porf) { rest.push(places[n - 1].name@) } else { rest }
    }
}

fn requirement_names_exec(req: &Porf, porf: &Porf) -> (b: bool)
    ensures
        b == requirement_names(*req, *porf),
{
    match (req, porf) {
        (Porf::Furniture(a), Porf::Furniture(b)) => str_eq(a.as_str(), b.as_str()),
        (Porf::Place(a), Porf::Place(b)) => str_eq(a.as_str(), b.as_str()),
        (Porf::InstalledTool(_, a), Porf::Furniture(b)) => str_eq(a.as_str(), b.as_str()),
        _ => false,
    }
}

/// The place kinds (by name, in order) having a requirement that names
/// `porf`: the kinds that could ever include it.
pub fn eligible_parent_kinds(places: &[Place], porf: &Porf) -> (names: Vec<String>)
    ensures
        names@.map_values(|s: String| s@) == eligible_names(places@, *porf, places@.len() as int),
{
    let mut names: Vec<String> = Vec::new();
    let mut i: usize = 0;
    while i < places.len()
        invariant
            i <= places@.len(),
            names@.map_values(|s: String| s@) == eligible_names(places@, *porf, i as int),
        decreases places@.len() - i,
    {
        let p = &places[i];
        let mut wants = false;
        let mut k: usize = 0;
        while k < p.requirements.len()
            invariant
                k <= p.requirements@.len(),
                wants <==> exists|j: int| 0 <= j < k
                    && #[trigger] requirement_names(p.requirements@[j].requirement, *porf),
            decreases p.requirements@.len() - k,
        {
            if requirement_names_exec(&p.requirements[k].requirement, porf) {
                wants = true;
            }
            k += 1;
        }
        let ghost before = names@;
        if wants {
            names.push(p.name.clone());
            proof {
                assert(names@.map_values(|s: String| s@) =~= before.map_values(|s: String| s@).push(p.name@));
            }
        }
        i += 1;
    }
    names
}

/// What fulfills one slot of a placed place's requirements: the furniture at
/// a slot (wall-mounted furniture is told apart from room furniture of the
/// same cube), or a nested placed place.
#[derive(Clone, Copy, PartialEq, Eq, Debug, Structural)]
pub enum FulfilledPorf {
    Furniture(SlotCoord),
    Place(PlacedPlaceId),
}

/// A placed instance of a place kind.
pub struct ParticularPlace {
    /// Index of its kind among the city's place kinds.
    pub place: usize,
    /// What fulfills its requirements; the first is the core.
    pub fulfillments: Vec<FulfilledPorf>,
    pub contents: Inventory,
    /// Which place kinds may nest this instance.
    pub restriction: ParentRestriction,
}

/// Stable identifier of a placed place: unique for the lifetime of a city and
/// never reused.
#[derive(Clone, Copy, PartialEq, Eq, Debug, Hash, PartialOrd, Ord, Structural)]
pub struct PlacedPlaceId(pub u32);

impl PlacedPlaceId {
    /// The number behind the id, as it is displayed.
    pub fn number(&self) -> (n: u32)
        ensures
            n == self.0,
    {
        self.0
    }
}

/// The placed places of a city, in the order they were placed, each under
/// the id it was given.
pub struct PlacedPlaces {
    items: Vec<(PlacedPlaceId, ParticularPlace)>,
    next_id: u32,
}

/// Position of `id` in `items`, if it occurs.
pub open spec fn position_of(items: Seq<(PlacedPlaceId, ParticularPlace)>, id: PlacedPlaceId) -> Option<int>
    decreases items.len(),
{
    if items.len() == 0 {
        None
    } else if items.last().0 == id {
        Some(items.len() - 1)
    } else {
        position_of(items.drop_last(), id)
    }
}

/// The ids of `items`, in order.
pub open spec fn ids_of(items: Seq<(PlacedPlaceId, ParticularPlace)>) -> Seq<PlacedPlaceId> {
    items.map_values(|e: (PlacedPlaceId, ParticularPlace)| e.0)
}

/// Ids strictly increase along `items` and stay below `next`.
pub open spec fn ids_ordered(items: Seq<(PlacedPlaceId, ParticularPlace)>, next: nat) -> bool {
    &&& forall|a: int, b: int| 0 <= a < b < items.len() ==> (#[trigger] items[a]).0.0 < (#[trigger] items[b]).0.0
    &&& forall|a: int| 0 <= a < items.len() ==> (#[trigger] items[a]).0.0 < next
}

proof fn lemma_position_of(items: Seq<(PlacedPlaceId, ParticularPlace)>, id: PlacedPlaceId)
    requires
        ids_ordered(items, u32::MAX as nat + 1),
    ensures
        match position_of(items, id) {
            Some(i) => 0 <= i < items.len() && items[i].0 == id,
            None => forall|a: int| 0 <= a < items.len() ==> (#[trigger] items[a]).0 != id,
        },
    decreases items.len(),
{
    if items.len() > 0 && items.last().0 != id {
        assert(ids_ordered(items.drop_last(), u32::MAX as nat + 1));
        lemma_position_of(items.drop_last(), id);
        if position_of(items, id) is None {
            assert forall|a: int| 0 <= a < items.len() implies (#[trigger] items[a]).0 != id by {
                if a < items.len() - 1 {
                    assert(items.drop_last()[a] == items[a]);
                }
            }
        }
    }
}

impl PlacedPlaces {
    /// What is placed, with ids, in placement order.
    pub closed spec fn items(&self) -> Seq<(PlacedPlaceId, ParticularPlace)> {
        self.items@
    }

    /// The id the next placed place will get.
    pub closed spec fn fresh(&self) -> nat {
        self.next_id as nat
    }

    /// Ids increase in placement order and all are below `fresh()`.
    pub closed spec fn wf(&self) -> bool {
        ids_ordered(self.items@, self.next_id as nat)
    }

    pub fn new() -> (p: Self)
        ensures
            p.wf(),
            p.items() == Seq::<(PlacedPlaceId, ParticularPlace)>::empty(),
            p.fresh() == 0,
    {
        PlacedPlaces { items: Vec::new(), next_id: 0 }
    }

    /// Places `place` under a fresh id, which it returns. Ids count up from
    /// zero and are never reused, so they must not run out.
    pub fn insert(&mut self, place: ParticularPlace) -> (id: PlacedPlaceId)
        requires
            old(self).wf(),
            old(self).fresh() < u32::MAX,
        ensures
            final(self).wf(),
            id.0 == old(self).fresh(),
            final(self).fresh() == old(self).fresh() + 1,
            final(self).items() == old(self).items().push((id, place)),
    {
        let id = PlacedPlaceId(self.next_id);
        self.next_id = self.next_id + 1;
        self.items.push((id, place));
        id
    }

    /// Removes the place with `id`; a stale id changes nothing.
    pub fn remove(&mut self, id: PlacedPlaceId)
        requires
            old(self).wf(),
        ensures
            final(self).wf(),
            final(self).fresh() == old(self).fresh(),
            final(self).items() == (match position_of(old(self).items(), id) {
                Some(i) => old(self).items().remove(i),
                None => old(self).items(),
            }),
    {
        proof {
            lemma_position_of(self.items@, id);
        }
        let mut i: usize = self.items.len();
        while i > 0
            invariant
                i <= self.items@.len(),
                self.items@ == old(self).items@,
                self.next_id == old(self).next_id,
                ids_ordered(self.items@, self.next_id as nat),
                forall|a: int| i <= a < self.items@.len() ==> (#[trigger] self.items@[a]).0 != id,
            decreases i,
        {
            if self.items[i - 1].0 == id {
                let ghost before = self.items@;
                proof {
                    assert(position_of(before, id) == Some(i - 1)) by {
                        lemma_position_last(before, id, i - 1);
                    }
                }
                let _ = self.items.remove(i - 1);
                proof {
                    assert forall|a: int, b: int| 0 <= a < b < self.items@.len() implies
                        (#[trigger] self.items@[a]).0.0 < (#[trigger] self.items@[b]).0.0 by {
                        let sa = if a < i - 1 { a } else { a + 1 };
                        let sb = if b < i - 1 { b } else { b + 1 };
                        assert(self.items@[a] == before[sa]);
                        assert(self.items@[b] == before[sb]);
                    }
                    assert forall|a: int| 0 <= a < self.items@.len() implies
                        (#[trigger] self.items@[a]).0.0 < self.next_id as nat by {
                        let sa = if a < i - 1 { a } else { a + 1 };
                        assert(self.items@[a] == before[sa]);
                    }
                }
                return;
            }
            i -= 1;
        }
    }

    /// The place with `id`, if it is still placed.
    pub fn get(&self, id: PlacedPlaceId) -> (r: Option<&ParticularPlace>)
        requires
            self.wf(),
        ensures
            r == (match position_of(self.items(), id) {
                Some(i) => Some(&self.items()[i].1),
                None => None,
            }),
    {
        proof {
            lemma_position_of(self.items@, id);
        }
        let mut i: usize = self.items.len();
        while i > 0
            invariant
                i <= self.items@.len(),
                ids_ordered(self.items@, self.next_id as nat),
                forall|a: int| i <= a < self.items@.len() ==> (#[trigger] self.items@[a]).0 != id,
            decreases i,
        {
            if self.items[i - 1].0 == id {
                proof {
                    lemma_position_last(self.items@, id, i - 1);
                }
                return Some(&self.items[i - 1].1);
            }
            i -= 1;
        }
        None
    }

    /// Every id, in placement order.
    pub fn ids(&self) -> (v: Vec<PlacedPlaceId>)
        ensures
            v@ == ids_of(self.items()),
    {
        let mut v: Vec<PlacedPlaceId> = Vec::new();
        for i in 0..self.items.len()
            invariant
                v@ == ids_of(self.items@.take(i as int)),
        {
            proof {
                assert(self.items@.take(i + 1) =~= self.items@.take(i as int).push(self.items@[i as int]));
            }
            v.push(self.items[i].0);
        }
        proof {
            assert(self.items@.take(self.items@.len() as int) =~= self.items@);
        }
        v
    }

    /// The placed place at position `i` of the placement order, with its id.
    pub fn entry(&self, i: usize) -> (e: (PlacedPlaceId, &ParticularPlace))
        requires
            i < self.items().len(),
        ensures
            e.0 == self.items()[i as int].0,
            *e.1 == self.items()[i as int].1,
    {
        (self.items[i].0, &self.items[i].1)
    }

    pub fn len(&self) -> (n: usize)
        ensures
            n == self.items().len(),
    {
        self.items.len()
    }

    pub fn is_empty(&self) -> (b: bool)
        ensures
            b == (self.items().len() == 0),
    {
        self.items.len() == 0
    }
}

/// Ids of placed places strictly increase in placement order.
pub proof fn lemma_placed_ids_increase(p: PlacedPlaces)
    requires
        p.wf(),
    ensures
        forall|a: int, b: int| 0 <= a < b < p.items().len() ==>
            (#[trigger] p.items()[a]).0.0 < (#[trigger] p.items()[b]).0.0,
        forall|a: int| 0 <= a < p.items().len() ==> (#[trigger] p.items()[a]).0.0 < p.fresh(),
{
}

/// Where `position_of` finds an id, that entry has it.
pub proof fn lemma_position_in(items: Seq<(PlacedPlaceId, ParticularPlace)>, id: PlacedPlaceId)
    ensures
        position_of(items, id) matches Some(i) ==> 0 <= i < items.len() && items[i].0 == id,
    decreases items.len(),
{
    if items.len() > 0 && items.last().0 != id {
        lemma_position_in(items.drop_last(), id);
    }
}

proof fn lemma_position_last(items: Seq<(PlacedPlaceId, ParticularPlace)>, id: PlacedPlaceId, i: int)
    requires
        0 <= i < items.len(),
        items[i].0 == id,
        forall|a: int| i < a < items.len() ==> (#[trigger] items[a]).0 != id,
    ensures
        position_of(items, id) == Some(i),
    decreases items.len(),
{
    if items.len() - 1 != i {
        assert(items.drop_last()[i] == items[i]);
        assert forall|a: int| i < a < items.drop_last().len() implies (#[trigger] items.drop_last()[a]).0 != id by {
            assert(items.drop_last()[a] == items[a]);
        }
        lemma_position_last(items.drop_last(), id, i);
    }
}


/// `fs` without the fulfillments listed in `taken`, in order.
pub open spec fn without(fs: Seq<FulfilledPorf>, taken: Seq<FulfilledPorf>) -> Seq<FulfilledPorf>
    decreases fs.len(),
{
    if fs.len() == 0 {
        seq![]
    } else {
        let rest = without(fs.drop_last(), taken);
        if taken.contains(fs.last()) { rest } else { rest.push(fs.last()) }
    }
}

/// The fulfillments `evictions` name for the place `id`.
pub open spec fn evicted_for(evictions: Seq<(PlacedPlaceId, FulfilledPorf)>, id: PlacedPlaceId) -> Seq<FulfilledPorf>
    decreases evictions.len(),
{
    if evictions.len() == 0 {
        seq![]
    } else {
        let rest = evicted_for(evictions.drop_last(), id);
        if evictions.last().0 == id { rest.push(evictions.last().1) } else { rest }
    }
}

/// `after` is `before` with each place `p`'s fulfillments filtered by
/// `keep(p.id, fulfillments)`, all else unchanged.
pub open spec fn stripped(
    before: Seq<(PlacedPlaceId, ParticularPlace)>,
    after: Seq<(PlacedPlaceId, ParticularPlace)>,
    taken: Seq<FulfilledPorf>,
    evictions: Seq<(PlacedPlaceId, FulfilledPorf)>,
) -> bool {
    &&& after.len() == before.len()
    &&& forall|i: int| 0 <= i < before.len() ==> {
        let (a, b) = (#[trigger] after[i], before[i]);
        &&& a.0 == b.0
        &&& a.1.place == b.1.place
        &&& a.1.contents == b.1.contents
        &&& a.1.restriction == b.1.restriction
        &&& a.1.fulfillments@ == without(without(b.1.fulfillments@, taken), evicted_for(evictions, b.0))
    }
}

/// `after` is `before` with every place's fulfillments in `taken` dropped.
pub open spec fn released(
    before: Seq<(PlacedPlaceId, ParticularPlace)>,
    after: Seq<(PlacedPlaceId, ParticularPlace)>,
    taken: Seq<FulfilledPorf>,
) -> bool {
    &&& after.len() == before.len()
    &&& forall|i: int| 0 <= i < before.len() ==> {
        let (a, b) = (#[trigger] after[i], before[i]);
        &&& a.0 == b.0
        &&& a.1.place == b.1.place
        &&& a.1.contents == b.1.contents
        &&& a.1.restriction == b.1.restriction
        &&& a.1.fulfillments@ == without(b.1.fulfillments@, taken)
    }
}

proof fn lemma_without_nothing(fs: Seq<FulfilledPorf>)
    ensures
        without(fs, Seq::<FulfilledPorf>::empty()) == fs,
    decreases fs.len(),
{
    if fs.len() > 0 {
        lemma_without_nothing(fs.drop_last());
        assert(fs.drop_last().push(fs.last()) =~= fs);
    }
}

proof fn lemma_evicted_for_nothing(id: PlacedPlaceId)
    ensures
        evicted_for(Seq::<(PlacedPlaceId, FulfilledPorf)>::empty(), id) == Seq::<FulfilledPorf>::empty(),
{
}

fn evicted_for_exec(evictions: &[(PlacedPlaceId, FulfilledPorf)], id: PlacedPlaceId) -> (r: Vec<FulfilledPorf>)
    ensures
        r@ == evicted_for(evictions@, id),
{
    let mut r: Vec<FulfilledPorf> = Vec::new();
    let mut i: usize = 0;
    while i < evictions.len()
        invariant
            i <= evictions@.len(),
            r@ == evicted_for(evictions@.take(i as int), id),
        decreases evictions@.len() - i,
    {
        proof {
            assert(evictions@.take(i + 1).drop_last() =~= evictions@.take(i as int));
        }
        if evictions[i].0 == id {
            r.push(evictions[i].1);
        }
        i += 1;
    }
    proof {
        assert(evictions@.take(evictions@.len() as int) =~= evictions@);
    }
    r
}

fn without_exec(fs: &Vec<FulfilledPorf>, taken: &[FulfilledPorf]) -> (r: Vec<FulfilledPorf>)
    ensures
        r@ == without(fs@, taken@),
{
    let mut r: Vec<FulfilledPorf> = Vec::new();
    let mut i: usize = 0;
    while i < fs.len()
        invariant
            i <= fs@.len(),
            r@ == without(fs@.take(i as int), taken@),
        decreases fs@.len() - i,
    {
        proof {
            assert(fs@.take(i + 1).drop_last() =~= fs@.take(i as int));
        }
        let f = fs[i];
        let mut hit = false;
        let mut k: usize = 0;
        while k < taken.len()
            invariant
                k <= taken@.len(),
                hit == exists|j: int| 0 <= j < k && taken@[j] == f,
            decreases taken@.len() - k,
        {
            if taken[k] == f {
                hit = true;
            }
            k += 1;
        }
        if !hit {
            r.push(f);
        }
        i += 1;
    }
    proof {
        assert(fs@.take(fs@.len() as int) =~= fs@);
    }
    r
}

impl PlacedPlaces {
    /// Takes the fulfillments in `taken` from every placed place, and those
    /// `evictions` name for a place from that place.
    fn strip(&mut self, taken: &[FulfilledPorf], evictions: &[(PlacedPlaceId, FulfilledPorf)])
        requires
            old(self).wf(),
        ensures
            final(self).wf(),
            final(self).fresh() == old(self).fresh(),
            stripped(old(self).items(), final(self).items(), taken@, evictions@),
    {
        let mut rest: Vec<(PlacedPlaceId, ParticularPlace)> = Vec::new();
        std::mem::swap(&mut rest, &mut self.items);
        let ghost before = rest@;
        // Unstack the places, last first, ...
        let mut stack: Vec<(PlacedPlaceId, ParticularPlace)> = Vec::new();
        while rest.len() > 0
            invariant
                rest@.len() + stack@.len() == before.len(),
                rest@ == before.take(rest@.len() as int),
                forall|j: int| 0 <= j < stack@.len() ==> #[trigger] stack@[j] == before[before.len() - 1 - j],
                self.items@.len() == 0,
            decreases rest@.len(),
        {
            let ghost n = rest@.len();
            match rest.pop() {
                Some(e) => {
                    proof {
                        assert(before.take(n as int)[n - 1] == before[n - 1]);
                        assert(before.take(n as int).drop_last() =~= before.take(n - 1));
                    }
                    stack.push(e);
                },
                None => {},
            }
        }
        // ... and stack them back, first first, with the fulfillments dropped.
        while stack.len() > 0
            invariant
                stack@.len() + self.items@.len() == before.len(),
                forall|j: int| 0 <= j < stack@.len() ==> #[trigger] stack@[j] == before[before.len() - 1 - j],
                stripped(before.take(self.items@.len() as int), self.items@, taken@, evictions@),
                self.next_id == old(self).next_id,
                before == old(self).items@,
            decreases stack@.len(),
        {
            let ghost m = self.items@.len();
            match stack.pop() {
                Some(e) => {
                    let (id, mut pp) = e;
                    let kept = without_exec(&pp.fulfillments, taken);
                    let gone = evicted_for_exec(evictions, id);
                    pp.fulfillments = without_exec(&kept, gone.as_slice());
                    self.items.push((id, pp));
                    proof {
                        assert(e == before[m as int]);
                        assert forall|i: int| 0 <= i < m + 1 implies #[trigger] before.take(m + 1 as int)[i] == before[i] by {}
                    }
                },
                None => {},
            }
        }
        proof {
            assert(before.take(before.len() as int) =~= before);
            assert forall|a: int, b: int| 0 <= a < b < self.items@.len() implies
                (#[trigger] self.items@[a]).0.0 < (#[trigger] self.items@[b]).0.0 by {
                assert(self.items@[a].0 == before[a].0);
                assert(self.items@[b].0 == before[b].0);
            }
            assert forall|a: int| 0 <= a < self.items@.len() implies
                (#[trigger] self.items@[a]).0.0 < self.next_id as nat by {
                assert(self.items@[a].0 == before[a].0);
            }
        }
    }

    /// Takes the fulfillments in `taken` away from every placed place.
    pub fn release(&mut self, taken: &[FulfilledPorf])
        requires
            old(self).wf(),
        ensures
            final(self).wf(),
            final(self).fresh() == old(self).fresh(),
            released(old(self).items(), final(self).items(), taken@),
    {
        let none: Vec<(PlacedPlaceId, FulfilledPorf)> = Vec::new();
        self.strip(taken, none.as_slice());
        proof {
            assert forall|i: int| 0 <= i < self.items@.len() implies
                (#[trigger] self.items@[i]).1.fulfillments@ == without(old(self).items@[i].1.fulfillments@, taken@) by {
                lemma_evicted_for_nothing(old(self).items@[i].0);
                lemma_without_nothing(without(old(self).items@[i].1.fulfillments@, taken@));
            }
        }
    }

    /// Drops, for each `(id, f)` among `evictions`, fulfillment `f` from the
    /// placed place `id` (stale ids change nothing).
    pub fn evict(&mut self, evictions: &[(PlacedPlaceId, FulfilledPorf)])
        requires
            old(self).wf(),
        ensures
            final(self).wf(),
            final(self).fresh() == old(self).fresh(),
            stripped(old(self).items(), final(self).items(), Seq::<FulfilledPorf>::empty(), evictions@),
    {
        let none: Vec<FulfilledPorf> = Vec::new();
        self.strip(none.as_slice(), evictions);
    }
}

/// What is wrong with a list of place kinds.
#[derive(Clone, Copy, PartialEq, Eq, Debug, Structural)]
pub enum PlaceInfoError {
    /// `places[place].requirements[req]` names a furniture kind that does not
    /// exist.
    UnknownFurniture { place: usize, req: usize },
    /// `places[place].requirements[req]` names a place kind that does not
    /// exist.
    UnknownPlace { place: usize, req: usize },
}

/// Some structure kind is furniture named `name`.
pub open spec fn furniture_named(eorfs: Seq<EorfInfo>, name: Seq<char>) -> bool {
    exists|k: int| 0 <= k < eorfs.len() && (#[trigger] eorfs[k]).kind is Furniture && eorfs[k].name@ == name
}

/// Some place kind is named `name`.
pub open spec fn place_named(places: Seq<Place>, name: Seq<char>) -> bool {
    exists|k: int| 0 <= k < places.len() && (#[trigger] places[k]).name@ == name
}

/// A requirement names furniture or a place kind that exists (tool
/// requirements are not checked).
pub open spec fn requirement_known(places: Seq<Place>, eorfs: Seq<EorfInfo>, req: Porf) -> bool {
    match req {
        Porf::Furniture(n) => furniture_named(eorfs, n@),
        Porf::Place(n) => place_named(places, n@),
        Porf::InstalledTool(_, _) => true,
    }
}

fn furniture_exists(eorfs: &[EorfInfo], name: &str) -> (b: bool)
    ensures
        b == furniture_named(eorfs@, name@),
{
    let mut k: usize = 0;
    while k < eorfs.len()
        invariant
            k <= eorfs@.len(),
            forall|j: int| 0 <= j < k ==> !((#[trigger] eorfs@[j]).kind is Furniture && eorfs@[j].name@ == name@),
        decreases eorfs@.len() - k,
    {
        if eorfs[k].is_furniture() && str_eq(eorfs[k].name.as_str(), name) {
            return true;
        }
        k += 1;
    }
    false
}

fn place_exists(places: &[Place], name: &str) -> (b: bool)
    ensures
        b == place_named(places@, name@),
{
    let mut k: usize = 0;
    while k < places.len()
        invariant
            k <= places@.len(),
            forall|j: int| 0 <= j < k ==> (#[trigger] places@[j]).name@ != name@,
        decreases places@.len() - k,
    {
        if str_eq(places[k].name.as_str(), name) {
            return true;
        }
        k += 1;
    }
    false
}

/// Checks that every furniture or place requirement names a kind that
/// exists. The error names the first offending requirement, scanning places
/// and then their requirements in order.
pub fn validate_place_requirements(places: &[Place], eorfs: &[EorfInfo]) -> (r: Result<(), PlaceInfoError>)
    ensures
        r is Ok <==> forall|p: int, q: int| 0 <= p < places@.len() && 0 <= q < places@[p].requirements@.len()
            ==> requirement_known(places@, eorfs@, #[trigger] places@[p].requirements@[q].requirement),
        r matches Err(PlaceInfoError::UnknownFurniture { place, req }) ==> place < places@.len()
            && req < places@[place as int].requirements@.len()
            && places@[place as int].requirements@[req as int].requirement is Furniture
            && !requirement_known(places@, eorfs@, places@[place as int].requirements@[req as int].requirement),
        r matches Err(PlaceInfoError::UnknownPlace { place, req }) ==> place < places@.len()
            && req < places@[place as int].requirements@.len()
            && places@[place as int].requirements@[req as int].requirement is Place
            && !requirement_known(places@, eorfs@, places@[place as int].requirements@[req as int].requirement),
        r matches Err(e) ==> forall|p: int, q: int| 0 <= p < places@.len() && 0 <= q < places@[p].requirements@.len()
            && (p < (match e { PlaceInfoError::UnknownFurniture { place, .. } => place, PlaceInfoError::UnknownPlace { place, .. } => place })
                || (p == (match e { PlaceInfoError::UnknownFurniture { place, .. } => place, PlaceInfoError::UnknownPlace { place, .. } => place })
                    && q < (match e { PlaceInfoError::UnknownFurniture { req, .. } => req, PlaceInfoError::UnknownPlace { req, .. } => req })))
            ==> requirement_known(places@, eorfs@, #[trigger] places@[p].requirements@[q].requirement),
{
    let mut p: usize = 0;
    while p < places.len()
        invariant
            p <= places@.len(),
            forall|a: int, q: int| 0 <= a < p && 0 <= q < places@[a].requirements@.len()
                ==> requirement_known(places@, eorfs@, #[trigger] places@[a].requirements@[q].requirement),
        decreases places@.len() - p,
    {
        let reqs = &places[p].requirements;
        let mut q: usize = 0;
        while q < reqs.len()
            invariant
                q <= reqs@.len(),
                p < places@.len(),
                *reqs == places@[p as int].requirements,
                forall|a: int, w: int| 0 <= a < p && 0 <= w < places@[a].requirements@.len()
                    ==> requirement_known(places@, eorfs@, #[trigger] places@[a].requirements@[w].requirement),
                forall|w: int| 0 <= w < q ==> requirement_known(places@, eorfs@, #[trigger] reqs@[w].requirement),
            decreases reqs@.len() - q,
        {
            match &reqs[q].requirement {
                Porf::Furniture(name) => {
                    if !furniture_exists(eorfs, name.as_str()) {
                        return Err(PlaceInfoError::UnknownFurniture { place: p, req: q });
                    }
                },
                Porf::Place(name) => {
                    if !place_exists(places, name.as_str()) {
                        return Err(PlaceInfoError::UnknownPlace { place: p, req: q });
                    }
                },
                Porf::InstalledTool(_, _) => {},
            }
            q += 1;
        }
        p += 1;
    }
    Ok(())
}

} // verus!
