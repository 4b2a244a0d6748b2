//! The population: individuals and their assignments to places (a bed to
//! sleep in, a workplace).
use vstd::prelude::*;
use crate::city::ConstructedCity;
use crate::place::{AssignmentFlavor, PlacedPlaceId};

verus! {

/// One member of the population, with the place they are assigned to for
/// each need.
#[derive(Clone, Copy, PartialEq, Eq, Debug, Structural)]
pub struct Individual {
    /// Where they sleep.
    pub sleep: Option<PlacedPlaceId>,
    /// Where they work.
    pub work: Option<PlacedPlaceId>,
}

impl Individual {
    pub open spec fn spec_assigned(self, flavor: AssignmentFlavor) -> Option<PlacedPlaceId> {
        match flavor {
            AssignmentFlavor::Sleep => self.sleep,
            AssignmentFlavor::Work => self.work,
        }
    }

    /// The place this individual is assigned to for `flavor`.
    pub fn assigned(&self, flavor: AssignmentFlavor) -> (r: Option<PlacedPlaceId>)
        ensures
            r == self.spec_assigned(flavor),
    {
        match flavor {
            AssignmentFlavor::Sleep => self.sleep,
            AssignmentFlavor::Work => self.work,
        }
    }

    /// The place this individual sleeps in, if any.
    pub fn home(&self) -> (r: Option<PlacedPlaceId>)
        ensures
            r == self.sleep,
    {
        self.assigned(AssignmentFlavor::Sleep)
    }

    fn set_assigned(&mut self, flavor: AssignmentFlavor, place: Option<PlacedPlaceId>)
        ensures
            final(self).spec_assigned(flavor) == place,
            forall|other: AssignmentFlavor| other != flavor ==>
                final(self).spec_assigned(other) == old(self).spec_assigned(other),
    {
        match flavor {
            AssignmentFlavor::Sleep => self.sleep = place,
            AssignmentFlavor::Work => self.work = place,
        }
    }
}

impl Default for Individual {
    fn default() -> (i: Self)
        ensures
            i.sleep is None,
            i.work is None,
    {
        Individual { sleep: None, work: None }
    }
}

/// Everyone in the city.
pub struct Population {
    pub individuals: Vec<Individual>,
}

impl Default for Population {
    /// A population of one, assigned nowhere.
    fn default() -> (p: Self)
        ensures
            p.individuals@ == seq![Individual { sleep: None, work: None }],
    {
        Population { individuals: vec![Individual { sleep: None, work: None }] }
    }
}

/// Ids (in placement order) of the first `n` placed places whose kind is
/// assignable for `flavor`.
pub open spec fn eligible_upto(cw: ConstructedCity, flavor: AssignmentFlavor, n: int) -> Seq<PlacedPlaceId>
    decreases n,
{
    if n <= 0 {
        seq![]
    } else {
        let e = cw.placed_places.items()[n - 1];
        let rest = eligible_upto(cw, flavor, n - 1);
        if cw.places@[e.1.place as int].assignable_for == Some(flavor) { rest.push(e.0) } else { rest }
    }
}

/// The placed places an individual may be assigned to for `flavor`.
pub open spec fn eligible(cw: ConstructedCity, flavor: AssignmentFlavor) -> Seq<PlacedPlaceId> {
    eligible_upto(cw, flavor, cw.placed_places.items().len() as int)
}

/// Each individual's assignment for `flavor`.
pub open spec fn assignments_of(inds: Seq<Individual>, flavor: AssignmentFlavor) -> Seq<Option<PlacedPlaceId>> {
    inds.map_values(|x: Individual| x.spec_assigned(flavor))
}

/// Individual `i` keeps its assignment: the place is still eligible and no
/// one before it in the list holds the same place.
pub open spec fn kept(olds: Seq<Option<PlacedPlaceId>>, elig: Seq<PlacedPlaceId>, i: int) -> bool {
    &&& olds[i] is Some
    &&& elig.contains(olds[i]->0)
    &&& !olds.take(i).contains(olds[i])
}

/// The first `n` eligible places that nobody holds.
pub open spec fn vacant_upto(olds: Seq<Option<PlacedPlaceId>>, elig: Seq<PlacedPlaceId>, n: int) -> Seq<PlacedPlaceId>
    decreases n,
{
    if n <= 0 {
        seq![]
    } else {
        let rest = vacant_upto(olds, elig, n - 1);
        if olds.contains(Some(elig[n - 1])) { rest } else { rest.push(elig[n - 1]) }
    }
}

/// The eligible places that nobody holds, in placement order.
pub open spec fn vacant(olds: Seq<Option<PlacedPlaceId>>, elig: Seq<PlacedPlaceId>) -> Seq<PlacedPlaceId> {
    vacant_upto(olds, elig, elig.len() as int)
}

/// How many of the first `i` individuals do not keep their assignment.
pub open spec fn unkept_before(olds: Seq<Option<PlacedPlaceId>>, elig: Seq<PlacedPlaceId>, i: int) -> nat
    decreases i,
{
    if i <= 0 {
        0
    } else {
        unkept_before(olds, elig, i - 1) + if kept(olds, elig, i - 1) { 0nat } else { 1 }
    }
}

/// The assignment individual `i` ends up with: its own if kept; otherwise the
/// next vacant place in placement order, handed out in list order, while
/// any are left.
pub open spec fn new_assignment(olds: Seq<Option<PlacedPlaceId>>, elig: Seq<PlacedPlaceId>, i: int) -> Option<PlacedPlaceId> {
    if kept(olds, elig, i) {
        olds[i]
    } else {
        let r = unkept_before(olds, elig, i);
        if r < vacant(olds, elig).len() { Some(vacant(olds, elig)[r as int]) } else { None }
    }
}

fn contains_id(v: &Vec<PlacedPlaceId>, id: PlacedPlaceId) -> (b: bool)
    ensures
        b == v@.contains(id),
{
    let mut i: usize = 0;
    while i < v.len()
        invariant
            i <= v@.len(),
            forall|k: int| 0 <= k < i ==> v@[k] != id,
        decreases v@.len() - i,
    {
        if v[i] == id {
            return true;
        }
        i += 1;
    }
    false
}

fn eligible_ids(cw: &ConstructedCity, flavor: AssignmentFlavor) -> (v: Vec<PlacedPlaceId>)
    requires
        cw.wf(),
    ensures
        v@ == eligible(*cw, flavor),
{
    let n = cw.placed_places.len();
    let mut v: Vec<PlacedPlaceId> = Vec::new();
    let mut i: usize = 0;
    while i < n
        invariant
            i <= n,
            n == cw.placed_places.items().len(),
            cw.wf(),
            v@ == eligible_upto(*cw, flavor, i as int),
        decreases n - i,
    {
        let (id, pp) = cw.placed_places.entry(i);
        assert(cw.placed_places.items()[i as int].1.place < cw.places@.len());
        if cw.places[pp.place].assignable_for == Some(flavor) {
            v.push(id);
        }
        i += 1;
    }
    v
}

fn same_place(a: Option<PlacedPlaceId>, b: Option<PlacedPlaceId>) -> (r: bool)
    ensures
        r == (a == b),
{
    match (a, b) {
        (Some(x), Some(y)) => x == y,
        (None, None) => true,
        _ => false,
    }
}

/// Assigns individuals to the placed places assignable for `flavor`, one to
/// one, keeping existing pairings: an individual keeps its place while the
/// place still qualifies and nobody earlier in the list holds it; the others
/// take the places nobody holds, in placement order. Other flavors are left
/// alone. Returns whether any assignment for `flavor` changed.
pub fn assign_places(flavor: AssignmentFlavor, individuals: &mut Vec<Individual>, cw: &ConstructedCity) -> (changed: bool)
    requires
        cw.wf(),
    ensures
        final(individuals)@.len() == old(individuals)@.len(),
        forall|i: int| 0 <= i < final(individuals)@.len() ==>
            (#[trigger] final(individuals)@[i]).spec_assigned(flavor)
                == new_assignment(assignments_of(old(individuals)@, flavor), eligible(*cw, flavor), i),
        forall|i: int, other: AssignmentFlavor| 0 <= i < final(individuals)@.len() && other != flavor ==>
            #[trigger] final(individuals)@[i].spec_assigned(other) == old(individuals)@[i].spec_assigned(other),
        changed == exists|i: int| 0 <= i < final(individuals)@.len()
            && (#[trigger] final(individuals)@[i]).spec_assigned(flavor) != old(individuals)@[i].spec_assigned(flavor),
{
    let elig = eligible_ids(cw, flavor);
    let ghost olds = assignments_of(individuals@, flavor);
    let ghost start = individuals@;
    let n = individuals.len();

    // Keep every still-eligible assignment that nobody earlier holds.
    let mut claimed: Vec<PlacedPlaceId> = Vec::new();
    let mut new_assignments: Vec<Option<PlacedPlaceId>> = Vec::new();
    let mut i: usize = 0;
    while i < n
        invariant
            i <= n,
            n == individuals@.len(),
            individuals@ == start,
            olds == assignments_of(start, flavor),
            new_assignments@.len() == i,
            forall|p: PlacedPlaceId| claimed@.contains(p) <==> (elig@.contains(p) && olds.take(i as int).contains(Some(p))),
            forall|k: int| 0 <= k < i ==> (#[trigger] new_assignments@[k]) == (if kept(olds, elig@, k) { olds[k] } else { None }),
        decreases n - i,
    {
        let cur = individuals[i].assigned(flavor);
        let ghost prev = claimed@;
        proof {
            assert(olds[i as int] == cur);
            assert(olds.take(i + 1) =~= olds.take(i as int).push(cur));
        }
        let mut keep: Option<PlacedPlaceId> = None;
        match cur {
            Some(p) => {
                if contains_id(&elig, p) && !contains_id(&claimed, p) {
                    claimed.push(p);
                    keep = Some(p);
                }
            },
            None => {},
        }
        new_assignments.push(keep);
        proof {
            assert forall|p: PlacedPlaceId| claimed@.contains(p) <==> (elig@.contains(p) && olds.take(i + 1).contains(Some(p))) by {
                vstd::seq_lib::lemma_seq_contains_after_push(olds.take(i as int), cur, Some(p));
                assert(olds.take(i + 1).contains(Some(p)) <==> (olds.take(i as int).contains(Some(p)) || cur == Some(p)));
                if claimed@ != prev {
                    assert(claimed@ == prev.push(cur->0));
                    vstd::seq_lib::lemma_seq_contains_after_push(prev, cur->0, p);
                    assert(claimed@.contains(p) <==> (prev.contains(p) || p == cur->0));
                }
            }
            assert(new_assignments@[i as int] == (if kept(olds, elig@, i as int) { olds[i as int] } else { None }));
        }
        i += 1;
    }

    // The eligible places nobody holds, in placement order.
    let mut vacant_places: Vec<PlacedPlaceId> = Vec::new();
    let mut e: usize = 0;
    proof {
        assert(olds.take(n as int) =~= olds);
    }
    while e < elig.len()
        invariant
            e <= elig@.len(),
            forall|p: PlacedPlaceId| claimed@.contains(p) <==> (elig@.contains(p) && olds.contains(Some(p))),
            vacant_places@ == vacant_upto(olds, elig@, e as int),
        decreases elig@.len() - e,
    {
        let p = elig[e];
        proof {
            assert(elig@.contains(p));
        }
        if !contains_id(&claimed, p) {
            vacant_places.push(p);
        }
        e += 1;
    }

    // Hand the vacant places, in order, to those who kept nothing.
    let mut r: usize = 0;
    let mut j: usize = 0;
    while j < n
        invariant
            j <= n,
            r <= j,
            new_assignments@.len() == n,
            vacant_places@ == vacant(olds, elig@),
            r == unkept_before(olds, elig@, j as int),
            forall|k: int| 0 <= k < j ==> (#[trigger] new_assignments@[k]) == new_assignment(olds, elig@, k),
            forall|k: int| j <= k < n ==> (#[trigger] new_assignments@[k]) == (if kept(olds, elig@, k) { olds[k] } else { None }),
        decreases n - j,
    {
        if new_assignments[j].is_none() {
            let next = if r < vacant_places.len() { Some(vacant_places[r]) } else { None };
            new_assignments.set(j, next);
            r = r + 1;
        }
        j += 1;
    }

    // Apply what changed.
    let mut changed = false;
    let mut k: usize = 0;
    while k < n
        invariant
            k <= n,
            n == individuals@.len(),
            olds == assignments_of(start, flavor),
            start.len() == n,
            new_assignments@.len() == n,
            forall|q: int| 0 <= q < n ==> (#[trigger] new_assignments@[q]) == new_assignment(olds, elig@, q),
            forall|q: int| 0 <= q < k ==> (#[trigger] individuals@[q]).spec_assigned(flavor) == new_assignments@[q],
            forall|q: int| k <= q < n ==> #[trigger] individuals@[q] == start[q],
            forall|q: int, other: AssignmentFlavor| 0 <= q < n && other != flavor ==>
                #[trigger] individuals@[q].spec_assigned(other) == start[q].spec_assigned(other),
            changed == exists|q: int| 0 <= q < k
                && (#[trigger] individuals@[q]).spec_assigned(flavor) != start[q].spec_assigned(flavor),
        decreases n - k,
    {
        let cur = individuals[k].assigned(flavor);
        let want = new_assignments[k];
        if !same_place(cur, want) {
            let mut ind = individuals[k];
            ind.set_assigned(flavor, want);
            individuals.set(k, ind);
            changed = true;
        }
        proof {
            assert(individuals@[k as int].spec_assigned(flavor) == new_assignments@[k as int]);
            if !changed {
                assert(individuals@[k as int].spec_assigned(flavor) == start[k as int].spec_assigned(flavor));
            }
        }
        k += 1;
    }
    proof {
        assert forall|q: int| 0 <= q < n implies olds[q] == (#[trigger] start[q]).spec_assigned(flavor) by {}
    }
    changed
}


proof fn lemma_vacant_upto(olds: Seq<Option<PlacedPlaceId>>, elig: Seq<PlacedPlaceId>, n: int)
    requires
        0 <= n <= elig.len(),
        elig.no_duplicates(),
    ensures
        vacant_upto(olds, elig, n).no_duplicates(),
        forall|k: int| 0 <= k < vacant_upto(olds, elig, n).len() ==>
            !olds.contains(Some(#[trigger] vacant_upto(olds, elig, n)[k]))
            && exists|e: int| 0 <= e < n && elig[e] == vacant_upto(olds, elig, n)[k],
    decreases n,
{
    if n > 0 {
        lemma_vacant_upto(olds, elig, n - 1);
        let rest = vacant_upto(olds, elig, n - 1);
        if !olds.contains(Some(elig[n - 1])) {
            let v = rest.push(elig[n - 1]);
            assert forall|a: int, b: int| 0 <= a < b < v.len() implies v[a] != v[b] by {
                if b == v.len() - 1 {
                    let e = choose|e: int| 0 <= e < n - 1 && elig[e] == rest[a];
                    assert(elig[e] != elig[n - 1]);
                } else {
                    assert(v[a] == rest[a] && v[b] == rest[b]);
                }
            }
            assert forall|k: int| 0 <= k < v.len() implies
                !olds.contains(Some(#[trigger] v[k])) && exists|e: int| 0 <= e < n && elig[e] == v[k] by {
                if k < rest.len() {
                    assert(v[k] == rest[k]);
                    let e = choose|e: int| 0 <= e < n - 1 && elig[e] == rest[k];
                    assert(elig[e] == v[k]);
                } else {
                    assert(elig[n - 1] == v[k]);
                }
            }
        }
    }
}

proof fn lemma_unkept_mono(olds: Seq<Option<PlacedPlaceId>>, elig: Seq<PlacedPlaceId>, i: int, j: int)
    requires
        0 <= i < j,
        !kept(olds, elig, i),
    ensures
        unkept_before(olds, elig, i) < unkept_before(olds, elig, j),
    decreases j - i,
{
    if j > i + 1 {
        lemma_unkept_mono(olds, elig, i, j - 1);
    }
}

/// Placed places hold distinct ids, so no eligible place is listed twice.
pub proof fn lemma_eligible_distinct(cw: ConstructedCity, flavor: AssignmentFlavor)
    requires
        cw.wf(),
    ensures
        eligible(cw, flavor).no_duplicates(),
{
    lemma_eligible_upto(cw, flavor, cw.placed_places.items().len() as int);
}

proof fn lemma_eligible_upto(cw: ConstructedCity, flavor: AssignmentFlavor, n: int)
    requires
        cw.wf(),
        0 <= n <= cw.placed_places.items().len(),
    ensures
        eligible_upto(cw, flavor, n).no_duplicates(),
        forall|k: int| 0 <= k < eligible_upto(cw, flavor, n).len() ==>
            exists|e: int| 0 <= e < n && (#[trigger] eligible_upto(cw, flavor, n)[k]) == cw.placed_places.items()[e].0,
    decreases n,
{
    if n > 0 {
        lemma_eligible_upto(cw, flavor, n - 1);
        crate::place::lemma_placed_ids_increase(cw.placed_places);
        let items = cw.placed_places.items();
        let rest = eligible_upto(cw, flavor, n - 1);
        let v = eligible_upto(cw, flavor, n);
        if v != rest {
            assert(v == rest.push(items[n - 1].0));
            assert forall|a: int, b: int| 0 <= a < b < v.len() implies v[a] != v[b] by {
                if b == v.len() - 1 {
                    let e = choose|e: int| 0 <= e < n - 1 && rest[a] == items[e].0;
                    assert(items[e].0.0 < items[n - 1].0.0);
                } else {
                    assert(v[a] == rest[a] && v[b] == rest[b]);
                }
            }
            assert forall|k: int| 0 <= k < v.len() implies
                exists|e: int| 0 <= e < n && (#[trigger] v[k]) == items[e].0 by {
                if k < rest.len() {
                    assert(v[k] == rest[k]);
                    let e = choose|e: int| 0 <= e < n - 1 && rest[k] == items[e].0;
                    assert(v[k] == items[e].0);
                } else {
                    assert(v[k] == items[n - 1].0);
                }
            }
        }
    }
}

/// Assignments are one to one: no two individuals end up with the same
/// place, provided no eligible place is listed twice.
pub proof fn lemma_assignments_one_to_one(olds: Seq<Option<PlacedPlaceId>>, elig: Seq<PlacedPlaceId>, i: int, j: int)
    requires
        elig.no_duplicates(),
        0 <= i < j < olds.len(),
        new_assignment(olds, elig, i) is Some,
    ensures
        new_assignment(olds, elig, i) != new_assignment(olds, elig, j),
{
    lemma_vacant_upto(olds, elig, elig.len() as int);
    let vac = vacant(olds, elig);
    if kept(olds, elig, i) {
        if kept(olds, elig, j) {
            assert(olds.take(j)[i] == olds[i]);
            assert(olds.take(j).contains(olds[i]));
        } else if new_assignment(olds, elig, j) is Some {
            let r = unkept_before(olds, elig, j) as int;
            assert(!olds.contains(Some(vac[r])));
            assert(olds[i] == Some(olds[i]->0));
            assert(olds.contains(olds[i]));
        }
    } else {
        let ri = unkept_before(olds, elig, i) as int;
        if kept(olds, elig, j) {
            assert(!olds.contains(Some(vac[ri])));
            assert(olds[j] == Some(olds[j]->0));
            assert(olds.contains(olds[j]));
        } else {
            lemma_unkept_mono(olds, elig, i, j);
        }
    }
}

/// Every place handed out is one of the eligible places.
pub proof fn lemma_assignments_eligible(olds: Seq<Option<PlacedPlaceId>>, elig: Seq<PlacedPlaceId>, i: int)
    requires
        elig.no_duplicates(),
        0 <= i < olds.len(),
        new_assignment(olds, elig, i) is Some,
    ensures
        elig.contains(new_assignment(olds, elig, i)->0),
{
    lemma_vacant_upto(olds, elig, elig.len() as int);
    if !kept(olds, elig, i) {
        let r = unkept_before(olds, elig, i) as int;
        let e = choose|e: int| 0 <= e < elig.len() && elig[e] == vacant(olds, elig)[r];
        assert(elig[e] == new_assignment(olds, elig, i)->0);
    }
}

/// An existing pairing survives: an individual whose place is still
/// eligible, and held by nobody before it in the list, keeps that place.
pub proof fn lemma_assignment_stable(olds: Seq<Option<PlacedPlaceId>>, elig: Seq<PlacedPlaceId>, i: int, p: PlacedPlaceId)
    requires
        0 <= i < olds.len(),
        olds[i] == Some(p),
        elig.contains(p),
        forall|j: int| 0 <= j < i ==> olds[j] != Some(p),
    ensures
        new_assignment(olds, elig, i) == Some(p),
{
    if olds.take(i).contains(Some(p)) {
        let j = choose|j: int| 0 <= j < i && olds.take(i)[j] == Some(p);
        assert(olds[j] == Some(p));
    }
}


/// Number of the first `m` individuals who end up with a place.
pub open spec fn assigned_count(olds: Seq<Option<PlacedPlaceId>>, elig: Seq<PlacedPlaceId>, m: int) -> nat
    decreases m,
{
    if m <= 0 {
        0
    } else {
        assigned_count(olds, elig, m - 1) + if new_assignment(olds, elig, m - 1) is Some { 1nat } else { 0 }
    }
}

spec fn kept_count(olds: Seq<Option<PlacedPlaceId>>, elig: Seq<PlacedPlaceId>, m: int) -> nat
    decreases m,
{
    if m <= 0 {
        0
    } else {
        kept_count(olds, elig, m - 1) + if kept(olds, elig, m - 1) { 1nat } else { 0 }
    }
}

/// Number of the first `k` eligible places held by one of the first `m`
/// individuals.
spec fn held_count(olds: Seq<Option<PlacedPlaceId>>, elig: Seq<PlacedPlaceId>, m: int, k: int) -> nat
    decreases k,
{
    if k <= 0 {
        0
    } else {
        held_count(olds, elig, m, k - 1) + if olds.take(m).contains(Some(elig[k - 1])) { 1nat } else { 0 }
    }
}

proof fn lemma_held_step(olds: Seq<Option<PlacedPlaceId>>, elig: Seq<PlacedPlaceId>, m: int, k: int)
    requires
        0 <= m < olds.len(),
        0 <= k <= elig.len(),
        elig.no_duplicates(),
    ensures
        held_count(olds, elig, m + 1, k) == held_count(olds, elig, m, k)
            + if kept(olds, elig, m) && elig.take(k).contains(olds[m]->0) { 1nat } else { 0 },
    decreases k,
{
    assert(olds.take(m + 1) =~= olds.take(m).push(olds[m]));
    if k > 0 {
        lemma_held_step(olds, elig, m, k - 1);
        let e = elig[k - 1];
        vstd::seq_lib::lemma_seq_contains_after_push(olds.take(m), olds[m], Some(e));
        assert(elig.take(k) =~= elig.take(k - 1).push(e));
        vstd::seq_lib::lemma_seq_contains_after_push(elig.take(k - 1), e, olds[m]->0);
        if kept(olds, elig, m) && olds[m]->0 == e {
            if elig.take(k - 1).contains(e) {
                let j = choose|j: int| 0 <= j < k - 1 && #[trigger] elig.take(k - 1)[j] == e;
                assert(elig[j] == elig[k - 1]);
            }
        }
    } else {
        assert(elig.take(0) =~= Seq::<PlacedPlaceId>::empty());
    }
}

proof fn lemma_kept_is_held(olds: Seq<Option<PlacedPlaceId>>, elig: Seq<PlacedPlaceId>, m: int)
    requires
        0 <= m <= olds.len(),
        elig.no_duplicates(),
    ensures
        kept_count(olds, elig, m) == held_count(olds, elig, m, elig.len() as int),
    decreases m,
{
    if m > 0 {
        lemma_kept_is_held(olds, elig, m - 1);
        lemma_held_step(olds, elig, m - 1, elig.len() as int);
        assert(elig.take(elig.len() as int) =~= elig);
    } else {
        lemma_held_none(olds, elig, elig.len() as int);
    }
}

proof fn lemma_held_none(olds: Seq<Option<PlacedPlaceId>>, elig: Seq<PlacedPlaceId>, k: int)
    requires
        0 <= k <= elig.len(),
    ensures
        held_count(olds, elig, 0, k) == 0,
    decreases k,
{
    if k > 0 {
        lemma_held_none(olds, elig, k - 1);
    }
}

proof fn lemma_vacant_len(olds: Seq<Option<PlacedPlaceId>>, elig: Seq<PlacedPlaceId>, k: int)
    requires
        0 <= k <= elig.len(),
    ensures
        vacant_upto(olds, elig, k).len() + held_count(olds, elig, olds.len() as int, k) == k,
    decreases k,
{
    assert(olds.take(olds.len() as int) =~= olds);
    if k > 0 {
        lemma_vacant_len(olds, elig, k - 1);
    }
}

proof fn lemma_assigned_split(olds: Seq<Option<PlacedPlaceId>>, elig: Seq<PlacedPlaceId>, m: int)
    requires
        0 <= m <= olds.len(),
    ensures
        assigned_count(olds, elig, m) == kept_count(olds, elig, m) + {
            let u = unkept_before(olds, elig, m);
            let v = vacant(olds, elig).len();
            if u <= v { u } else { v }
        },
        kept_count(olds, elig, m) + unkept_before(olds, elig, m) == m,
    decreases m,
{
    if m > 0 {
        lemma_assigned_split(olds, elig, m - 1);
    }
}

/// As many individuals end up with a place as there are individuals or
/// eligible places, whichever is fewer.
pub proof fn lemma_everyone_housed_while_places_last(olds: Seq<Option<PlacedPlaceId>>, elig: Seq<PlacedPlaceId>)
    requires
        elig.no_duplicates(),
    ensures
        assigned_count(olds, elig, olds.len() as int)
            == if olds.len() <= elig.len() { olds.len() } else { elig.len() },
{
    let n = olds.len() as int;
    lemma_assigned_split(olds, elig, n);
    lemma_kept_is_held(olds, elig, n);
    lemma_vacant_len(olds, elig, elig.len() as int);
}

} // verus!
