//! Ideas: the tech "tree", where each idea is a mask of numbered segments and
//! dependencies hold segment by segment. A segment of an idea is understood
//! once it is learned and the same segment of every prerequisite is
//! understood. Learning is permanent: masks only ever gain bits.
use vstd::prelude::*;
use crate::text::{push_str, str_eq};
use rand::rngs::StdRng;
use rand::Rng;

verus! {

/// Segments per idea.
pub const SEGMENTS: u32 = 50;

/// Every segment set: a fully understood idea (the low `SEGMENTS` bits).
pub const ALL_SEGMENTS: u64 = 0x3_ffff_ffff_ffff;

pub struct Idea {
    pub name: String,
    /// Names of the ideas this one depends on, segment for segment.
    pub depends_on: Vec<String>,
}

/// The index of the first idea named `name` among the first `n`, if any.
pub open spec fn first_idea_named(ideas: Seq<Idea>, name: Seq<char>, n: int) -> Option<int>
    decreases n,
{
    if n <= 0 {
        None
    } else {
        match first_idea_named(ideas, name, n - 1) {
            Some(i) => Some(i),
            None => if ideas[n - 1].name@ == name { Some(n - 1) } else { None },
        }
    }
}

pub open spec fn idea_index(ideas: Seq<Idea>, name: Seq<char>) -> Option<int> {
    first_idea_named(ideas, name, ideas.len() as int)
}

proof fn lemma_first_idea_named(ideas: Seq<Idea>, name: Seq<char>, n: int)
    requires
        0 <= n <= ideas.len(),
    ensures
        first_idea_named(ideas, name, n) matches Some(i) ==> 0 <= i < n && ideas[i].name@ == name
            && forall|j: int| 0 <= j < i ==> ideas[j].name@ != name,
        first_idea_named(ideas, name, n) is None ==> forall|j: int| 0 <= j < n ==> ideas[j].name@ != name,
    decreases n,
{
    if n > 0 {
        lemma_first_idea_named(ideas, name, n - 1);
    }
}

proof fn lemma_first_idea_named_stable(ideas: Seq<Idea>, name: Seq<char>, m: int, n: int)
    requires
        0 <= m <= n,
        first_idea_named(ideas, name, m) is Some,
    ensures
        first_idea_named(ideas, name, n) == first_idea_named(ideas, name, m),
    decreases n - m,
{
    if m < n {
        lemma_first_idea_named_stable(ideas, name, m, n - 1);
    }
}

/// The index of the idea named `name`, if there is one.
pub fn idea_by_name(ideas: &[Idea], name: &str) -> (r: Option<usize>)
    ensures
        r == (match idea_index(ideas@, name@) {
            Some(i) => Some(i as usize),
            None => None,
        }),
{
    for i in 0..ideas.len()
        invariant
            first_idea_named(ideas@, name@, i as int) is None,
    {
        if str_eq(ideas[i].name.as_str(), name) {
            proof {
                lemma_first_idea_named_stable(ideas@, name@, i + 1, ideas@.len() as int);
            }
            return Some(i);
        }
    }
    None
}

/// Every dependency names an existing idea other than the one that has it.
pub open spec fn ideas_valid(ideas: Seq<Idea>) -> bool {
    forall|i: int, d: int| 0 <= i < ideas.len() && 0 <= d < ideas[i].depends_on@.len() ==> #[trigger] dep_ok(ideas, i, d)
}

/// What is wrong with an idea list.
#[derive(Clone, Copy, PartialEq, Eq, Debug, Structural)]
pub enum IdeaInfoError {
    /// `ideas[idea].depends_on[dep]` names `ideas[idea]` itself.
    SelfDependency { idea: usize, dep: usize },
    /// `ideas[idea].depends_on[dep]` names no idea.
    UnknownDependency { idea: usize, dep: usize },
}

/// The `(i, d)` dependency is acceptable.
pub open spec fn dep_ok(ideas: Seq<Idea>, i: int, d: int) -> bool {
    let dep = ideas[i].depends_on@[d]@;
    dep != ideas[i].name@ && idea_index(ideas, dep) is Some
}

/// `ideas[i].depends_on[d]` names `ideas[i]` itself, and is its first bad dependency.
pub open spec fn first_self_dependency(ideas: Seq<Idea>, i: int, d: int) -> bool {
    &&& 0 <= d < ideas[i].depends_on@.len()
    &&& ideas[i].depends_on@[d]@ == ideas[i].name@
    &&& forall|e: int| 0 <= e < d ==> dep_ok(ideas, i, e)
}

/// Checks that every dependency names an existing idea other than its own.
/// The error names the first offending dependency, scanning ideas and then
/// their dependencies in order.
pub fn validate_idea_info(ideas: &[Idea]) -> (r: Result<(), IdeaInfoError>)
    ensures
        r is Ok <==> ideas_valid(ideas@),
        r matches Err(IdeaInfoError::SelfDependency { idea, dep }) ==> idea < ideas@.len()
            && first_self_dependency(ideas@, idea as int, dep as int),
        r matches Err(IdeaInfoError::UnknownDependency { idea, dep }) ==> idea < ideas@.len()
            && dep < ideas@[idea as int].depends_on@.len()
            && ideas@[idea as int].depends_on@[dep as int]@ != ideas@[idea as int].name@
            && idea_index(ideas@, ideas@[idea as int].depends_on@[dep as int]@) is None
            && forall|e: int| 0 <= e < dep ==> dep_ok(ideas@, idea as int, e),
        r matches Err(e) ==> forall|i: int, d: int| 0 <= i < (match e {
            IdeaInfoError::SelfDependency { idea, .. } => idea,
            IdeaInfoError::UnknownDependency { idea, .. } => idea,
        }) && 0 <= d < ideas@[i].depends_on@.len() ==> dep_ok(ideas@, i, d),
{
    for i in 0..ideas.len()
        invariant
            forall|a: int, d: int| 0 <= a < i && 0 <= d < ideas@[a].depends_on@.len() ==> dep_ok(ideas@, a, d),
    {
        let idea = &ideas[i];
        for d in 0..idea.depends_on.len()
            invariant
                i < ideas@.len(),
                *idea == ideas@[i as int],
                forall|a: int, e: int| 0 <= a < i && 0 <= e < ideas@[a].depends_on@.len() ==> dep_ok(ideas@, a, e),
                forall|e: int| 0 <= e < d ==> dep_ok(ideas@, i as int, e),
        {
            let dep = &idea.depends_on[d];
            if str_eq(dep.as_str(), idea.name.as_str()) {
                proof {
                    assert(!dep_ok(ideas@, i as int, d as int));
                    assert(first_self_dependency(ideas@, i as int, d as int));
                }
                return Err(IdeaInfoError::SelfDependency { idea: i, dep: d });
            }
            if idea_by_name(ideas, dep.as_str()).is_none() {
                proof {
                    assert(!dep_ok(ideas@, i as int, d as int));
                }
                return Err(IdeaInfoError::UnknownDependency { idea: i, dep: d });
            }
        }
    }
    Ok(())
}

/// Every dependency of `ideas[i]` names an idea at one of the `placed` positions.
pub open spec fn deps_placed(ideas: Seq<Idea>, placed: Seq<int>, i: int) -> bool {
    forall|d: int| 0 <= d < ideas[i].depends_on@.len() ==> #[trigger] dep_placed(ideas, placed, i, d)
}

/// Dependency `d` of `ideas[i]` names an idea at one of the `placed` positions.
pub open spec fn dep_placed(ideas: Seq<Idea>, placed: Seq<int>, i: int, d: int) -> bool {
    exists|k: int| 0 <= k < placed.len() && #[trigger] ideas[placed[k]].name@ == ideas[i].depends_on@[d]@
}

/// `ideas[i]` is not placed yet and all its prerequisites are.
pub open spec fn ready(ideas: Seq<Idea>, placed: Seq<int>, i: int) -> bool {
    !placed.contains(i) && deps_placed(ideas, placed, i)
}

/// The first ready index below `n`.
pub open spec fn first_ready(ideas: Seq<Idea>, placed: Seq<int>, n: int) -> Option<int>
    decreases n,
{
    if n <= 0 {
        None
    } else {
        match first_ready(ideas, placed, n - 1) {
            Some(i) => Some(i),
            None => if ready(ideas, placed, n - 1) { Some(n - 1) } else { None },
        }
    }
}

/// Kahn's algorithm from `placed` on: repeatedly place the first ready idea
/// (ties broken by list position); `None` when ideas remain but none is
/// ready (a dependency cycle).
pub open spec fn kahn(ideas: Seq<Idea>, placed: Seq<int>) -> Option<Seq<int>>
    decreases ideas.len() - placed.len(),
{
    if placed.len() >= ideas.len() {
        Some(placed)
    } else {
        match first_ready(ideas, placed, ideas.len() as int) {
            None => None,
            Some(i) => kahn(ideas, placed.push(i)),
        }
    }
}

proof fn lemma_first_ready(ideas: Seq<Idea>, placed: Seq<int>, n: int)
    requires
        0 <= n,
    ensures
        first_ready(ideas, placed, n) matches Some(i) ==> 0 <= i < n && ready(ideas, placed, i)
            && forall|j: int| 0 <= j < i ==> !ready(ideas, placed, j),
        first_ready(ideas, placed, n) is None ==> forall|j: int| 0 <= j < n ==> !ready(ideas, placed, j),
    decreases n,
{
    if n > 0 {
        lemma_first_ready(ideas, placed, n - 1);
    }
}

/// Whether some name in `names` is `s`.
fn contains_name(names: &Vec<String>, s: &str) -> (b: bool)
    ensures
        b == exists|k: int| 0 <= k < names@.len() && #[trigger] names@[k]@ == s@,
{
    for k in 0..names.len()
        invariant
            forall|j: int| 0 <= j < k ==> names@[j]@ != s@,
    {
        if str_eq(names[k].as_str(), s) {
            return true;
        }
    }
    false
}

/// Some string in `names` holds the characters `s`.
pub open spec fn name_listed(names: Seq<String>, s: Seq<char>) -> bool {
    exists|k: int| 0 <= k < names.len() && #[trigger] names[k]@ == s
}

/// Whether every string of `wanted` appears in `names`.
fn all_names_in(wanted: &Vec<String>, names: &Vec<String>) -> (b: bool)
    ensures
        b == forall|d: int| 0 <= d < wanted@.len() ==> name_listed(names@, #[trigger] wanted@[d]@),
{
    for d in 0..wanted.len()
        invariant
            forall|e: int| 0 <= e < d ==> name_listed(names@, #[trigger] wanted@[e]@),
    {
        if !contains_name(names, wanted[d].as_str()) {
            return false;
        }
    }
    true
}

/// Orders ideas so that every idea's prerequisites precede it (Kahn's
/// algorithm, ties broken by list order). `None` on a dependency cycle.
pub fn topo_sort(ideas: Vec<Idea>) -> (r: Option<Vec<Idea>>)
    ensures
        r is None <==> kahn(ideas@, Seq::<int>::empty()) is None,
        r matches Some(v) ==> kahn(ideas@, Seq::<int>::empty()) matches Some(ord) && v@.len() == ord.len()
            && forall|k: int| 0 <= k < ord.len() ==> #[trigger] v@[k] == ideas@[ord[k]],
{
    let ghost orig = ideas@;
    let n = ideas.len();
    let mut pool = ideas;
    let mut done: Vec<bool> = Vec::new();
    for i in 0..n
        invariant
            done@.len() == i,
            forall|k: int| 0 <= k < i ==> !done@[k],
    {
        done.push(false);
    }
    let mut placed_names: Vec<String> = Vec::new();
    let mut sorted: Vec<Idea> = Vec::new();
    let ghost mut order: Seq<int> = seq![];
    while sorted.len() < n
        invariant
            n == orig.len(),
            orig == ideas@,
            pool@.len() == n,
            done@.len() == n,
            sorted@.len() == order.len(),
            order.len() <= n,
            kahn(orig, Seq::<int>::empty()) == kahn(orig, order),
            forall|i: int| 0 <= i < n ==> (#[trigger] done@[i] <==> order.contains(i)),
            forall|i: int| 0 <= i < n && !done@[i] ==> #[trigger] pool@[i] == orig[i],
            forall|k: int| 0 <= k < order.len() ==> 0 <= #[trigger] order[k] < n,
            placed_names@.len() == order.len(),
            forall|k: int| 0 <= k < order.len() ==> #[trigger] placed_names@[k]@ == orig[order[k]].name@,
            forall|k: int| 0 <= k < order.len() ==> #[trigger] sorted@[k] == orig[order[k]],
        decreases n - sorted@.len(),
    {
        // The first idea not yet placed whose prerequisites all are.
        let mut found: Option<usize> = None;
        let mut i: usize = 0;
        while found.is_none() && i < n
            invariant
                n == orig.len(),
                pool@.len() == n,
                done@.len() == n,
                i <= n,
                forall|q: int| 0 <= q < n ==> (#[trigger] done@[q] <==> order.contains(q)),
                forall|q: int| 0 <= q < n && !done@[q] ==> #[trigger] pool@[q] == orig[q],
                placed_names@.len() == order.len(),
                forall|k: int| 0 <= k < order.len() ==> 0 <= #[trigger] order[k] < n,
                forall|k: int| 0 <= k < order.len() ==> #[trigger] placed_names@[k]@ == orig[order[k]].name@,
                found is None ==> forall|j: int| 0 <= j < i ==> !ready(orig, order, j),
                found matches Some(f) ==> f < n && ready(orig, order, f as int)
                    && forall|j: int| 0 <= j < f ==> !ready(orig, order, j),
            decreases n - i,
        {
            if !done[i] {
                let all = all_names_in(&pool[i].depends_on, &placed_names);
                proof {
                    assert(pool@[i as int] == orig[i as int]);
                    assert(all == deps_placed(orig, order, i as int)) by {
                        if all {
                            assert forall|d: int| 0 <= d < orig[i as int].depends_on@.len() implies
                                #[trigger] dep_placed(orig, order, i as int, d) by {
                                let k = choose|k: int| 0 <= k < placed_names@.len()
                                    && #[trigger] placed_names@[k]@ == orig[i as int].depends_on@[d]@;
                                assert(orig[order[k]].name@ == orig[i as int].depends_on@[d]@);
                            }
                        } else {
                            let d = choose|d: int| 0 <= d < orig[i as int].depends_on@.len()
                                && !name_listed(placed_names@, #[trigger] orig[i as int].depends_on@[d]@);
                            assert forall|k: int| 0 <= k < order.len() implies
                                #[trigger] orig[order[k]].name@ != orig[i as int].depends_on@[d]@ by {
                                assert(placed_names@[k]@ == orig[order[k]].name@);
                            }
                            assert(!dep_placed(orig, order, i as int, d));
                        }
                    }
                }
                if all {
                    found = Some(i);
                }
            }
            i = i + 1;
        }
        match found {
            None => {
                proof {
                    lemma_first_ready(orig, order, n as int);
                }
                return None;
            },
            Some(i) => {
                proof {
                    lemma_first_ready(orig, order, n as int);
                }
                let mut tmp = Idea { name: String::new(), depends_on: Vec::new() };
                pool.set_and_swap(i, &mut tmp);
                placed_names.push(tmp.name.clone());
                sorted.push(tmp);
                done.set(i, true);
                proof {
                    let old_order = order;
                    order = order.push(i as int);
                    assert forall|q: int| 0 <= q < n implies (#[trigger] done@[q] <==> order.contains(q)) by {
                        if q != i {
                            if old_order.contains(q) {
                                let j = choose|j: int| 0 <= j < old_order.len() && old_order[j] == q;
                                assert(order[j] == q);
                            }
                            if order.contains(q) {
                                let j = choose|j: int| 0 <= j < order.len() && order[j] == q;
                                assert(j < old_order.len());
                                assert(old_order[j] == q);
                            }
                        } else {
                            assert(order[order.len() - 1] == q);
                        }
                    }
                }
            },
        }
    }
    Some(sorted)
}

proof fn lemma_kahn_shape(ideas: Seq<Idea>, placed: Seq<int>, ord: Seq<int>)
    requires
        kahn(ideas, placed) == Some(ord),
        placed.len() <= ideas.len(),
    ensures
        ord.len() == ideas.len(),
        ord.take(placed.len() as int) == placed,
        forall|k: int| placed.len() <= k < ord.len() ==>
            deps_placed(ideas, ord.take(k), #[trigger] ord[k]) && !ord.take(k).contains(ord[k])
            && 0 <= ord[k] < ideas.len(),
    decreases ideas.len() - placed.len(),
{
    if placed.len() >= ideas.len() {
        assert(ord.take(placed.len() as int) =~= placed);
    } else {
        lemma_first_ready(ideas, placed, ideas.len() as int);
        let i = first_ready(ideas, placed, ideas.len() as int)->0;
        let next = placed.push(i);
        lemma_kahn_shape(ideas, next, ord);
        assert(ord.take(placed.len() as int) =~= ord.take(next.len() as int).take(placed.len() as int));
        assert(next.take(placed.len() as int) =~= placed);
        let k0 = placed.len() as int;
        assert(ord[k0] == ord.take(next.len() as int)[k0]);
        assert(ord[k0] == i);
        assert(ord.take(k0) =~= placed);
    }
}

/// Kahn's order lists prerequisites first: every dependency of an idea names
/// an idea placed before it; each idea appears exactly once.
pub proof fn lemma_kahn_prerequisites_first(ideas: Seq<Idea>, ord: Seq<int>, k: int)
    requires
        kahn(ideas, seq![]) == Some(ord),
        0 <= k < ord.len(),
    ensures
        ord.len() == ideas.len(),
        0 <= ord[k] < ideas.len(),
        deps_placed(ideas, ord.take(k), ord[k]),
        !ord.take(k).contains(ord[k]),
{
    lemma_kahn_shape(ideas, seq![], ord);
}

/// Each idea's dependencies, as indices into `ideas` (the first idea of each
/// name).
pub fn dep_indices(ideas: &[Idea]) -> (deps: Vec<Vec<usize>>)
    requires
        ideas_valid(ideas@),
    ensures
        deps@.len() == ideas@.len(),
        forall|i: int| 0 <= i < deps@.len() ==> #[trigger] deps@[i]@.len() == ideas@[i].depends_on@.len(),
        forall|i: int, d: int| 0 <= i < deps@.len() && 0 <= d < deps@[i]@.len() ==>
            Some(#[trigger] deps@[i]@[d] as int) == idea_index(ideas@, ideas@[i].depends_on@[d]@),
{
    let mut deps: Vec<Vec<usize>> = Vec::new();
    for i in 0..ideas.len()
        invariant
            ideas_valid(ideas@),
            deps@.len() == i,
            forall|a: int| 0 <= a < i ==> #[trigger] deps@[a]@.len() == ideas@[a].depends_on@.len(),
            forall|a: int, d: int| 0 <= a < i && 0 <= d < deps@[a]@.len() ==>
                Some(#[trigger] deps@[a]@[d] as int) == idea_index(ideas@, ideas@[a].depends_on@[d]@),
    {
        let idea = &ideas[i];
        let mut row: Vec<usize> = Vec::new();
        for d in 0..idea.depends_on.len()
            invariant
                ideas_valid(ideas@),
                *idea == ideas@[i as int],
                i < ideas@.len(),
                row@.len() == d,
                forall|e: int| 0 <= e < d ==>
                    Some(#[trigger] row@[e] as int) == idea_index(ideas@, ideas@[i as int].depends_on@[e]@),
        {
            proof {
                assert(dep_ok(ideas@, i as int, d as int));
            }
            let ghost prev = row@;
            proof {
                lemma_first_idea_named(ideas@, ideas@[i as int].depends_on@[d as int]@, ideas@.len() as int);
            }
            let found = idea_by_name(ideas, idea.depends_on[d].as_str());
            proof {
                let name = ideas@[i as int].depends_on@[d as int]@;
                assert(idea.depends_on@[d as int]@ == name);
                assert(found == (match idea_index(ideas@, name) {
                    Some(j) => Some(j as usize),
                    None => None,
                }));
            }
            match found {
                Some(k) => row.push(k),
                None => {
                    assert(false);
                    row.push(0);
                },
            }
            proof {
                let name = ideas@[i as int].depends_on@[d as int]@;
                lemma_first_idea_named(ideas@, name, ideas@.len() as int);
                assert(ideas@.len() == ideas.len());
                if let Some(j) = idea_index(ideas@, name) {
                    assert(0 <= j < ideas.len());
                    assert(row@[d as int] == j as usize);
                }
                assert(Some(row@[d as int] as int) == idea_index(ideas@, name));
                assert forall|e: int| 0 <= e < d + 1 implies
                    Some(#[trigger] row@[e] as int) == idea_index(ideas@, ideas@[i as int].depends_on@[e]@) by {
                    if e < d {
                        assert(row@[e] == prev[e]);
                    }
                }
            }
        }
        deps.push(row);
    }
    deps
}

/// What the city has read: one segment mask per idea. Bits are only ever added.
pub struct IdeaState {
    pub learned: Vec<u64>,
}

impl IdeaState {
    /// A state that has read nothing, for `idea_count` ideas.
    pub fn new(idea_count: usize) -> (s: Self)
        ensures
            s.learned@.len() == idea_count,
            forall|i: int| 0 <= i < idea_count ==> s.learned@[i] == 0,
    {
        let mut learned: Vec<u64> = Vec::new();
        for i in 0..idea_count
            invariant
                learned@.len() == i,
                forall|k: int| 0 <= k < i ==> learned@[k] == 0,
        {
            learned.push(0);
        }
        IdeaState { learned }
    }

    /// Adds `mask`'s segments (bits beyond `SEGMENTS` ignored) to `idea`.
    /// Returns whether anything was actually new.
    pub fn learn(&mut self, idea: usize, mask: u64) -> (changed: bool)
        requires
            idea < old(self).learned@.len(),
        ensures
            final(self).learned@ == old(self).learned@.update(
                idea as int,
                old(self).learned@[idea as int] | (mask & ALL_SEGMENTS),
            ),
            changed == (final(self).learned@[idea as int] != old(self).learned@[idea as int]),
    {
        let before = self.learned[idea];
        let after = before | (mask & ALL_SEGMENTS);
        self.learned.set(idea, after);
        after != before
    }
}

/// The AND of `start` with `prev[d]` for every dependency `d` in `ds`.
pub open spec fn and_over(start: u64, ds: Seq<usize>, prev: Seq<u64>) -> u64
    decreases ds.len(),
{
    if ds.len() == 0 {
        start
    } else {
        and_over(start, ds.drop_last(), prev) & prev[ds.last() as int]
    }
}

/// Understood masks of the first `n` ideas: an idea's learned segments
/// (within `SEGMENTS`) that every prerequisite also understands.
pub open spec fn understood_prefix(deps: Seq<Seq<usize>>, learned: Seq<u64>, n: int) -> Seq<u64>
    decreases n,
{
    if n <= 0 {
        seq![]
    } else {
        let prev = understood_prefix(deps, learned, n - 1);
        prev.push(and_over(learned[n - 1] & ALL_SEGMENTS, deps[n - 1], prev))
    }
}

pub open spec fn spec_understood(deps: Seq<Seq<usize>>, learned: Seq<u64>) -> Seq<u64> {
    understood_prefix(deps, learned, learned.len() as int)
}

/// Every idea's dependencies come strictly before it.
pub open spec fn deps_sorted(deps: Seq<Seq<usize>>, n: int) -> bool {
    forall|i: int, k: int| 0 <= i < n && 0 <= k < deps[i].len() ==> #[trigger] deps[i][k] < i
}

proof fn lemma_understood_prefix_len(deps: Seq<Seq<usize>>, learned: Seq<u64>, n: int)
    requires
        n >= 0,
    ensures
        understood_prefix(deps, learned, n).len() == n,
        forall|m: int, i: int| 0 <= i < m <= n ==>
            #[trigger] understood_prefix(deps, learned, m)[i] == understood_prefix(deps, learned, n)[i],
    decreases n,
{
    if n > 0 {
        lemma_understood_prefix_len(deps, learned, n - 1);
        assert forall|m: int, i: int| 0 <= i < m <= n implies
            #[trigger] understood_prefix(deps, learned, m)[i] == understood_prefix(deps, learned, n)[i] by {
            if m < n {
                assert(understood_prefix(deps, learned, m)[i] == understood_prefix(deps, learned, n - 1)[i]);
            }
        }
    }
}

/// Resolves learned segments into understood ones in one forward pass; the
/// ideas must be topologically sorted.
pub fn compute_understood(deps: &[Vec<usize>], learned: &[u64]) -> (u: Vec<u64>)
    requires
        deps@.len() >= learned@.len(),
        forall|i: int, k: int| 0 <= i < learned@.len() && 0 <= k < deps@[i]@.len() ==> #[trigger] deps@[i]@[k] < i,
    ensures
        u@ == spec_understood(deps@.map_values(|d: Vec<usize>| d@), learned@),
{
    let ghost ds = deps@.map_values(|d: Vec<usize>| d@);
    let mut understood: Vec<u64> = Vec::new();
    for idx in 0..learned.len()
        invariant
            deps@.len() >= learned@.len(),
            ds == deps@.map_values(|d: Vec<usize>| d@),
            forall|i: int, k: int| 0 <= i < learned@.len() && 0 <= k < deps@[i]@.len() ==> #[trigger] deps@[i]@[k] < i,
            understood@ == understood_prefix(ds, learned@, idx as int),
    {
        let row = &deps[idx];
        proof {
            lemma_understood_prefix_len(ds, learned@, idx as int);
        }
        let mut mask = learned[idx] & ALL_SEGMENTS;
        for k in 0..row.len()
            invariant
                *row == deps@[idx as int],
                idx < learned@.len(),
                deps@.len() >= learned@.len(),
                ds == deps@.map_values(|d: Vec<usize>| d@),
                forall|i: int, j: int| 0 <= i < learned@.len() && 0 <= j < deps@[i]@.len() ==> #[trigger] deps@[i]@[j] < i,
                understood@ == understood_prefix(ds, learned@, idx as int),
                understood@.len() == idx,
                mask == and_over(learned@[idx as int] & ALL_SEGMENTS, row@.take(k as int), understood@),
        {
            let dep = row[k];
            proof {
                assert(row@.take(k + 1).drop_last() =~= row@.take(k as int));
                assert(deps@[idx as int]@[k as int] < idx);
            }
            mask = mask & understood[dep];
        }
        proof {
            assert(row@.take(row@.len() as int) =~= row@);
            assert(ds[idx as int] == row@);
        }
        understood.push(mask);
    }
    understood
}

proof fn lemma_and_sub(y: u64, p: u64, s: u64)
    requires
        y & s == y,
    ensures
        (y & p) & s == y & p,
        (y & p) & p == y & p,
{
    assert((y & s == y) ==> ((y & p) & s == y & p)) by (bit_vector);
    assert((y & p) & p == y & p) by (bit_vector);
}

proof fn lemma_and_mono(a: u64, b: u64, p: u64, q: u64)
    requires
        a & b == a,
        p & q == p,
    ensures
        (a & p) & (b & q) == a & p,
{
    assert((a & b == a && p & q == p) ==> ((a & p) & (b & q) == a & p)) by (bit_vector);
}

/// The AND over dependencies keeps only bits of its start and of every
/// dependency's mask.
proof fn lemma_and_over_within(start: u64, ds: Seq<usize>, prev: Seq<u64>)
    ensures
        and_over(start, ds, prev) & start == and_over(start, ds, prev),
        forall|k: int| 0 <= k < ds.len() ==>
            and_over(start, ds, prev) & prev[#[trigger] ds[k] as int] == and_over(start, ds, prev),
    decreases ds.len(),
{
    if ds.len() == 0 {
        assert(start & start == start) by (bit_vector);
    } else {
        let y = and_over(start, ds.drop_last(), prev);
        let p = prev[ds.last() as int];
        lemma_and_over_within(start, ds.drop_last(), prev);
        lemma_and_sub(y, p, start);
        assert forall|k: int| 0 <= k < ds.len() implies
            and_over(start, ds, prev) & prev[#[trigger] ds[k] as int] == and_over(start, ds, prev) by {
            if k < ds.len() - 1 {
                assert(ds.drop_last()[k] == ds[k]);
                lemma_and_sub(y, p, prev[ds[k] as int]);
            }
        }
    }
}

/// The AND over dependencies is monotone in its start and in the masks.
proof fn lemma_and_over_mono(a: u64, b: u64, ds: Seq<usize>, p: Seq<u64>, q: Seq<u64>)
    requires
        a & b == a,
        forall|k: int| 0 <= k < ds.len() ==> p[#[trigger] ds[k] as int] & q[ds[k] as int] == p[ds[k] as int],
    ensures
        and_over(a, ds, p) & and_over(b, ds, q) == and_over(a, ds, p),
    decreases ds.len(),
{
    if ds.len() > 0 {
        assert forall|k: int| 0 <= k < ds.drop_last().len() implies
            p[#[trigger] ds.drop_last()[k] as int] & q[ds.drop_last()[k] as int] == p[ds.drop_last()[k] as int] by {
            assert(ds.drop_last()[k] == ds[k]);
        }
        lemma_and_over_mono(a, b, ds.drop_last(), p, q);
        let l = ds.len() - 1;
        assert(p[ds[l] as int] & q[ds[l] as int] == p[ds[l] as int]);
        lemma_and_mono(and_over(a, ds.drop_last(), p), and_over(b, ds.drop_last(), q), p[ds.last() as int], q[ds.last() as int]);
    }
}

/// Understanding never outruns learning: every understood segment is a
/// learned segment within `SEGMENTS`.
pub proof fn lemma_understood_within_learned(deps: Seq<Seq<usize>>, learned: Seq<u64>, i: int)
    requires
        0 <= i < learned.len(),
    ensures
        spec_understood(deps, learned)[i] & learned[i] == spec_understood(deps, learned)[i],
        spec_understood(deps, learned)[i] & ALL_SEGMENTS == spec_understood(deps, learned)[i],
{
    lemma_understood_prefix_len(deps, learned, learned.len() as int);
    let prev = understood_prefix(deps, learned, i);
    lemma_understood_prefix_len(deps, learned, i + 1);
    assert(spec_understood(deps, learned)[i] == understood_prefix(deps, learned, i + 1)[i]);
    let start = learned[i] & ALL_SEGMENTS;
    let u = and_over(start, deps[i], prev);
    lemma_and_over_within(start, deps[i], prev);
    let l = learned[i];
    assert((u & (l & 0x3_ffff_ffff_ffffu64) == u) ==> (u & l == u && u & 0x3_ffff_ffff_ffffu64 == u)) by (bit_vector);
}

/// A dependent idea is never further along than its prerequisites: each
/// segment it understands is understood in every idea it depends on (ideas
/// topologically sorted).
pub proof fn lemma_understood_within_prerequisites(deps: Seq<Seq<usize>>, learned: Seq<u64>, i: int, k: int)
    requires
        0 <= i < learned.len(),
        0 <= k < deps[i].len(),
        deps_sorted(deps, learned.len() as int),
    ensures
        spec_understood(deps, learned)[i] & spec_understood(deps, learned)[deps[i][k] as int]
            == spec_understood(deps, learned)[i],
{
    lemma_understood_prefix_len(deps, learned, learned.len() as int);
    lemma_understood_prefix_len(deps, learned, i + 1);
    lemma_understood_prefix_len(deps, learned, i);
    let prev = understood_prefix(deps, learned, i);
    let start = learned[i] & ALL_SEGMENTS;
    lemma_and_over_within(start, deps[i], prev);
    let d = deps[i][k] as int;
    assert(d < i);
    assert(prev[d] == spec_understood(deps, learned)[d]);
    assert(spec_understood(deps, learned)[i] == understood_prefix(deps, learned, i + 1)[i]);
}

/// Learning more never lessens understanding: if every learned mask only
/// gains bits, so does every understood mask.
pub proof fn lemma_understood_monotone(deps: Seq<Seq<usize>>, before: Seq<u64>, after: Seq<u64>, n: int)
    requires
        0 <= n <= before.len(),
        before.len() == after.len(),
        deps_sorted(deps, before.len() as int),
        forall|i: int| 0 <= i < before.len() ==> #[trigger] before[i] & after[i] == before[i],
    ensures
        forall|i: int| 0 <= i < n ==>
            #[trigger] understood_prefix(deps, before, n)[i] & understood_prefix(deps, after, n)[i]
                == understood_prefix(deps, before, n)[i],
    decreases n,
{
    if n > 0 {
        lemma_understood_monotone(deps, before, after, n - 1);
        lemma_understood_prefix_len(deps, before, n);
        lemma_understood_prefix_len(deps, after, n);
        let p = understood_prefix(deps, before, n - 1);
        let q = understood_prefix(deps, after, n - 1);
        let a = before[n - 1] & ALL_SEGMENTS;
        let b = after[n - 1] & ALL_SEGMENTS;
        let x = before[n - 1];
        let y = after[n - 1];
        assert((x & y == x) ==> ((x & ALL_SEGMENTS) & (y & ALL_SEGMENTS) == x & ALL_SEGMENTS)) by (bit_vector);
        assert forall|k: int| 0 <= k < deps[n - 1].len() implies
            p[#[trigger] deps[n - 1][k] as int] & q[deps[n - 1][k] as int] == p[deps[n - 1][k] as int] by {
            assert(deps[n - 1][k] < n - 1);
        }
        lemma_and_over_mono(a, b, deps[n - 1], p, q);
        assert forall|i: int| 0 <= i < n implies
            #[trigger] understood_prefix(deps, before, n)[i] & understood_prefix(deps, after, n)[i]
                == understood_prefix(deps, before, n)[i] by {
            if i < n - 1 {
                assert(understood_prefix(deps, before, n)[i] == p[i]);
                assert(understood_prefix(deps, after, n)[i] == q[i]);
            }
        }
    }
}

/// Learning is permanent: after `learn`, the mask holds every segment it held
/// before.
pub proof fn lemma_learning_is_permanent(old_mask: u64, mask: u64)
    ensures
        old_mask & (old_mask | (mask & ALL_SEGMENTS)) == old_mask,
{
    assert(old_mask & (old_mask | (mask & 0x3_ffff_ffff_ffffu64)) == old_mask) by (bit_vector);
}

/// Segment `b` is set in `mask`.
pub open spec fn has_bit(mask: u64, b: u64) -> bool {
    b < 64 && (mask >> b) & 1 == 1
}

/// Number of set bits of `mask` below position `n`.
pub open spec fn bits_below(mask: u64, n: nat) -> nat
    decreases n,
{
    if n == 0 {
        0
    } else {
        bits_below(mask, (n - 1) as nat) + if has_bit(mask, (n - 1) as u64) { 1nat } else { 0 }
    }
}

/// Number of segments set in `mask` (its set bits).
pub open spec fn segment_count(mask: u64) -> nat {
    bits_below(mask, 64)
}

/// Counts the set bits of a mask.
pub fn count_segments(mask: u64) -> (n: u32)
    ensures
        n == segment_count(mask),
{
    let mut n: u32 = 0;
    let mut b: u64 = 0;
    while b < 64
        invariant
            b <= 64,
            n == bits_below(mask, b as nat),
            n <= b,
        decreases 64 - b,
    {
        if (mask >> b) & 1 == 1 {
            n = n + 1;
        }
        b = b + 1;
    }
    n
}

#[verifier::external_type_specification]
#[verifier::external_body]
pub struct ExStdRng(StdRng);

/// Draws a number from `low..high` with rand's `Rng::random_range`; all that
/// is promised of the draw is that it lies in the range.
#[verifier::external_body]
fn random_below(rng: &mut StdRng, low: usize, high: usize) -> (r: usize)
    requires
        low < high,
    ensures
        low <= r < high,
{
    rng.random_range(low..high)
}

proof fn lemma_or_bit(m: u64, v: u64, b: u64)
    requires
        v < 50,
        b < 64,
    ensures
        has_bit(m | (1u64 << v), b) <==> (has_bit(m, b) || b == v),
{
    assert(((((m | (1u64 << v)) >> b) & 1 == 1) <==> (((m >> b) & 1 == 1) || b == v))) by (bit_vector)
        requires v < 50, b < 64;
}

proof fn lemma_or_within(m: u64, v: u64)
    requires
        v < 50,
        m & 0x3_ffff_ffff_ffff == m,
    ensures
        (m | (1u64 << v)) & 0x3_ffff_ffff_ffff == m | (1u64 << v),
{
    assert((m | (1u64 << v)) & 0x3_ffff_ffff_ffff == m | (1u64 << v)) by (bit_vector)
        requires v < 50, m & 0x3_ffff_ffff_ffff == m;
}

/// `mask` holds exactly the segments `picks`: distinct segment numbers below
/// `SEGMENTS`.
pub open spec fn mask_of_picks(mask: u64, picks: Seq<u32>) -> bool {
    &&& picks.no_duplicates()
    &&& forall|k: int| 0 <= k < picks.len() ==> #[trigger] picks[k] < SEGMENTS
    &&& forall|b: u64| b < 64 ==> (has_bit(mask, b) <==> picks.contains(b as u32))
}

/// `mask` holds exactly `count` distinct segments.
pub open spec fn mask_of_count(mask: u64, count: int) -> bool {
    exists|picks: Seq<u32>| picks.len() == count && #[trigger] mask_of_picks(mask, picks)
}

proof fn lemma_picks_witness(mask: u64, picks: Seq<u32>, count: int)
    requires
        picks.len() == count,
        mask_of_picks(mask, picks),
    ensures
        mask_of_count(mask, count),
{
}

/// The segment pool after the first `i` steps of a partial Fisher-Yates
/// shuffle of `0..SEGMENTS` with draws `picks`: step `k` swaps positions
/// `k` and `picks[k]`.
pub open spec fn shuffled_pool(picks: Seq<usize>, i: int) -> Seq<u32>
    decreases i,
{
    if i <= 0 {
        Seq::new(SEGMENTS as nat, |k: int| k as u32)
    } else {
        let p = shuffled_pool(picks, i - 1);
        let j = picks[i - 1] as int;
        p.update(i - 1, p[j]).update(j, p[i - 1])
    }
}

/// The draws of a shuffle that takes `m` segments: draw `k` lies in
/// `k..SEGMENTS`.
pub open spec fn valid_draws(picks: Seq<usize>, m: int) -> bool {
    &&& picks.len() == m
    &&& m <= SEGMENTS
    &&& forall|k: int| 0 <= k < m ==> k <= #[trigger] picks[k] < SEGMENTS
}

/// The segments a book holds given the draws of its shuffle: the first
/// `picks.len()` segments of the shuffled pool (see `shuffled_pool`), as a
/// mask.
pub fn shuffled_segments(picks: &[usize]) -> (mask: u64)
    requires
        valid_draws(picks@, picks@.len() as int),
    ensures
        mask & ALL_SEGMENTS == mask,
        mask_of_picks(mask, shuffled_pool(picks@, picks@.len() as int).take(picks@.len() as int)),
        mask_of_count(mask, picks@.len() as int),
{
    let m = picks.len();
    let mut pool: Vec<u32> = Vec::new();
    for v in 0..SEGMENTS
        invariant
            pool@.len() == v,
            forall|k: int| 0 <= k < v ==> pool@[k] == k,
    {
        pool.push(v);
    }
    let mut mask: u64 = 0;
    proof {
        assert(pool@ =~= shuffled_pool(picks@, 0));
        assert(pool@.no_duplicates());
        assert forall|b: u64| b < 64 implies (has_bit(mask, b) <==> pool@.take(0).contains(b as u32)) by {
            assert((0u64 >> b) & 1 == 0) by (bit_vector);
        }
        assert((0u64 & 0x3_ffff_ffff_ffffu64) == 0u64) by (bit_vector);
    }
    for i in 0..m
        invariant
            m == picks@.len(),
            valid_draws(picks@, m as int),
            pool@ == shuffled_pool(picks@, i as int),
            pool@.len() == 50,
            pool@.no_duplicates(),
            forall|k: int| 0 <= k < 50 ==> #[trigger] pool@[k] < 50,
            mask & ALL_SEGMENTS == mask,
            forall|b: u64| b < 64 ==> (has_bit(mask, b) <==> pool@.take(i as int).contains(b as u32)),
    {
        let pick = picks[i];
        let a = pool[i];
        let b = pool[pick];
        let ghost old_pool = pool@;
        pool.set(i, b);
        pool.set(pick, a);
        proof {
            assert(pool@ =~= shuffled_pool(picks@, i + 1));
            assert forall|x: int, y: int| 0 <= x < 50 && 0 <= y < 50 && x != y implies pool@[x] != pool@[y] by {
                let sx = if x == i { pick as int } else if x == pick { i as int } else { x };
                let sy = if y == i { pick as int } else if y == pick { i as int } else { y };
                assert(pool@[x] == old_pool[sx]);
                assert(pool@[y] == old_pool[sy]);
            }
            assert(pool@.take(i as int) =~= old_pool.take(i as int));
        }
        let v = pool[i];
        let vv: u64 = v as u64;
        proof {
            lemma_or_within(mask, vv);
            assert(pool@.take(i + 1) =~= pool@.take(i as int).push(v));
            assert forall|bb: u64| bb < 64 implies (has_bit(mask | (1u64 << vv), bb)
                <==> pool@.take(i + 1).contains(bb as u32)) by {
                lemma_or_bit(mask, vv, bb);
                assert(has_bit(mask, bb) <==> pool@.take(i as int).contains(bb as u32));
                assert(bb == vv <==> bb as u32 == v);
                if pool@.take(i as int).contains(bb as u32) {
                    let k = choose|k: int| 0 <= k < i && #[trigger] pool@.take(i as int)[k] == bb as u32;
                    assert(pool@.take(i + 1)[k] == bb as u32);
                }
                if pool@.take(i + 1).contains(bb as u32) {
                    let k = choose|k: int| 0 <= k < i + 1 && #[trigger] pool@.take(i + 1)[k] == bb as u32;
                    if k < i {
                        assert(pool@.take(i as int)[k] == bb as u32);
                    }
                }
                if bb == vv {
                    assert(pool@.take(i + 1)[i as int] == bb as u32);
                }
            }
        }
        mask = mask | (1u64 << vv);
    }
    proof {
        let picked = pool@.take(m as int);
        assert forall|x: int, y: int| 0 <= x < picked.len() && 0 <= y < picked.len() && x != y implies picked[x] != picked[y] by {
            assert(picked[x] == pool@[x]);
            assert(picked[y] == pool@[y]);
        }
        assert(picked.no_duplicates());
        assert(picked.len() == m);
        assert(forall|k: int| 0 <= k < picked.len() ==> #[trigger] picked[k] < SEGMENTS);
        assert(mask_of_picks(mask, picked));
        lemma_picks_witness(mask, picked, m as int);
    }
    mask
}

/// Rolls a book: an idea chosen at random from `candidates`
/// (prerequisites deliberately ignored) and `min(n_segments, SEGMENTS)`
/// distinct segments of it, by a partial Fisher-Yates shuffle whose draws
/// come from `rng` (see `shuffled_segments`).
#[verifier::spinoff_prover]
pub fn roll_book(candidates: &[usize], n_segments: u32, rng: &mut StdRng) -> (r: (usize, u64))
    requires
        candidates@.len() > 0,
    ensures
        candidates@.contains(r.0),
        r.1 & ALL_SEGMENTS == r.1,
        mask_of_count(r.1, if n_segments < SEGMENTS { n_segments as int } else { SEGMENTS as int }),
        exists|picks: Seq<usize>| #[trigger] valid_draws(picks, picks.len() as int)
            && picks.len() == (if n_segments < SEGMENTS { n_segments as int } else { SEGMENTS as int })
            && mask_of_picks(r.1, shuffled_pool(picks, picks.len() as int).take(picks.len() as int)),
{
    let which = random_below(rng, 0, candidates.len());
    let idea = candidates[which];
    let m: usize = if n_segments < SEGMENTS { n_segments as usize } else { SEGMENTS as usize };
    let mut picks: Vec<usize> = Vec::new();
    for i in 0..m
        invariant
            m <= SEGMENTS,
            valid_draws(picks@, i as int),
    {
        let pick = random_below(rng, i, SEGMENTS as usize);
        picks.push(pick);
    }
    let mask = shuffled_segments(picks.as_slice());
    proof {
        assert(valid_draws(picks@, picks@.len() as int));
    }
    (idea, mask)
}

/// Title prefixes of rolled books.
pub open spec fn title_prefix(k: int) -> Seq<char> {
    if k == 0 { "A Treatise on"@ }
    else if k == 1 { "Notes toward"@ }
    else if k == 2 { "The Elements of"@ }
    else if k == 3 { "Concerning"@ }
    else { "Observations upon"@ }
}

fn prefix_of(k: usize) -> (s: &'static str)
    requires
        k < 5,
    ensures
        s@ == title_prefix(k as int),
{
    if k == 0 { "A Treatise on" }
    else if k == 1 { "Notes toward" }
    else if k == 2 { "The Elements of" }
    else if k == 3 { "Concerning" }
    else { "Observations upon" }
}

/// The title of a book about `idea_name` with prefix number `k`: the
/// prefix, a space, and the name.
pub fn titled(idea_name: &str, k: usize) -> (t: String)
    requires
        k < 5,
    ensures
        t@ == title_prefix(k as int) + " "@ + idea_name@,
{
    let mut t = String::new();
    push_str(&mut t, prefix_of(k));
    push_str(&mut t, " ");
    push_str(&mut t, idea_name);
    proof {
        assert(t@ =~= title_prefix(k as int) + " "@ + idea_name@);
    }
    t
}

/// A book title about `idea_name`: one of five prefixes, picked at random
/// (see `titled`).
pub fn book_title(idea_name: &str, rng: &mut StdRng) -> (t: String)
    ensures
        exists|k: int| 0 <= k < 5 && t@ == #[trigger] title_prefix(k) + " "@ + idea_name@,
{
    let k = random_below(rng, 0, 5);
    titled(idea_name, k)
}

} // verus!
