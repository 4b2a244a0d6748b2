//! The view model of the ideas window: each idea as a row of segment states,
//! counts and a layout depth, with prerequisites always drawn above.
use vstd::prelude::*;
use crate::idea::{bits_below, has_bit, segment_count, count_segments, Idea, SEGMENTS};
use crate::text::{decimal, push_decimal, push_str};

verus! {

/// How one segment of one idea is drawn.
#[derive(Clone, Copy, PartialEq, Eq, Debug, Structural)]
pub enum SegmentState {
    /// Learned, and the same segment of every prerequisite is understood.
    Understood,
    /// Learned, but some prerequisite lacks this segment.
    LearnedOnly,
    /// Never read.
    Unknown,
}

/// The state of segment `b` given an idea's learned and understood masks.
pub open spec fn segment_state(learned: u64, understood: u64, b: u64) -> SegmentState {
    if has_bit(understood, b) {
        SegmentState::Understood
    } else if has_bit(learned, b) {
        SegmentState::LearnedOnly
    } else {
        SegmentState::Unknown
    }
}

/// One idea as the window shows it.
pub struct IdeaRow {
    pub name: String,
    /// Longest path from a root: the screen row it is drawn in.
    pub depth: usize,
    /// One state per segment, in segment order.
    pub segments: Vec<SegmentState>,
    /// Number of understood segments.
    pub understood: u32,
    /// Number of segments learned but not understood.
    pub pending: u32,
    /// Rows of its prerequisites; all precede this row.
    pub prereqs: Vec<usize>,
}

/// The summary line of a row with `understood` and `pending` segments.
pub open spec fn summary_text(understood: nat, pending: nat) -> Seq<char> {
    decimal(understood) + "/"@ + decimal(SEGMENTS as nat) + " understood"@
        + if pending > 0 { ", "@ + decimal(pending) + " awaiting prerequisites"@ } else { Seq::empty() }
}

impl IdeaRow {
    /// The city has the gist of the idea: at least half its segments are
    /// understood.
    pub fn confident(&self) -> (b: bool)
        ensures
            b == (self.understood * 2 >= SEGMENTS),
    {
        self.understood as u64 * 2 >= SEGMENTS as u64
    }

    /// The marker after the name: a check once confident, else a question
    /// mark.
    pub fn marker(&self) -> (s: &'static str)
        ensures
            s@ == (if self.understood * 2 >= SEGMENTS { "✓"@ } else { "?"@ }),
    {
        if self.confident() { "✓" } else { "?" }
    }

    /// The line under the name, such as "32/50 understood, 9 awaiting
    /// prerequisites"; the second part only when something awaits.
    pub fn summary(&self) -> (s: String)
        ensures
            s@ == summary_text(self.understood as nat, self.pending as nat),
    {
        let mut s = String::new();
        push_decimal(&mut s, self.understood as u64);
        push_str(&mut s, "/");
        push_decimal(&mut s, SEGMENTS as u64);
        push_str(&mut s, " understood");
        if self.pending > 0 {
            push_str(&mut s, ", ");
            push_decimal(&mut s, self.pending as u64);
            push_str(&mut s, " awaiting prerequisites");
        }
        proof {
            assert(s@ =~= summary_text(self.understood as nat, self.pending as nat));
        }
        s
    }
}

/// The rows of the ideas window, in topological order.
pub struct IdeaTreeView {
    pub rows: Vec<IdeaRow>,
}

/// Indices among the first `n` rows whose depth is `d`, ascending.
pub open spec fn rows_at_depth(depths: Seq<usize>, d: int, n: int) -> Seq<usize>
    decreases n,
{
    if n <= 0 {
        seq![]
    } else {
        let rest = rows_at_depth(depths, d, n - 1);
        if depths[n - 1] == d { rest.push((n - 1) as usize) } else { rest }
    }
}

/// The largest of `depths`, or none when there are none.
pub open spec fn max_depth(depths: Seq<usize>) -> Option<usize>
    decreases depths.len(),
{
    if depths.len() == 0 {
        None
    } else {
        match max_depth(depths.drop_last()) {
            Some(m) => Some(if depths.last() > m { depths.last() } else { m }),
            None => Some(depths.last()),
        }
    }
}

proof fn lemma_max_depth(depths: Seq<usize>)
    ensures
        max_depth(depths) matches Some(m) ==> forall|i: int| 0 <= i < depths.len() ==> #[trigger] depths[i] <= m,
    decreases depths.len(),
{
    if depths.len() > 0 {
        lemma_max_depth(depths.drop_last());
        assert forall|i: int| 0 <= i < depths.len() - 1 implies #[trigger] depths[i] == depths.drop_last()[i] by {}
    }
}

proof fn lemma_max_depth_below(depths: Seq<usize>)
    requires
        forall|i: int| 0 <= i < depths.len() ==> #[trigger] depths[i] < usize::MAX,
    ensures
        max_depth(depths) matches Some(m) ==> m < usize::MAX,
    decreases depths.len(),
{
    if depths.len() > 0 {
        assert forall|i: int| 0 <= i < depths.drop_last().len() implies #[trigger] depths.drop_last()[i] < usize::MAX by {
            assert(depths.drop_last()[i] == depths[i]);
        }
        lemma_max_depth_below(depths.drop_last());
        assert(depths[depths.len() - 1] == depths.last());
    }
}

impl IdeaTreeView {
    pub open spec fn depths(&self) -> Seq<usize> {
        self.rows@.map_values(|r: IdeaRow| r.depth)
    }

    /// Row indices bucketed by depth: entry `d` lists, in view order, every
    /// row of depth `d`, for each `d` up to the greatest depth; no rows, no
    /// buckets.
    pub fn layers(&self) -> (l: Vec<Vec<usize>>)
        requires
            forall|i: int| 0 <= i < self.rows@.len() ==> #[trigger] self.rows@[i].depth < usize::MAX,
        ensures
            match max_depth(self.depths()) {
                Some(m) => l@.len() == m + 1,
                None => l@.len() == 0,
            },
            forall|d: int| 0 <= d < l@.len() ==> (#[trigger] l@[d])@ == rows_at_depth(self.depths(), d, self.rows@.len() as int),
    {
        let ghost depths = self.depths();
        let n = self.rows.len();
        if n == 0 {
            return Vec::new();
        }
        let mut m: usize = self.rows[0].depth;
        let mut i: usize = 1;
        proof {
            assert(depths.take(1).drop_last() =~= Seq::<usize>::empty());
            assert(depths.take(1).last() == depths[0]);
            assert(depths[0] == self.rows@[0].depth);
            assert(max_depth(depths.take(1).drop_last()) is None);
        }
        while i < n
            invariant
                1 <= i <= n,
                n == self.rows@.len(),
                depths == self.depths(),
                max_depth(depths.take(i as int)) == Some(m),
            decreases n - i,
        {
            proof {
                assert(depths.take(i + 1).drop_last() =~= depths.take(i as int));
            }
            if self.rows[i].depth > m {
                m = self.rows[i].depth;
            }
            i += 1;
        }
        proof {
            assert(depths.take(n as int) =~= depths);
            assert forall|q: int| 0 <= q < depths.len() implies #[trigger] depths[q] < usize::MAX by {
                assert(self.rows@[q].depth < usize::MAX);
            }
            lemma_max_depth_below(depths);
        }
        let mut layers: Vec<Vec<usize>> = Vec::new();
        let mut d: usize = 0;
        while d <= m
            invariant
                d <= m + 1,
                n == self.rows@.len(),
                depths == self.depths(),
                max_depth(depths) == Some(m),
                m < usize::MAX,
                layers@.len() == d,
                forall|e: int| 0 <= e < d ==> (#[trigger] layers@[e])@ == rows_at_depth(depths, e, n as int),
            decreases m + 1 - d,
        {
            let mut bucket: Vec<usize> = Vec::new();
            let mut k: usize = 0;
            while k < n
                invariant
                    k <= n,
                    n == self.rows@.len(),
                    depths == self.depths(),
                    bucket@ == rows_at_depth(depths, d as int, k as int),
                decreases n - k,
            {
                if self.rows[k].depth == d {
                    bucket.push(k);
                }
                k += 1;
            }
            layers.push(bucket);
            d += 1;
        }
        layers
    }
}

/// Depths of the first `n` ideas: one more than the deepest prerequisite,
/// zero for a root.
pub open spec fn depths_upto(deps: Seq<Seq<usize>>, n: int) -> Seq<nat>
    decreases n,
{
    if n <= 0 {
        seq![]
    } else {
        let prev = depths_upto(deps, n - 1);
        prev.push(deepest(deps[n - 1], prev))
    }
}

/// One more than the greatest of `prev[d]` over `ds`; zero when `ds` is
/// empty.
pub open spec fn deepest(ds: Seq<usize>, prev: Seq<nat>) -> nat
    decreases ds.len(),
{
    if ds.len() == 0 {
        0
    } else {
        let rest = deepest(ds.drop_last(), prev);
        let here = prev[ds.last() as int] + 1;
        if here > rest { here } else { rest }
    }
}

proof fn lemma_depths_len(deps: Seq<Seq<usize>>, n: int)
    requires
        n >= 0,
    ensures
        depths_upto(deps, n).len() == n,
    decreases n,
{
    if n > 0 {
        lemma_depths_len(deps, n - 1);
    }
}

proof fn lemma_deepest_bound(ds: Seq<usize>, prev: Seq<nat>, bound: nat)
    requires
        forall|k: int| 0 <= k < ds.len() ==> 0 <= #[trigger] ds[k] < prev.len() && prev[ds[k] as int] < bound,
    ensures
        deepest(ds, prev) <= bound,
    decreases ds.len(),
{
    if ds.len() > 0 {
        lemma_deepest_bound(ds.drop_last(), prev, bound);
        assert(ds[ds.len() - 1] == ds.last());
    }
}

proof fn lemma_depths_bound(deps: Seq<Seq<usize>>, n: int)
    requires
        n >= 0,
        n <= deps.len(),
        forall|i: int, k: int| 0 <= i < n && 0 <= k < deps[i].len() ==> #[trigger] deps[i][k] < i,
    ensures
        forall|i: int| 0 <= i < n ==> #[trigger] depths_upto(deps, n)[i] <= i,
    decreases n,
{
    if n > 0 {
        lemma_depths_bound(deps, n - 1);
        lemma_depths_len(deps, n - 1);
        let prev = depths_upto(deps, n - 1);
        assert forall|k: int| 0 <= k < deps[n - 1].len() implies
            0 <= #[trigger] deps[n - 1][k] < prev.len() && prev[deps[n - 1][k] as int] < n - 1 + 1 by {
            assert(deps[n - 1][k] < n - 1);
        }
        lemma_deepest_bound(deps[n - 1], prev, (n - 1) as nat);
    }
}

fn idea_depth(row_deps: &Vec<usize>, depths: &Vec<usize>, prev: Ghost<Seq<nat>>) -> (depth: usize)
    requires
        depths@.len() == prev@.len(),
        forall|i: int| 0 <= i < depths@.len() ==> #[trigger] depths@[i] == prev@[i],
        forall|i: int| 0 <= i < depths@.len() ==> #[trigger] prev@[i] <= i,
        forall|k: int| 0 <= k < row_deps@.len() ==> #[trigger] row_deps@[k] < depths@.len(),
    ensures
        depth == deepest(row_deps@, prev@),
        depth <= depths@.len(),
{
    let mut depth: usize = 0;
    let mut k: usize = 0;
    let count = depths.len();
    while k < row_deps.len()
        invariant
            k <= row_deps@.len(),
            depths@.len() == prev@.len(),
            forall|i: int| 0 <= i < depths@.len() ==> #[trigger] depths@[i] == prev@[i],
            forall|i: int| 0 <= i < depths@.len() ==> #[trigger] prev@[i] <= i,
            forall|j: int| 0 <= j < row_deps@.len() ==> #[trigger] row_deps@[j] < depths@.len(),
            depth == deepest(row_deps@.take(k as int), prev@),
            depth <= depths@.len(),
            count == depths@.len(),
        decreases row_deps@.len() - k,
    {
        let dep = row_deps[k];
        proof {
            assert(row_deps@.take(k + 1).drop_last() =~= row_deps@.take(k as int));
            assert(row_deps@.take(k + 1).last() == dep);
            assert(row_deps@[k as int] < depths@.len());
            assert(depths@[dep as int] == prev@[dep as int]);
            assert(prev@[dep as int] <= dep);
        }
        let here = depths[dep] + 1;
        if here > depth {
            depth = here;
        }
        k += 1;
    }
    proof {
        assert(row_deps@.take(row_deps@.len() as int) =~= row_deps@);
    }
    depth
}

fn segment_states(l: u64, u: u64) -> (segments: Vec<SegmentState>)
    ensures
        segments@.len() == SEGMENTS,
        forall|c: int| 0 <= c < SEGMENTS ==> #[trigger] segments@[c] == segment_state(l, u, c as u64),
{
    let mut segments: Vec<SegmentState> = Vec::new();
    let mut b: u64 = 0;
    while b < SEGMENTS as u64
        invariant
            b <= SEGMENTS,
            segments@.len() == b,
            forall|c: int| 0 <= c < b ==> #[trigger] segments@[c] == segment_state(l, u, c as u64),
        decreases SEGMENTS - b,
    {
        let st = if (u >> b) & 1 == 1 {
            SegmentState::Understood
        } else if (l >> b) & 1 == 1 {
            SegmentState::LearnedOnly
        } else {
            SegmentState::Unknown
        };
        segments.push(st);
        b += 1;
    }
    segments
}

/// Builds the window's rows: for each idea, its depth, the state of every
/// segment, the counts of understood and merely learned segments, and its
/// prerequisites. The ideas must be topologically sorted, with one learned
/// and one understood mask each.
pub fn idea_tree_view(ideas: &[Idea], deps: &[Vec<usize>], learned: &[u64], understood: &[u64]) -> (v: IdeaTreeView)
    requires
        deps@.len() == ideas@.len(),
        learned@.len() == ideas@.len(),
        understood@.len() == ideas@.len(),
        forall|i: int, k: int| 0 <= i < deps@.len() && 0 <= k < deps@[i]@.len() ==> #[trigger] deps@[i]@[k] < i,
    ensures
        v.rows@.len() == ideas@.len(),
        forall|i: int| 0 <= i < ideas@.len() ==> {
            let row = #[trigger] v.rows@[i];
            &&& row.name@ == ideas@[i].name@
            &&& row.depth == depths_upto(deps@.map_values(|d: Vec<usize>| d@), ideas@.len() as int)[i]
            &&& row.segments@.len() == SEGMENTS
            &&& (forall|b: int| 0 <= b < SEGMENTS ==>
                #[trigger] row.segments@[b] == segment_state(learned@[i], understood@[i], b as u64))
            &&& row.understood == segment_count(understood@[i])
            &&& row.pending == segment_count(learned@[i] & !understood@[i])
            &&& row.prereqs@ == deps@[i]@
        },
{
    let ghost ds = deps@.map_values(|d: Vec<usize>| d@);
    let ghost n = ideas@.len() as int;
    let mut depths: Vec<usize> = Vec::new();
    let mut rows: Vec<IdeaRow> = Vec::new();
    proof {
        lemma_depths_bound(ds, n);
        lemma_depths_len(ds, n);
    }
    let mut idx: usize = 0;
    while idx < ideas.len()
        invariant
            idx <= ideas@.len(),
            n == ideas@.len(),
            deps@.len() == ideas@.len(),
            learned@.len() == ideas@.len(),
            understood@.len() == ideas@.len(),
            ds == deps@.map_values(|d: Vec<usize>| d@),
            forall|i: int, k: int| 0 <= i < deps@.len() && 0 <= k < deps@[i]@.len() ==> #[trigger] deps@[i]@[k] < i,
            forall|i: int| 0 <= i < n ==> #[trigger] depths_upto(ds, n)[i] <= i,
            depths_upto(ds, n).len() == n,
            depths@.len() == idx,
            forall|i: int| 0 <= i < idx ==> #[trigger] depths@[i] == depths_upto(ds, n)[i],
            rows@.len() == idx,
            forall|i: int| 0 <= i < idx ==> {
                let row = #[trigger] rows@[i];
                &&& row.name@ == ideas@[i].name@
                &&& row.depth == depths_upto(ds, n)[i]
                &&& row.segments@.len() == SEGMENTS
                &&& (forall|b: int| 0 <= b < SEGMENTS ==>
                    #[trigger] row.segments@[b] == segment_state(learned@[i], understood@[i], b as u64))
                &&& row.understood == segment_count(understood@[i])
                &&& row.pending == segment_count(learned@[i] & !understood@[i])
                &&& row.prereqs@ == deps@[i]@
            },
        decreases ideas@.len() - idx,
    {
        let row_deps = &deps[idx];
        proof {
            lemma_depths_prefix(ds, idx as int, n);
            lemma_depths_len(ds, idx as int);
        }
        let depth = idea_depth(row_deps, &depths, Ghost(depths_upto(ds, idx as int)));
        proof {
            assert(ds[idx as int] == row_deps@);
            assert(depths_upto(ds, idx + 1) == depths_upto(ds, idx as int).push(depth as nat));
        }
        depths.push(depth);

        let u = understood[idx];
        let l = learned[idx];
        let segments = segment_states(l, u);

        rows.push(IdeaRow {
            name: ideas[idx].name.clone(),
            depth,
            segments,
            understood: count_segments(u),
            pending: count_segments(l & !u),
            prereqs: row_deps.clone(),
        });
        proof {
            lemma_depths_prefix(ds, idx + 1, n);
            lemma_depths_len(ds, idx + 1);
            assert(depths@[idx as int] == depths_upto(ds, idx + 1)[idx as int]);
            assert forall|i: int| 0 <= i < idx + 1 implies #[trigger] depths@[i] == depths_upto(ds, n)[i] by {
                if i < idx {
                    assert(depths_upto(ds, idx + 1)[i] == depths_upto(ds, n)[i]);
                }
            }
        }
        idx += 1;
    }
    IdeaTreeView { rows }
}

proof fn lemma_depths_prefix(deps: Seq<Seq<usize>>, m: int, n: int)
    requires
        0 <= m <= n,
    ensures
        forall|i: int| 0 <= i < m ==> #[trigger] depths_upto(deps, m)[i] == depths_upto(deps, n)[i],
    decreases n - m,
{
    if m < n {
        lemma_depths_prefix(deps, m, n - 1);
        lemma_depths_len(deps, n - 1);
        assert forall|i: int| 0 <= i < m implies #[trigger] depths_upto(deps, m)[i] == depths_upto(deps, n)[i] by {
            assert(depths_upto(deps, n)[i] == depths_upto(deps, n - 1)[i]);
        }
    }
}


proof fn lemma_deepest_above(ds: Seq<usize>, prev: Seq<nat>, k: int)
    requires
        0 <= k < ds.len(),
    ensures
        deepest(ds, prev) >= prev[ds[k] as int] + 1,
    decreases ds.len(),
{
    if k < ds.len() - 1 {
        lemma_deepest_above(ds.drop_last(), prev, k);
        assert(ds.drop_last()[k] == ds[k]);
    }
}

/// An idea is drawn below every prerequisite: its depth exceeds theirs.
pub proof fn lemma_deeper_than_prerequisites(deps: Seq<Seq<usize>>, n: int, i: int, k: int)
    requires
        0 <= i < n <= deps.len(),
        0 <= k < deps[i].len(),
        forall|a: int, b: int| 0 <= a < n && 0 <= b < deps[a].len() ==> #[trigger] deps[a][b] < a,
    ensures
        depths_upto(deps, n)[deps[i][k] as int] < depths_upto(deps, n)[i],
{
    lemma_depths_prefix(deps, i + 1, n);
    lemma_depths_prefix(deps, i, n);
    lemma_depths_len(deps, i);
    let d = deps[i][k] as int;
    assert(d < i);
    lemma_deepest_above(deps[i], depths_upto(deps, i), k);
    assert(depths_upto(deps, i + 1)[i] == deepest(deps[i], depths_upto(deps, i)));
    assert(depths_upto(deps, i)[d] == depths_upto(deps, n)[d]);
    assert(depths_upto(deps, i + 1)[i] == depths_upto(deps, n)[i]);
}

} // verus!
