//! What distributing a month's leftover inflow guarantees as a whole: the
//! storage budget is used up exactly, excess being cut from the most
//! plentiful resources first.
use vstd::prelude::*;
use crate::resource::{
    distinct_resources, distributed_stored, more_plentiful, own_storable, resource_rank,
    storable_ahead_of, storable_sum, storage_budget, UniformResource,
};

verus! {

/// The total stored over the first `n` incoming entries.
pub open spec fn total_stored(
    incoming: Seq<(UniformResource, u32)>,
    snapshot: Seq<(UniformResource, u32)>,
    cap: Seq<(UniformResource, u64)>,
    overall: nat,
    farm: Seq<(UniformResource, u32)>,
    n: int,
) -> nat
    decreases n,
{
    if n <= 0 {
        0
    } else {
        total_stored(incoming, snapshot, cap, overall, farm, n - 1)
            + distributed_stored(incoming, snapshot, cap, overall, farm, n - 1)
    }
}

/// Sum of `f` over the indices `ids`.
spec fn sum_f(ids: Seq<int>, f: spec_fn(int) -> int) -> int
    decreases ids.len(),
{
    if ids.len() == 0 {
        0
    } else {
        sum_f(ids.drop_last(), f) + f(ids.last())
    }
}

/// `o` capped by `y`, and never below zero.
spec fn clamp_cut(o: int, y: int) -> int {
    if y <= 0 { 0 } else if y <= o { y } else { o }
}

spec fn own_f(inc: Seq<(UniformResource, u32)>, cap: Seq<(UniformResource, u64)>) -> spec_fn(int) -> int {
    |k: int| own_storable(inc, cap, k) as int
}

spec fn ind_f(
    inc: Seq<(UniformResource, u32)>,
    cap: Seq<(UniformResource, u64)>,
    snap: Seq<(UniformResource, u32)>,
    farm: Seq<(UniformResource, u32)>,
    r: UniformResource,
) -> spec_fn(int) -> int {
    |k: int| if more_plentiful(snap, farm, inc[k].0, r) { own_storable(inc, cap, k) as int } else { 0 }
}

spec fn cut_f(
    inc: Seq<(UniformResource, u32)>,
    cap: Seq<(UniformResource, u64)>,
    snap: Seq<(UniformResource, u32)>,
    farm: Seq<(UniformResource, u32)>,
    whole: Seq<int>,
    x: int,
) -> spec_fn(int) -> int {
    |i: int| clamp_cut(own_storable(inc, cap, i) as int, x - sum_f(whole, ind_f(inc, cap, snap, farm, inc[i].0)))
}

spec fn ahead_ids(
    inc: Seq<(UniformResource, u32)>,
    snap: Seq<(UniformResource, u32)>,
    farm: Seq<(UniformResource, u32)>,
    ids: Seq<int>,
    r: UniformResource,
) -> Seq<int>
    decreases ids.len(),
{
    if ids.len() == 0 {
        seq![]
    } else {
        let rest = ahead_ids(inc, snap, farm, ids.drop_last(), r);
        if more_plentiful(snap, farm, inc[ids.last()].0, r) { rest.push(ids.last()) } else { rest }
    }
}

spec fn behind_ids(
    inc: Seq<(UniformResource, u32)>,
    snap: Seq<(UniformResource, u32)>,
    farm: Seq<(UniformResource, u32)>,
    ids: Seq<int>,
    r: UniformResource,
) -> Seq<int>
    decreases ids.len(),
{
    if ids.len() == 0 {
        seq![]
    } else {
        let rest = behind_ids(inc, snap, farm, ids.drop_last(), r);
        if more_plentiful(snap, farm, r, inc[ids.last()].0) { rest.push(ids.last()) } else { rest }
    }
}

spec fn ids_valid(inc: Seq<(UniformResource, u32)>, ids: Seq<int>) -> bool {
    &&& ids.no_duplicates()
    &&& forall|j: int| 0 <= j < ids.len() ==> 0 <= #[trigger] ids[j] < inc.len()
}

proof fn lemma_rank_injective(a: UniformResource, b: UniformResource)
    ensures
        resource_rank(a) == resource_rank(b) ==> a == b,
{
}

proof fn lemma_order(
    snap: Seq<(UniformResource, u32)>,
    farm: Seq<(UniformResource, u32)>,
    a: UniformResource,
    b: UniformResource,
    c: UniformResource,
)
    ensures
        !more_plentiful(snap, farm, a, a),
        more_plentiful(snap, farm, a, b) ==> !more_plentiful(snap, farm, b, a),
        a != b ==> more_plentiful(snap, farm, a, b) || more_plentiful(snap, farm, b, a),
        more_plentiful(snap, farm, a, b) && more_plentiful(snap, farm, b, c) ==> more_plentiful(snap, farm, a, c),
{
    lemma_rank_injective(a, b);
}

proof fn lemma_sides(
    inc: Seq<(UniformResource, u32)>,
    snap: Seq<(UniformResource, u32)>,
    farm: Seq<(UniformResource, u32)>,
    ids: Seq<int>,
    r: UniformResource,
)
    requires
        ids_valid(inc, ids),
    ensures
        ids_valid(inc, ahead_ids(inc, snap, farm, ids, r)),
        ids_valid(inc, behind_ids(inc, snap, farm, ids, r)),
        ahead_ids(inc, snap, farm, ids, r).len() <= ids.len(),
        behind_ids(inc, snap, farm, ids, r).len() <= ids.len(),
        forall|j: int| 0 <= j < ahead_ids(inc, snap, farm, ids, r).len() ==>
            more_plentiful(snap, farm, inc[#[trigger] ahead_ids(inc, snap, farm, ids, r)[j]].0, r)
            && ids.contains(ahead_ids(inc, snap, farm, ids, r)[j]),
        forall|j: int| 0 <= j < behind_ids(inc, snap, farm, ids, r).len() ==>
            more_plentiful(snap, farm, r, inc[#[trigger] behind_ids(inc, snap, farm, ids, r)[j]].0)
            && ids.contains(behind_ids(inc, snap, farm, ids, r)[j]),
    decreases ids.len(),
{
    if ids.len() > 0 {
        let rest = ids.drop_last();
        let e = ids.last();
        assert(ids_valid(inc, rest)) by {
            assert forall|j: int| 0 <= j < rest.len() implies 0 <= #[trigger] rest[j] < inc.len() by {
                assert(rest[j] == ids[j]);
            }
        }
        lemma_sides(inc, snap, farm, rest, r);
        assert(!rest.contains(e)) by {
            if rest.contains(e) {
                let j = choose|j: int| 0 <= j < rest.len() && rest[j] == e;
                assert(ids[j] == ids[ids.len() - 1]);
            }
        }
        let pa = ahead_ids(inc, snap, farm, rest, r);
        let pb = behind_ids(inc, snap, farm, rest, r);
        assert forall|j: int| 0 <= j < pa.len() implies ids.contains(#[trigger] pa[j]) by {
            let w = choose|w: int| 0 <= w < rest.len() && rest[w] == pa[j];
            assert(ids[w] == pa[j]);
        }
        assert forall|j: int| 0 <= j < pb.len() implies ids.contains(#[trigger] pb[j]) by {
            let w = choose|w: int| 0 <= w < rest.len() && rest[w] == pb[j];
            assert(ids[w] == pb[j]);
        }
        if more_plentiful(snap, farm, inc[e].0, r) {
            let v = pa.push(e);
            assert forall|a: int, b: int| 0 <= a < b < v.len() implies v[a] != v[b] by {
                if b == v.len() - 1 {
                    assert(v[a] == pa[a]);
                    if pa[a] == e {
                        assert(rest.contains(e));
                    }
                }
            }
            assert forall|j: int| 0 <= j < v.len() implies ids.contains(#[trigger] v[j]) by {
                if j == v.len() - 1 {
                    assert(ids[ids.len() - 1] == e);
                } else {
                    assert(v[j] == pa[j]);
                }
            }
        }
        if more_plentiful(snap, farm, r, inc[e].0) {
            let v = pb.push(e);
            assert forall|a: int, b: int| 0 <= a < b < v.len() implies v[a] != v[b] by {
                if b == v.len() - 1 {
                    assert(v[a] == pb[a]);
                    if pb[a] == e {
                        assert(rest.contains(e));
                    }
                }
            }
            assert forall|j: int| 0 <= j < v.len() implies ids.contains(#[trigger] v[j]) by {
                if j == v.len() - 1 {
                    assert(ids[ids.len() - 1] == e);
                } else {
                    assert(v[j] == pb[j]);
                }
            }
        }
    }
}

proof fn lemma_split(
    inc: Seq<(UniformResource, u32)>,
    snap: Seq<(UniformResource, u32)>,
    farm: Seq<(UniformResource, u32)>,
    ids: Seq<int>,
    r: UniformResource,
    f: spec_fn(int) -> int,
)
    requires
        forall|j: int| 0 <= j < ids.len() ==> 0 <= #[trigger] ids[j] < inc.len() && inc[ids[j]].0 != r,
    ensures
        sum_f(ids, f) == sum_f(ahead_ids(inc, snap, farm, ids, r), f) + sum_f(behind_ids(inc, snap, farm, ids, r), f),
    decreases ids.len(),
{
    if ids.len() > 0 {
        let rest = ids.drop_last();
        assert forall|j: int| 0 <= j < rest.len() implies 0 <= #[trigger] rest[j] < inc.len() && inc[rest[j]].0 != r by {
            assert(rest[j] == ids[j]);
        }
        lemma_split(inc, snap, farm, rest, r, f);
        let e = ids.last();
        assert(ids[ids.len() - 1] == e);
        lemma_order(snap, farm, inc[e].0, r, r);
        let pa = ahead_ids(inc, snap, farm, rest, r);
        let pb = behind_ids(inc, snap, farm, rest, r);
        if more_plentiful(snap, farm, inc[e].0, r) {
            assert(pa.push(e).drop_last() =~= pa);
        } else {
            assert(pb.push(e).drop_last() =~= pb);
        }
    }
}

proof fn lemma_congr(ids: Seq<int>, f: spec_fn(int) -> int, g: spec_fn(int) -> int)
    requires
        forall|j: int| 0 <= j < ids.len() ==> f(#[trigger] ids[j]) == g(ids[j]),
    ensures
        sum_f(ids, f) == sum_f(ids, g),
    decreases ids.len(),
{
    if ids.len() > 0 {
        let rest = ids.drop_last();
        assert forall|j: int| 0 <= j < rest.len() implies f(#[trigger] rest[j]) == g(rest[j]) by {
            assert(rest[j] == ids[j]);
        }
        lemma_congr(rest, f, g);
        assert(ids[ids.len() - 1] == ids.last());
    }
}

proof fn lemma_sum_nonneg(ids: Seq<int>, f: spec_fn(int) -> int)
    requires
        forall|j: int| 0 <= j < ids.len() ==> f(#[trigger] ids[j]) >= 0,
    ensures
        sum_f(ids, f) >= 0,
    decreases ids.len(),
{
    if ids.len() > 0 {
        let rest = ids.drop_last();
        assert forall|j: int| 0 <= j < rest.len() implies f(#[trigger] rest[j]) >= 0 by {
            assert(rest[j] == ids[j]);
        }
        lemma_sum_nonneg(rest, f);
        assert(ids[ids.len() - 1] == ids.last());
    }
}

proof fn lemma_sum_zero(ids: Seq<int>, f: spec_fn(int) -> int)
    requires
        forall|j: int| 0 <= j < ids.len() ==> f(#[trigger] ids[j]) == 0,
    ensures
        sum_f(ids, f) == 0,
    decreases ids.len(),
{
    if ids.len() > 0 {
        let rest = ids.drop_last();
        assert forall|j: int| 0 <= j < rest.len() implies f(#[trigger] rest[j]) == 0 by {
            assert(rest[j] == ids[j]);
        }
        lemma_sum_zero(rest, f);
        assert(ids[ids.len() - 1] == ids.last());
    }
}

/// The cuts, summed over `ids`, take exactly `x` (clamped to what there is)
/// out of what `ids` could store: the core of the greedy cut.
proof fn lemma_cuts(
    inc: Seq<(UniformResource, u32)>,
    cap: Seq<(UniformResource, u64)>,
    snap: Seq<(UniformResource, u32)>,
    farm: Seq<(UniformResource, u32)>,
    ids: Seq<int>,
    x: int,
)
    requires
        distinct_resources(inc),
        ids_valid(inc, ids),
    ensures
        sum_f(ids, cut_f(inc, cap, snap, farm, ids, x)) == clamp_cut(sum_f(ids, own_f(inc, cap)), x),
    decreases ids.len(),
{
    if ids.len() > 0 {
        let rest = ids.drop_last();
        let e = ids.last();
        let re = inc[e].0;
        assert(ids[ids.len() - 1] == e);
        assert(ids_valid(inc, rest)) by {
            assert forall|j: int| 0 <= j < rest.len() implies 0 <= #[trigger] rest[j] < inc.len() by {
                assert(rest[j] == ids[j]);
            }
        }
        // Every other index holds another resource.
        assert forall|j: int| 0 <= j < rest.len() implies 0 <= #[trigger] rest[j] < inc.len() && inc[rest[j]].0 != re by {
            assert(rest[j] == ids[j]);
            assert(ids[j] != ids[ids.len() - 1]);
        }
        let p = ahead_ids(inc, snap, farm, rest, re);
        let q = behind_ids(inc, snap, farm, rest, re);
        lemma_sides(inc, snap, farm, rest, re);
        let own = own_f(inc, cap);
        let oe = own_storable(inc, cap, e) as int;
        let tp = sum_f(p, own);
        let tq = sum_f(q, own);
        lemma_sum_nonneg(p, own);
        lemma_sum_nonneg(q, own);

        // Totals split.
        lemma_split(inc, snap, farm, rest, re, own);
        assert(sum_f(ids, own) == tp + tq + oe);

        // What is ahead of `e` is all of `p`.
        let ie = ind_f(inc, cap, snap, farm, re);
        lemma_split(inc, snap, farm, rest, re, ie);
        lemma_congr(p, ie, own);
        assert forall|j: int| 0 <= j < q.len() implies ie(#[trigger] q[j]) == 0 by {
            lemma_order(snap, farm, inc[q[j]].0, re, re);
        }
        lemma_sum_zero(q, ie);
        lemma_order(snap, farm, re, re, re);
        assert(sum_f(ids, ie) == tp);

        // Cuts over `p` only see `p`; cuts over `q` see all of `p` and `e` too.
        let c = cut_f(inc, cap, snap, farm, ids, x);
        let cp = cut_f(inc, cap, snap, farm, p, x);
        let cq = cut_f(inc, cap, snap, farm, q, x - tp - oe);
        assert forall|j: int| 0 <= j < p.len() implies c(#[trigger] p[j]) == cp(p[j]) by {
            let i = p[j];
            let ri = inc[i].0;
            let ii = ind_f(inc, cap, snap, farm, ri);
            assert(ri != re);
            lemma_split(inc, snap, farm, rest, re, ii);
            assert forall|w: int| 0 <= w < q.len() implies ii(#[trigger] q[w]) == 0 by {
                lemma_order(snap, farm, ri, re, inc[q[w]].0);
                lemma_order(snap, farm, inc[q[w]].0, ri, re);
            }
            lemma_sum_zero(q, ii);
            lemma_order(snap, farm, ri, re, re);
            assert(sum_f(ids, ii) == sum_f(p, ii));
        }
        assert forall|j: int| 0 <= j < q.len() implies c(#[trigger] q[j]) == cq(q[j]) by {
            let i = q[j];
            let ri = inc[i].0;
            let ii = ind_f(inc, cap, snap, farm, ri);
            lemma_split(inc, snap, farm, rest, re, ii);
            assert forall|w: int| 0 <= w < p.len() implies ii(#[trigger] p[w]) == own(p[w]) by {
                lemma_order(snap, farm, inc[p[w]].0, re, ri);
            }
            lemma_congr(p, ii, own);
            lemma_order(snap, farm, re, ri, ri);
            assert(sum_f(ids, ii) == tp + oe + sum_f(q, ii));
        }
        lemma_split(inc, snap, farm, rest, re, c);
        lemma_congr(p, c, cp);
        lemma_congr(q, c, cq);
        lemma_cuts(inc, cap, snap, farm, p, x);
        lemma_cuts(inc, cap, snap, farm, q, x - tp - oe);
        assert(c(e) == clamp_cut(oe, x - tp));
        assert(sum_f(ids, c) == clamp_cut(tp, x) + clamp_cut(tq, x - tp - oe) + clamp_cut(oe, x - tp));
    }
}

spec fn ids_upto(n: int) -> Seq<int> {
    Seq::new(n as nat, |k: int| k)
}

proof fn lemma_prefix_sums(
    inc: Seq<(UniformResource, u32)>,
    cap: Seq<(UniformResource, u64)>,
    snap: Seq<(UniformResource, u32)>,
    farm: Seq<(UniformResource, u32)>,
    r: UniformResource,
    n: int,
)
    requires
        0 <= n <= inc.len(),
    ensures
        sum_f(ids_upto(n), own_f(inc, cap)) == storable_sum(inc, cap, n),
        sum_f(ids_upto(n), ind_f(inc, cap, snap, farm, r)) == storable_ahead_of(inc, cap, snap, farm, r, n),
    decreases n,
{
    if n > 0 {
        assert(ids_upto(n).drop_last() =~= ids_upto(n - 1));
        lemma_prefix_sums(inc, cap, snap, farm, r, n - 1);
    }
}

proof fn lemma_stored_prefix(
    inc: Seq<(UniformResource, u32)>,
    snap: Seq<(UniformResource, u32)>,
    cap: Seq<(UniformResource, u64)>,
    overall: nat,
    farm: Seq<(UniformResource, u32)>,
    x: int,
    m: int,
)
    requires
        0 <= m <= inc.len(),
        x == (if storable_sum(inc, cap, inc.len() as int) > storage_budget(inc, cap, overall) {
            storable_sum(inc, cap, inc.len() as int) - storage_budget(inc, cap, overall)
        } else {
            0
        }),
    ensures
        total_stored(inc, snap, cap, overall, farm, m)
            == sum_f(ids_upto(m), own_f(inc, cap))
                - sum_f(ids_upto(m), cut_f(inc, cap, snap, farm, ids_upto(inc.len() as int), x)),
    decreases m,
{
    if m > 0 {
        assert(ids_upto(m).drop_last() =~= ids_upto(m - 1));
        lemma_stored_prefix(inc, snap, cap, overall, farm, x, m - 1);
        let i = m - 1;
        lemma_prefix_sums(inc, cap, snap, farm, inc[i].0, inc.len() as int);
    }
}

/// The storage budget is used up exactly: everything arriving is stored
/// when it all fits, and otherwise precisely the budget is stored (the
/// combined capacity of the arriving resources, capped by the overall free
/// capacity, in whole units).
pub proof fn lemma_storage_fills_to_budget(
    incoming: Seq<(UniformResource, u32)>,
    snapshot: Seq<(UniformResource, u32)>,
    cap: Seq<(UniformResource, u64)>,
    overall: nat,
    farm: Seq<(UniformResource, u32)>,
)
    requires
        distinct_resources(incoming),
    ensures
        total_stored(incoming, snapshot, cap, overall, farm, incoming.len() as int) == {
            let total = storable_sum(incoming, cap, incoming.len() as int);
            let budget = storage_budget(incoming, cap, overall);
            if total <= budget { total } else { budget }
        },
{
    let n = incoming.len() as int;
    let total = storable_sum(incoming, cap, n);
    let budget = storage_budget(incoming, cap, overall);
    let x: int = if total > budget { total - budget } else { 0 };
    let ids = ids_upto(n);
    assert(ids_valid(incoming, ids));
    lemma_cuts(incoming, cap, snapshot, farm, ids, x);
    lemma_prefix_sums(incoming, cap, snapshot, farm, incoming[0].0, n);
    lemma_stored_prefix(incoming, snapshot, cap, overall, farm, x, n);
}

} // verus!
