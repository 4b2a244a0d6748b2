//! What one month's advance reports back to its caller.
use vstd::prelude::*;
use crate::city::Cell;
use crate::resource::{rank, resource_rank, UniformResource};
use crate::sparse3d::SlotCoord;

verus! {

/// The outcome of one month's advance.
pub struct MonthOutcome {
    /// The month's market inflow before any claims: what farms delivered.
    pub market_gains: Vec<(UniformResource, u32)>,
    /// No traveler invited (`None`), one accepted (`Some(true)`), or one
    /// invited but unaffordable (`Some(false)`).
    pub traveler_accepted: Option<bool>,
    /// The cell changes of construction completed this month, if any.
    pub construction_changes: Option<Vec<(SlotCoord, Option<Cell>)>>,
}

/// `sorted` with `x` put after every entry whose resource does not come
/// after `x`'s.
pub open spec fn insert_by_resource(sorted: Seq<(UniformResource, u32)>, x: (UniformResource, u32)) -> Seq<(UniformResource, u32)>
    decreases sorted.len(),
{
    if sorted.len() == 0 {
        seq![x]
    } else if resource_rank(sorted.last().0) <= resource_rank(x.0) {
        sorted.push(x)
    } else {
        insert_by_resource(sorted.drop_last(), x).push(sorted.last())
    }
}

/// `s` sorted by resource, entries of one resource keeping their order.
pub open spec fn sort_by_resource(s: Seq<(UniformResource, u32)>) -> Seq<(UniformResource, u32)>
    decreases s.len(),
{
    if s.len() == 0 {
        s
    } else {
        insert_by_resource(sort_by_resource(s.drop_last()), s.last())
    }
}

/// The position of the first entry for `r`.
pub open spec fn first_entry_for(s: Seq<(UniformResource, u32)>, r: UniformResource) -> Option<int>
    decreases s.len(),
{
    if s.len() == 0 {
        None
    } else if s[0].0 == r {
        Some(0)
    } else {
        match first_entry_for(s.drop_first(), r) {
            Some(i) => Some(i + 1),
            None => None,
        }
    }
}

/// A month's market gains once the fieldstone set aside for paving but not
/// spent is added: to the first fieldstone entry when there is one, else as
/// a new entry, the gains then sorted by resource.
pub open spec fn with_paving_leftover(gains: Seq<(UniformResource, u32)>, leftover: u32) -> Seq<(UniformResource, u32)> {
    if leftover == 0 {
        gains
    } else {
        match first_entry_for(gains, UniformResource::Fieldstone) {
            Some(i) => gains.update(i, (UniformResource::Fieldstone, (gains[i].1 + leftover) as u32)),
            None => sort_by_resource(gains.push((UniformResource::Fieldstone, leftover))),
        }
    }
}

proof fn lemma_first_entry_for(s: Seq<(UniformResource, u32)>, r: UniformResource)
    ensures
        match first_entry_for(s, r) {
            Some(i) => 0 <= i < s.len() && s[i].0 == r && forall|k: int| 0 <= k < i ==> (#[trigger] s[k]).0 != r,
            None => forall|k: int| 0 <= k < s.len() ==> (#[trigger] s[k]).0 != r,
        },
    decreases s.len(),
{
    if s.len() > 0 {
        lemma_first_entry_for(s.drop_first(), r);
        assert forall|k: int| 1 <= k < s.len() implies #[trigger] s[k] == s.drop_first()[k - 1] by {}
    }
}

fn insert_sorted(out: &mut Vec<(UniformResource, u32)>, x: (UniformResource, u32))
    ensures
        final(out)@ == insert_by_resource(old(out)@, x),
{
    let ghost s = out@;
    let mut j: usize = out.len();
    proof {
        assert(s.take(j as int) =~= s);
        assert(insert_by_resource(s, x) + s.skip(j as int) =~= insert_by_resource(s, x));
    }
    loop
        invariant
            out@ == s,
            j <= s.len(),
            insert_by_resource(s, x) == insert_by_resource(s.take(j as int), x) + s.skip(j as int),
        ensures
            j == 0 || resource_rank(s[j - 1].0) <= resource_rank(x.0),
        decreases j,
    {
        if j == 0 {
            break;
        }
        if rank(out[j - 1].0) <= rank(x.0) {
            break;
        }
        proof {
            let t = s.take(j as int);
            assert(t.drop_last() =~= s.take(j - 1));
            assert(t.last() == s[j - 1]);
            assert(insert_by_resource(t, x) == insert_by_resource(s.take(j - 1), x).push(s[j - 1]));
            assert(insert_by_resource(s.take(j - 1), x).push(s[j - 1]) + s.skip(j as int)
                =~= insert_by_resource(s.take(j - 1), x) + s.skip(j - 1));
        }
        j = j - 1;
    }
    proof {
        let t = s.take(j as int);
        if j > 0 {
            assert(t.last() == s[j - 1]);
        }
        assert(insert_by_resource(t, x) == t.push(x));
        assert(t.push(x) + s.skip(j as int) =~= s.insert(j as int, x));
    }
    out.insert(j, x);
}

fn sorted_by_resource(v: &Vec<(UniformResource, u32)>) -> (out: Vec<(UniformResource, u32)>)
    ensures
        out@ == sort_by_resource(v@),
{
    let mut out: Vec<(UniformResource, u32)> = Vec::new();
    let mut k: usize = 0;
    while k < v.len()
        invariant
            k <= v@.len(),
            out@ == sort_by_resource(v@.take(k as int)),
        decreases v@.len() - k,
    {
        proof {
            assert(v@.take(k + 1).drop_last() =~= v@.take(k as int));
            assert(v@.take(k + 1).last() == v@[k as int]);
        }
        insert_sorted(&mut out, v[k]);
        k += 1;
    }
    proof {
        assert(v@.take(v@.len() as int) =~= v@);
    }
    out
}

/// Adds the fieldstone set aside for paving but not spent to a month's
/// market gains (see `with_paving_leftover`).
pub fn add_paving_leftover(market_gains: &mut Vec<(UniformResource, u32)>, leftover: u32)
    requires
        match first_entry_for(old(market_gains)@, UniformResource::Fieldstone) {
            Some(i) => old(market_gains)@[i].1 + leftover <= u32::MAX,
            None => true,
        },
    ensures
        final(market_gains)@ == with_paving_leftover(old(market_gains)@, leftover),
{
    if leftover == 0 {
        return;
    }
    proof {
        lemma_first_entry_for(market_gains@, UniformResource::Fieldstone);
    }
    let ghost first = first_entry_for(market_gains@, UniformResource::Fieldstone);
    let mut i: usize = 0;
    while i < market_gains.len()
        invariant
            i <= market_gains@.len(),
            market_gains@ == old(market_gains)@,
            leftover > 0,
            first == first_entry_for(old(market_gains)@, UniformResource::Fieldstone),
            match first {
                Some(j) => 0 <= j < market_gains@.len() && market_gains@[j].0 == UniformResource::Fieldstone
                    && market_gains@[j].1 + leftover <= u32::MAX
                    && forall|k: int| 0 <= k < j ==> (#[trigger] market_gains@[k]).0 != UniformResource::Fieldstone,
                None => forall|k: int| 0 <= k < market_gains@.len() ==> (#[trigger] market_gains@[k]).0 != UniformResource::Fieldstone,
            },
            forall|k: int| 0 <= k < i ==> (#[trigger] market_gains@[k]).0 != UniformResource::Fieldstone,
        decreases market_gains@.len() - i,
    {
        if market_gains[i].0 == UniformResource::Fieldstone {
            assert(first == Some(i as int));
            let q = market_gains[i].1 + leftover;
            market_gains.set(i, (UniformResource::Fieldstone, q));
            return;
        }
        i += 1;
    }
    market_gains.push((UniformResource::Fieldstone, leftover));
    let sorted = sorted_by_resource(market_gains);
    *market_gains = sorted;
}

/// How much of `r` the entries of `s` hold together.
pub open spec fn resource_total(s: Seq<(UniformResource, u32)>, r: UniformResource) -> int
    decreases s.len(),
{
    if s.len() == 0 {
        0
    } else {
        resource_total(s.drop_last(), r) + if s.last().0 == r { s.last().1 as int } else { 0 }
    }
}

/// The entries of `s` come in resource order.
pub open spec fn by_resource(s: Seq<(UniformResource, u32)>) -> bool {
    forall|a: int, b: int| 0 <= a < b < s.len() ==> resource_rank((#[trigger] s[a]).0) <= resource_rank((#[trigger] s[b]).0)
}

proof fn lemma_total_append(s: Seq<(UniformResource, u32)>, t: Seq<(UniformResource, u32)>, r: UniformResource)
    ensures
        resource_total(s + t, r) == resource_total(s, r) + resource_total(t, r),
    decreases t.len(),
{
    if t.len() > 0 {
        assert((s + t).drop_last() =~= s + t.drop_last());
        lemma_total_append(s, t.drop_last(), r);
    } else {
        assert(s + t =~= s);
    }
}

proof fn lemma_insert_keeps(sorted: Seq<(UniformResource, u32)>, x: (UniformResource, u32), r: UniformResource)
    ensures
        resource_total(insert_by_resource(sorted, x), r) == resource_total(sorted, r) + if x.0 == r { x.1 as int } else { 0 },
        by_resource(sorted) ==> by_resource(insert_by_resource(sorted, x)),
        insert_by_resource(sorted, x).len() == sorted.len() + 1,
        forall|k: int| 0 <= k < insert_by_resource(sorted, x).len() ==>
            (#[trigger] insert_by_resource(sorted, x)[k] == x || sorted.contains(insert_by_resource(sorted, x)[k])),
    decreases sorted.len(),
{
    if sorted.len() > 0 && resource_rank(sorted.last().0) > resource_rank(x.0) {
        let d = sorted.drop_last();
        lemma_insert_keeps(d, x, r);
        let i = insert_by_resource(d, x);
        assert(i.push(sorted.last()).drop_last() =~= i);
        assert(resource_total(i.push(sorted.last()), r) == resource_total(i, r)
            + if sorted.last().0 == r { sorted.last().1 as int } else { 0 });
        assert(resource_total(sorted, r) == resource_total(d, r)
            + if sorted.last().0 == r { sorted.last().1 as int } else { 0 });
        if by_resource(sorted) {
            assert forall|k: int| 0 <= k < i.len() implies resource_rank((#[trigger] i[k]).0) <= resource_rank(sorted.last().0) by {
                if i[k] != x {
                    let w = choose|w: int| 0 <= w < d.len() && d[w] == i[k];
                    assert(sorted[w] == d[w]);
                }
            }
            assert forall|a: int, b: int| 0 <= a < b < i.push(sorted.last()).len() implies
                resource_rank((#[trigger] i.push(sorted.last())[a]).0) <= resource_rank((#[trigger] i.push(sorted.last())[b]).0) by {
                if b < i.len() {
                    assert(i.push(sorted.last())[a] == i[a]);
                    assert(i.push(sorted.last())[b] == i[b]);
                } else {
                    assert(i.push(sorted.last())[a] == i[a]);
                }
            }
        }
        assert forall|k: int| 0 <= k < i.push(sorted.last()).len() implies
            (#[trigger] i.push(sorted.last())[k] == x || sorted.contains(i.push(sorted.last())[k])) by {
            if k < i.len() {
                assert(i.push(sorted.last())[k] == i[k]);
                if i[k] != x {
                    let w = choose|w: int| 0 <= w < d.len() && d[w] == i[k];
                    assert(sorted[w] == d[w]);
                }
            } else {
                assert(sorted[sorted.len() - 1] == sorted.last());
            }
        }
    } else if sorted.len() > 0 {
        assert(sorted.push(x).drop_last() =~= sorted);
        assert(resource_total(sorted.push(x), r) == resource_total(sorted, r) + if x.0 == r { x.1 as int } else { 0 });
        assert forall|k: int| 0 <= k < sorted.push(x).len() implies
            (#[trigger] sorted.push(x)[k] == x || sorted.contains(sorted.push(x)[k])) by {
            if k < sorted.len() {
                assert(sorted.push(x)[k] == sorted[k]);
            }
        }
        if by_resource(sorted) {
            assert forall|a: int, b: int| 0 <= a < b < sorted.push(x).len() implies
                resource_rank((#[trigger] sorted.push(x)[a]).0) <= resource_rank((#[trigger] sorted.push(x)[b]).0) by {
                assert(sorted.push(x)[a] == sorted[a]);
                if b < sorted.len() {
                    assert(sorted.push(x)[b] == sorted[b]);
                } else {
                    assert(sorted[sorted.len() - 1] == sorted.last());
                    if a < sorted.len() - 1 {
                        assert(resource_rank(sorted[a].0) <= resource_rank(sorted[sorted.len() - 1].0));
                    }
                }
            }
        }
    } else {
        assert(seq![x].drop_last() =~= Seq::<(UniformResource, u32)>::empty());
        assert(sorted =~= Seq::<(UniformResource, u32)>::empty());
        assert(resource_total(seq![x], r) == resource_total(Seq::<(UniformResource, u32)>::empty(), r) + if x.0 == r { x.1 as int } else { 0 });
    }
}

proof fn lemma_sort_keeps(s: Seq<(UniformResource, u32)>, r: UniformResource)
    ensures
        resource_total(sort_by_resource(s), r) == resource_total(s, r),
        by_resource(sort_by_resource(s)),
    decreases s.len(),
{
    if s.len() > 0 {
        lemma_sort_keeps(s.drop_last(), r);
        lemma_insert_keeps(sort_by_resource(s.drop_last()), s.last(), r);
    }
}

proof fn lemma_update_total(s: Seq<(UniformResource, u32)>, i: int, v: u32, r: UniformResource)
    requires
        0 <= i < s.len(),
    ensures
        resource_total(s.update(i, (s[i].0, v)), r) == resource_total(s, r) + if s[i].0 == r { v - s[i].1 } else { 0 },
    decreases s.len(),
{
    if i < s.len() - 1 {
        assert(s.update(i, (s[i].0, v)).drop_last() =~= s.drop_last().update(i, (s[i].0, v)));
        lemma_update_total(s.drop_last(), i, v, r);
    } else {
        assert(s.update(i, (s[i].0, v)).drop_last() =~= s.drop_last());
    }
}

/// Adding the unspent paving fieldstone to a month's gains adds exactly that
/// much fieldstone and leaves every other resource's total as it was; gains
/// that came in resource order stay in resource order.
pub proof fn lemma_paving_leftover_adds_fieldstone(gains: Seq<(UniformResource, u32)>, leftover: u32, r: UniformResource)
    requires
        match first_entry_for(gains, UniformResource::Fieldstone) {
            Some(i) => gains[i].1 + leftover <= u32::MAX,
            None => true,
        },
    ensures
        resource_total(with_paving_leftover(gains, leftover), r)
            == resource_total(gains, r) + if r == UniformResource::Fieldstone { leftover as int } else { 0 },
        by_resource(gains) ==> by_resource(with_paving_leftover(gains, leftover)),
{
    lemma_first_entry_for(gains, UniformResource::Fieldstone);
    if leftover > 0 {
        match first_entry_for(gains, UniformResource::Fieldstone) {
            Some(i) => {
                lemma_update_total(gains, i, (gains[i].1 + leftover) as u32, r);
                let u = gains.update(i, (UniformResource::Fieldstone, (gains[i].1 + leftover) as u32));
                assert forall|a: int, b: int| by_resource(gains) && 0 <= a < b < u.len() implies
                    resource_rank((#[trigger] u[a]).0) <= resource_rank((#[trigger] u[b]).0) by {
                    assert(gains[a].0 == u[a].0 && gains[b].0 == u[b].0);
                }
            },
            None => {
                lemma_sort_keeps(gains.push((UniformResource::Fieldstone, leftover)), r);
                assert(gains.push((UniformResource::Fieldstone, leftover)).drop_last() =~= gains);
            },
        }
    }
}

/// Sent when the player asks to advance the month.
#[derive(Clone, Copy, PartialEq, Eq, Debug, Structural)]
pub struct AdvanceMonthRequested;

} // verus!
