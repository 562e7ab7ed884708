//! Sharing work out to worker threads: the items are taken from the largest
//! to the smallest, and each goes to the worker with the least work so far
//! (the first such worker on a tie).
use vstd::prelude::*;
use vstd::multiset::Multiset;

verus! {

broadcast use vstd::seq_lib::group_to_multiset_ensures;

/// Item `x` is taken before item `y`: the larger first, equal sizes by index.
pub open spec fn goes_before(sizes: Seq<u64>, x: int, y: int) -> bool {
    sizes[x] > sizes[y] || (sizes[x] == sizes[y] && x < y)
}

/// `x` occurs in `order`.
pub open spec fn listed(order: Seq<usize>, x: int) -> bool {
    exists|i: int| 0 <= i < order.len() && order[i] == x
}

/// `order` lists every index of `sizes` once, in the order they are taken.
pub open spec fn by_size_desc(sizes: Seq<u64>, order: Seq<usize>) -> bool {
    &&& order.len() == sizes.len()
    &&& forall|i: int| 0 <= i < order.len() ==> #[trigger] order[i] < sizes.len()
    &&& forall|i: int, j: int|
        #![trigger order[i], order[j]]
        0 <= i < j < order.len() ==> goes_before(sizes, order[i] as int, order[j] as int)
    &&& forall|x: int| 0 <= x < sizes.len() ==> #[trigger] listed(order, x)
}

/// The first of the first `upto` workers with the least load.
pub open spec fn least_loaded(loads: Seq<int>, upto: nat) -> int
    decreases upto,
{
    if upto <= 1 {
        0
    } else {
        let c = least_loaded(loads, (upto - 1) as nat);
        if loads[upto - 1] < loads[c] {
            upto - 1
        } else {
            c
        }
    }
}

/// The groups of `w` workers and their loads once the first `t` items of
/// `order` are given out.
pub open spec fn lpt_run(sizes: Seq<u64>, order: Seq<usize>, w: nat, t: nat) -> (Seq<Seq<usize>>, Seq<int>)
    decreases t,
{
    if t == 0 {
        (Seq::new(w, |c: int| Seq::<usize>::empty()), Seq::new(w, |c: int| 0int))
    } else {
        let (groups, loads) = lpt_run(sizes, order, w, (t - 1) as nat);
        let item = order[t - 1];
        let c = least_loaded(loads, w);
        (groups.update(c, groups[c].push(item)), loads.update(c, loads[c] + sizes[item as int]))
    }
}

/// The groups of `w` workers once all the items are given out.
pub open spec fn lpt_groups(sizes: Seq<u64>, order: Seq<usize>, w: nat) -> Seq<Seq<usize>> {
    lpt_run(sizes, order, w, order.len()).0
}

/// The items of the first `c` groups.
pub open spec fn items_of(groups: Seq<Seq<usize>>, c: nat) -> Multiset<usize>
    decreases c,
{
    if c == 0 {
        Multiset::empty()
    } else {
        items_of(groups, (c - 1) as nat).add(groups[c - 1].to_multiset())
    }
}

/// The views of a list of lists.
pub open spec fn views(groups: Seq<Vec<usize>>) -> Seq<Seq<usize>> {
    groups.map_values(|g: Vec<usize>| g@)
}

proof fn lemma_least_loaded_bound(loads: Seq<int>, upto: nat)
    requires
        upto >= 1,
    ensures
        0 <= least_loaded(loads, upto) < upto,
    decreases upto,
{
    if upto > 1 {
        lemma_least_loaded_bound(loads, (upto - 1) as nat);
    }
}

/// The indices of `sizes`, in the order they are taken.
fn order_by_size(sizes: &[u64]) -> (order: Vec<usize>)
    ensures
        by_size_desc(sizes@, order@),
{
    let ghost s = sizes@;
    let mut order: Vec<usize> = Vec::new();
    let mut i: usize = 0;
    while i < sizes.len()
        invariant
            s == sizes@,
            i <= s.len(),
            order@.len() == i,
            forall|k: int| 0 <= k < i ==> #[trigger] order@[k] < i,
            forall|k: int, l: int|
                #![trigger order@[k], order@[l]]
                0 <= k < l < i ==> goes_before(s, order@[k] as int, order@[l] as int),
            forall|x: int| 0 <= x < i ==> #[trigger] listed(order@, x),
        decreases s.len() - i,
    {
        let size = sizes[i];
        let mut p: usize = 0;
        while p < order.len() && sizes[order[p]] >= size
            invariant
                s == sizes@,
                i < s.len(),
                size == s[i as int],
                p <= order@.len(),
                order@.len() == i,
                forall|k: int| 0 <= k < i ==> #[trigger] order@[k] < i,
                forall|q: int| 0 <= q < p ==> s[#[trigger] order@[q] as int] >= size,
            decreases order@.len() - p,
        {
            p += 1;
        }
        let ghost before = order@;
        order.insert(p, i);
        proof {
            let after = order@;
            assert(after == before.insert(p as int, i));
            assert forall|k: int| 0 <= k < i + 1 implies #[trigger] after[k] < i + 1 by {
                if k < p {
                    assert(after[k] == before[k]);
                } else if k > p {
                    assert(after[k] == before[k - 1]);
                }
            }
            assert forall|k: int, l: int|
                #![trigger after[k], after[l]]
                0 <= k < l < i + 1 implies goes_before(s, after[k] as int, after[l] as int) by {
                if l < p {
                    assert(after[k] == before[k] && after[l] == before[l]);
                } else if l == p {
                    assert(after[k] == before[k]);
                    assert(s[before[k] as int] >= size);
                    assert(before[k] < i);
                } else if k == p {
                    assert(after[l] == before[l - 1]);
                    assert(before[l - 1] < i);
                    if p < before.len() {
                        assert(s[before[p as int] as int] < size);
                        if l - 1 > p {
                            assert(goes_before(s, before[p as int] as int, before[l - 1] as int));
                        }
                    }
                } else if k < p {
                    assert(after[k] == before[k] && after[l] == before[l - 1]);
                } else {
                    assert(after[k] == before[k - 1] && after[l] == before[l - 1]);
                }
            }
            assert forall|x: int| 0 <= x < i + 1 implies #[trigger] listed(after, x) by {
                if x == i {
                    assert(after[p as int] == i);
                } else {
                    assert(listed(before, x));
                    let q = choose|q: int| 0 <= q < before.len() && before[q] == x;
                    if q < p {
                        assert(after[q] == x);
                    } else {
                        assert(after[q + 1] == x);
                    }
                }
            }
        }
        i += 1;
    }
    order
}

/// The items of `group` are in the order they are taken.
pub open spec fn group_ordered(sizes: Seq<u64>, group: Seq<usize>) -> bool {
    forall|i: int, j: int|
        #![trigger group[i], group[j]]
        0 <= i < j < group.len() ==> goes_before(sizes, group[i] as int, group[j] as int)
}

/// The order in which the items of `sizes` are taken.
pub open spec fn size_order(sizes: Seq<u64>) -> Seq<usize> {
    choose|order: Seq<usize>| by_size_desc(sizes, order)
}

/// Only one order lists every index once, larger sizes first and equal
/// sizes by index.
pub proof fn lemma_order_unique(sizes: Seq<u64>, o1: Seq<usize>, o2: Seq<usize>)
    requires
        by_size_desc(sizes, o1),
        by_size_desc(sizes, o2),
    ensures
        o1 == o2,
{
    lemma_same_upto(sizes, o1, o2, o1.len());
    assert(o1 =~= o2);
}

proof fn lemma_same_upto(sizes: Seq<u64>, o1: Seq<usize>, o2: Seq<usize>, i: nat)
    requires
        by_size_desc(sizes, o1),
        by_size_desc(sizes, o2),
        i <= o1.len(),
    ensures
        forall|q: int| 0 <= q < i ==> #[trigger] o1[q] == o2[q],
    decreases i,
{
    if i > 0 {
        lemma_same_upto(sizes, o1, o2, (i - 1) as nat);
        let p = i - 1;
        let x = o1[p];
        let y = o2[p];
        assert(listed(o2, x as int));
        assert(listed(o1, y as int));
        let j = choose|j: int| 0 <= j < o2.len() && o2[j] == x;
        let j2 = choose|j: int| 0 <= j < o1.len() && o1[j] == y;
        if j < p {
            assert(o1[j] == o2[j]);
            assert(goes_before(sizes, o1[j] as int, o1[p] as int));
        }
        if j2 < p {
            assert(o1[j2] == o2[j2]);
            assert(goes_before(sizes, o2[j2] as int, o2[p] as int));
        }
        if j > p && j2 > p {
            assert(goes_before(sizes, o2[p] as int, o2[j] as int));
            assert(goes_before(sizes, o1[p] as int, o1[j2] as int));
        }
    }
}

proof fn lemma_lpt_shape(sizes: Seq<u64>, order: Seq<usize>, w: nat, t: nat)
    requires
        w >= 1,
        t <= order.len(),
        forall|i: int| 0 <= i < order.len() ==> #[trigger] order[i] < sizes.len(),
    ensures
        lpt_run(sizes, order, w, t).0.len() == w,
        lpt_run(sizes, order, w, t).1.len() == w,
        forall|c: int| 0 <= c < w ==> 0 <= #[trigger] lpt_run(sizes, order, w, t).1[c] <= t * 0xffff_ffff_ffff_ffff,
    decreases t,
{
    if t > 0 {
        lemma_lpt_shape(sizes, order, w, (t - 1) as nat);
        let (g, l) = lpt_run(sizes, order, w, (t - 1) as nat);
        lemma_least_loaded_bound(l, w);
        let c = least_loaded(l, w);
        assert forall|d: int| 0 <= d < w implies 0 <= #[trigger] lpt_run(sizes, order, w, t).1[d] <= t * 0xffff_ffff_ffff_ffff by {
            assert(l[d] <= (t - 1) * 0xffff_ffff_ffff_ffff);
            assert((t - 1) * 0xffff_ffff_ffff_ffff + 0xffff_ffff_ffff_ffff == t * 0xffff_ffff_ffff_ffff) by (nonlinear_arith)
                requires t >= 1;
        }
    }
}

/// Adding `a` to group `c` adds it to the items of the groups.
proof fn lemma_items_push(groups: Seq<Seq<usize>>, c: int, a: usize, u: nat)
    requires
        0 <= c < groups.len(),
        u <= groups.len(),
    ensures
        items_of(groups.update(c, groups[c].push(a)), u) == if c < u { items_of(groups, u).insert(a) } else { items_of(groups, u) },
    decreases u,
{
    if u > 0 {
        let after = groups.update(c, groups[c].push(a));
        lemma_items_push(groups, c, a, (u - 1) as nat);
        if u - 1 == c {
            assert(after[c] == groups[c].push(a));
            assert(items_of(after, u) =~= items_of(groups, u).insert(a));
        } else {
            assert(after[u - 1] == groups[u - 1]);
            if c < u - 1 {
                assert(items_of(after, u) =~= items_of(groups, u).insert(a));
            } else {
                assert(items_of(after, u) =~= items_of(groups, u));
            }
        }
    }
}

/// Every item is given to exactly one worker, and every group lists its
/// items in the order they are taken.
pub proof fn law_groups_partition(sizes: Seq<u64>, order: Seq<usize>, w: nat)
    requires
        by_size_desc(sizes, order),
        w >= 1,
    ensures
        lpt_groups(sizes, order, w).len() == w,
        items_of(lpt_groups(sizes, order, w), w) == order.to_multiset(),
        forall|c: int| 0 <= c < w ==> group_ordered(sizes, #[trigger] lpt_groups(sizes, order, w)[c]),
{
    lemma_lpt_invariant(sizes, order, w, order.len());
    lemma_lpt_shape(sizes, order, w, order.len());
    assert(order.take(order.len() as int) =~= order);
}

/// Every item of the groups after `t` steps is one of the first `t` taken.
pub open spec fn taken_before(order: Seq<usize>, t: nat, x: usize) -> bool {
    exists|p: int| 0 <= p < t && order[p] == x
}

proof fn lemma_lpt_invariant(sizes: Seq<u64>, order: Seq<usize>, w: nat, t: nat)
    requires
        by_size_desc(sizes, order),
        w >= 1,
        t <= order.len(),
    ensures
        items_of(lpt_run(sizes, order, w, t).0, w) == order.take(t as int).to_multiset(),
        forall|c: int| 0 <= c < w ==> group_ordered(sizes, #[trigger] lpt_run(sizes, order, w, t).0[c]),
        forall|c: int, i: int|
            0 <= c < w && 0 <= i < lpt_run(sizes, order, w, t).0[c].len() ==> taken_before(order, t, #[trigger] lpt_run(sizes, order, w, t).0[c][i]),
    decreases t,
{
    lemma_lpt_shape(sizes, order, w, t);
    if t == 0 {
        let g = lpt_run(sizes, order, w, 0).0;
        assert forall|u: nat| u <= w implies #[trigger] items_of(g, u) =~= Multiset::<usize>::empty() by {
            lemma_items_empty(g, u);
        }
        assert(items_of(g, w) =~= Multiset::<usize>::empty());
        assert(order.take(0) =~= Seq::<usize>::empty());
    } else {
        let prev = (t - 1) as nat;
        lemma_lpt_invariant(sizes, order, w, prev);
        lemma_lpt_shape(sizes, order, w, prev);
        let (g, l) = lpt_run(sizes, order, w, prev);
        lemma_least_loaded_bound(l, w);
        let c = least_loaded(l, w);
        let item = order[prev as int];
        let g2 = lpt_run(sizes, order, w, t).0;
        assert(g2 == g.update(c, g[c].push(item)));
        lemma_items_push(g, c, item, w);
        assert(order.take(t as int) =~= order.take(prev as int).push(item));
        assert forall|d: int| 0 <= d < w implies group_ordered(sizes, #[trigger] g2[d]) by {
            if d == c {
                assert forall|i: int, j: int|
                    #![trigger g2[d][i], g2[d][j]]
                    0 <= i < j < g2[d].len() implies goes_before(sizes, g2[d][i] as int, g2[d][j] as int) by {
                    if j == g[c].len() {
                        assert(taken_before(order, prev, g[c][i]));
                        let p = choose|p: int| 0 <= p < prev && order[p] == g[c][i];
                        assert(goes_before(sizes, order[p] as int, order[prev as int] as int));
                    } else {
                        assert(g2[d][i] == g[c][i] && g2[d][j] == g[c][j]);
                    }
                }
            } else {
                assert(g2[d] == g[d]);
            }
        }
        assert forall|d: int, i: int| 0 <= d < w && 0 <= i < g2[d].len() implies taken_before(order, t, #[trigger] g2[d][i]) by {
            if d == c && i == g[c].len() {
                assert(order[prev as int] == g2[d][i]);
            } else {
                assert(g2[d][i] == g[d][i]);
                assert(taken_before(order, prev, g[d][i]));
                let p = choose|p: int| 0 <= p < prev && order[p] == g[d][i];
                assert(order[p] == g2[d][i]);
            }
        }
    }
}

proof fn lemma_items_empty(g: Seq<Seq<usize>>, u: nat)
    requires
        u <= g.len(),
        forall|c: int| 0 <= c < g.len() ==> #[trigger] g[c] == Seq::<usize>::empty(),
    ensures
        items_of(g, u) =~= Multiset::<usize>::empty(),
    decreases u,
{
    if u > 0 {
        lemma_items_empty(g, (u - 1) as nat);
        assert(g[u - 1].to_multiset() =~= Multiset::<usize>::empty());
    }
}

/// Gives the items of `order` out to `w` workers.
fn assign_to_workers(sizes: &[u64], order: &Vec<usize>, w: usize) -> (groups: Vec<Vec<usize>>)
    requires
        w >= 1,
        forall|i: int| 0 <= i < order@.len() ==> #[trigger] order@[i] < sizes@.len(),
    ensures
        views(groups@) == lpt_groups(sizes@, order@, w as nat),
{
    let ghost s = sizes@;
    let ghost o = order@;
    let mut groups: Vec<Vec<usize>> = Vec::new();
    let mut loads: Vec<u128> = Vec::new();
    let mut c: usize = 0;
    while c < w
        invariant
            c <= w,
            groups@.len() == c,
            loads@.len() == c,
            forall|d: int| 0 <= d < c ==> (#[trigger] groups@[d])@ == Seq::<usize>::empty(),
            forall|d: int| 0 <= d < c ==> #[trigger] loads@[d] == 0,
        decreases w - c,
    {
        groups.push(Vec::new());
        loads.push(0);
        c += 1;
    }
    proof {
        assert(views(groups@) =~= lpt_run(s, o, w as nat, 0).0);
    }
    let mut t: usize = 0;
    while t < order.len()
        invariant
            s == sizes@,
            o == order@,
            w >= 1,
            t <= o.len(),
            forall|i: int| 0 <= i < o.len() ==> #[trigger] o[i] < s.len(),
            views(groups@) == lpt_run(s, o, w as nat, t as nat).0,
            loads@.len() == w,
            forall|d: int| 0 <= d < w ==> #[trigger] loads@[d] as int == lpt_run(s, o, w as nat, t as nat).1[d],
        decreases o.len() - t,
    {
        proof {
            lemma_lpt_shape(s, o, w as nat, t as nat);
        }
        let ghost l = lpt_run(s, o, w as nat, t as nat).1;
        let item = order[t];
        let mut best: usize = 0;
        let mut j: usize = 1;
        while j < w
            invariant
                1 <= j <= w,
                loads@.len() == w,
                l.len() == w,
                forall|d: int| 0 <= d < w ==> #[trigger] loads@[d] as int == l[d],
                best == least_loaded(l, j as nat),
                best < j,
            decreases w - j,
        {
            if loads[j] < loads[best] {
                best = j;
            }
            j += 1;
        }
        let ghost before = groups@;
        let mut g = groups.remove(best);
        g.push(item);
        groups.insert(best, g);
        proof {
            assert(groups@ =~= before.update(best as int, groups@[best as int]));
            assert(views(groups@) =~= views(before).update(best as int, views(before)[best as int].push(item)));
            assert(loads@[best as int] as int == l[best as int]);
            assert(l[best as int] <= t * 0xffff_ffff_ffff_ffff);
            assert(t * 0xffff_ffff_ffff_ffff <= 0xffff_ffff_ffff_ffff * 0xffff_ffff_ffff_ffff) by (nonlinear_arith)
                requires t <= 0xffff_ffff_ffff_ffff;
        }
        let new_load = loads[best] + sizes[item] as u128;
        loads.set(best, new_load);
        t += 1;
    }
    proof {
        assert(t == o.len());
    }
    groups
}

/// The files, whose sizes are `sizes`, in groups for `available` worker
/// threads: as many groups as threads but no more than files, the largest
/// file first, each to the group with the least bytes so far (the first such
/// group on a tie). Files are given by their index; each group lists its files
/// from the largest. No files, no groups.
pub fn group_files_for_workers(sizes: &[u64], available: usize) -> (groups: Vec<Vec<usize>>)
    requires
        available >= 1,
    ensures
        by_size_desc(sizes@, size_order(sizes@)),
        sizes@.len() == 0 ==> groups@.len() == 0,
        sizes@.len() > 0 ==> views(groups@) == lpt_groups(
            sizes@,
            size_order(sizes@),
            if available < sizes@.len() { available as nat } else { sizes@.len() },
        ),
        forall|c: int| 0 <= c < groups@.len() ==> group_ordered(sizes@, #[trigger] groups@[c]@),
{
    let order = order_by_size(sizes);
    proof {
        lemma_order_unique(sizes@, order@, size_order(sizes@));
    }
    if sizes.len() == 0 {
        return Vec::new();
    }
    let workers = if available < sizes.len() { available } else { sizes.len() };
    let groups = assign_to_workers(sizes, &order, workers);
    proof {
        law_groups_partition(sizes@, order@, workers as nat);
        assert forall|c: int| 0 <= c < groups@.len() implies group_ordered(sizes@, #[trigger] groups@[c]@) by {
            assert(views(groups@)[c] == groups@[c]@);
        }
    }
    groups
}

/// The weight of an entry when unpacking: its stored size, at least 1.
pub open spec fn entry_weights(stored_sizes: Seq<u64>) -> Seq<u64> {
    Seq::new(stored_sizes.len(), |i: int| if stored_sizes[i] >= 1 { stored_sizes[i] } else { 1 })
}

/// The archive entries, whose stored sizes are `stored_sizes`, in groups for
/// `available` worker threads, shared out as the files are when packing, by
/// their weights (stored size, at least 1); equal weights are taken by index.
pub fn group_entries_for_workers(stored_sizes: &[u64], available: usize) -> (groups: Vec<Vec<usize>>)
    requires
        available >= 1,
    ensures
        stored_sizes@.len() == 0 ==> groups@.len() == 0,
        stored_sizes@.len() > 0 ==> views(groups@) == lpt_groups(
            entry_weights(stored_sizes@),
            size_order(entry_weights(stored_sizes@)),
            if available < stored_sizes@.len() { available as nat } else { stored_sizes@.len() },
        ),
{
    if stored_sizes.len() == 0 {
        return Vec::new();
    }
    let mut weights: Vec<u64> = Vec::new();
    let mut i: usize = 0;
    while i < stored_sizes.len()
        invariant
            i <= stored_sizes@.len(),
            weights@ == entry_weights(stored_sizes@).take(i as int),
        decreases stored_sizes@.len() - i,
    {
        let s = stored_sizes[i];
        weights.push(if s >= 1 { s } else { 1 });
        proof {
            assert(weights@ =~= entry_weights(stored_sizes@).take(i + 1));
        }
        i += 1;
    }
    proof {
        assert(weights@ =~= entry_weights(stored_sizes@));
    }
    group_files_for_workers(weights.as_slice(), available)
}

} // verus!
