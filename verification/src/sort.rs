//! Stable sorting of items that carry an integer key.
use vstd::prelude::*;

verus! {

/// `s` with `x` put in behind the last item whose key is not larger.
pub open spec fn insert_keyed<T>(s: Seq<(u64, T)>, x: (u64, T)) -> Seq<(u64, T)>
    decreases s.len(),
{
    if s.len() == 0 || s.last().0 <= x.0 {
        s.push(x)
    } else {
        insert_keyed(s.drop_last(), x).push(s.last())
    }
}

/// `s` in ascending order of keys; items with the same key keep their order.
pub open spec fn stable_sort<T>(s: Seq<(u64, T)>) -> Seq<(u64, T)>
    decreases s.len(),
{
    if s.len() == 0 {
        s
    } else {
        insert_keyed(stable_sort(s.drop_last()), s.last())
    }
}

/// The keys of `s` ascend.
pub open spec fn keys_ascend<T>(s: Seq<(u64, T)>) -> bool {
    forall|i: int, j: int| 0 <= i <= j < s.len() ==> (#[trigger] s[i]).0 <= (#[trigger] s[j]).0
}

proof fn lemma_insert_at<T>(s: Seq<(u64, T)>, x: (u64, T), at: int)
    requires
        0 <= at <= s.len(),
        at > 0 ==> s[at - 1].0 <= x.0,
        forall|j: int| at <= j < s.len() ==> (#[trigger] s[j]).0 > x.0,
    ensures
        insert_keyed(s, x) == s.insert(at, x),
    decreases s.len(),
{
    if at == s.len() {
        assert(s.insert(at, x) =~= s.push(x));
    } else {
        let init = s.drop_last();
        lemma_insert_at(init, x, at);
        assert(s.insert(at, x) =~= init.insert(at, x).push(s.last()));
    }
}

/// The items in ascending order of keys; items with the same key keep their order.
pub fn sort_keyed<T>(items: Vec<(u64, T)>) -> (out: Vec<(u64, T)>)
    ensures
        out@ == stable_sort(items@),
{
    let ghost all = items@;
    let mut rest = items;
    let mut pending: Vec<(u64, T)> = Vec::new();
    let n = rest.len();
    while rest.len() > 0
        invariant
            rest@.len() + pending@.len() == n,
            n == all.len(),
            rest@ == all.take(rest@.len() as int),
            forall|k: int| 0 <= k < pending@.len() ==> #[trigger] pending@[k] == all[n - 1 - k],
        decreases rest.len(),
    {
        if let Some(x) = rest.pop() {
            pending.push(x);
        }
        assert(rest@ =~= all.take(rest@.len() as int));
    }
    let mut out: Vec<(u64, T)> = Vec::new();
    let ghost mut done: int = 0;
    assert(all.take(0) =~= Seq::empty());
    while pending.len() > 0
        invariant
            0 <= done <= n,
            n == all.len(),
            done + pending@.len() == n,
            forall|k: int| 0 <= k < pending@.len() ==> #[trigger] pending@[k] == all[n - 1 - k],
            out@ == stable_sort(all.take(done)),
        decreases pending.len(),
    {
        if let Some(x) = pending.pop() {
            let mut at: usize = out.len();
            while at > 0 && out[at - 1].0 > x.0
                invariant
                    at <= out.len(),
                    forall|j: int| at <= j < out@.len() ==> (#[trigger] out@[j]).0 > x.0,
                decreases at,
            {
                at -= 1;
            }
            proof {
                lemma_insert_at(out@, x, at as int);
                assert(all.take(done + 1).drop_last() =~= all.take(done));
                assert(x == all[done]);
                done = done + 1;
            }
            out.insert(at, x);
        }
    }
    assert(all.take(done) =~= all);
    out
}

/// The values in ascending order.
pub open spec fn ascending(v: Seq<u64>) -> Seq<u64> {
    stable_sort(v.map_values(|x: u64| (x, ()))).map_values(|p: (u64, ())| p.0)
}

/// The values in ascending order.
pub fn sort_values(v: &[u64]) -> (out: Vec<u64>)
    ensures
        out@ == ascending(v@),
        out@.len() == v@.len(),
{
    let mut keyed: Vec<(u64, ())> = Vec::new();
    let mut i: usize = 0;
    while i < v.len()
        invariant
            i <= v.len(),
            keyed@ == v@.take(i as int).map_values(|x: u64| (x, ())),
        decreases v.len() - i,
    {
        keyed.push((v[i], ()));
        i += 1;
        assert(keyed@ =~= v@.take(i as int).map_values(|x: u64| (x, ())));
    }
    assert(v@.take(i as int) =~= v@);
    proof {
        law_sort_permutes(keyed@);
    }
    let sorted = sort_keyed(keyed);
    let mut out: Vec<u64> = Vec::new();
    let mut j: usize = 0;
    while j < sorted.len()
        invariant
            j <= sorted.len(),
            out@ == sorted@.take(j as int).map_values(|p: (u64, ())| p.0),
        decreases sorted.len() - j,
    {
        out.push(sorted[j].0);
        j += 1;
        assert(out@ =~= sorted@.take(j as int).map_values(|p: (u64, ())| p.0));
    }
    assert(sorted@.take(j as int) =~= sorted@);
    out
}

proof fn lemma_insert_sorted<T>(s: Seq<(u64, T)>, x: (u64, T))
    requires
        keys_ascend(s),
    ensures
        keys_ascend(insert_keyed(s, x)),
        insert_keyed(s, x).len() == s.len() + 1,
        insert_keyed(s, x).last().0 == if s.len() > 0 && s.last().0 > x.0 {
            s.last().0
        } else {
            x.0
        },
    decreases s.len(),
{
    if s.len() > 0 && s.last().0 > x.0 {
        let init = s.drop_last();
        lemma_insert_sorted(init, x);
        let r = insert_keyed(init, x);
        assert forall|i: int| 0 <= i < r.len() implies (#[trigger] r[i]).0 <= s.last().0 by {
            assert(r[i].0 <= r[r.len() - 1].0);
        }
    }
}

/// Sorting puts the keys in ascending order.
pub proof fn law_sort_orders<T>(s: Seq<(u64, T)>)
    ensures
        keys_ascend(stable_sort(s)),
        stable_sort(s).len() == s.len(),
    decreases s.len(),
{
    if s.len() > 0 {
        law_sort_orders(s.drop_last());
        lemma_insert_sorted(stable_sort(s.drop_last()), s.last());
    }
}

proof fn lemma_insert_multiset<T>(s: Seq<(u64, T)>, x: (u64, T))
    ensures
        insert_keyed(s, x).to_multiset() == s.to_multiset().insert(x),
    decreases s.len(),
{
    broadcast use vstd::seq_lib::group_to_multiset_ensures;

    if s.len() > 0 && s.last().0 > x.0 {
        let init = s.drop_last();
        lemma_insert_multiset(init, x);
        assert(s =~= init.push(s.last()));
        assert(insert_keyed(s, x).to_multiset() =~= init.to_multiset().insert(x).insert(s.last()));
    }
}

/// Sorting neither loses nor adds an item.
pub proof fn law_sort_permutes<T>(s: Seq<(u64, T)>)
    ensures
        stable_sort(s).to_multiset() == s.to_multiset(),
        stable_sort(s).len() == s.len(),
    decreases s.len(),
{
    broadcast use vstd::seq_lib::group_to_multiset_ensures;

    law_sort_orders(s);
    if s.len() > 0 {
        law_sort_permutes(s.drop_last());
        lemma_insert_multiset(stable_sort(s.drop_last()), s.last());
        assert(s =~= s.drop_last().push(s.last()));
    }
}

/// The items of `s` with key `k`, in order.
pub open spec fn with_key<T>(s: Seq<(u64, T)>, k: u64) -> Seq<(u64, T)>
    decreases s.len(),
{
    if s.len() == 0 {
        s
    } else if s.last().0 == k {
        with_key(s.drop_last(), k).push(s.last())
    } else {
        with_key(s.drop_last(), k)
    }
}

proof fn lemma_insert_stable<T>(s: Seq<(u64, T)>, x: (u64, T), k: u64)
    requires
        keys_ascend(s),
    ensures
        with_key(insert_keyed(s, x), k) == with_key(s.push(x), k),
    decreases s.len(),
{
    reveal_with_fuel(with_key, 3);
    assert(s.push(x).drop_last() =~= s);
    if s.len() > 0 && s.last().0 > x.0 {
        let init = s.drop_last();
        lemma_insert_stable(init, x, k);
        assert(init.push(x).drop_last() =~= init);
        assert(insert_keyed(s, x).drop_last() =~= insert_keyed(init, x));
        assert(insert_keyed(s, x).last() == s.last());
        assert(init.push(x).last() == x);
        assert(s.push(x).last() == x);
    }
}

/// Items with the same key keep their order.
pub proof fn law_sort_stable<T>(s: Seq<(u64, T)>, k: u64)
    ensures
        with_key(stable_sort(s), k) == with_key(s, k),
    decreases s.len(),
{
    if s.len() > 0 {
        let init = s.drop_last();
        law_sort_stable(init, k);
        law_sort_orders(init);
        lemma_insert_stable(stable_sort(init), s.last(), k);
        let t = stable_sort(init).push(s.last());
        assert(t.drop_last() =~= stable_sort(init));
    }
}

/// `s` with its keys turned round, so that the largest comes first.
pub open spec fn flipped<T>(s: Seq<(u64, T)>) -> Seq<(u64, T)> {
    s.map_values(|p: (u64, T)| ((u64::MAX - p.0) as u64, p.1))
}

/// The items of `s` in descending order of keys; items with the same key keep their order.
pub open spec fn descending<T>(s: Seq<(u64, T)>) -> Seq<T> {
    stable_sort(flipped(s)).map_values(|p: (u64, T)| p.1)
}

/// The items in descending order of keys; items with the same key keep their order.
pub fn sort_descending<T>(items: Vec<(u64, T)>) -> (out: Vec<T>)
    ensures
        out@ == descending(items@),
{
    let ghost all = items@;
    let mut items = items;
    let mut turned: Vec<(u64, T)> = Vec::new();
    let ghost mut done: int = 0;
    while items.len() > 0
        invariant
            0 <= done <= all.len(),
            items@ == all.subrange(done, all.len() as int),
            turned@ == flipped(all.take(done)),
        decreases items@.len(),
    {
        let (key, item) = items.remove(0);
        turned.push((u64::MAX - key, item));
        proof {
            done = done + 1;
        }
        assert(items@ =~= all.subrange(done, all.len() as int));
        assert(turned@ =~= flipped(all.take(done)));
    }
    assert(all.take(done) =~= all);
    let mut sorted = sort_keyed(turned);
    let ghost order = sorted@;
    let mut out: Vec<T> = Vec::new();
    proof {
        done = 0;
    }
    while sorted.len() > 0
        invariant
            0 <= done <= order.len(),
            sorted@ == order.subrange(done, order.len() as int),
            out@ == order.take(done).map_values(|p: (u64, T)| p.1),
        decreases sorted@.len(),
    {
        let (_, item) = sorted.remove(0);
        out.push(item);
        proof {
            done = done + 1;
        }
        assert(sorted@ =~= order.subrange(done, order.len() as int));
        assert(out@ =~= order.take(done).map_values(|p: (u64, T)| p.1));
    }
    assert(order.take(done) =~= order);
    out
}

/// What items show, with their keys.
pub open spec fn keyed_views<T: View>(s: Seq<(u64, T)>) -> Seq<(u64, T::V)> {
    s.map_values(|p: (u64, T)| (p.0, p.1@))
}

proof fn lemma_insert_views<T: View>(s: Seq<(u64, T)>, x: (u64, T))
    ensures
        keyed_views(insert_keyed(s, x)) == insert_keyed(keyed_views(s), (x.0, x.1@)),
    decreases s.len(),
{
    if s.len() == 0 || s.last().0 <= x.0 {
        assert(keyed_views(s.push(x)) =~= keyed_views(s).push((x.0, x.1@)));
    } else {
        let init = s.drop_last();
        lemma_insert_views(init, x);
        assert(keyed_views(s).drop_last() =~= keyed_views(init));
        assert(keyed_views(insert_keyed(s, x)) =~= keyed_views(insert_keyed(init, x)).push(
            (s.last().0, s.last().1@),
        ));
    }
}

proof fn lemma_sort_views<T: View>(s: Seq<(u64, T)>)
    ensures
        keyed_views(stable_sort(s)) == stable_sort(keyed_views(s)),
    decreases s.len(),
{
    if s.len() == 0 {
        assert(keyed_views(s) =~= Seq::empty());
        assert(keyed_views(stable_sort(s)) =~= Seq::empty());
    } else {
        let init = s.drop_last();
        lemma_sort_views(init);
        assert(keyed_views(s).drop_last() =~= keyed_views(init));
        lemma_insert_views(stable_sort(init), s.last());
    }
}

/// Sorting goes by keys alone: what sorted items show is what they show, sorted.
pub proof fn lemma_descending_views<T: View>(s: Seq<(u64, T)>)
    ensures
        descending(s).map_values(|t: T| t@) == descending(keyed_views(s)),
{
    assert(keyed_views(flipped(s)) =~= flipped(keyed_views(s)));
    lemma_sort_views(flipped(s));
    let a = stable_sort(flipped(s));
    assert(descending(s).map_values(|t: T| t@) =~= keyed_views(a).map_values(
        |p: (u64, T::V)| p.1,
    ));
}

/// Items in descending order of their sizes come with the largest first, and all of them.
pub proof fn law_descending_order<T>(s: Seq<(u64, T)>, size: spec_fn(T) -> u64)
    requires
        forall|i: int| 0 <= i < s.len() ==> (#[trigger] s[i]).0 == size(s[i].1),
    ensures
        descending(s).len() == s.len(),
        forall|i: int, j: int|
            0 <= i <= j < s.len() ==> size(#[trigger] descending(s)[i]) >= size(
                #[trigger] descending(s)[j],
            ),
{
    broadcast use vstd::seq_lib::group_to_multiset_ensures;

    let turned = flipped(s);
    let sorted = stable_sort(turned);
    law_sort_orders(turned);
    law_sort_permutes(turned);
    assert forall|i: int| 0 <= i < sorted.len() implies (#[trigger] sorted[i]).0 == u64::MAX
        - size(sorted[i].1) by {
        assert(sorted.contains(sorted[i]));
        assert(sorted.to_multiset().count(sorted[i]) > 0);
        assert(turned.to_multiset().count(sorted[i]) > 0);
        assert(turned.contains(sorted[i]));
        let k = turned.index_of(sorted[i]);
        assert(turned[k] == sorted[i]);
        assert(s[k].0 == size(s[k].1));
    }
    assert forall|i: int, j: int| 0 <= i <= j < s.len() implies size(
        #[trigger] descending(s)[i],
    ) >= size(#[trigger] descending(s)[j]) by {
        assert(sorted[i].0 <= sorted[j].0);
    }
}

/// The items of `s`, without their keys.
pub open spec fn items_of<T>(s: Seq<(u64, T)>) -> Seq<T> {
    s.map_values(|p: (u64, T)| p.1)
}

proof fn lemma_insert_items<T>(s: Seq<(u64, T)>, x: (u64, T))
    ensures
        items_of(insert_keyed(s, x)).to_multiset() == items_of(s).to_multiset().insert(x.1),
    decreases s.len(),
{
    broadcast use vstd::seq_lib::group_to_multiset_ensures;

    if s.len() == 0 || s.last().0 <= x.0 {
        assert(items_of(s.push(x)) =~= items_of(s).push(x.1));
    } else {
        let init = s.drop_last();
        lemma_insert_items(init, x);
        assert(items_of(insert_keyed(s, x)) =~= items_of(insert_keyed(init, x)).push(s.last().1));
        assert(items_of(s) =~= items_of(init).push(s.last().1));
        assert(items_of(insert_keyed(s, x)).to_multiset() =~= items_of(init).to_multiset().insert(
            x.1,
        ).insert(s.last().1));
    }
}

proof fn lemma_sort_items<T>(s: Seq<(u64, T)>)
    ensures
        items_of(stable_sort(s)).to_multiset() == items_of(s).to_multiset(),
    decreases s.len(),
{
    broadcast use vstd::seq_lib::group_to_multiset_ensures;

    if s.len() > 0 {
        let init = s.drop_last();
        lemma_sort_items(init);
        lemma_insert_items(stable_sort(init), s.last());
        assert(items_of(s) =~= items_of(init).push(s.last().1));
    }
}

/// Putting items in descending order neither loses nor adds one.
pub proof fn law_descending_permutes<T>(s: Seq<(u64, T)>)
    ensures
        descending(s).to_multiset() == items_of(s).to_multiset(),
        descending(s).len() == s.len(),
{
    lemma_sort_items(flipped(s));
    law_sort_permutes(flipped(s));
    assert(items_of(flipped(s)) =~= items_of(s));
    assert(descending(s) =~= items_of(stable_sort(flipped(s))));
}

/// Items whose names are all different are in descending order too.
pub proof fn law_descending_apart<T, N>(s: Seq<(u64, T)>, name: spec_fn(T) -> N)
    requires
        forall|i: int, j: int|
            0 <= i < j < s.len() ==> name((#[trigger] s[i]).1) != name((#[trigger] s[j]).1),
    ensures
        forall|i: int, j: int|
            0 <= i < j < s.len() ==> name(#[trigger] descending(s)[i]) != name(
                #[trigger] descending(s)[j],
            ),
{
    broadcast use vstd::seq_lib::group_to_multiset_ensures;

    let items = items_of(s);
    let sorted = descending(s);
    law_descending_permutes(s);
    assert forall|i: int, j: int| 0 <= i < items.len() && 0 <= j < items.len() && i != j implies
        items[i] != items[j] by {
        if i < j {
            assert(name(s[i].1) != name(s[j].1));
        } else {
            assert(name(s[j].1) != name(s[i].1));
        }
    }
    items.lemma_multiset_has_no_duplicates();
    sorted.lemma_multiset_has_no_duplicates_conv();
    assert forall|i: int, j: int| 0 <= i < j < s.len() implies name(#[trigger] sorted[i]) != name(
        #[trigger] sorted[j],
    ) by {
        assert(sorted.contains(sorted[i]) && sorted.contains(sorted[j]));
        assert(items.to_multiset().count(sorted[i]) > 0);
        assert(items.to_multiset().count(sorted[j]) > 0);
        let a = items.index_of(sorted[i]);
        let b = items.index_of(sorted[j]);
        assert(items[a] == sorted[i] && items[b] == sorted[j]);
        assert(s[a].1 == sorted[i] && s[b].1 == sorted[j]);
        if a == b {
            assert(sorted[i] == sorted[j]);
        }
    }
}

} // verus!
