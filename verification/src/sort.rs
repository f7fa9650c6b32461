//! Sorting by a number, in which equal numbers keep their order.
use vstd::prelude::*;

verus! {

/// The item put behind all items with no larger number.
pub open spec fn put<T>(s: Seq<(i64, T)>, item: (i64, T)) -> Seq<(i64, T)>
    decreases s.len(),
{
    if s.len() > 0 && s.last().0 > item.0 {
        put(s.drop_last(), item).push(s.last())
    } else {
        s.push(item)
    }
}

/// The items by their numbers. Items with one number keep their order.
pub open spec fn stable<T>(s: Seq<(i64, T)>) -> Seq<(i64, T)>
    decreases s.len(),
{
    if s.len() == 0 {
        s
    } else {
        put(stable(s.drop_last()), s.last())
    }
}

/// No item comes before one with a smaller number.
pub open spec fn ascending<T>(s: Seq<(i64, T)>) -> bool {
    forall|i: int, j: int| 0 <= i < j < s.len() ==> (#[trigger] s[i]).0 <= (#[trigger] s[j]).0
}

/// The items with that number.
pub open spec fn numbered_with<T>(s: Seq<(i64, T)>, n: i64) -> Seq<(i64, T)>
    decreases s.len(),
{
    if s.len() == 0 {
        s
    } else if s.last().0 == n {
        numbered_with(s.drop_last(), n).push(s.last())
    } else {
        numbered_with(s.drop_last(), n)
    }
}

/// Puts an item behind all items with no larger number.
fn put_item<T>(v: &mut Vec<(i64, T)>, item: (i64, T))
    ensures
        final(v)@ == put(old(v)@, item),
{
    let ghost start = v@;
    let mut i: usize = v.len();
    proof {
        assert(start.take(start.len() as int) =~= start);
        assert(put(start, item) + start.skip(start.len() as int) =~= put(start, item));
    }
    while i > 0 && v[i - 1].0 > item.0
        invariant
            i <= v.len(),
            v@ == start,
            put(start, item) == put(start.take(i as int), item) + start.skip(i as int),
        decreases i,
    {
        proof {
            let front = start.take(i as int);
            assert(front.drop_last() =~= start.take(i - 1));
            assert(put(start.take(i - 1), item).push(start[i - 1]) + start.skip(i as int) =~= put(
                start.take(i - 1),
                item,
            ) + start.skip(i - 1));
        }
        i -= 1;
    }
    proof {
        let front = start.take(i as int);
        if i > 0 {
            assert(front.last() == start[i - 1]);
        }
        assert(put(front, item) == front.push(item));
    }
    v.insert(i, item);
    assert(v@ =~= start.take(i as int).push(item) + start.skip(i as int));
}

/// The items by their numbers. Items with one number keep their order.
pub fn stable_sort<T>(items: Vec<(i64, T)>) -> (r: Vec<(i64, T)>)
    ensures
        r@ == stable(items@),
{
    let ghost all = items@;
    let mut r: Vec<(i64, T)> = Vec::new();
    for item in it: items
        invariant
            it.seq() == all,
            r@ == stable(all.take(it.index() as int)),
    {
        put_item(&mut r, item);
        assert(all.take(it.index() + 1).drop_last() =~= all.take(it.index() as int));
        assert(all.take(it.index() + 1).last() == item);
    }
    assert(all.take(all.len() as int) =~= all);
    r
}

// ---------------------------------------------------------------------------
// Grouping
// ---------------------------------------------------------------------------

/// The values under a key, in order.
pub open spec fn values_with<V>(items: Seq<(u64, V)>, key: u64) -> Seq<V>
    decreases items.len(),
{
    if items.len() == 0 {
        Seq::empty()
    } else if items.last().0 == key {
        values_with(items.drop_last(), key).push(items.last().1)
    } else {
        values_with(items.drop_last(), key)
    }
}

/// The key is that of an item.
pub open spec fn has_key<V>(items: Seq<(u64, V)>, key: u64) -> bool {
    exists|i: int| 0 <= i < items.len() && (#[trigger] items[i]).0 == key
}

/// The keys of the items, each once, in their order.
pub open spec fn distinct_keys<V>(keys: Seq<u64>, items: Seq<(u64, V)>) -> bool {
    &&& forall|i: int, j: int| 0 <= i < j < keys.len() ==> keys[i] < keys[j]
    &&& forall|k: u64| #[trigger] keys.contains(k) <==> has_key(items, k)
}

/// The values under each key, by the keys.
pub open spec fn groups_of<V>(groups: Seq<(u64, Vec<V>)>, items: Seq<(u64, V)>) -> bool {
    &&& distinct_keys(groups.map_values(|g: (u64, Vec<V>)| g.0), items)
    &&& forall|i: int|
        0 <= i < groups.len() ==> (#[trigger] groups[i]).1@ == values_with(items, groups[i].0)
}

/// Puts a key in its place, unless it is there.
fn put_key(keys: &mut Vec<u64>, key: u64)
    requires
        forall|i: int, j: int| 0 <= i < j < old(keys).len() ==> old(keys)@[i] < old(keys)@[j],
    ensures
        forall|i: int, j: int| 0 <= i < j < final(keys).len() ==> final(keys)@[i] < final(keys)@[j],
        forall|k: u64| #[trigger]
            final(keys)@.contains(k) <==> old(keys)@.contains(k) || k == key,
{
    let ghost start = keys@;
    let mut i: usize = 0;
    while i < keys.len() && keys[i] < key
        invariant
            i <= keys.len(),
            keys@ == start,
            forall|j: int| 0 <= j < i ==> start[j] < key,
        decreases keys.len() - i,
    {
        i += 1;
    }
    if i < keys.len() && keys[i] == key {
        assert(start[i as int] == key);
        return;
    }
    keys.insert(i, key);
    proof {
        assert forall|k: u64| #[trigger] keys@.contains(k) <==> start.contains(k) || k == key by {
            if keys@.contains(k) {
                let x = choose|x: int| 0 <= x < keys@.len() && keys@[x] == k;
                if x < i {
                    assert(start[x] == k);
                } else if x > i {
                    assert(start[x - 1] == k);
                }
            }
            if start.contains(k) {
                let x = choose|x: int| 0 <= x < start.len() && start[x] == k;
                if x < i {
                    assert(keys@[x] == k);
                } else {
                    assert(keys@[x + 1] == k);
                }
            }
            if k == key {
                assert(keys@[i as int] == k);
            }
        }
    }
}

/// The keys of the items, each once, in their order.
pub fn find_keys<V>(items: &Vec<(u64, V)>) -> (r: Vec<u64>)
    ensures
        distinct_keys(r@, items@),
{
    let mut r: Vec<u64> = Vec::new();
    let mut i: usize = 0;
    while i < items.len()
        invariant
            i <= items.len(),
            forall|i: int, j: int| 0 <= i < j < r.len() ==> r@[i] < r@[j],
            forall|k: u64| #[trigger] r@.contains(k) <==> has_key(items@.take(i as int), k),
        decreases items.len() - i,
    {
        let ghost before = r@;
        put_key(&mut r, items[i].0);
        proof {
            let a = items@.take(i as int);
            let b = items@.take(i + 1);
            assert forall|k: u64| #[trigger] r@.contains(k) <==> has_key(b, k) by {
                assert(before.contains(k) <==> has_key(a, k));
                if has_key(a, k) {
                    let x = choose|x: int| 0 <= x < a.len() && (#[trigger] a[x]).0 == k;
                    assert(b[x].0 == k);
                }
                if k == items@[i as int].0 {
                    assert(b[i as int].0 == k);
                }
                if has_key(b, k) {
                    let x = choose|x: int| 0 <= x < b.len() && (#[trigger] b[x]).0 == k;
                    if x < i {
                        assert(a[x].0 == k);
                    }
                }
            }
        }
        i += 1;
    }
    assert(items@.take(items@.len() as int) =~= items@);
    r
}

/// The values under a key.
fn find_values<V: Copy>(items: &Vec<(u64, V)>, key: u64) -> (r: Vec<V>)
    ensures
        r@ == values_with(items@, key),
{
    let mut r: Vec<V> = Vec::new();
    let mut i: usize = 0;
    while i < items.len()
        invariant
            i <= items.len(),
            r@ == values_with(items@.take(i as int), key),
        decreases items.len() - i,
    {
        assert(items@.take(i + 1).drop_last() =~= items@.take(i as int));
        if items[i].0 == key {
            r.push(items[i].1);
        }
        i += 1;
    }
    assert(items@.take(items@.len() as int) =~= items@);
    r
}

/// The values under each key, by the keys.
pub fn group_by_key<V: Copy>(items: &Vec<(u64, V)>) -> (r: Vec<(u64, Vec<V>)>)
    ensures
        groups_of(r@, items@),
{
    let keys = find_keys(items);
    let mut r: Vec<(u64, Vec<V>)> = Vec::new();
    let mut i: usize = 0;
    while i < keys.len()
        invariant
            i <= keys.len(),
            r.len() == i,
            forall|j: int|
                0 <= j < i ==> (#[trigger] r[j]).0 == keys[j] && r[j].1@ == values_with(
                    items@,
                    r[j].0,
                ),
        decreases keys.len() - i,
    {
        r.push((keys[i], find_values(items, keys[i])));
        i += 1;
    }
    assert(r@.map_values(|g: (u64, Vec<V>)| g.0) =~= keys@);
    r
}

// ---------------------------------------------------------------------------
// Laws
// ---------------------------------------------------------------------------

proof fn lemma_put<T>(s: Seq<(i64, T)>, item: (i64, T))
    ensures
        put(s, item).len() == s.len() + 1,
        put(s, item).to_multiset() == s.to_multiset().insert(item),
        ascending(s) ==> ascending(put(s, item)),
    decreases s.len(),
{
    if s.len() > 0 && s.last().0 > item.0 {
        let front = s.drop_last();
        lemma_put(front, item);
        let r = put(front, item);
        assert(s =~= front.push(s.last()));
        front.to_multiset_ensures();
        r.to_multiset_ensures();
        assert(front.to_multiset().insert(item).insert(s.last()) =~= front.to_multiset().insert(
            s.last(),
        ).insert(item));
        if ascending(s) {
            assert forall|i: int| 0 <= i < r.len() implies (#[trigger] r[i]).0 <= s.last().0 by {
                assert(r.to_multiset().count(r[i]) > 0) by {
                    assert(r.contains(r[i]));
                }
                if r[i] != item {
                    assert(front.to_multiset().count(r[i]) > 0);
                    assert(front.contains(r[i]));
                    let j = choose|j: int| 0 <= j < front.len() && front[j] == r[i];
                    assert(s[j] == r[i]);
                    assert(s[s.len() - 1] == s.last());
                }
            }
        }
    } else {
        s.to_multiset_ensures();
    }
}

/// Sorting keeps all items and leaves no item before one with a smaller number.
pub proof fn law_sorting<T>(s: Seq<(i64, T)>)
    ensures
        ascending(stable(s)),
        stable(s).len() == s.len(),
        stable(s).to_multiset() == s.to_multiset(),
    decreases s.len(),
{
    if s.len() > 0 {
        law_sorting(s.drop_last());
        lemma_put(stable(s.drop_last()), s.last());
        assert(s =~= s.drop_last().push(s.last()));
        s.drop_last().to_multiset_ensures();
    }
}

/// Sorting keeps the order of items with one number.
pub proof fn law_sorting_is_stable<T>(s: Seq<(i64, T)>, n: i64)
    ensures
        numbered_with(stable(s), n) == numbered_with(s, n),
    decreases s.len(),
{
    if s.len() > 0 {
        law_sorting_is_stable(s.drop_last(), n);
        law_sorting(s.drop_last());
        lemma_put_numbered(stable(s.drop_last()), s.last(), n);
    }
}

proof fn lemma_put_numbered<T>(s: Seq<(i64, T)>, item: (i64, T), n: i64)
    requires
        ascending(s),
    ensures
        numbered_with(put(s, item), n) == (if item.0 == n {
            numbered_with(s, n).push(item)
        } else {
            numbered_with(s, n)
        }),
    decreases s.len(),
{
    if s.len() > 0 && s.last().0 > item.0 {
        let front = s.drop_last();
        lemma_put_numbered(front, item, n);
        let r = put(front, item);
        assert(r.push(s.last()).drop_last() =~= r);
    } else {
        assert(s.push(item).drop_last() =~= s);
    }
}

} // verus!
