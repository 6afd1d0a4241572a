//! Tables: vectors of items with a key each, in order of arrival.
//!
//! An item that is stored under a key already in use takes the place of the
//! item that had it, and a removal leaves the order of the others as it was.
use vstd::prelude::*;

verus! {

/// A specification value that is filed under a key.
pub trait HasKey {
    type K;

    spec fn key(&self) -> Self::K;
}

/// An executable value whose view is filed under a key.
pub trait Keyed: View + Sized where <Self as View>::V: HasKey {
    /// What a caller looks the item up by.
    type Query: View<V = <<Self as View>::V as HasKey>::K>;

    /// Whether the item is filed under `query`.
    fn is_at(&self, query: &Self::Query) -> (r: bool)
        ensures
            r == (self@.key() == query@),
    ;

    /// Whether the two items are filed under the same key.
    fn same_key(&self, other: &Self) -> (r: bool)
        ensures
            r == (self@.key() == other@.key()),
    ;
}

impl HasKey for Seq<char> {
    type K = Seq<char>;

    open spec fn key(&self) -> Seq<char> {
        *self
    }
}

impl Keyed for String {
    type Query = String;

    fn is_at(&self, query: &String) -> (r: bool) {
        crate::text::same_text(self, query)
    }

    fn same_key(&self, other: &Self) -> (r: bool) {
        crate::text::same_text(self, other)
    }
}

/// The views of the items of a vector.
pub open spec fn views<T: View>(items: Seq<T>) -> Seq<T::V> {
    items.map_values(|t: T| t@)
}

/// Whether `k` is in use.
pub open spec fn found<A: HasKey>(s: Seq<A>, k: A::K) -> bool {
    exists|i: int| 0 <= i < s.len() && (#[trigger] s[i]).key() == k
}

/// The place of the item with the key `k`.
pub open spec fn place<A: HasKey>(s: Seq<A>, k: A::K) -> int {
    choose|i: int| 0 <= i < s.len() && (#[trigger] s[i]).key() == k
}

/// The item with the key `k`, if there is one.
pub open spec fn lookup<A: HasKey>(s: Seq<A>, k: A::K) -> Option<A> {
    if found(s, k) {
        Some(s[place(s, k)])
    } else {
        None
    }
}

/// The table once `a` is stored.
pub open spec fn stored<A: HasKey>(s: Seq<A>, a: A) -> Seq<A> {
    if found(s, a.key()) {
        s.update(place(s, a.key()), a)
    } else {
        s.push(a)
    }
}

/// The table once the item with the key `k` is gone.
pub open spec fn removed<A: HasKey>(s: Seq<A>, k: A::K) -> Seq<A> {
    if found(s, k) {
        s.remove(place(s, k))
    } else {
        s
    }
}

/// No two items have the same key.
pub open spec fn unique<A: HasKey>(s: Seq<A>) -> bool {
    forall|i: int, j: int|
        #![trigger s[i], s[j]]
        0 <= i < j < s.len() ==> s[i].key() != s[j].key()
}

/// In a table, a key has one place.
pub proof fn lemma_place<A: HasKey>(s: Seq<A>, i: int)
    requires
        unique(s),
        0 <= i < s.len(),
    ensures
        found(s, s[i].key()),
        place(s, s[i].key()) == i,
        lookup(s, s[i].key()) == Some(s[i]),
{
    let p = place(s, s[i].key());
    assert(0 <= p < s.len() && s[p].key() == s[i].key());
}

/// What a table holds once an item is stored: that item under its key, and
/// under every other key what was there before.
pub proof fn lemma_stored<A: HasKey>(s: Seq<A>, a: A)
    requires
        unique(s),
    ensures
        unique(stored(s, a)),
        lookup(stored(s, a), a.key()) == Some(a),
        forall|k: A::K| k != a.key() ==> #[trigger] lookup(stored(s, a), k) == lookup(s, k),
        forall|k: A::K| #[trigger] found(stored(s, a), k) == (found(s, k) || k == a.key()),
{
    let t = stored(s, a);
    let p = place(s, a.key());
    if found(s, a.key()) {
        lemma_place(s, p);
        assert(unique(t)) by {
            assert forall|i: int, j: int|
                #![trigger t[i], t[j]]
                0 <= i < j < t.len() implies t[i].key() != t[j].key() by {
                let _ = (s[i], s[j], s[p]);
            }
        }
        lemma_place(t, p);
    } else {
        assert(unique(t)) by {
            assert forall|i: int, j: int|
                #![trigger t[i], t[j]]
                0 <= i < j < t.len() implies t[i].key() != t[j].key() by {
                let _ = (s[i], s[j]);
            }
        }
        lemma_place(t, s.len() as int);
    }
    assert forall|k: A::K| k != a.key() implies #[trigger] lookup(t, k) == lookup(s, k) by {
        if found(s, k) {
            let q = place(s, k);
            assert(t[q] == s[q]);
            lemma_place(t, q);
        } else if found(t, k) {
            let q = place(t, k);
            assert(t[q].key() == k);
            assert(s[q] == t[q]);
        }
    }
    assert forall|k: A::K| #[trigger] found(t, k) == (found(s, k) || k == a.key()) by {
        if k != a.key() {
            assert(lookup(t, k) == lookup(s, k));
        }
    }
}

/// What a table holds once a key is removed: nothing under that key, and
/// under every other key what was there before.
pub proof fn lemma_removed<A: HasKey>(s: Seq<A>, k: A::K)
    requires
        unique(s),
    ensures
        unique(removed(s, k)),
        lookup(removed(s, k), k) is None,
        forall|j: A::K| j != k ==> #[trigger] lookup(removed(s, k), j) == lookup(s, j),
        forall|j: A::K| #[trigger] found(removed(s, k), j) == (found(s, j) && j != k),
{
    let t = removed(s, k);
    if found(s, k) {
        let p = place(s, k);
        lemma_place(s, p);
        assert forall|i: int| 0 <= i < t.len() implies #[trigger] t[i] == s[if i < p {
            i
        } else {
            i + 1
        }] by {}
        assert(unique(t)) by {
            assert forall|i: int, j: int|
                #![trigger t[i], t[j]]
                0 <= i < j < t.len() implies t[i].key() != t[j].key() by {}
        }
        if found(t, k) {
            let q = place(t, k);
            assert(t[q].key() == k);
            let r = if q < p {
                q
            } else {
                q + 1
            };
            assert(s[r].key() == s[p].key());
            assert(false);
        }
        assert forall|j: A::K| j != k implies #[trigger] lookup(t, j) == lookup(s, j) by {
            if found(s, j) {
                let q = place(s, j);
                let r = if q < p {
                    q
                } else {
                    q - 1
                };
                assert(t[r] == s[q]);
                lemma_place(t, r);
            } else if found(t, j) {
                let q = place(t, j);
                assert(t[q].key() == j);
                let r = if q < p {
                    q
                } else {
                    q + 1
                };
                assert(s[r].key() == j);
            }
        }
        assert forall|j: A::K| #[trigger] found(t, j) == (found(s, j) && j != k) by {
            if j != k {
                assert(lookup(t, j) == lookup(s, j));
            }
        }
    }
}

/// What is left once a key is removed was there before.
pub proof fn lemma_removed_items<A: HasKey>(s: Seq<A>, k: A::K)
    requires
        unique(s),
    ensures
        forall|i: int|
            0 <= i < removed(s, k).len() ==> s.contains(#[trigger] removed(s, k)[i]) && removed(
                s,
                k,
            )[i].key() != k,
{
    let t = removed(s, k);
    assert forall|i: int| 0 <= i < t.len() implies s.contains(#[trigger] t[i]) && t[i].key() != k by {
        if found(s, k) {
            let p = place(s, k);
            let j = if i < p {
                i
            } else {
                i + 1
            };
            assert(t[i] == s[j]);
            lemma_place(s, j);
        } else {
            assert(t[i] == s[i]);
        }
    }
}

/// The views after an item is replaced.
pub proof fn lemma_views_update<T: View>(items: Seq<T>, i: int, item: T)
    requires
        0 <= i < items.len(),
    ensures
        views(items.update(i, item)) == views(items).update(i, item@),
{
    assert(views(items.update(i, item)) =~= views(items).update(i, item@));
}

/// The views after an item is added.
pub proof fn lemma_views_push<T: View>(items: Seq<T>, item: T)
    ensures
        views(items.push(item)) == views(items).push(item@),
{
    assert(views(items.push(item)) =~= views(items).push(item@));
}

/// An item that is replaced by one with its key leaves the keys as they are.
pub proof fn lemma_update_same_key<A: HasKey>(s: Seq<A>, i: int, a: A)
    requires
        unique(s),
        0 <= i < s.len(),
        a.key() == s[i].key(),
    ensures
        unique(s.update(i, a)),
        s.update(i, a) == stored(s, a),
{
    lemma_place(s, i);
    lemma_stored(s, a);
}

/// The place of the item that is filed under `query`.
pub fn find<T: Keyed>(items: &Vec<T>, query: &T::Query) -> (r: Option<usize>) where
    <T as View>::V: HasKey,

    requires
        unique(views(items@)),
    ensures
        r is Some == found(views(items@), query@),
        r matches Some(i) ==> i < items@.len() && i == place(views(items@), query@)
            && items@[i as int]@.key() == query@,
{
    for i in 0..items.len()
        invariant
            unique(views(items@)),
            forall|j: int| 0 <= j < i ==> (#[trigger] items@[j])@.key() != query@,
    {
        if items[i].is_at(query) {
            proof {
                assert(views(items@)[i as int] == items@[i as int]@);
                lemma_place(views(items@), i as int);
            }
            return Some(i);
        }
    }
    proof {
        if found(views(items@), query@) {
            let p = place(views(items@), query@);
            assert(views(items@)[p] == items@[p]@);
        }
    }
    None
}

/// The item that is filed under `query`.
pub fn get<'a, T: Keyed>(items: &'a Vec<T>, query: &T::Query) -> (r: Option<&'a T>) where
    <T as View>::V: HasKey,

    requires
        unique(views(items@)),
    ensures
        r is Some == found(views(items@), query@),
        r matches Some(t) ==> lookup(views(items@), query@) == Some(t@) && t@.key() == query@,
        r is None ==> lookup(views(items@), query@) is None,
{
    match find(items, query) {
        Some(i) => Some(&items[i]),
        None => None,
    }
}

/// Files `item`, in place of the one with its key or behind the others.
pub fn store<T: Keyed>(items: &mut Vec<T>, item: T) where <T as View>::V: HasKey
    requires
        unique(views(old(items)@)),
    ensures
        views(final(items)@) == stored(views(old(items)@), item@),
        unique(views(final(items)@)),
{
    let ghost before = items@;
    proof {
        lemma_stored(views(before), item@);
    }
    let n: usize = items.len();
    for i in 0..n
        invariant
            n == items@.len(),
            items@ == before,
            before == old(items)@,
            unique(views(before)),
            unique(stored(views(before), item@)),
            forall|j: int| 0 <= j < i ==> (#[trigger] before[j])@.key() != item@.key(),
    {
        if items[i].same_key(&item) {
            proof {
                assert(views(before)[i as int] == before[i as int]@);
                lemma_place(views(before), i as int);
                assert(views(before.update(i as int, item)) =~= views(before).update(
                    i as int,
                    item@,
                ));
            }
            items.set(i, item);
            return ;
        }
    }
    proof {
        if found(views(before), item@.key()) {
            let p = place(views(before), item@.key());
            assert(views(before)[p] == before[p]@);
        }
        assert(views(before.push(item)) =~= views(before).push(item@));
    }
    items.push(item);
}

/// Takes out the item that is filed under `query`.
pub fn take<T: Keyed>(items: &mut Vec<T>, query: &T::Query) -> (r: Option<T>) where
    <T as View>::V: HasKey,

    requires
        unique(views(old(items)@)),
    ensures
        views(final(items)@) == removed(views(old(items)@), query@),
        unique(views(final(items)@)),
        r is Some == found(views(old(items)@), query@),
        r matches Some(t) ==> lookup(views(old(items)@), query@) == Some(t@) && t@.key() == query@,
{
    let ghost before = items@;
    proof {
        lemma_removed(views(before), query@);
    }
    match find(items, query) {
        Some(i) => {
            proof {
                assert(views(before.remove(i as int)) =~= views(before).remove(i as int));
            }
            Some(items.remove(i))
        },
        None => None,
    }
}

} // verus!
