use vstd::prelude::*;
use core::ops::RangeInclusive;
use crate::static_ref_default::StaticRefDefault;

verus! {

/// Keys of a range map: totally ordered through their position on the integer line.
pub trait RangeKey: Copy {
    /// The position of the key on the integer line.
    spec fn key_int(self) -> int;

    /// `self <= other`.
    fn key_le(&self, other: &Self) -> (r: bool)
        ensures
            r == (self.key_int() <= other.key_int()),
    ;

    /// `self < other`.
    fn key_lt(&self, other: &Self) -> (r: bool)
        ensures
            r == (self.key_int() < other.key_int()),
    ;
}

impl RangeKey for i32 {
    open spec fn key_int(self) -> int {
        self as int
    }

    fn key_le(&self, other: &Self) -> (r: bool) {
        *self <= *other
    }

    fn key_lt(&self, other: &Self) -> (r: bool) {
        *self < *other
    }
}

impl RangeKey for char {
    open spec fn key_int(self) -> int {
        self as int
    }

    fn key_le(&self, other: &Self) -> (r: bool) {
        *self <= *other
    }

    fn key_lt(&self, other: &Self) -> (r: bool) {
        *self < *other
    }
}

/// The upper end (inclusive) of a range, and the value of the keys up to it.
#[derive(Clone, Copy)]
pub struct Entry<Num, T> {
    pub key: Num,
    pub value: T,
}

/// A map from keys to values, as a list of entries with increasing keys: a key maps to the
/// value of the first entry whose key is not below it, and to the default value past the
/// last entry.
pub struct RangeMap<Num, T> {
    pub list: Vec<Entry<Num, T>>,
}

/// Values that two range maps can merge at a key.
pub trait Union: Sized {
    /// True when the two values can be merged.
    spec fn compatible(self, other: Self) -> bool;

    /// The merged value.
    spec fn spec_union(self, other: Self) -> Self;

    /// Merges two values.
    fn union(self, other: Self) -> (r: Self)
        requires
            self.compatible(other),
        ensures
            r == self.spec_union(other),
    ;
}

/// Values whose equality can be decided.
pub trait SameValue: Sized {
    /// True exactly when the two values are equal.
    fn same(&self, other: &Self) -> (r: bool)
        ensures
            r == (*self == *other),
    ;
}

impl SameValue for char {
    fn same(&self, other: &Self) -> (r: bool) {
        *self == *other
    }
}

/// An optional value: the value of a transition, or none.
#[derive(Clone, Copy, PartialEq, Debug)]
pub struct State<T> {
    pub value: Option<T>,
}

impl<T: 'static> StaticRefDefault for State<T> {
    open spec fn spec_default() -> Self {
        State { value: None }
    }

    fn static_ref_default() -> (r: &'static Self) {
        &State { value: None }
    }
}

impl<T: SameValue> Union for State<T> {
    /// Two states merge unless both hold values and the values differ.
    open spec fn compatible(self, other: Self) -> bool {
        !(self.value is Some && other.value is Some && self.value != other.value)
    }

    /// The value that either state holds, if any.
    open spec fn spec_union(self, other: Self) -> Self {
        match self.value {
            Some(_) => match other.value {
                Some(_) => other,
                None => self,
            },
            None => other,
        }
    }

    fn union(self, other: Self) -> (r: Self) {
        match self.value {
            Some(a) => match other.value {
                Some(b) => {
                    if a.same(&b) {
                        State { value: Some(b) }
                    } else {
                        // `compatible` rules out two different values
                        State { value: None }
                    }
                },
                None => State { value: Some(a) },
            },
            None => other,
        }
    }
}

/// The value of the first entry whose key is not below `k`, if any.
pub open spec fn lookup<Num: RangeKey, T>(s: Seq<Entry<Num, T>>, k: int) -> Option<T>
    decreases s.len(),
{
    if s.len() == 0 {
        None
    } else if k <= s[0].key.key_int() {
        Some(s[0].value)
    } else {
        lookup(s.drop_first(), k)
    }
}

/// Entries with strictly increasing keys.
pub open spec fn is_sorted<Num: RangeKey, T>(s: Seq<Entry<Num, T>>) -> bool {
    forall|i: int, j: int| 0 <= i < j < s.len() ==> s[i].key.key_int() < s[j].key.key_int()
}

/// The value that merging two optional values gives.
pub open spec fn combine<T: Union>(a: Option<T>, b: Option<T>) -> Option<T> {
    match a {
        Some(x) => match b {
            Some(y) => Some(x.spec_union(y)),
            None => Some(x),
        },
        None => b,
    }
}

/// True when two optional values can be merged.
pub open spec fn compatible_opt<T: Union>(a: Option<T>, b: Option<T>) -> bool {
    match a {
        Some(x) => match b {
            Some(y) => x.compatible(y),
            None => true,
        },
        None => true,
    }
}

/// Merging maps of optional values does not depend on their order: at every key where the two
/// can be merged, either order gives the same value.
pub proof fn law_merge_commutes<T: SameValue>(a: Option<State<T>>, b: Option<State<T>>)
    requires
        compatible_opt(a, b),
    ensures
        compatible_opt(b, a),
        combine(a, b) == combine(b, a),
{
}

/// True when one of the entries of `s` has its key at position `k`.
pub open spec fn has_key<Num: RangeKey, T>(s: Seq<Entry<Num, T>>, k: int) -> bool {
    exists|i: int| 0 <= i < s.len() && #[trigger] s[i].key.key_int() == k
}

/// True when one of the first `n` maps of `maps` has an entry with its key at position `k`.
pub open spec fn has_key_all<Num: RangeKey, T>(maps: Seq<RangeMap<Num, T>>, n: int, k: int) -> bool
    decreases n,
{
    if n <= 0 {
        false
    } else {
        has_key(maps[n - 1].list@, k) || has_key_all(maps, n - 1, k)
    }
}

/// One more entry adds its key and no other.
pub proof fn lemma_has_key_push<Num: RangeKey, T>(s: Seq<Entry<Num, T>>, e: Entry<Num, T>, k: int)
    ensures
        has_key(s.push(e), k) <==> (has_key(s, k) || e.key.key_int() == k),
{
    let t = s.push(e);
    if has_key(s, k) {
        let i = choose|i: int| 0 <= i < s.len() && #[trigger] s[i].key.key_int() == k;
        assert(t[i] == s[i]);
    }
    if e.key.key_int() == k {
        assert(t[s.len() as int] == e);
    }
    if has_key(t, k) {
        let i = choose|i: int| 0 <= i < t.len() && #[trigger] t[i].key.key_int() == k;
        if i < s.len() {
            assert(t[i] == s[i]);
        }
    }
}

/// The first `i + 1` entries have the keys of the first `i` and the key of entry `i`.
pub proof fn lemma_has_key_take<Num: RangeKey, T>(s: Seq<Entry<Num, T>>, i: int, k: int)
    requires
        0 <= i < s.len(),
    ensures
        has_key(s.take(i + 1), k) <==> (has_key(s.take(i), k) || s[i].key.key_int() == k),
{
    assert(s.take(i + 1) =~= s.take(i).push(s[i]));
    lemma_has_key_push(s.take(i), s[i], k);
}

/// True when two entry lists can be merged at every key.
pub open spec fn mergeable<Num: RangeKey, T: Union>(
    a: Seq<Entry<Num, T>>,
    b: Seq<Entry<Num, T>>,
) -> bool {
    forall|k: int| #[trigger] compatible_opt(lookup(a, k), lookup(b, k))
}

/// The lookup that merging the first `n` maps of `maps` (each into the result of the ones
/// before) gives.
pub open spec fn lookup_all<Num: RangeKey, T: Union>(
    maps: Seq<RangeMap<Num, T>>,
    n: int,
    k: int,
) -> Option<T>
    decreases n,
{
    if n <= 0 {
        None
    } else {
        combine(lookup(maps[n - 1].list@, k), lookup_all(maps, n - 1, k))
    }
}

impl<Num: RangeKey, T> RangeMap<Num, T> {
    /// The representation invariant: keys strictly increase.
    pub open spec fn wf(&self) -> bool {
        is_sorted(self.list@)
    }

    /// The value that `get` gives for a key at position `k`.
    pub open spec fn spec_get(&self, k: int) -> T where T: StaticRefDefault {
        match lookup(self.list@, k) {
            Some(v) => v,
            None => T::spec_default(),
        }
    }
}

/// If every entry before `i` has a key below `k` and entry `i` does not, lookup gives entry `i`.
pub proof fn lemma_lookup_first<Num: RangeKey, T>(s: Seq<Entry<Num, T>>, k: int, i: int)
    requires
        0 <= i <= s.len(),
        forall|j: int| 0 <= j < i ==> s[j].key.key_int() < k,
        i < s.len() ==> k <= s[i].key.key_int(),
    ensures
        lookup(s, k) == (if i < s.len() {
            Some(s[i].value)
        } else {
            None::<T>
        }),
    decreases i,
{
    if i > 0 {
        let t = s.drop_first();
        assert forall|j: int| 0 <= j < i - 1 implies t[j].key.key_int() < k by {
            assert(t[j] == s[j + 1]);
        }
        lemma_lookup_first(t, k, i - 1);
    }
}

/// Lookup in a sorted list beyond its entries is none; below its last key it is some.
pub proof fn lemma_lookup_none<Num: RangeKey, T>(s: Seq<Entry<Num, T>>, k: int)
    ensures
        (s.len() == 0 || k > s.last().key.key_int()) && is_sorted(s) ==> lookup(s, k) is None,
        s.len() > 0 && k <= s.last().key.key_int() ==> lookup(s, k) is Some,
    decreases s.len(),
{
    if s.len() > 0 {
        let t = s.drop_first();
        lemma_lookup_none(t, k);
        if s.len() > 1 {
            assert(t.last() == s.last());
        }
    }
}

/// Lookup in a sorted list with one more entry of a larger key.
pub proof fn lemma_lookup_push<Num: RangeKey, T>(s: Seq<Entry<Num, T>>, e: Entry<Num, T>, k: int)
    requires
        is_sorted(s),
        s.len() > 0 ==> s.last().key.key_int() < e.key.key_int(),
    ensures
        lookup(s.push(e), k) == (if s.len() > 0 && k <= s.last().key.key_int() {
            lookup(s, k)
        } else if k <= e.key.key_int() {
            Some(e.value)
        } else {
            None
        }),
    decreases s.len(),
{
    if s.len() > 0 {
        let t = s.drop_first();
        assert(s.push(e).drop_first() =~= t.push(e));
        assert(s.push(e)[0] == s[0]);
        if s.len() > 1 {
            assert(s[0].key.key_int() < s[s.len() - 1].key.key_int());
        }
        assert(s.last() == s[s.len() - 1]);
        assert(s[0].key.key_int() <= s.last().key.key_int());
        assert(lookup(s.push(e), k) == (if k <= s[0].key.key_int() {
            Some(s[0].value)
        } else {
            lookup(t.push(e), k)
        }));
        if k > s[0].key.key_int() {
            assert(is_sorted(t)) by {
                assert forall|i: int, j: int| 0 <= i < j < t.len() implies t[i].key.key_int()
                    < t[j].key.key_int() by {
                    assert(0 <= i + 1 < j + 1 < s.len());
                    assert(t[i] == s[i + 1]);
                    assert(t[j] == s[j + 1]);
                }
            }
            lemma_lookup_push(t, e, k);
            if t.len() > 0 {
                assert(t.last() == s.last());
            }
        }
    } else {
        assert(s.push(e).drop_first().len() == 0);
        assert(s.push(e)[0] == e);
        assert(lookup(s.push(e).drop_first(), k) is None);
    }
}

/// Lookup in the entries from position `i` on.
pub proof fn lemma_lookup_skip<Num: RangeKey, T>(s: Seq<Entry<Num, T>>, i: int, k: int)
    requires
        0 <= i < s.len(),
    ensures
        lookup(s.skip(i), k) == (if k <= s[i].key.key_int() {
            Some(s[i].value)
        } else {
            lookup(s.skip(i + 1), k)
        }),
{
    assert(s.skip(i).drop_first() =~= s.skip(i + 1));
}

/// Lookup in a sorted list, for a key above the entries before position `i`.
pub proof fn lemma_lookup_tail<Num: RangeKey, T>(s: Seq<Entry<Num, T>>, i: int, k: int)
    requires
        0 <= i <= s.len(),
        is_sorted(s),
        i > 0 ==> k > s[i - 1].key.key_int(),
    ensures
        lookup(s, k) == lookup(s.skip(i), k),
    decreases i,
{
    if i > 0 {
        lemma_lookup_tail(s, i - 1, k);
        lemma_lookup_skip(s, i - 1, k);
    } else {
        assert(s.skip(0) =~= s);
    }
}

impl<Num: RangeKey, T: StaticRefDefault> RangeMap<Num, T> {
    /// The value of the first entry whose key is not below `key` (found by binary search),
    /// or the default value past the last entry.
    pub fn get(&self, key: Num) -> (r: &T)
        requires
            self.wf(),
        ensures
            *r == self.spec_get(key.key_int()),
    {
        let n = self.list.len();
        let mut b: usize = 0;
        let mut e: usize = n;
        while b < e
            invariant
                b <= e <= n,
                n == self.list@.len(),
                self.wf(),
                forall|j: int| 0 <= j < b ==> self.list@[j].key.key_int() < key.key_int(),
                forall|j: int| e <= j < n ==> key.key_int() <= self.list@[j].key.key_int(),
            decreases e - b,
        {
            let mid = b + (e - b) / 2;
            if key.key_le(&self.list[mid].key) {
                e = mid;
            } else {
                b = mid + 1;
            }
        }
        proof {
            lemma_lookup_first(self.list@, key.key_int(), b as int);
        }
        if b >= n {
            T::static_ref_default()
        } else {
            &self.list[b].value
        }
    }
}

/// Merges the maps of `list` one after the other into an empty map.
pub fn merge_list<Num: RangeKey, T: Union + Copy>(list: Vec<RangeMap<Num, T>>) -> (r: RangeMap<
    Num,
    T,
>)
    requires
        forall|i: int| 0 <= i < list@.len() ==> (#[trigger] list@[i]).wf(),
        forall|i: int, k: int|
            0 <= i < list@.len() ==> #[trigger] compatible_opt(
                lookup(list@[i].list@, k),
                lookup_all(list@, i, k),
            ),
    ensures
        r.wf(),
        forall|k: int| #[trigger] lookup(r.list@, k) == lookup_all(list@, list@.len() as int, k),
        forall|k: int| #[trigger] has_key(r.list@, k) <==> has_key_all(list@, list@.len() as int, k),
{
    let mut result = RangeMap { list: Vec::new() };
    let n = list.len();
    let ghost maps = list@;
    let mut list = list;
    let mut rest: Vec<RangeMap<Num, T>> = Vec::new();
    // take the maps out in order
    let mut i: usize = 0;
    while list.len() > 0
        invariant
            rest@.len() + list@.len() == n,
            maps.len() == n,
            forall|j: int| 0 <= j < rest@.len() ==> rest@[j] == maps[n - 1 - j],
            list@ == maps.take(list@.len() as int),
        decreases list@.len(),
    {
        let x = list.pop().unwrap();
        rest.push(x);
    }
    while rest.len() > 0
        invariant
            i <= n,
            rest@.len() + i == n,
            maps.len() == n,
            forall|j: int| 0 <= j < rest@.len() ==> rest@[j] == maps[n - 1 - j],
            forall|j: int| 0 <= j < n ==> (#[trigger] maps[j]).wf(),
            forall|j: int, k: int|
                0 <= j < n ==> #[trigger] compatible_opt(
                    lookup(maps[j].list@, k),
                    lookup_all(maps, j, k),
                ),
            result.wf(),
            forall|k: int| #[trigger] lookup(result.list@, k) == lookup_all(maps, i as int, k),
            forall|k: int| #[trigger] has_key(result.list@, k) <==> has_key_all(maps, i as int, k),
        decreases rest@.len(),
    {
        let x = rest.pop().unwrap();
        assert(x == maps[i as int]);
        proof {
            assert forall|k: int|
                #[trigger] compatible_opt(lookup(x.list@, k), lookup(result.list@, k)) by {
                assert(compatible_opt(lookup(maps[i as int].list@, k), lookup_all(maps, i as int, k)));
            }
        }
        result = merge(x, result);
        i = i + 1;
    }
    result
}

/// Merges two maps: every key maps to the merge of what it maps to in each.
pub fn merge<Num: RangeKey, T: Union + Copy>(a: RangeMap<Num, T>, b: RangeMap<Num, T>) -> (r:
    RangeMap<Num, T>)
    requires
        a.wf(),
        b.wf(),
        mergeable(a.list@, b.list@),
    ensures
        r.wf(),
        forall|k: int| #[trigger] lookup(r.list@, k) == combine(lookup(a.list@, k), lookup(b.list@, k)),
        forall|k: int| #[trigger] has_key(r.list@, k) <==> (has_key(a.list@, k) || has_key(
            b.list@,
            k,
        )),
{
    let list = merge_iter(a.list, b.list);
    RangeMap { list }
}

/// Merges two entry lists in order of their keys; where both lists have an entry, the value
/// at the smaller key is the union of the two current values.
pub fn merge_iter<Num: RangeKey, T: Union + Copy>(
    a: Vec<Entry<Num, T>>,
    b: Vec<Entry<Num, T>>,
) -> (r: Vec<Entry<Num, T>>)
    requires
        is_sorted(a@),
        is_sorted(b@),
        mergeable(a@, b@),
    ensures
        is_sorted(r@),
        forall|k: int| #[trigger] lookup(r@, k) == combine(lookup(a@, k), lookup(b@, k)),
        forall|k: int| #[trigger] has_key(r@, k) <==> (has_key(a@, k) || has_key(b@, k)),
{
    let mut res: Vec<Entry<Num, T>> = Vec::new();
    let na = a.len();
    let nb = b.len();
    let mut ia: usize = 0;
    let mut ib: usize = 0;
    while ia < na || ib < nb
        invariant
            ia <= na,
            ib <= nb,
            na == a@.len(),
            nb == b@.len(),
            is_sorted(a@),
            is_sorted(b@),
            is_sorted(res@),
            mergeable(a@, b@),
            res@.len() > 0 && ia < na ==> res@.last().key.key_int() < a@[ia as int].key.key_int(),
            res@.len() > 0 && ib < nb ==> res@.last().key.key_int() < b@[ib as int].key.key_int(),
            res@.len() > 0 && ia > 0 ==> a@[ia - 1].key.key_int() <= res@.last().key.key_int(),
            res@.len() > 0 && ib > 0 ==> b@[ib - 1].key.key_int() <= res@.last().key.key_int(),
            res@.len() == 0 ==> ia == 0 && ib == 0,
            forall|k: int|
                #[trigger] has_key(res@, k) <==> (has_key(a@.take(ia as int), k) || has_key(
                    b@.take(ib as int),
                    k,
                )),
            forall|k: int|
                res@.len() > 0 && k <= res@.last().key.key_int() ==> #[trigger] lookup(res@, k)
                    == combine(lookup(a@, k), lookup(b@, k)),
        decreases na - ia + nb - ib,
    {
        let ghost old_res = res@;
        let ghost old_ia = ia as int;
        let ghost old_ib = ib as int;
        // Above the last key written, the lookups in `a` and `b` only see the entries
        // not consumed yet.
        proof {
            assert forall|k: int|
                (old_res.len() == 0 || k > old_res.last().key.key_int()) implies lookup(a@, k)
                == lookup(a@.skip(old_ia), k) && lookup(b@, k) == lookup(b@.skip(old_ib), k) by {
                lemma_lookup_tail(a@, old_ia, k);
                lemma_lookup_tail(b@, old_ib, k);
            }
        }
        if ia < na && ib < nb {
            let ea = a[ia];
            let eb = b[ib];
            proof {
                let kmin = if ea.key.key_int() <= eb.key.key_int() {
                    ea.key.key_int()
                } else {
                    eb.key.key_int()
                };
                lemma_lookup_skip(a@, old_ia, kmin);
                lemma_lookup_skip(b@, old_ib, kmin);
                assert(compatible_opt(lookup(a@, kmin), lookup(b@, kmin)));
            }
            let value = ea.value.union(eb.value);
            if eb.key.key_lt(&ea.key) {
                res.push(Entry { value, key: eb.key });
                ib = ib + 1;
            } else if ea.key.key_lt(&eb.key) {
                res.push(Entry { value, key: ea.key });
                ia = ia + 1;
            } else {
                res.push(Entry { value, key: ea.key });
                ia = ia + 1;
                ib = ib + 1;
            }
            proof {
                let e = res@.last();
                assert(res@ == old_res.push(e));
                assert forall|k: int| k <= e.key.key_int() implies #[trigger] lookup(res@, k)
                    == combine(lookup(a@, k), lookup(b@, k)) by {
                    lemma_lookup_push(old_res, e, k);
                    if !(old_res.len() > 0 && k <= old_res.last().key.key_int()) {
                        lemma_lookup_skip(a@, old_ia, k);
                        lemma_lookup_skip(b@, old_ib, k);
                    }
                }
            }
        } else if ia < na {
            let ea = a[ia];
            res.push(ea);
            ia = ia + 1;
            proof {
                let e = res@.last();
                assert(res@ == old_res.push(e));
                assert(b@.skip(old_ib).len() == 0);
                assert forall|k: int| k <= e.key.key_int() implies #[trigger] lookup(res@, k)
                    == combine(lookup(a@, k), lookup(b@, k)) by {
                    lemma_lookup_push(old_res, e, k);
                    if !(old_res.len() > 0 && k <= old_res.last().key.key_int()) {
                        lemma_lookup_skip(a@, old_ia, k);
                    }
                }
            }
        } else {
            let eb = b[ib];
            res.push(eb);
            ib = ib + 1;
            proof {
                let e = res@.last();
                assert(res@ == old_res.push(e));
                assert(a@.skip(old_ia).len() == 0);
                assert forall|k: int| k <= e.key.key_int() implies #[trigger] lookup(res@, k)
                    == combine(lookup(a@, k), lookup(b@, k)) by {
                    lemma_lookup_push(old_res, e, k);
                    if !(old_res.len() > 0 && k <= old_res.last().key.key_int()) {
                        lemma_lookup_skip(b@, old_ib, k);
                    }
                }
            }
        }
        proof {
            assert(res@ == old_res.push(res@.last()));
            assert forall|k: int| #[trigger] has_key(res@, k) <==> (has_key(a@.take(ia as int), k)
                || has_key(b@.take(ib as int), k)) by {
                lemma_has_key_push(old_res, res@.last(), k);
                if ia > old_ia {
                    lemma_has_key_take(a@, old_ia, k);
                }
                if ib > old_ib {
                    lemma_has_key_take(b@, old_ib, k);
                }
            }
        }
    }
    proof {
        assert(a@.take(na as int) =~= a@);
        assert(b@.take(nb as int) =~= b@);
        assert forall|k: int| #[trigger] lookup(res@, k) == combine(lookup(a@, k), lookup(b@, k)) by {
            if !(res@.len() > 0 && k <= res@.last().key.key_int()) {
                lemma_lookup_none(res@, k);
                lemma_lookup_tail(a@, na as int, k);
                lemma_lookup_tail(b@, nb as int, k);
                assert(a@.skip(na as int).len() == 0);
                assert(b@.skip(nb as int).len() == 0);
            }
        }
    }
    res
}

/// True when `n` is the code point of a `char`: not above 0x10FFFF and not a surrogate.
pub open spec fn is_char_code(n: int) -> bool {
    (0 <= n <= 0xD7FF) || (0xE000 <= n <= 0x10FFFF)
}

/// `char::from_u32` (std): `Some` of the `char` with code point `i` when `i` is one (not above
/// 0x10FFFF and not a surrogate), `None` otherwise, as std's documentation states.
pub assume_specification[ char::from_u32 ](i: u32) -> (r: Option<char>)
    ensures
        r == (if is_char_code(i as int) {
            Some(i as char)
        } else {
            None
        }),
;

/// `RangeInclusive::start` (std): the lower bound that the range was made with.
pub assume_specification<Idx>[ RangeInclusive::<Idx>::start ](range: &RangeInclusive<Idx>) -> (r:
    &Idx)
    ensures
        *r == range@.start,
;

/// `RangeInclusive::end` (std): the upper bound that the range was made with.
pub assume_specification<Idx>[ RangeInclusive::<Idx>::end ](range: &RangeInclusive<Idx>) -> (r:
    &Idx)
    ensures
        *r == range@.end,
;

/// The code point of `c`.
pub fn char_code(c: char) -> (r: u32)
    ensures
        r == c as int,
{
    c as u32
}

/// The key just below the range that starts at `c`: the `char` before `c`, or `c` itself
/// when the code point before it is no `char`.
pub open spec fn key_before(c: char) -> char {
    if is_char_code(c as int - 1) {
        (c as int - 1) as char
    } else {
        c
    }
}

/// The map of the keys in `range` to `value`, and of the keys below to no value.
pub fn from_range<T>(range: RangeInclusive<char>, value: T) -> (r: RangeMap<char, State<T>>)
    requires
        range@.start != '\0',
    ensures
        r.list@ == seq![
            Entry { key: key_before(range@.start), value: State { value: None::<T> } },
            Entry { key: range@.end, value: State { value: Some(value) } },
        ],
        key_before(range@.start) < range@.end ==> r.wf(),
{
    let start = *range.start();
    let end = *range.end();
    let key = match char::from_u32(char_code(start) - 1) {
        Some(p) => p,
        None => start,
    };
    let mut list = Vec::new();
    list.push(Entry { key, value: State { value: None } });
    list.push(Entry { key: end, value: State { value: Some(value) } });
    proof {
        assert(list@ =~= seq![
            Entry { key: key_before(range@.start), value: State { value: None::<T> } },
            Entry { key: range@.end, value: State { value: Some(value) } },
        ]);
    }
    RangeMap { list }
}

/// The map of the key `c` to `value`, and of the keys below to no value.
pub fn from_one<T>(c: char, value: T) -> (r: RangeMap<char, State<T>>)
    requires
        c != '\0',
    ensures
        r.list@ == (if is_char_code(c as int - 1) {
            seq![
                Entry { key: key_before(c), value: State { value: None::<T> } },
                Entry { key: c, value: State { value: Some(value) } },
            ]
        } else {
            seq![Entry { key: c, value: State { value: Some(value) } }]
        }),
        r.wf(),
{
    let mut list = Vec::new();
    match char::from_u32(char_code(c) - 1) {
        Some(p) => {
            list.push(Entry { key: p, value: State { value: None } });
            list.push(Entry { key: c, value: State { value: Some(value) } });
            proof {
                assert(list@ =~= seq![
                    Entry { key: key_before(c), value: State { value: None::<T> } },
                    Entry { key: c, value: State { value: Some(value) } },
                ]);
            }
        },
        None => {
            list.push(Entry { key: c, value: State { value: Some(value) } });
            proof {
                assert(list@ =~= seq![Entry { key: c, value: State { value: Some(value) } }]);
            }
        },
    }
    RangeMap { list }
}

} // verus!
