//! The two auxiliary index registries and small shared helpers.
//!
//! [`UniqueValueMap`] is the bijective id registry: a key-to-value mapping
//! that never assigns one value to two keys. [`NtoN`] is the many-to-many
//! tag relation: a set of (left, right) pairs with no uniqueness constraint.

use crate::eqview::{EqView, OrdView};
use vstd::prelude::*;

verus! {

/// The mapping a sequence of entries describes, keyed and valued by views.
pub open spec fn map_of_entries<K: View, V: View>(s: Seq<(K, V)>) -> Map<K::V, V::V> {
    Map::new(
        |kv: K::V| exists|i: int| 0 <= i < s.len() && s[i].0@ == kv,
        |kv: K::V|
            {
                let i = choose|i: int| 0 <= i < s.len() && s[i].0@ == kv;
                s[i].1@
            },
    )
}

/// Whether a sequence of entries repeats no key view and no value view.
pub open spec fn distinct_entries<K: View, V: View>(s: Seq<(K, V)>) -> bool {
    forall|i: int, j: int| 0 <= i < j < s.len() ==> s[i].0@ != s[j].0@ && s[i].1@ != s[j].1@
}

/// Whether some entry holds `vv` as its value view.
pub open spec fn value_present<K: View, V: View>(s: Seq<(K, V)>, vv: V::V) -> bool {
    exists|i: int| 0 <= i < s.len() && s[i].1@ == vv
}

/// With distinct keys, each entry is exactly what the described mapping
/// holds at its key.
pub proof fn lemma_map_of_entries_at<K: View, V: View>(s: Seq<(K, V)>, i: int)
    requires
        forall|a: int, b: int| 0 <= a < b < s.len() ==> s[a].0@ != s[b].0@,
        0 <= i < s.len(),
    ensures
        map_of_entries(s).dom().contains(s[i].0@),
        map_of_entries(s)[s[i].0@] == s[i].1@,
{
    let kv = s[i].0@;
    assert(0 <= i < s.len() && s[i].0@ == kv);
    let j = choose|j: int| 0 <= j < s.len() && s[j].0@ == kv;
    if j < i {
        assert(s[j].0@ != s[i].0@);
    } else if i < j {
        assert(s[i].0@ != s[j].0@);
    }
}

proof fn lemma_entries_remove<K: View, V: View>(s: Seq<(K, V)>, j: int)
    requires
        distinct_entries(s),
        0 <= j < s.len(),
    ensures
        distinct_entries(s.remove(j)),
        map_of_entries(s.remove(j)) == map_of_entries(s).remove(s[j].0@),
        forall|vv: V::V|
            #[trigger] value_present(s.remove(j), vv) <==> value_present(s, vv) && vv != s[j].1@,
        forall|i: int|
            0 <= i < s.remove(j).len() ==> (#[trigger] s.remove(j)[i]).0@ != s[j].0@
                && s.remove(j)[i].1@ != s[j].1@,
{
    assert forall|i: int| 0 <= i < s.remove(j).len() implies (#[trigger] s.remove(j)[i]).0@
        != s[j].0@ && s.remove(j)[i].1@ != s[j].1@ by {
        s.remove_ensures(j);
        let i0: int = if i < j {
            i
        } else {
            i + 1
        };
        assert(s.remove(j)[i] == s[i0]);
        if i0 < j {
            assert(s[i0].0@ != s[j].0@ && s[i0].1@ != s[j].1@);
        } else {
            assert(s[j].0@ != s[i0].0@ && s[j].1@ != s[i0].1@);
        }
    }
    let s1 = s.remove(j);
    s.remove_ensures(j);
    assert forall|a: int, b: int| 0 <= a < b < s1.len() implies s1[a].0@ != s1[b].0@ && s1[a].1@
        != s1[b].1@ by {
        let a0: int = if a < j {
            a
        } else {
            a + 1
        };
        let b0: int = if b < j {
            b
        } else {
            b + 1
        };
        assert(s1[a] == s[a0] && s1[b] == s[b0]);
    }
    let m1 = map_of_entries(s1);
    let m0 = map_of_entries(s);
    assert forall|kv: K::V| m1.dom().contains(kv) implies m0.remove(s[j].0@).dom().contains(
        kv,
    ) && m1[kv] == m0.remove(s[j].0@)[kv] by {
        let i1 = choose|i1: int| 0 <= i1 < s1.len() && s1[i1].0@ == kv;
        let i0: int = if i1 < j {
            i1
        } else {
            i1 + 1
        };
        assert(s1[i1] == s[i0]);
        if i0 < j {
            assert(s[i0].0@ != s[j].0@);
        } else {
            assert(s[j].0@ != s[i0].0@);
        }
        lemma_map_of_entries_at(s, i0);
        lemma_map_of_entries_at(s1, i1);
    }
    assert forall|kv: K::V| m0.remove(s[j].0@).dom().contains(kv) implies m1.dom().contains(
        kv,
    ) by {
        let i0 = choose|i0: int| 0 <= i0 < s.len() && s[i0].0@ == kv;
        if i0 < j {
            assert(s1[i0] == s[i0]);
        } else {
            assert(i0 != j);
            assert(s1[i0 - 1] == s[i0]);
        }
    }
    assert(m1 =~= m0.remove(s[j].0@));
    assert forall|vv: V::V| #[trigger] value_present(s1, vv) implies value_present(s, vv) && vv
        != s[j].1@ by {
        let i1 = choose|i1: int| 0 <= i1 < s1.len() && s1[i1].1@ == vv;
        let i0: int = if i1 < j {
            i1
        } else {
            i1 + 1
        };
        assert(s1[i1] == s[i0]);
        if i0 < j {
            assert(s[i0].1@ != s[j].1@);
        } else {
            assert(s[j].1@ != s[i0].1@);
        }
    }
    assert forall|vv: V::V| value_present(s, vv) && vv != s[j].1@ implies #[trigger] value_present(
        s1,
        vv,
    ) by {
        let i0 = choose|i0: int| 0 <= i0 < s.len() && s[i0].1@ == vv;
        if i0 < j {
            assert(s1[i0] == s[i0]);
        } else {
            assert(i0 != j);
            assert(s1[i0 - 1] == s[i0]);
        }
    }
}

proof fn lemma_entries_push<K: View, V: View>(s: Seq<(K, V)>, k: K, v: V)
    requires
        distinct_entries(s),
        forall|i: int| 0 <= i < s.len() ==> s[i].0@ != k@,
        forall|i: int| 0 <= i < s.len() ==> s[i].1@ != v@,
    ensures
        distinct_entries(s.push((k, v))),
        map_of_entries(s.push((k, v))) == map_of_entries(s).insert(k@, v@),
        forall|vv: V::V|
            #[trigger] value_present(s.push((k, v)), vv) <==> value_present(s, vv) || vv == v@,
{
    let s1 = s.push((k, v));
    let m1 = map_of_entries(s1);
    let m0 = map_of_entries(s);
    assert(s1[s.len() as int] == (k, v));
    assert forall|a: int, b: int| 0 <= a < b < s1.len() implies s1[a].0@ != s1[b].0@ && s1[a].1@
        != s1[b].1@ by {
        if b < s.len() {
            assert(s[a].0@ != s[b].0@ && s[a].1@ != s[b].1@);
        } else {
            assert(s1[b] == (k, v));
            assert(s[a].0@ != k@ && s[a].1@ != v@);
        }
    }
    assert forall|kv: K::V| m1.dom().contains(kv) implies m0.insert(k@, v@).dom().contains(
        kv,
    ) && m1[kv] == m0.insert(k@, v@)[kv] by {
        let i1 = choose|i1: int| 0 <= i1 < s1.len() && s1[i1].0@ == kv;
        lemma_map_of_entries_at(s1, i1);
        if i1 < s.len() {
            lemma_map_of_entries_at(s, i1);
            assert(kv != k@);
        } else {
            assert(kv == k@ && m1[kv] == v@);
        }
    }
    assert forall|kv: K::V| m0.insert(k@, v@).dom().contains(kv) implies m1.dom().contains(
        kv,
    ) by {
        if kv == k@ {
            assert(s1[s.len() as int].0@ == kv);
        } else {
            let i0 = choose|i0: int| 0 <= i0 < s.len() && s[i0].0@ == kv;
            assert(s1[i0].0@ == kv);
        }
    }
    assert(m1 =~= m0.insert(k@, v@));
    assert forall|vv: V::V| #[trigger] value_present(s1, vv) implies value_present(s, vv) || vv
        == v@ by {
        let i1 = choose|i1: int| 0 <= i1 < s1.len() && s1[i1].1@ == vv;
        if i1 < s.len() {
            assert(s[i1].1@ == vv);
        }
    }
    assert forall|vv: V::V| value_present(s, vv) || vv == v@ implies #[trigger] value_present(
        s1,
        vv,
    ) by {
        if vv == v@ {
            assert(s1[s.len() as int].1@ == vv);
        } else {
            let i0 = choose|i0: int| 0 <= i0 < s.len() && s[i0].1@ == vv;
            assert(s1[i0].1@ == vv);
        }
    }
}

/// The outcome of an insertion into a [`UniqueValueMap`].
#[derive(Debug, Clone, PartialEq, Eq)]
pub enum InsertResult<K, V> {
    /// The key was present; its previous value is returned and released.
    Updated(V),
    /// The value is already assigned to the returned key; nothing changed.
    Duplicated(K),
    /// The key was absent; the entry is new.
    Created,
}

/// A key-to-value registry that enforces that no value is assigned to more
/// than one key, by keeping a reverse set of the values in use.
#[derive(Debug)]
pub struct UniqueValueMap<K, V> {
    map: Vec<(K, V)>,
    validate: Vec<V>,
}

impl<K: EqView, V: EqView> View for UniqueValueMap<K, V> {
    type V = Map<K::V, V::V>;

    closed spec fn view(&self) -> Map<K::V, V::V> {
        map_of_entries(self.map@)
    }
}

impl<K: EqView, V: EqView> UniqueValueMap<K, V> {
    /// No key view or value view repeats among the entries, and the reverse
    /// set mirrors the values the mapping holds.
    pub closed spec fn inv(self) -> bool {
        &&& distinct_entries(self.map@)
        &&& self.validate@.len() == self.map@.len()
        &&& forall|i: int| 0 <= i < self.map@.len() ==> self.validate@[i]@ == self.map@[i].1@
    }

    /// The set of value views currently in use.
    pub closed spec fn in_use(self) -> Set<V::V> {
        Set::new(
            |vv: V::V| exists|j: int| 0 <= j < self.validate@.len() && self.validate@[j]@ == vv,
        )
    }

    proof fn lemma_in_use_is_values(self)
        requires
            self.inv(),
        ensures
            forall|vv: V::V| self.in_use().contains(vv) <==> value_present(self.map@, vv),
    {
        assert forall|vv: V::V| self.in_use().contains(vv) implies value_present(
            self.map@,
            vv,
        ) by {
            let j = choose|j: int| 0 <= j < self.validate@.len() && self.validate@[j]@ == vv;
            assert(self.map@[j].1@ == vv);
        }
        assert forall|vv: V::V| value_present(self.map@, vv) implies self.in_use().contains(
            vv,
        ) by {
            let i = choose|i: int| 0 <= i < self.map@.len() && self.map@[i].1@ == vv;
            assert(self.validate@[i]@ == vv);
        }
    }

    /// The mapping is injective: no two keys hold the same value.
    pub proof fn lemma_injective(self, k1: K::V, k2: K::V)
        requires
            self.inv(),
            self@.dom().contains(k1),
            self@.dom().contains(k2),
            self@[k1] == self@[k2],
        ensures
            k1 == k2,
    {
        let i1 = choose|i: int| 0 <= i < self.map@.len() && self.map@[i].0@ == k1;
        let i2 = choose|i: int| 0 <= i < self.map@.len() && self.map@[i].0@ == k2;
        lemma_map_of_entries_at(self.map@, i1);
        lemma_map_of_entries_at(self.map@, i2);
        if i1 < i2 {
            assert(self.map@[i1].1@ != self.map@[i2].1@);
        } else if i2 < i1 {
            assert(self.map@[i2].1@ != self.map@[i1].1@);
        }
    }

    /// The in-use set is exactly the set of values the mapping holds.
    pub proof fn lemma_in_use_exact(self)
        requires
            self.inv(),
        ensures
            self.in_use() == self@.values(),
    {
        self.lemma_in_use_is_values();
        assert forall|vv: V::V| self.in_use().contains(vv) implies self@.values().contains(
            vv,
        ) by {
            let i = choose|i: int| 0 <= i < self.map@.len() && self.map@[i].1@ == vv;
            lemma_map_of_entries_at(self.map@, i);
            assert(self@.dom().contains(self.map@[i].0@) && self@[self.map@[i].0@] == vv);
        }
        assert forall|vv: V::V| self@.values().contains(vv) implies self.in_use().contains(
            vv,
        ) by {
            let kv = choose|kv: K::V| self@.dom().contains(kv) && self@[kv] == vv;
            let i = choose|i: int| 0 <= i < self.map@.len() && self.map@[i].0@ == kv;
            lemma_map_of_entries_at(self.map@, i);
            assert(value_present(self.map@, vv));
        }
        assert(self.in_use() =~= self@.values());
    }

    /// An empty registry.
    pub fn new() -> (r: Self)
        ensures
            r.inv(),
            r@ == Map::<K::V, V::V>::empty(),
            r.in_use() == Set::<V::V>::empty(),
    {
        let r = UniqueValueMap { map: Vec::new(), validate: Vec::new() };
        proof {
            assert(r@ =~= Map::<K::V, V::V>::empty());
            assert(r.in_use() =~= Set::<V::V>::empty());
        }
        r
    }

    /// Adopts a ready-made list of entries, rejecting it unchanged if a key
    /// or a value repeats.
    pub fn from_map(map: Vec<(K, V)>) -> (r: Result<Self, Vec<(K, V)>>)
        ensures
            r is Ok <==> distinct_entries(map@),
            r matches Ok(m) ==> m.inv() && m@ == map_of_entries(map@),
            r matches Err(e) ==> e == map,
    {
        let n = map.len();
        let mut i: usize = 1;
        while i < n
            invariant
                n == map@.len(),
                forall|a: int, b: int|
                    0 <= a < b < i && b < map@.len() ==> map@[a].0@ != map@[b].0@ && map@[a].1@
                        != map@[b].1@,
            decreases n - i,
        {
            let mut j: usize = 0;
            while j < i
                invariant
                    j <= i < n == map@.len(),
                    forall|a: int|
                        0 <= a < j ==> map@[a].0@ != map@[i as int].0@ && map@[a].1@
                            != map@[i as int].1@,
                decreases i - j,
            {
                let a = &map[j];
                let b = &map[i];
                if a.0.eq_view(&b.0) || a.1.eq_view(&b.1) {
                    return Err(map);
                }
                j += 1;
            }
            i += 1;
        }
        let mut validate: Vec<V> = Vec::new();
        let mut t: usize = 0;
        while t < map.len()
            invariant
                n == map@.len(),
                distinct_entries(map@),
                t == validate@.len() <= map@.len(),
                forall|a: int| 0 <= a < t ==> validate@[a]@ == map@[a].1@,
            decreases map@.len() - t,
        {
            let e = &map[t];
            validate.push(e.1.clone_view());
            t += 1;
        }
        Ok(UniqueValueMap { map, validate })
    }

    /// A read-only snapshot of the mapping's entries (order not significant).
    pub fn data(&self) -> (r: &Vec<(K, V)>)
        requires
            self.inv(),
        ensures
            distinct_entries(r@),
            forall|i: int|
                0 <= i < r@.len() ==> self@.dom().contains(#[trigger] r@[i].0@) && self@[r@[i].0@]
                    == r@[i].1@,
            forall|kv: K::V|
                self@.dom().contains(kv) ==> exists|i: int| 0 <= i < r@.len() && r@[i].0@ == kv,
    {
        proof {
            assert forall|i: int| 0 <= i < self.map@.len() implies self@.dom().contains(
                #[trigger] self.map@[i].0@,
            ) && self@[self.map@[i].0@] == self.map@[i].1@ by {
                lemma_map_of_entries_at(self.map@, i);
            }
        }
        &self.map
    }

    fn find_key_index(&self, k: &K) -> (r: Option<usize>)
        ensures
            match r {
                Some(i) => (i as int) < self.map@.len() && self.map@[i as int].0@ == k@,
                None => forall|i: int| 0 <= i < self.map@.len() ==> self.map@[i].0@ != k@,
            },
    {
        let mut i: usize = 0;
        while i < self.map.len()
            invariant
                i <= self.map@.len(),
                forall|t: int| 0 <= t < i ==> self.map@[t].0@ != k@,
            decreases self.map@.len() - i,
        {
            let e = &self.map[i];
            if e.0.eq_view(k) {
                return Some(i);
            }
            i += 1;
        }
        None
    }

    fn find_value_index(&self, v: &V) -> (r: Option<usize>)
        ensures
            match r {
                Some(i) => (i as int) < self.map@.len() && self.map@[i as int].1@ == v@,
                None => forall|i: int| 0 <= i < self.map@.len() ==> self.map@[i].1@ != v@,
            },
    {
        let mut i: usize = 0;
        while i < self.map.len()
            invariant
                i <= self.map@.len(),
                forall|t: int| 0 <= t < i ==> self.map@[t].1@ != v@,
            decreases self.map@.len() - i,
        {
            let e = &self.map[i];
            if e.1.eq_view(v) {
                return Some(i);
            }
            i += 1;
        }
        None
    }

    /// Assigns `v` to `k`, unless `v` is already in use by some key: then
    /// nothing changes and that key is reported. Assigning to a key that
    /// already holds a (different, free) value releases the old value.
    pub fn insert(&mut self, k: K, v: V) -> (r: InsertResult<K, V>)
        requires
            old(self).inv(),
        ensures
            final(self).inv(),
            match r {
                InsertResult::Duplicated(k2) => {
                    &&& old(self).in_use().contains(v@)
                    &&& old(self)@.dom().contains(k2@)
                    &&& old(self)@[k2@] == v@
                    &&& *final(self) == *old(self)
                },
                InsertResult::Updated(v_old) => {
                    &&& !old(self).in_use().contains(v@)
                    &&& old(self)@.dom().contains(k@)
                    &&& v_old@ == old(self)@[k@]
                    &&& final(self)@ == old(self)@.insert(k@, v@)
                    &&& final(self).in_use() == old(self).in_use().remove(v_old@).insert(v@)
                },
                InsertResult::Created => {
                    &&& !old(self).in_use().contains(v@)
                    &&& !old(self)@.dom().contains(k@)
                    &&& final(self)@ == old(self)@.insert(k@, v@)
                    &&& final(self).in_use() == old(self).in_use().insert(v@)
                },
            },
    {
        proof {
            self.lemma_in_use_is_values();
        }
        match self.find_value_index(&v) {
            Some(i) => {
                proof {
                    lemma_map_of_entries_at(self.map@, i as int);
                    assert(self.map@[i as int].1@ == v@);
                    assert(value_present(self.map@, v@));
                }
                let e = &self.map[i];
                InsertResult::Duplicated(e.0.clone_view())
            },
            None => {
                match self.find_key_index(&k) {
                    Some(j) => {
                        let vc = v.clone_view();
                        let ghost gk = k;
                        let ghost gv = v;
                        let ghost gvc = vc;
                        proof {
                            lemma_map_of_entries_at(self.map@, j as int);
                            lemma_entries_remove(self.map@, j as int);
                            assert forall|i: int|
                                0 <= i < self.map@.remove(j as int).len() implies (
                            #[trigger] self.map@.remove(j as int)[i]).1@ != v@ by {
                                if self.map@.remove(j as int)[i].1@ == v@ {
                                    assert(value_present(self.map@.remove(j as int), v@));
                                    assert(value_present(self.map@, v@));
                                    let t = choose|t: int|
                                        0 <= t < self.map@.len() && self.map@[t].1@ == v@;
                                }
                            }
                            lemma_entries_push(self.map@.remove(j as int), k, v);
                        }
                        let (_, v_old) = self.map.remove(j);
                        self.map.push((k, v));
                        let _ = self.validate.remove(j);
                        self.validate.push(vc);
                        proof {
                            assert(final(self)@ =~= old(self)@.insert(gk@, gv@));
                            lemma_in_use_shift(*old(self), *final(self), j as int, gk, gv, gvc);
                        }
                        InsertResult::Updated(v_old)
                    },
                    None => {
                        let vc = v.clone_view();
                        proof {
                            if old(self)@.dom().contains(k@) {
                                let i0 = choose|i0: int|
                                    0 <= i0 < self.map@.len() && self.map@[i0].0@ == k@;
                                assert(false);
                            }
                            lemma_entries_push(self.map@, k, v);
                        }
                        self.map.push((k, v));
                        self.validate.push(vc);
                        proof {
                            assert forall|i2: int|
                                0 <= i2 < final(self).map@.len() implies final(self).validate@[i2]@ == final(self).map@[i2].1@ by {
                                if i2 < old(self).map@.len() {
                                    assert(old(self).validate@[i2]@ == old(self).map@[i2].1@);
                                }
                            }
                            assert forall|vv: V::V| final(self).in_use().contains(vv) implies old(self).in_use().insert(v@).contains(vv) by {
                                let j2 = choose|j2: int|
                                    0 <= j2 < final(self).validate@.len()
                                        && final(self).validate@[j2]@ == vv;
                                if j2 < old(self).validate@.len() {
                                    assert(old(self).validate@[j2]@ == vv);
                                }
                            }
                            assert forall|vv: V::V|
                                old(self).in_use().insert(v@).contains(vv) implies final(self).in_use().contains(vv) by {
                                if vv == v@ {
                                    assert(final(self).validate@[final(self).validate@.len() - 1]@
                                        == vv);
                                } else {
                                    let j2 = choose|j2: int|
                                        0 <= j2 < old(self).validate@.len() && old(self).validate@[j2]@ == vv;
                                    assert(final(self).validate@[j2]@ == vv);
                                }
                            }
                            assert(final(self).in_use() =~= old(self).in_use().insert(v@));
                        }
                        InsertResult::Created
                    },
                }
            },
        }
    }

    /// Removes and returns the value at `k`, releasing it from the in-use
    /// set; absent keys are a successful no-op.
    pub fn remove(&mut self, k: &K) -> (r: Option<V>)
        requires
            old(self).inv(),
        ensures
            final(self).inv(),
            match r {
                Some(v) => {
                    &&& old(self)@.dom().contains(k@)
                    &&& v@ == old(self)@[k@]
                    &&& final(self)@ == old(self)@.remove(k@)
                    &&& final(self).in_use() == old(self).in_use().remove(v@)
                },
                None => {
                    &&& !old(self)@.dom().contains(k@)
                    &&& *final(self) == *old(self)
                },
            },
    {
        match self.find_key_index(k) {
            Some(j) => {
                proof {
                    lemma_map_of_entries_at(self.map@, j as int);
                    lemma_entries_remove(self.map@, j as int);
                }
                let (_, v) = self.map.remove(j);
                let _ = self.validate.remove(j);
                proof {
                    old(self).map@.remove_ensures(j as int);
                    old(self).validate@.remove_ensures(j as int);
                    lemma_in_use_shift_removed(*old(self), *final(self), j as int);
                }
                Some(v)
            },
            None => {
                proof {
                    if old(self)@.dom().contains(k@) {
                        let i = choose|i: int|
                            0 <= i < self.map@.len() && self.map@[i].0@ == k@;
                        assert(false);
                    }
                }
                None
            },
        }
    }
}

proof fn lemma_in_use_shift<K: EqView, V: EqView>(
    pre: UniqueValueMap<K, V>,
    post: UniqueValueMap<K, V>,
    j: int,
    knew: K,
    vnew: V,
    vc: V,
)
    requires
        pre.inv(),
        0 <= j < pre.map@.len(),
        post.map@ == pre.map@.remove(j).push((knew, vnew)),
        post.validate@ == pre.validate@.remove(j).push(vc),
        vc@ == vnew@,
        forall|i: int| 0 <= i < pre.map@.len() ==> pre.map@[i].1@ != vnew@,
    ensures
        post.validate@.len() == post.map@.len(),
        forall|i: int| 0 <= i < post.map@.len() ==> post.validate@[i]@ == post.map@[i].1@,
        post.in_use() == pre.in_use().remove(pre.map@[j].1@).insert(vnew@),
{
    pre.map@.remove_ensures(j);
    pre.validate@.remove_ensures(j);
    let vv_new = vnew@;
    let n = pre.map@.len() as int;
    assert forall|i: int| 0 <= i < post.map@.len() implies post.validate@[i]@
        == post.map@[i].1@ by {
        if i < n - 1 {
            let i0: int = if i < j {
                i
            } else {
                i + 1
            };
            assert(post.map@[i] == pre.map@[i0] && post.validate@[i] == pre.validate@[i0]);
        }
    }
    let removed_vv = pre.map@[j].1@;
    assert forall|vv: V::V| post.in_use().contains(vv) implies pre.in_use().remove(
        removed_vv,
    ).insert(vv_new).contains(vv) by {
        let t = choose|t: int| 0 <= t < post.validate@.len() && post.validate@[t]@ == vv;
        if t < n - 1 {
            let t0: int = if t < j {
                t
            } else {
                t + 1
            };
            assert(pre.validate@[t0]@ == vv);
            assert(pre.map@[t0].1@ == vv);
            if t0 < j {
                assert(pre.map@[t0].1@ != pre.map@[j].1@);
            } else {
                assert(pre.map@[j].1@ != pre.map@[t0].1@);
            }
        }
    }
    assert forall|vv: V::V|
        pre.in_use().remove(removed_vv).insert(vv_new).contains(vv) implies post.in_use().contains(
        vv,
    ) by {
        if vv == vv_new {
            assert(post.validate@[post.validate@.len() - 1]@ == vv);
        } else {
            let t0 = choose|t0: int| 0 <= t0 < pre.validate@.len() && pre.validate@[t0]@ == vv;
            assert(t0 != j);
            let t: int = if t0 < j {
                t0
            } else {
                t0 - 1
            };
            assert(post.validate@[t] == pre.validate@[t0]);
        }
    }
    assert(post.in_use() =~= pre.in_use().remove(removed_vv).insert(vv_new));
}

proof fn lemma_in_use_shift_removed<K: EqView, V: EqView>(
    pre: UniqueValueMap<K, V>,
    post: UniqueValueMap<K, V>,
    j: int,
)
    requires
        pre.inv(),
        0 <= j < pre.map@.len(),
        post.map@ == pre.map@.remove(j),
        post.validate@ == pre.validate@.remove(j),
    ensures
        forall|i: int| 0 <= i < post.map@.len() ==> post.validate@[i]@ == post.map@[i].1@,
        post.in_use() == pre.in_use().remove(pre.map@[j].1@),
{
    pre.map@.remove_ensures(j);
    pre.validate@.remove_ensures(j);
    let n = pre.map@.len() as int;
    assert forall|i: int| 0 <= i < post.map@.len() implies post.validate@[i]@
        == post.map@[i].1@ by {
        let i0: int = if i < j {
            i
        } else {
            i + 1
        };
        assert(post.map@[i] == pre.map@[i0] && post.validate@[i] == pre.validate@[i0]);
    }
    let removed_vv = pre.map@[j].1@;
    assert forall|vv: V::V| post.in_use().contains(vv) implies pre.in_use().remove(
        removed_vv,
    ).contains(vv) by {
        let t = choose|t: int| 0 <= t < post.validate@.len() && post.validate@[t]@ == vv;
        let t0: int = if t < j {
            t
        } else {
            t + 1
        };
        assert(pre.validate@[t0]@ == vv);
        assert(pre.map@[t0].1@ == vv);
        if t0 < j {
            assert(pre.map@[t0].1@ != pre.map@[j].1@);
        } else {
            assert(pre.map@[j].1@ != pre.map@[t0].1@);
        }
    }
    assert forall|vv: V::V| pre.in_use().remove(removed_vv).contains(vv) implies post.in_use().contains(
        vv,
    ) by {
        let t0 = choose|t0: int| 0 <= t0 < pre.validate@.len() && pre.validate@[t0]@ == vv;
        assert(pre.map@[t0].1@ == vv);
        assert(t0 != j);
        let t: int = if t0 < j {
            t0
        } else {
            t0 - 1
        };
        assert(post.validate@[t] == pre.validate@[t0]);
    }
    assert(post.in_use() =~= pre.in_use().remove(removed_vv));
}

/// An unordered pair, stored with its lesser element first.
#[derive(Debug, Clone, Copy, PartialEq, Eq, Hash)]
pub struct Pair<T>(T, T);

impl<T: View> View for Pair<T> {
    type V = (T::V, T::V);

    closed spec fn view(&self) -> (T::V, T::V) {
        (self.0@, self.1@)
    }
}

impl<T: EqView> Pair<T> {
    /// Both elements, in stored order.
    pub fn to_tuple(&self) -> (r: (&T, &T))
        ensures
            (r.0@, r.1@) == self@,
    {
        (&self.0, &self.1)
    }

    /// The element paired with `current`, if `current` is one of the two.
    pub fn get_another(&self, current: &T) -> (r: Option<&T>)
        ensures
            match r {
                Some(other) => {
                    &&& current@ == self@.0 || current@ == self@.1
                    &&& current@ == self@.0 ==> other@ == self@.1
                    &&& current@ != self@.0 ==> other@ == self@.0
                },
                None => current@ != self@.0 && current@ != self@.1,
            },
    {
        if current.eq_view(&self.0) {
            Some(&self.1)
        } else if current.eq_view(&self.1) {
            Some(&self.0)
        } else {
            None
        }
    }

    /// Whether `current` is one of the two elements.
    pub fn contains(&self, current: &T) -> (r: bool)
        ensures
            r == (current@ == self@.0 || current@ == self@.1),
    {
        self.get_another(current).is_some()
    }
}

impl<T: OrdView> Pair<T> {
    /// Builds the pair, sorting the two elements.
    pub fn new(a: T, b: T) -> (r: Pair<T>)
        ensures
            r@ == (a@, b@) || r@ == (b@, a@),
            T::le_spec(r@.0, r@.1),
    {
        if a.le_view(&b) {
            Pair(a, b)
        } else {
            proof {
                T::le_total(a@, b@);
            }
            Pair(b, a)
        }
    }
}

/// The outcome of removing a layered entry.
#[derive(Debug)]
pub enum LayerRemoveResult<T> {
    /// The entry existed at the top and was removed.
    Removed(T),
    /// The entry is shadowed by a higher layer and stays reachable.
    Shadowed,
    /// No such entry existed.
    Absent,
}

/// The outcome of inserting a layered entry.
pub enum LayerInserResult<'a, T> {
    /// The entry is new.
    Created,
    /// The entry replaced one in the same layer.
    Updated(T),
    /// The entry shadows one of a lower layer.
    Overlayed(&'a T),
}

/// The set of view pairs a sequence of pairs describes.
pub open spec fn pair_set<L: View, R: View>(s: Seq<(L, R)>) -> Set<(L::V, R::V)> {
    Set::new(|pr: (L::V, R::V)| exists|i: int| 0 <= i < s.len() && (s[i].0@, s[i].1@) == pr)
}

/// Whether a sequence of pairs repeats no view pair.
pub open spec fn distinct_pairs<L: View, R: View>(s: Seq<(L, R)>) -> bool {
    forall|i: int, j: int|
        0 <= i < j < s.len() ==> (s[i].0@, s[i].1@) != (s[j].0@, s[j].1@)
}

proof fn lemma_pairs_remove<L: View, R: View>(s: Seq<(L, R)>, j: int)
    requires
        distinct_pairs(s),
        0 <= j < s.len(),
    ensures
        distinct_pairs(s.remove(j)),
        pair_set(s.remove(j)) == pair_set(s).remove((s[j].0@, s[j].1@)),
{
    let s1 = s.remove(j);
    s.remove_ensures(j);
    assert forall|a: int, b: int| 0 <= a < b < s1.len() implies (s1[a].0@, s1[a].1@) != (
        s1[b].0@,
        s1[b].1@,
    ) by {
        let a0: int = if a < j {
            a
        } else {
            a + 1
        };
        let b0: int = if b < j {
            b
        } else {
            b + 1
        };
        assert(s1[a] == s[a0] && s1[b] == s[b0]);
    }
    assert forall|pr: (L::V, R::V)| pair_set(s1).contains(pr) implies pair_set(s).remove(
        (s[j].0@, s[j].1@),
    ).contains(pr) by {
        let i1 = choose|i1: int| 0 <= i1 < s1.len() && (s1[i1].0@, s1[i1].1@) == pr;
        let i0: int = if i1 < j {
            i1
        } else {
            i1 + 1
        };
        assert(s1[i1] == s[i0]);
        if i0 < j {
            assert((s[i0].0@, s[i0].1@) != (s[j].0@, s[j].1@));
        } else {
            assert((s[j].0@, s[j].1@) != (s[i0].0@, s[i0].1@));
        }
    }
    assert forall|pr: (L::V, R::V)|
        pair_set(s).remove((s[j].0@, s[j].1@)).contains(pr) implies pair_set(s1).contains(pr) by {
        let i0 = choose|i0: int| 0 <= i0 < s.len() && (s[i0].0@, s[i0].1@) == pr;
        assert(i0 != j);
        if i0 < j {
            assert(s1[i0] == s[i0]);
        } else {
            assert(s1[i0 - 1] == s[i0]);
        }
    }
    assert(pair_set(s1) =~= pair_set(s).remove((s[j].0@, s[j].1@)));
}

/// A many-to-many relation: a set of (left, right) pairs, addable and
/// removable from either side.
#[derive(Debug)]
pub struct NtoN<L, R> {
    pairs: Vec<(L, R)>,
}

impl<L: EqView, R: EqView> View for NtoN<L, R> {
    type V = Set<(L::V, R::V)>;

    closed spec fn view(&self) -> Set<(L::V, R::V)> {
        pair_set(self.pairs@)
    }
}

impl<L: EqView, R: EqView> NtoN<L, R> {
    /// No view pair is stored twice.
    pub closed spec fn inv(self) -> bool {
        distinct_pairs(self.pairs@)
    }

    /// An empty relation.
    pub fn new() -> (r: Self)
        ensures
            r.inv(),
            r@ == Set::<(L::V, R::V)>::empty(),
    {
        let r = NtoN { pairs: Vec::new() };
        proof {
            assert(r@ =~= Set::<(L::V, R::V)>::empty());
        }
        r
    }

    /// A read-only snapshot of the stored pairs (order not significant).
    pub fn data(&self) -> (r: &Vec<(L, R)>)
        requires
            self.inv(),
        ensures
            distinct_pairs(r@),
            forall|i: int| 0 <= i < r@.len() ==> self@.contains(((#[trigger] r@[i]).0@, r@[i].1@)),
            forall|pr: (L::V, R::V)|
                self@.contains(pr) ==> exists|i: int|
                    0 <= i < r@.len() && ((#[trigger] r@[i]).0@, r@[i].1@) == pr,
    {
        &self.pairs
    }

    fn find_pair(&self, left: &L, right: &R) -> (r: Option<usize>)
        ensures
            match r {
                Some(i) => (i as int) < self.pairs@.len() && self.pairs@[i as int].0@ == left@
                    && self.pairs@[i as int].1@ == right@,
                None => forall|i: int|
                    0 <= i < self.pairs@.len() ==> ((#[trigger] self.pairs@[i]).0@, self.pairs@[i].1@)
                        != (left@, right@),
            },
    {
        let mut i: usize = 0;
        while i < self.pairs.len()
            invariant
                i <= self.pairs@.len(),
                forall|t: int|
                    0 <= t < i ==> ((#[trigger] self.pairs@[t]).0@, self.pairs@[t].1@) != (
                        left@,
                        right@,
                    ),
            decreases self.pairs@.len() - i,
        {
            let e = &self.pairs[i];
            if e.0.eq_view(left) && e.1.eq_view(right) {
                return Some(i);
            }
            i += 1;
        }
        None
    }

    /// All right partners of `left`.
    #[verifier::rlimit(50)]
    pub fn get_left(&self, left: &L) -> (r: Vec<R>)
        requires
            self.inv(),
        ensures
            forall|t: int| 0 <= t < r@.len() ==> self@.contains((left@, #[trigger] r@[t]@)),
            forall|rv: R::V|
                self@.contains((left@, rv)) ==> exists|t: int| 0 <= t < r@.len() && r@[t]@ == rv,
            forall|t1: int, t2: int| 0 <= t1 < t2 < r@.len() ==> r@[t1]@ != r@[t2]@,
    {
        let mut out: Vec<R> = Vec::new();
        let ghost mut srcs: Seq<int> = Seq::empty();
        let mut i: usize = 0;
        while i < self.pairs.len()
            invariant
                self.inv(),
                i <= self.pairs@.len(),
                srcs.len() == out@.len(),
                forall|t: int|
                    0 <= t < srcs.len() ==> 0 <= #[trigger] srcs[t] < i
                        && self.pairs@[srcs[t]].0@ == left@ && self.pairs@[srcs[t]].1@
                        == out@[t]@,
                forall|t1: int, t2: int| 0 <= t1 < t2 < srcs.len() ==> srcs[t1] < srcs[t2],
                forall|j: int|
                    0 <= j < i && (#[trigger] self.pairs@[j]).0@ == left@ ==> exists|t: int|
                        0 <= t < out@.len() && out@[t]@ == self.pairs@[j].1@,
            decreases self.pairs@.len() - i,
        {
            let e = &self.pairs[i];
            if e.0.eq_view(left) {
                let ghost out0 = out@;
                out.push(e.1.clone_view());
                proof {
                    srcs = srcs.push(i as int);
                    assert forall|j: int|
                        0 <= j < i + 1 && (#[trigger] self.pairs@[j]).0@ == left@ implies exists|
                        t: int,
                    | 0 <= t < out@.len() && out@[t]@ == self.pairs@[j].1@ by {
                        if j < i {
                            let t0 = choose|t0: int|
                                0 <= t0 < out0.len() && out0[t0]@ == self.pairs@[j].1@;
                            assert(out@[t0]@ == self.pairs@[j].1@);
                        } else {
                            assert(out@[out0.len() as int]@ == self.pairs@[j].1@);
                        }
                    }
                }
            }
            i += 1;
        }
        proof {
            assert forall|t: int| 0 <= t < out@.len() implies self@.contains(
                (left@, #[trigger] out@[t]@),
            ) by {
                assert((self.pairs@[srcs[t]].0@, self.pairs@[srcs[t]].1@) == (left@, out@[t]@));
            }
            assert forall|rv: R::V| self@.contains((left@, rv)) implies exists|t: int|
                0 <= t < out@.len() && out@[t]@ == rv by {
                let j = choose|j: int|
                    0 <= j < self.pairs@.len() && (self.pairs@[j].0@, self.pairs@[j].1@) == (
                        left@,
                        rv,
                    );
                assert(self.pairs@[j].0@ == left@);
            }
            assert forall|t1: int, t2: int| 0 <= t1 < t2 < out@.len() implies out@[t1]@
                != out@[t2]@ by {
                if out@[t1]@ == out@[t2]@ {
                    assert((self.pairs@[srcs[t1]].0@, self.pairs@[srcs[t1]].1@) == (
                        self.pairs@[srcs[t2]].0@,
                        self.pairs@[srcs[t2]].1@,
                    ));
                    assert(false);
                }
            }
        }
        out
    }

    /// All left partners of `right`.
    #[verifier::rlimit(50)]
    pub fn get_right(&self, right: &R) -> (r: Vec<L>)
        requires
            self.inv(),
        ensures
            forall|t: int| 0 <= t < r@.len() ==> self@.contains((#[trigger] r@[t]@, right@)),
            forall|lv: L::V|
                self@.contains((lv, right@)) ==> exists|t: int| 0 <= t < r@.len() && r@[t]@ == lv,
            forall|t1: int, t2: int| 0 <= t1 < t2 < r@.len() ==> r@[t1]@ != r@[t2]@,
    {
        let mut out: Vec<L> = Vec::new();
        let ghost mut srcs: Seq<int> = Seq::empty();
        let mut i: usize = 0;
        while i < self.pairs.len()
            invariant
                self.inv(),
                i <= self.pairs@.len(),
                srcs.len() == out@.len(),
                forall|t: int|
                    0 <= t < srcs.len() ==> 0 <= #[trigger] srcs[t] < i
                        && self.pairs@[srcs[t]].1@ == right@ && self.pairs@[srcs[t]].0@
                        == out@[t]@,
                forall|t1: int, t2: int| 0 <= t1 < t2 < srcs.len() ==> srcs[t1] < srcs[t2],
                forall|j: int|
                    0 <= j < i && (#[trigger] self.pairs@[j]).1@ == right@ ==> exists|t: int|
                        0 <= t < out@.len() && out@[t]@ == self.pairs@[j].0@,
            decreases self.pairs@.len() - i,
        {
            let e = &self.pairs[i];
            if e.1.eq_view(right) {
                let ghost out0 = out@;
                out.push(e.0.clone_view());
                proof {
                    srcs = srcs.push(i as int);
                    assert forall|j: int|
                        0 <= j < i + 1 && (#[trigger] self.pairs@[j]).1@ == right@ implies exists|
                        t: int,
                    | 0 <= t < out@.len() && out@[t]@ == self.pairs@[j].0@ by {
                        if j < i {
                            let t0 = choose|t0: int|
                                0 <= t0 < out0.len() && out0[t0]@ == self.pairs@[j].0@;
                            assert(out@[t0]@ == self.pairs@[j].0@);
                        } else {
                            assert(out@[out0.len() as int]@ == self.pairs@[j].0@);
                        }
                    }
                }
            }
            i += 1;
        }
        proof {
            assert forall|t: int| 0 <= t < out@.len() implies self@.contains(
                (#[trigger] out@[t]@, right@),
            ) by {
                assert((self.pairs@[srcs[t]].0@, self.pairs@[srcs[t]].1@) == (out@[t]@, right@));
            }
            assert forall|lv: L::V| self@.contains((lv, right@)) implies exists|t: int|
                0 <= t < out@.len() && out@[t]@ == lv by {
                let j = choose|j: int|
                    0 <= j < self.pairs@.len() && (self.pairs@[j].0@, self.pairs@[j].1@) == (
                        lv,
                        right@,
                    );
                assert(self.pairs@[j].1@ == right@);
            }
            assert forall|t1: int, t2: int| 0 <= t1 < t2 < out@.len() implies out@[t1]@
                != out@[t2]@ by {
                if out@[t1]@ == out@[t2]@ {
                    assert((self.pairs@[srcs[t1]].0@, self.pairs@[srcs[t1]].1@) == (
                        self.pairs@[srcs[t2]].0@,
                        self.pairs@[srcs[t2]].1@,
                    ));
                    assert(false);
                }
            }
        }
        out
    }

    /// Adds the pair; reports whether it was newly added.
    pub fn insert(&mut self, left: L, right: R) -> (r: bool)
        requires
            old(self).inv(),
        ensures
            final(self).inv(),
            r == !old(self)@.contains((left@, right@)),
            final(self)@ == old(self)@.insert((left@, right@)),
    {
        match self.find_pair(&left, &right) {
            Some(i) => {
                proof {
                    assert(old(self)@.contains((left@, right@)));
                    assert(final(self)@ =~= old(self)@.insert((left@, right@)));
                }
                false
            },
            None => {
                let ghost gl = left;
                let ghost gr = right;
                self.pairs.push((left, right));
                proof {
                    let n = old(self).pairs@.len() as int;
                    assert(final(self).pairs@[n] == (gl, gr));
                    assert forall|a: int, b: int|
                        0 <= a < b < final(self).pairs@.len() implies (
                    (#[trigger] final(self).pairs@[a]).0@, final(self).pairs@[a].1@) != (
                    (#[trigger] final(self).pairs@[b]).0@, final(self).pairs@[b].1@) by {
                        if b < n {
                            assert((old(self).pairs@[a].0@, old(self).pairs@[a].1@) != (
                                old(self).pairs@[b].0@,
                                old(self).pairs@[b].1@,
                            ));
                        }
                    }
                    assert forall|pr: (L::V, R::V)| final(self)@.contains(pr) implies old(self)@.insert((gl@, gr@)).contains(pr) by {
                        let i1 = choose|i1: int|
                            0 <= i1 < final(self).pairs@.len() && (
                            final(self).pairs@[i1].0@,
                            final(self).pairs@[i1].1@,
                            ) == pr;
                        if i1 < n {
                            assert((old(self).pairs@[i1].0@, old(self).pairs@[i1].1@) == pr);
                        }
                    }
                    assert forall|pr: (L::V, R::V)|
                        old(self)@.insert((gl@, gr@)).contains(pr) implies final(self)@.contains(pr) by {
                        if pr == (gl@, gr@) {
                            assert((final(self).pairs@[n].0@, final(self).pairs@[n].1@) == pr);
                        } else {
                            let i0 = choose|i0: int|
                                0 <= i0 < old(self).pairs@.len() && (
                                old(self).pairs@[i0].0@,
                                old(self).pairs@[i0].1@,
                                ) == pr;
                            assert((final(self).pairs@[i0].0@, final(self).pairs@[i0].1@) == pr);
                        }
                    }
                    assert(final(self)@ =~= old(self)@.insert((gl@, gr@)));
                }
                true
            },
        }
    }

    /// Removes the exact pair if present; reports whether it was present.
    pub fn remove(&mut self, left: &L, right: &R) -> (r: bool)
        requires
            old(self).inv(),
        ensures
            final(self).inv(),
            r == old(self)@.contains((left@, right@)),
            final(self)@ == old(self)@.remove((left@, right@)),
    {
        match self.find_pair(left, right) {
            Some(j) => {
                proof {
                    assert(old(self)@.contains((left@, right@)));
                    lemma_pairs_remove(self.pairs@, j as int);
                }
                let _ = self.pairs.remove(j);
                true
            },
            None => {
                proof {
                    if old(self)@.contains((left@, right@)) {
                        let i = choose|i: int|
                            0 <= i < self.pairs@.len() && (self.pairs@[i].0@, self.pairs@[i].1@)
                                == (left@, right@);
                        assert(false);
                    }
                    assert(final(self)@ =~= old(self)@.remove((left@, right@)));
                }
                false
            },
        }
    }

    /// Purges every pair whose left component matches.
    pub fn remove_left(&mut self, left: &L)
        requires
            old(self).inv(),
        ensures
            final(self).inv(),
            final(self)@ == Set::new(
                |pr: (L::V, R::V)| old(self)@.contains(pr) && pr.0 != left@,
            ),
    {
        let mut i: usize = 0;
        while i < self.pairs.len()
            invariant
                distinct_pairs(self.pairs@),
                i <= self.pairs@.len(),
                forall|t: int| 0 <= t < i ==> (#[trigger] self.pairs@[t]).0@ != left@,
                forall|pr: (L::V, R::V)|
                    pair_set(self.pairs@).contains(pr) ==> old(self)@.contains(pr),
                forall|pr: (L::V, R::V)|
                    old(self)@.contains(pr) && pr.0 != left@ ==> pair_set(self.pairs@).contains(
                        pr,
                    ),
            decreases self.pairs@.len() - i,
        {
            let e = &self.pairs[i];
            if e.0.eq_view(left) {
                proof {
                    lemma_pairs_remove(self.pairs@, i as int);
                }
                let _ = self.pairs.remove(i);
            } else {
                i += 1;
            }
        }
        proof {
            assert forall|pr: (L::V, R::V)| final(self)@.contains(pr) implies old(self)@.contains(pr) && pr.0 != left@ by {
                let t = choose|t: int|
                    0 <= t < final(self).pairs@.len() && (
                    final(self).pairs@[t].0@,
                    final(self).pairs@[t].1@,
                    ) == pr;
            }
            assert(final(self)@ =~= Set::new(
                |pr: (L::V, R::V)| old(self)@.contains(pr) && pr.0 != left@,
            ));
        }
    }

    /// Purges every pair whose right component matches.
    pub fn remove_right(&mut self, right: &R)
        requires
            old(self).inv(),
        ensures
            final(self).inv(),
            final(self)@ == Set::new(
                |pr: (L::V, R::V)| old(self)@.contains(pr) && pr.1 != right@,
            ),
    {
        let mut i: usize = 0;
        while i < self.pairs.len()
            invariant
                distinct_pairs(self.pairs@),
                i <= self.pairs@.len(),
                forall|t: int| 0 <= t < i ==> (#[trigger] self.pairs@[t]).1@ != right@,
                forall|pr: (L::V, R::V)|
                    pair_set(self.pairs@).contains(pr) ==> old(self)@.contains(pr),
                forall|pr: (L::V, R::V)|
                    old(self)@.contains(pr) && pr.1 != right@ ==> pair_set(self.pairs@).contains(
                        pr,
                    ),
            decreases self.pairs@.len() - i,
        {
            let e = &self.pairs[i];
            if e.1.eq_view(right) {
                proof {
                    lemma_pairs_remove(self.pairs@, i as int);
                }
                let _ = self.pairs.remove(i);
            } else {
                i += 1;
            }
        }
        proof {
            assert forall|pr: (L::V, R::V)| final(self)@.contains(pr) implies old(self)@.contains(pr) && pr.1 != right@ by {
                let t = choose|t: int|
                    0 <= t < final(self).pairs@.len() && (
                    final(self).pairs@[t].0@,
                    final(self).pairs@[t].1@,
                    ) == pr;
            }
            assert(final(self)@ =~= Set::new(
                |pr: (L::V, R::V)| old(self)@.contains(pr) && pr.1 != right@,
            ));
        }
    }
}

} // verus!
