//! A small association map keyed by subfolder name.
//!
//! The engine keeps two per-subfolder records, the deletion marks and the
//! debounce marks.  Both are maps from a subfolder name to one numeric
//! value, held as a vector of pairs with pairwise-distinct keys and viewed
//! as a `Map` from the name's characters to the value.

use vstd::prelude::*;

verus! {

/// A map from subfolder names to copyable values.
pub struct NameMap<V> {
    pub entries: Vec<(String, V)>,
}

/// The map an entry list denotes: later entries win, though a well-formed
/// list never repeats a key.
pub open spec fn map_of<V>(s: Seq<(String, V)>) -> Map<Seq<char>, V>
    decreases s.len(),
{
    if s.len() == 0 {
        Map::empty()
    } else {
        map_of(s.drop_last()).insert(s.last().0@, s.last().1)
    }
}

/// Whether some entry of the list carries the key.
pub open spec fn has_key<V>(s: Seq<(String, V)>, k: Seq<char>) -> bool {
    exists|i: int| 0 <= i < s.len() && #[trigger] s[i].0@ == k
}

/// Pairwise-distinct keys.
pub open spec fn distinct_keys<V>(s: Seq<(String, V)>) -> bool {
    forall|i: int, j: int| 0 <= i < j < s.len() ==> #[trigger] s[i].0@ != #[trigger] s[j].0@
}

proof fn lemma_map_of_domain<V>(s: Seq<(String, V)>, k: Seq<char>)
    ensures
        map_of(s).contains_key(k) == has_key(s, k),
    decreases s.len(),
{
    if s.len() > 0 {
        lemma_map_of_domain(s.drop_last(), k);
        if s.last().0@ == k {
            assert(s[s.len() - 1].0@ == k);
        } else {
            assert(has_key(s.drop_last(), k) == has_key(s, k)) by {
                if has_key(s, k) {
                    let i = choose|i: int| 0 <= i < s.len() && #[trigger] s[i].0@ == k;
                    assert(i < s.len() - 1);
                    assert(s.drop_last()[i].0@ == k);
                }
                if has_key(s.drop_last(), k) {
                    let i = choose|i: int|
                        0 <= i < s.drop_last().len() && #[trigger] s.drop_last()[i].0@ == k;
                    assert(s[i].0@ == k);
                }
            }
        }
    }
}

proof fn lemma_map_of_get<V>(s: Seq<(String, V)>, i: int)
    requires
        distinct_keys(s),
        0 <= i < s.len(),
    ensures
        map_of(s).contains_key(s[i].0@),
        map_of(s)[s[i].0@] == s[i].1,
    decreases s.len(),
{
    if i == s.len() - 1 {
        assert(s.last() == s[i]);
    } else {
        assert(distinct_keys(s.drop_last())) by {
            assert(forall|a: int, b: int|
                0 <= a < b < s.len() - 1 ==> s.drop_last()[a] == s[a] && s.drop_last()[b] == s[b]);
        }
        assert(s.drop_last()[i] == s[i]);
        lemma_map_of_get(s.drop_last(), i);
        assert(s[i].0@ != s.last().0@) by {
            assert(s.last() == s[s.len() - 1]);
        }
    }
}

proof fn lemma_map_of_remove<V>(s: Seq<(String, V)>, i: int)
    requires
        distinct_keys(s),
        0 <= i < s.len(),
    ensures
        map_of(s.remove(i)) == map_of(s).remove(s[i].0@),
    decreases s.len(),
{
    s.remove_ensures(i);
    if i == s.len() - 1 {
        assert(s.remove(i) =~= s.drop_last());
        lemma_map_of_domain(s.drop_last(), s[i].0@);
        assert(!has_key(s.drop_last(), s[i].0@)) by {
            if has_key(s.drop_last(), s[i].0@) {
                let j = choose|j: int|
                    0 <= j < s.drop_last().len() && #[trigger] s.drop_last()[j].0@ == s[i].0@;
                assert(s[j].0@ == s[i].0@);
            }
        }
        assert(map_of(s.drop_last()) =~= map_of(s).remove(s[i].0@)) by {
            assert(map_of(s) == map_of(s.drop_last()).insert(s.last().0@, s.last().1));
            assert(s.last() == s[i]);
        }
    } else {
        let d = s.drop_last();
        assert(distinct_keys(d)) by {
            assert(forall|a: int, b: int|
                0 <= a < b < d.len() ==> d[a] == s[a] && d[b] == s[b]);
        }
        assert(d[i] == s[i]);
        lemma_map_of_remove(d, i);
        assert(s.remove(i).len() == s.len() - 1);
        assert(s.remove(i).last() == s.last()) by {
            assert(s.remove(i)[s.len() - 2] == s[s.len() - 1]);
        }
        assert(s.remove(i).drop_last() =~= d.remove(i)) by {
            d.remove_ensures(i);
            assert(forall|k: int|
                0 <= k < i ==> s.remove(i)[k] == s[k] && #[trigger] d.remove(i)[k] == s[k]);
            assert(forall|k: int|
                i <= k < s.len() - 2 ==> s.remove(i)[k] == s[k + 1] && #[trigger] d.remove(i)[k]
                    == s[k + 1]);
        }
        assert(map_of(s.remove(i)) == map_of(d.remove(i)).insert(s.last().0@, s.last().1));
        assert(s[i].0@ != s.last().0@) by {
            assert(s.last() == s[s.len() - 1]);
        }
        assert(map_of(d).remove(s[i].0@).insert(s.last().0@, s.last().1) =~= map_of(d).insert(
            s.last().0@,
            s.last().1,
        ).remove(s[i].0@));
        assert(map_of(s) == map_of(d).insert(s.last().0@, s.last().1));
    }
}

impl<V> View for NameMap<V> {
    type V = Map<Seq<char>, V>;

    open spec fn view(&self) -> Map<Seq<char>, V> {
        map_of(self.entries@)
    }
}

impl<V: Copy> NameMap<V> {
    /// The keys are pairwise distinct.
    pub open spec fn wf(&self) -> bool {
        distinct_keys(self.entries@)
    }

    /// An empty map.
    pub fn new() -> (r: NameMap<V>)
        ensures
            r.wf(),
            r@ == Map::<Seq<char>, V>::empty(),
    {
        NameMap { entries: Vec::new() }
    }

    /// The value stored under a name, if any.
    pub fn get(&self, name: &String) -> (r: Option<V>)
        requires
            self.wf(),
        ensures
            r == (if self@.contains_key(name@) {
                Option::Some(self@[name@])
            } else {
                Option::<V>::None
            }),
    {
        let n = self.entries.len();
        let mut i: usize = 0;
        while i < n
            invariant
                i <= n,
                n == self.entries@.len(),
                self.wf(),
                forall|k: int| 0 <= k < i ==> #[trigger] self.entries@[k].0@ != name@,
            decreases n - i,
        {
            if self.entries[i].0 == *name {
                proof {
                    lemma_map_of_get(self.entries@, i as int);
                }
                return Some(self.entries[i].1);
            }
            i += 1;
        }
        proof {
            lemma_map_of_domain(self.entries@, name@);
            if has_key(self.entries@, name@) {
                let k = choose|k: int|
                    0 <= k < self.entries@.len() && #[trigger] self.entries@[k].0@ == name@;
            }
        }
        None
    }

    /// Stores a value under a name, replacing any earlier value.
    pub fn set(&mut self, name: &String, v: V)
        requires
            old(self).wf(),
        ensures
            final(self).wf(),
            final(self)@ == old(self)@.insert(name@, v),
    {
        let n = self.entries.len();
        let mut i: usize = 0;
        while i < n
            invariant
                i <= n,
                n == self.entries@.len(),
                self.wf(),
                self.entries@ == old(self).entries@,
                forall|k: int| 0 <= k < i ==> #[trigger] self.entries@[k].0@ != name@,
            decreases n - i,
        {
            if self.entries[i].0 == *name {
                let ghost before = self.entries@;
                let _ = self.entries.remove(i);
                self.entries.push((name.clone(), v));
                proof {
                    let after = self.entries@;
                    assert(after.drop_last() =~= before.remove(i as int));
                    assert(after.last().0@ == name@ && after.last().1 == v);
                    lemma_map_of_remove(before, i as int);
                    assert(map_of(after) == map_of(before.remove(i as int)).insert(name@, v));
                    assert(map_of(before).remove(name@).insert(name@, v) =~= map_of(
                        before,
                    ).insert(name@, v)) by {
                        assert(before[i as int].0@ == name@);
                    }
                    assert(distinct_keys(after)) by {
                        before.remove_ensures(i as int);
                        assert forall|a: int, b: int| 0 <= a < b < after.len() implies #[trigger] after[a].0@
                            != #[trigger] after[b].0@ by {
                            if b < after.len() - 1 {
                                assert(after[a] == before.remove(i as int)[a]);
                                assert(after[b] == before.remove(i as int)[b]);
                            } else {
                                assert(after[b].0@ == name@);
                                assert(after[a] == before.remove(i as int)[a]);
                                if a < i {
                                    assert(before[a].0@ != before[i as int].0@);
                                } else {
                                    assert(before[a + 1].0@ != before[i as int].0@);
                                }
                            }
                        }
                    }
                }
                return ;
            }
            i += 1;
        }
        let ghost before = self.entries@;
        self.entries.push((name.clone(), v));
        proof {
            let after = self.entries@;
            assert(after.drop_last() =~= before);
            assert(after.last().0@ == name@ && after.last().1 == v);
            assert(distinct_keys(after)) by {
                assert forall|a: int, b: int| 0 <= a < b < after.len() implies #[trigger] after[a].0@
                    != #[trigger] after[b].0@ by {
                    if b < after.len() - 1 {
                        assert(after[a] == before[a] && after[b] == before[b]);
                    } else {
                        assert(after[a] == before[a]);
                        assert(after[b].0@ == name@);
                    }
                }
            }
        }
    }
}

} // verus!
