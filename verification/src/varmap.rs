//! Maps and sets keyed by names (character sequences), used for the shell's
//! variables, aliases and functions.
use vstd::prelude::*;

use crate::text::chars_eq;

verus! {

/// A finite map from names to values.
///
/// The map is a list of entries; the first entry with a given name is the
/// one that counts.
pub struct VarMap<V> {
    entries: Vec<(Vec<char>, V)>,
}

/// The map described by a list of entries (the first entry of a name wins).
pub open spec fn map_of<V>(e: Seq<(Vec<char>, V)>) -> Map<Seq<char>, V>
    decreases e.len(),
{
    if e.len() == 0 {
        Map::empty()
    } else {
        map_of(e.drop_first()).insert(e[0].0@, e[0].1)
    }
}

impl<V> View for VarMap<V> {
    type V = Map<Seq<char>, V>;

    closed spec fn view(&self) -> Map<Seq<char>, V> {
        map_of(self.entries@)
    }
}

proof fn lemma_map_of_dom<V>(e: Seq<(Vec<char>, V)>, k: Seq<char>)
    ensures
        map_of(e).contains_key(k) <==> exists|j: int| 0 <= j < e.len() && (#[trigger] e[j]).0@
            == k,
    decreases e.len(),
{
    if e.len() > 0 {
        lemma_map_of_dom(e.drop_first(), k);
        if map_of(e).contains_key(k) && e[0].0@ != k {
            let j = choose|j: int| 0 <= j < e.drop_first().len() && (#[trigger] e.drop_first()[j]).0@
                == k;
            assert(e[j + 1] == e.drop_first()[j]);
        }
        if exists|j: int| 0 <= j < e.len() && (#[trigger] e[j]).0@ == k {
            let j = choose|j: int| 0 <= j < e.len() && (#[trigger] e[j]).0@ == k;
            if j > 0 {
                assert(e.drop_first()[j - 1] == e[j]);
            }
        }
    }
}

proof fn lemma_map_of_first<V>(e: Seq<(Vec<char>, V)>, k: Seq<char>, i: int)
    requires
        0 <= i < e.len(),
        e[i].0@ == k,
        forall|j: int| 0 <= j < i ==> (#[trigger] e[j]).0@ != k,
    ensures
        map_of(e).contains_key(k),
        map_of(e)[k] == e[i].1,
    decreases i,
{
    if i > 0 {
        assert forall|j: int| 0 <= j < i - 1 implies (#[trigger] e.drop_first()[j]).0@ != k by {
            assert(e.drop_first()[j] == e[j + 1]);
        }
        lemma_map_of_first(e.drop_first(), k, i - 1);
    }
}

proof fn lemma_map_of_push<V>(e: Seq<(Vec<char>, V)>, x: (Vec<char>, V))
    ensures
        map_of(e.push(x)) == (if map_of(e).contains_key(x.0@) {
            map_of(e)
        } else {
            map_of(e).insert(x.0@, x.1)
        }),
    decreases e.len(),
{
    if e.len() == 0 {
        assert(e.push(x).drop_first() =~= Seq::<(Vec<char>, V)>::empty());
        assert(e.push(x)[0] == x);
        assert(map_of(e.push(x).drop_first()) == Map::<Seq<char>, V>::empty());
        assert(map_of(e.push(x)) =~= map_of(e).insert(x.0@, x.1));
    } else {
        assert(e.push(x).drop_first() =~= e.drop_first().push(x));
        assert(e.push(x)[0] == e[0]);
        lemma_map_of_push(e.drop_first(), x);
        let rest = map_of(e.drop_first());
        if rest.contains_key(x.0@) {
            assert(map_of(e.push(x)) =~= map_of(e));
        } else if x.0@ == e[0].0@ {
            assert(map_of(e.push(x)) =~= map_of(e));
        } else {
            assert(map_of(e.push(x)) =~= map_of(e).insert(x.0@, x.1));
        }
    }
}

proof fn lemma_map_of_finite<V>(e: Seq<(Vec<char>, V)>)
    ensures
        map_of(e).dom().finite(),
    decreases e.len(),
{
    if e.len() > 0 {
        lemma_map_of_finite(e.drop_first());
    }
}

/// The domain of a `VarMap` is finite.
pub broadcast proof fn lemma_var_map_finite<V>(m: &VarMap<V>)
    ensures
        #[trigger] m@.dom().finite(),
{
    lemma_map_of_finite(m.entries@);
}

impl<V> VarMap<V> {
    /// The empty map.
    pub fn new() -> (m: Self)
        ensures
            m@ == Map::<Seq<char>, V>::empty(),
    {
        VarMap { entries: Vec::new() }
    }

    /// The value bound to `k`, if any.
    pub fn get(&self, k: &[char]) -> (r: Option<&V>)
        ensures
            match r {
                Some(v) => self@.contains_key(k@) && *v == self@[k@],
                None => !self@.contains_key(k@),
            },
    {
        let n = self.entries.len();
        for i in 0..n
            invariant
                n == self.entries@.len(),
                forall|j: int| 0 <= j < i ==> (#[trigger] self.entries@[j]).0@ != k@,
        {
            if chars_eq(self.entries[i].0.as_slice(), k) {
                proof {
                    lemma_map_of_first(self.entries@, k@, i as int);
                }
                return Some(&self.entries[i].1);
            }
        }
        proof {
            lemma_map_of_dom(self.entries@, k@);
        }
        None
    }

    /// Whether `k` is bound.
    pub fn contains_key(&self, k: &[char]) -> (r: bool)
        ensures
            r == self@.contains_key(k@),
    {
        self.get(k).is_some()
    }

    /// Removes the binding of `k`, if any.
    pub fn remove(&mut self, k: &[char])
        ensures
            final(self)@ == old(self)@.remove(k@),
    {
        let ghost e = self.entries@;
        let mut kept: Vec<(Vec<char>, V)> = Vec::new();
        let n = self.entries.len();
        let mut old_entries = Vec::new();
        std::mem::swap(&mut old_entries, &mut self.entries);
        assert(e.skip(0) =~= e);
        assert(e.take(0) =~= Seq::<(Vec<char>, V)>::empty());
        let mut i: usize = 0;
        while old_entries.len() > 0
            invariant
                i + old_entries@.len() == n,
                n == e.len(),
                old_entries@ == e.skip(i as int),
                map_of(kept@) =~= map_of(e.take(i as int)).remove(k@),
            decreases old_entries@.len(),
        {
            let x = old_entries.remove(0);
            proof {
                assert(old_entries@ =~= e.skip(i + 1));
                assert(e.take(i + 1) =~= e.take(i as int).push(x));
                lemma_map_of_push(e.take(i as int), x);
            }
            if chars_eq(x.0.as_slice(), k) {
            } else {
                proof {
                    lemma_map_of_push(kept@, x);
                }
                kept.push(x);
            }
            i += 1;
        }
        assert(e.take(n as int) =~= e);
        self.entries = kept;
    }

    /// Binds `k` to `v`, replacing any earlier binding of `k`.
    pub fn insert(&mut self, k: Vec<char>, v: V)
        ensures
            final(self)@ == old(self)@.insert(k@, v),
    {
        self.remove(k.as_slice());
        let ghost before = self.entries@;
        let x = (k, v);
        proof {
            lemma_map_of_push(before, x);
        }
        self.entries.push(x);
        assert(map_of(self.entries@) =~= old(self)@.insert(x.0@, x.1));
    }

    /// Removes every binding.
    pub fn clear(&mut self)
        ensures
            final(self)@ == Map::<Seq<char>, V>::empty(),
    {
        self.entries = Vec::new();
    }
}

/// A finite set of names.
pub struct NameSet {
    items: Vec<Vec<char>>,
}

impl View for NameSet {
    type V = Set<Seq<char>>;

    closed spec fn view(&self) -> Set<Seq<char>> {
        Set::new(|k: Seq<char>| exists|j: int| 0 <= j < self.items@.len() && (#[trigger] self.items@[j])@ == k)
    }
}

impl NameSet {
    /// The empty set.
    pub fn new() -> (s: Self)
        ensures
            s@ == Set::<Seq<char>>::empty(),
    {
        let s = NameSet { items: Vec::new() };
        assert(s@ =~= Set::<Seq<char>>::empty());
        s
    }

    /// Whether `k` is in the set.
    pub fn contains(&self, k: &[char]) -> (r: bool)
        ensures
            r == self@.contains(k@),
    {
        let n = self.items.len();
        for i in 0..n
            invariant
                n == self.items@.len(),
                forall|j: int| 0 <= j < i ==> (#[trigger] self.items@[j])@ != k@,
        {
            if chars_eq(self.items[i].as_slice(), k) {
                assert(self.items@[i as int]@ == k@);
                return true;
            }
        }
        false
    }

    /// Adds `k`; returns whether it was absent before.
    pub fn insert(&mut self, k: Vec<char>) -> (r: bool)
        ensures
            final(self)@ == old(self)@.insert(k@),
            r == !old(self)@.contains(k@),
    {
        if self.contains(k.as_slice()) {
            assert(self@ =~= old(self)@.insert(k@));
            false
        } else {
            let ghost kv = k@;
            self.items.push(k);
            assert(self.items@[self.items@.len() - 1]@ == kv);
            assert forall|x: Seq<char>| self@.contains(x) <==> old(self)@.insert(kv).contains(x) by {
                if old(self)@.contains(x) {
                    let j = choose|j: int| 0 <= j < old(self).items@.len() && (#[trigger] old(
                        self,
                    ).items@[j])@ == x;
                    assert(self.items@[j] == old(self).items@[j]);
                }
                if self@.contains(x) && x != kv {
                    let j = choose|j: int| 0 <= j < self.items@.len() && (#[trigger] self.items@[j])@
                        == x;
                    assert(old(self).items@[j] == self.items@[j]);
                }
            }
            assert(self@ =~= old(self)@.insert(kv));
            true
        }
    }
}

} // verus!
