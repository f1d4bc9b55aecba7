//! A small association map from symbol names to values, with unique keys.
//! It abstracts to `Map<Seq<char>, V>`; a later insert of a known name
//! overwrites the earlier value, silently.

use crate::text;
use vstd::prelude::*;

verus! {

/// The map denoted by a pair sequence, later pairs overwriting earlier ones.
pub open spec fn map_of_pairs<V>(s: Seq<(String, V)>) -> Map<Seq<char>, V>
    decreases s.len(),
{
    if s.len() == 0 {
        Map::empty()
    } else {
        map_of_pairs(s.drop_last()).insert(s.last().0@, s.last().1)
    }
}

/// A key stands in the map exactly when some pair carries it.
pub proof fn lemma_map_of_pairs_dom<V>(s: Seq<(String, V)>, k: Seq<char>)
    ensures
        map_of_pairs(s).dom().contains(k) <==> exists|i: int| 0 <= i < s.len() && s[i].0@ == k,
    decreases s.len(),
{
    if s.len() > 0 {
        lemma_map_of_pairs_dom(s.drop_last(), k);
        if s.last().0@ == k {
            assert(s[s.len() - 1].0@ == k);
        } else {
            if map_of_pairs(s).dom().contains(k) {
                let i = choose|i: int| 0 <= i < s.len() - 1 && s.drop_last()[i].0@ == k;
                assert(s[i].0@ == k);
            }
            if exists|i: int| 0 <= i < s.len() && s[i].0@ == k {
                let i = choose|i: int| 0 <= i < s.len() && s[i].0@ == k;
                assert(s.drop_last()[i].0@ == k);
            }
        }
    }
}

/// With keys unique, the pair that carries a key gives its mapped value.
pub proof fn lemma_map_of_pairs_at<V>(s: Seq<(String, V)>, i: int)
    requires
        0 <= i < s.len(),
        forall|p: int, q: int| 0 <= p < q < s.len() ==> s[p].0@ != s[q].0@,
    ensures
        map_of_pairs(s).dom().contains(s[i].0@),
        map_of_pairs(s)[s[i].0@] == s[i].1,
    decreases s.len(),
{
    if i == s.len() - 1 {
        lemma_map_of_pairs_dom(s, s[i].0@);
    } else {
        lemma_map_of_pairs_at(s.drop_last(), i);
        assert(s.drop_last()[i] == s[i]);
        assert(s[i].0@ != s.last().0@);
    }
}

/// An association of names with values, unique per name.
pub struct NameMap<V> {
    pairs: Vec<(String, V)>,
}

impl<V: Clone> Clone for NameMap<V> {
    /// A copy with the same names, each over its value's own clone.
    fn clone(&self) -> (r: Self) {
        proof {
            use_type_invariant(&*self);
        }
        let n: usize = self.pairs.len();
        let mut pairs: Vec<(String, V)> = Vec::new();
        let mut i: usize = 0;
        while i < n
            invariant
                n == self.pairs@.len(),
                i <= n,
                pairs@.len() == i,
                self.keys_unique(),
                forall|k: int| 0 <= k < i ==> pairs@[k].0@ == self.pairs@[k].0@,
            decreases n - i,
        {
            pairs.push((self.pairs[i].0.clone(), self.pairs[i].1.clone()));
            i += 1;
        }
        NameMap { pairs }
    }
}

impl<V> View for NameMap<V> {
    type V = Map<Seq<char>, V>;

    closed spec fn view(&self) -> Map<Seq<char>, V> {
        map_of_pairs(self.pairs@)
    }
}

impl<V> NameMap<V> {
    #[verifier::type_invariant]
    spec fn keys_unique(self) -> bool {
        forall|p: int, q: int|
            0 <= p < q < self.pairs@.len() ==> self.pairs@[p].0@ != self.pairs@[q].0@
    }

    /// The empty map.
    pub fn new() -> (r: Self)
        ensures
            r@ == Map::<Seq<char>, V>::empty(),
    {
        NameMap { pairs: Vec::new() }
    }

    /// How many names are mapped.
    pub fn len(&self) -> (r: usize)
        ensures
            r == self@.dom().len(),
    {
        proof {
            use_type_invariant(&*self);
            Self::lemma_len(self.pairs@);
        }
        self.pairs.len()
    }

    /// With keys unique, the map's domain is as large as the pair list.
    proof fn lemma_len(s: Seq<(String, V)>)
        requires
            forall|p: int, q: int| 0 <= p < q < s.len() ==> s[p].0@ != s[q].0@,
        ensures
            map_of_pairs(s).dom().len() == s.len(),
            map_of_pairs(s).dom().finite(),
        decreases s.len(),
    {
        if s.len() > 0 {
            Self::lemma_len(s.drop_last());
            lemma_map_of_pairs_dom(s.drop_last(), s.last().0@);
            assert(!map_of_pairs(s.drop_last()).dom().contains(s.last().0@));
            vstd::set::axiom_set_insert_len(map_of_pairs(s.drop_last()).dom(), s.last().0@);
            assert(map_of_pairs(s).dom() =~= map_of_pairs(s.drop_last()).dom().insert(
                s.last().0@,
            ));
        }
    }

    /// The value mapped to `name`, when the map knows it.
    pub fn get(&self, name: &str) -> (r: Option<&V>)
        ensures
            match r {
                Some(v) => self@.dom().contains(name@) && *v == self@[name@],
                None => !self@.dom().contains(name@),
            },
    {
        proof {
            use_type_invariant(&*self);
        }
        let n: usize = self.pairs.len();
        let mut i: usize = 0;
        while i < n
            invariant
                n == self.pairs@.len(),
                i <= n,
                forall|k: int| 0 <= k < i ==> self.pairs@[k].0@ != name@,
            decreases n - i,
        {
            if text::str_eq(self.pairs[i].0.as_str(), name) {
                proof {
                    use_type_invariant(&*self);
                    lemma_map_of_pairs_at(self.pairs@, i as int);
                }
                return Some(&self.pairs[i].1);
            }
            i += 1;
        }
        proof {
            lemma_map_of_pairs_dom(self.pairs@, name@);
        }
        None
    }

    /// Map `name` to `value`, overwriting any earlier value under that name.
    pub fn insert(&mut self, name: String, value: V)
        ensures
            final(self)@ == old(self)@.insert(name@, value),
    {
        proof {
            use_type_invariant(&*self);
        }
        let n: usize = self.pairs.len();
        let mut i: usize = 0;
        while i < n
            invariant
                n == self.pairs@.len(),
                i <= n,
                *self == *old(self),
                self.keys_unique(),
                forall|k: int| 0 <= k < i ==> self.pairs@[k].0@ != name@,
            decreases n - i,
        {
            if text::str_eq(self.pairs[i].0.as_str(), name.as_str()) {
                let ghost pv = (name, value);
                let ghost s0 = self.pairs@;
                let mut pairs: Vec<(String, V)> = Vec::new();
                core::mem::swap(&mut pairs, &mut self.pairs);
                let _replaced = pairs.remove(i);
                pairs.insert(i, (name, value));
                proof {
                    assert(pairs@ =~= s0.update(i as int, pv));
                    Self::lemma_update_same_key(s0, i as int, pv);
                }
                self.pairs = pairs;
                return ;
            }
            i += 1;
        }
        let ghost pv = (name, value);
        let ghost s0 = self.pairs@;
        let mut pairs: Vec<(String, V)> = Vec::new();
        core::mem::swap(&mut pairs, &mut self.pairs);
        pairs.push((name, value));
        proof {
            lemma_map_of_pairs_dom(s0, pv.0@);
            assert(pairs@.drop_last() =~= s0);
            assert(pairs@.last() == pv);
            assert(map_of_pairs(pairs@) == map_of_pairs(s0).insert(pv.0@, pv.1));
        }
        self.pairs = pairs;
    }

    /// Overwriting the pair that carries a key inserts into the denoted map.
    proof fn lemma_update_same_key(s: Seq<(String, V)>, i: int, p: (String, V))
        requires
            0 <= i < s.len(),
            forall|x: int, y: int| 0 <= x < y < s.len() ==> s[x].0@ != s[y].0@,
            p.0@ == s[i].0@,
        ensures
            map_of_pairs(s.update(i, p)) == map_of_pairs(s).insert(p.0@, p.1),
        decreases s.len(),
    {
        let t = s.update(i, p);
        if i == s.len() - 1 {
            assert(t.drop_last() =~= s.drop_last());
            assert(map_of_pairs(t) == map_of_pairs(s.drop_last()).insert(p.0@, p.1));
            assert(map_of_pairs(s.drop_last()).insert(s.last().0@, s.last().1).insert(p.0@, p.1)
                =~= map_of_pairs(s.drop_last()).insert(p.0@, p.1));
        } else {
            assert(t.drop_last() =~= s.drop_last().update(i, p));
            Self::lemma_update_same_key(s.drop_last(), i, p);
            assert(t.last() == s.last());
            assert(s[i].0@ != s.last().0@);
            assert(map_of_pairs(s.drop_last()).insert(p.0@, p.1).insert(s.last().0@, s.last().1)
                =~= map_of_pairs(s.drop_last()).insert(s.last().0@, s.last().1).insert(
                p.0@,
                p.1,
            ));
        }
    }

    /// The pairs the map holds, one per name.
    pub fn entries(&self) -> (r: &Vec<(String, V)>)
        ensures
            forall|i: int|
                0 <= i < r@.len() ==> #[trigger] self@.contains_pair(r@[i].0@, r@[i].1),
            forall|k: Seq<char>|
                self@.dom().contains(k) ==> exists|i: int| 0 <= i < r@.len() && r@[i].0@ == k,
            forall|i: int, j: int| 0 <= i < j < r@.len() ==> r@[i].0@ != r@[j].0@,
    {
        proof {
            use_type_invariant(&*self);
            assert forall|i: int| 0 <= i < self.pairs@.len() implies #[trigger] self@.contains_pair(
                self.pairs@[i].0@,
                self.pairs@[i].1,
            ) by {
                lemma_map_of_pairs_at(self.pairs@, i);
            }
            assert forall|k: Seq<char>| self@.dom().contains(k) implies exists|i: int|
                0 <= i < self.pairs@.len() && self.pairs@[i].0@ == k by {
                lemma_map_of_pairs_dom(self.pairs@, k);
            }
        }
        &self.pairs
    }
}

} // verus!
