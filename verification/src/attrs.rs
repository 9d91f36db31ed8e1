//! Element attributes: a map from attribute name to value, kept as a vector
//! of entries in which no name occurs twice.

use vstd::prelude::*;

verus! {

/// The map that a list of (name, value) entries denotes; a later entry for
/// a name replaces an earlier one.
pub open spec fn map_of(es: Seq<(Seq<char>, Seq<char>)>) -> Map<Seq<char>, Seq<char>>
    decreases es.len(),
{
    if es.len() == 0 {
        Map::empty()
    } else {
        map_of(es.drop_last()).insert(es.last().0, es.last().1)
    }
}

/// No name occurs twice.
pub open spec fn distinct_keys(es: Seq<(Seq<char>, Seq<char>)>) -> bool {
    forall|i: int, j: int| 0 <= i < j < es.len() ==> (#[trigger] es[i]).0 != (#[trigger] es[j]).0
}

pub proof fn lemma_map_of_entry(es: Seq<(Seq<char>, Seq<char>)>, i: int)
    requires
        distinct_keys(es),
        0 <= i < es.len(),
    ensures
        map_of(es).contains_key(es[i].0),
        map_of(es)[es[i].0] == es[i].1,
    decreases es.len(),
{
    if i < es.len() - 1 {
        let d = es.drop_last();
        assert(d[i] == es[i]);
        assert(distinct_keys(d)) by {
            assert forall|a: int, b: int| 0 <= a < b < d.len() implies (#[trigger] d[a]).0 != (
            #[trigger] d[b]).0 by {
                assert(d[a] == es[a] && d[b] == es[b]);
            }
        }
        lemma_map_of_entry(d, i);
        assert(es[i].0 != es[es.len() - 1].0);
    }
}

pub proof fn lemma_map_of_absent(es: Seq<(Seq<char>, Seq<char>)>, k: Seq<char>)
    requires
        forall|i: int| 0 <= i < es.len() ==> (#[trigger] es[i]).0 != k,
    ensures
        !map_of(es).contains_key(k),
    decreases es.len(),
{
    if es.len() > 0 {
        let d = es.drop_last();
        assert forall|i: int| 0 <= i < d.len() implies (#[trigger] d[i]).0 != k by {
            assert(d[i] == es[i]);
        }
        lemma_map_of_absent(d, k);
        assert(es[es.len() - 1].0 != k);
    }
}

pub proof fn lemma_map_of_update(es: Seq<(Seq<char>, Seq<char>)>, i: int, v: Seq<char>)
    requires
        distinct_keys(es),
        0 <= i < es.len(),
    ensures
        map_of(es.update(i, (es[i].0, v))) == map_of(es).insert(es[i].0, v),
    decreases es.len(),
{
    let k = es[i].0;
    let u = es.update(i, (k, v));
    if i == es.len() - 1 {
        assert(u.drop_last() =~= es.drop_last());
        assert forall|j: int| 0 <= j < es.len() - 1 implies (#[trigger] es.drop_last()[j]).0 != k by {
            assert(es.drop_last()[j] == es[j]);
        }
        lemma_map_of_absent(es.drop_last(), k);
        assert(map_of(u) =~= map_of(es).insert(k, v));
    } else {
        let d = es.drop_last();
        assert(distinct_keys(d)) by {
            assert forall|a: int, b: int| 0 <= a < b < d.len() implies (#[trigger] d[a]).0 != (
            #[trigger] d[b]).0 by {
                assert(d[a] == es[a] && d[b] == es[b]);
            }
        }
        assert(d[i] == es[i]);
        lemma_map_of_update(d, i, v);
        assert(u.drop_last() =~= d.update(i, (k, v)));
        assert(u.last() == es.last());
        assert(es.last().0 != k);
        assert(map_of(u) =~= map_of(es).insert(k, v));
    }
}

/// The attributes of an element: each name maps to one value.
#[derive(Debug)]
pub struct Attributes {
    entries: Vec<(String, String)>,
}

impl Attributes {
    /// The entries, each read as a pair of character sequences.
    pub closed spec fn entries(&self) -> Seq<(Seq<char>, Seq<char>)> {
        self.entries@.map_values(|e: (String, String)| (e.0@, e.1@))
    }

    #[verifier::type_invariant]
    closed spec fn inv(&self) -> bool {
        distinct_keys(self.entries())
    }

    /// The attribute map.
    pub closed spec fn view(&self) -> Map<Seq<char>, Seq<char>> {
        map_of(self.entries())
    }

    pub fn new() -> (r: Attributes)
        ensures
            r@ == Map::<Seq<char>, Seq<char>>::empty(),
    {
        let r = Attributes { entries: Vec::new() };
        assert(r.entries() =~= Seq::<(Seq<char>, Seq<char>)>::empty());
        r
    }

    /// Sets `name` to `value`, replacing any earlier value; gives the
    /// earlier value back.
    pub fn insert(&mut self, name: String, value: String) -> (r: Option<String>)
        ensures
            final(self)@ == old(self)@.insert(name@, value@),
            r matches Some(v) ==> old(self)@.contains_key(name@) && v@ == old(self)@[name@],
            r is None ==> !old(self)@.contains_key(name@),
    {
        let mut taken = Attributes::new();
        std::mem::swap(self, &mut taken);
        proof {
            use_type_invariant(&taken);
        }
        let ghost es = taken.entries();
        let ghost old_map = taken@;
        assert(old_map == old(self)@);
        let mut entries = taken.entries;
        assert(es == entries@.map_values(|e: (String, String)| (e.0@, e.1@)));
        let n = entries.len();
        let mut i: usize = 0;
        while i < n
            invariant
                n == entries@.len(),
                es == entries@.map_values(|e: (String, String)| (e.0@, e.1@)),
                old_map == map_of(es),
                old_map == old(self)@,
                distinct_keys(es),
                i <= n,
                forall|j: int| 0 <= j < i ==> (#[trigger] es[j]).0 != name@,
            decreases n - i,
        {
            assert(es[i as int] == (entries@[i as int].0@, entries@[i as int].1@));
            if entries[i].0 == name {
                let old_value = entries[i].1.clone();
                assert(es[i as int].0 == name@);
                assert(old_value@ == es[i as int].1);
                entries.set(i, (name, value));
                proof {
                    lemma_map_of_entry(es, i as int);
                    lemma_map_of_update(es, i as int, value@);
                }
                let ghost new_es = entries@.map_values(|e: (String, String)| (e.0@, e.1@));
                assert(new_es =~= es.update(i as int, (es[i as int].0, value@))) by {
                    assert forall|j: int| 0 <= j < new_es.len() implies new_es[j] == es.update(
                        i as int,
                        (es[i as int].0, value@),
                    )[j] by {
                    }
                }
                assert(distinct_keys(new_es)) by {
                    assert forall|a: int, b: int| 0 <= a < b < new_es.len() implies (
                    #[trigger] new_es[a]).0 != (#[trigger] new_es[b]).0 by {
                        assert(new_es[a].0 == es[a].0 && new_es[b].0 == es[b].0);
                    }
                }
                *self = Attributes { entries };
                return Some(old_value);
            }
            i += 1;
        }
        proof {
            lemma_map_of_absent(es, name@);
        }
        let ghost nv = (name@, value@);
        entries.push((name, value));
        let ghost new_es = entries@.map_values(|e: (String, String)| (e.0@, e.1@));
        assert(new_es =~= es.push(nv)) by {
            assert forall|j: int| 0 <= j < new_es.len() implies new_es[j] == es.push(nv)[j] by {
                if j < es.len() {
                    assert(entries@[j] == entries@.drop_last()[j]);
                }
            }
        }
        assert(new_es.drop_last() =~= es);
        assert(distinct_keys(new_es)) by {
            assert forall|a: int, b: int| 0 <= a < b < new_es.len() implies (
            #[trigger] new_es[a]).0 != (#[trigger] new_es[b]).0 by {
                if b < es.len() {
                    assert(new_es[a] == es[a] && new_es[b] == es[b]);
                } else {
                    assert(new_es[a] == es[a]);
                }
            }
        }
        *self = Attributes { entries };
        None
    }

    /// The value of `name`, if set.
    pub fn get(&self, name: &str) -> (r: Option<&str>)
        ensures
            r matches Some(v) ==> self@.contains_key(name@) && v@ == self@[name@],
            r is None ==> !self@.contains_key(name@),
    {
        proof {
            use_type_invariant(self);
        }
        let ghost es = self.entries();
        let n = self.entries.len();
        let mut i: usize = 0;
        while i < n
            invariant
                n == self.entries@.len(),
                es == self.entries(),
                distinct_keys(es),
                i <= n,
                forall|j: int| 0 <= j < i ==> (#[trigger] es[j]).0 != name@,
            decreases n - i,
        {
            assert(es[i as int] == (self.entries@[i as int].0@, self.entries@[i as int].1@));
            if crate::text::str_eq(self.entries[i].0.as_str(), name) {
                proof {
                    lemma_map_of_entry(es, i as int);
                }
                return Some(self.entries[i].1.as_str());
            }
            i += 1;
        }
        proof {
            lemma_map_of_absent(es, name@);
        }
        None
    }

    /// Number of attributes set.
    pub fn len(&self) -> (r: usize)
        ensures
            r == self@.dom().len(),
    {
        proof {
            use_type_invariant(self);
            lemma_map_of_len(self.entries());
        }
        self.entries.len()
    }
}

impl Clone for Attributes {
    fn clone(&self) -> (r: Attributes)
        ensures
            r@ == self@,
    {
        proof {
            use_type_invariant(self);
        }
        let ghost es = self.entries();
        let mut entries: Vec<(String, String)> = Vec::new();
        let n = self.entries.len();
        let mut i: usize = 0;
        while i < n
            invariant
                n == self.entries@.len(),
                es == self.entries(),
                i <= n,
                entries@.map_values(|e: (String, String)| (e.0@, e.1@)) == es.take(i as int),
            decreases n - i,
        {
            let k = self.entries[i].0.clone();
            let v = self.entries[i].1.clone();
            let ghost before = entries@;
            entries.push((k, v));
            assert(entries@.map_values(|e: (String, String)| (e.0@, e.1@)) =~= es.take(i + 1)) by {
                assert(before.map_values(|e: (String, String)| (e.0@, e.1@)) =~= es.take(i as int));
                assert forall|j: int| 0 <= j < i implies entries@[j] == before[j] by {}
            }
            i += 1;
        }
        assert(es.take(n as int) =~= es);
        Attributes { entries }
    }
}

pub proof fn lemma_map_of_len(es: Seq<(Seq<char>, Seq<char>)>)
    requires
        distinct_keys(es),
    ensures
        map_of(es).dom().finite(),
        map_of(es).dom().len() == es.len(),
    decreases es.len(),
{
    if es.len() > 0 {
        let d = es.drop_last();
        assert(distinct_keys(d)) by {
            assert forall|a: int, b: int| 0 <= a < b < d.len() implies (#[trigger] d[a]).0 != (
            #[trigger] d[b]).0 by {
                assert(d[a] == es[a] && d[b] == es[b]);
            }
        }
        lemma_map_of_len(d);
        assert forall|i: int| 0 <= i < d.len() implies (#[trigger] d[i]).0 != es.last().0 by {
            assert(d[i] == es[i]);
        }
        lemma_map_of_absent(d, es.last().0);
    }
}

} // verus!
