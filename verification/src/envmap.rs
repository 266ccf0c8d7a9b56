use crate::text::{chars_eq, chars_to_string, copy_range, to_chars};
use vstd::prelude::*;

verus! {

// ---------------------------------------------------------------------------
// The mapping a parsed buffer denotes.
// ---------------------------------------------------------------------------
/// The views of a sequence of name/value entries.
pub open spec fn pairs_view(es: Seq<(Vec<char>, Vec<char>)>) -> Seq<(Seq<char>, Seq<char>)> {
    es.map_values(|e: (Vec<char>, Vec<char>)| (e.0@, e.1@))
}

/// The mapping denoted by a sequence of name/value pairs: pairs are inserted
/// in order, so a later pair overwrites an earlier one with the same name.
pub open spec fn map_of(ps: Seq<(Seq<char>, Seq<char>)>) -> Map<Seq<char>, Seq<char>>
    decreases ps.len(),
{
    if ps.len() == 0 {
        Map::<Seq<char>, Seq<char>>::empty()
    } else {
        map_of(ps.drop_last()).insert(ps.last().0, ps.last().1)
    }
}

/// Whether no two pairs share a name.
pub open spec fn unique_keys(ps: Seq<(Seq<char>, Seq<char>)>) -> bool {
    forall|j: int, k: int| 0 <= j < k < ps.len() ==> (#[trigger] ps[j]).0 != (#[trigger] ps[k]).0
}

pub proof fn lemma_map_of_push(ps: Seq<(Seq<char>, Seq<char>)>, p: (Seq<char>, Seq<char>))
    ensures
        map_of(ps.push(p)) == map_of(ps).insert(p.0, p.1),
{
    assert(ps.push(p).drop_last() =~= ps);
    assert(ps.push(p).last() == p);
}

/// A name stands in the mapping exactly when some pair carries it.
pub proof fn lemma_map_of_keys(ps: Seq<(Seq<char>, Seq<char>)>)
    ensures
        forall|k: Seq<char>| #[trigger]
            map_of(ps).contains_key(k) ==> exists|j: int|
                0 <= j < ps.len() && (#[trigger] ps[j]).0 == k,
        forall|j: int| 0 <= j < ps.len() ==> map_of(ps).contains_key((#[trigger] ps[j]).0),
    decreases ps.len(),
{
    if ps.len() > 0 {
        lemma_map_of_keys(ps.drop_last());
        assert forall|k: Seq<char>| #[trigger] map_of(ps).contains_key(k) implies exists|j: int|
            0 <= j < ps.len() && (#[trigger] ps[j]).0 == k by {
            if k == ps.last().0 {
                assert(ps[ps.len() - 1].0 == k);
            } else {
                assert(map_of(ps.drop_last()).contains_key(k));
                let j = choose|j: int|
                    0 <= j < ps.drop_last().len() && (#[trigger] ps.drop_last()[j]).0 == k;
                assert(ps[j].0 == k);
            }
        }
        assert forall|j: int| 0 <= j < ps.len() implies map_of(ps).contains_key(
            (#[trigger] ps[j]).0,
        ) by {
            if j < ps.len() - 1 {
                assert(ps.drop_last()[j].0 == ps[j].0);
                assert(map_of(ps.drop_last()).contains_key(ps[j].0));
            }
        }
    }
}

/// With unique names, each pair's value is the one the mapping assigns.
pub proof fn lemma_map_of_index(ps: Seq<(Seq<char>, Seq<char>)>)
    requires
        unique_keys(ps),
    ensures
        forall|j: int|
            0 <= j < ps.len() ==> map_of(ps).contains_key((#[trigger] ps[j]).0) && map_of(ps)[(
            #[trigger] ps[j]).0] == ps[j].1,
    decreases ps.len(),
{
    if ps.len() > 0 {
        assert(unique_keys(ps.drop_last())) by {
            assert forall|j: int, k: int|
                0 <= j < k < ps.drop_last().len() implies (#[trigger] ps.drop_last()[j]).0 != (
            #[trigger] ps.drop_last()[k]).0 by {
                assert(ps[j].0 != ps[k].0);
            }
        }
        lemma_map_of_index(ps.drop_last());
        assert forall|j: int| 0 <= j < ps.len() implies map_of(ps).contains_key(
            (#[trigger] ps[j]).0,
        ) && map_of(ps)[(#[trigger] ps[j]).0] == ps[j].1 by {
            if j < ps.len() - 1 {
                assert(ps.drop_last()[j] == ps[j]);
                assert(ps[j].0 != ps.last().0);
            }
        }
    }
}

// ---------------------------------------------------------------------------
// The executable mapping.
// ---------------------------------------------------------------------------
/// An ordered mapping from variable names to values, with unique names.
pub struct EnvMap {
    entries: Vec<(Vec<char>, Vec<char>)>,
}

impl View for EnvMap {
    type V = Map<Seq<char>, Seq<char>>;

    closed spec fn view(&self) -> Map<Seq<char>, Seq<char>> {
        map_of(pairs_view(self.entries@))
    }
}

impl EnvMap {
    /// Well-formedness: no two entries share a name.  Constructors
    /// establish it and every method preserves it.
    pub closed spec fn wf(&self) -> bool {
        unique_keys(pairs_view(self.entries@))
    }

    /// The number of entries held.
    pub closed spec fn spec_len(&self) -> nat {
        self.entries@.len()
    }

    /// The name of the entry at `j`.
    pub closed spec fn spec_key_at(&self, j: int) -> Seq<char> {
        self.entries@[j].0@
    }

    /// The value of the entry at `j`.
    pub closed spec fn spec_value_at(&self, j: int) -> Seq<char> {
        self.entries@[j].1@
    }

    /// Creates an empty mapping.
    pub fn new() -> (r: EnvMap)
        ensures
            r@ == Map::<Seq<char>, Seq<char>>::empty(),
            r.spec_len() == 0,
            r.wf(),
    {
        let r = EnvMap { entries: Vec::new() };
        proof {
            assert(pairs_view(r.entries@).len() == 0);
        }
        r
    }

    /// Index of the entry carrying `name`, if any.
    fn find_idx(&self, name: &Vec<char>) -> (r: Option<usize>)
        ensures
            match r {
                Some(j) => j < self.entries@.len() && self.entries@[j as int].0@ == name@,
                None => forall|j: int|
                    0 <= j < self.entries@.len() ==> (#[trigger] self.entries@[j]).0@ != name@,
            },
    {
        let mut j: usize = 0;
        while j < self.entries.len()
            invariant
                j <= self.entries@.len(),
                forall|i: int| 0 <= i < j ==> (#[trigger] self.entries@[i]).0@ != name@,
            decreases self.entries@.len() - j,
        {
            let e = &self.entries[j];
            if chars_eq(&e.0, name) {
                return Some(j);
            }
            j = j + 1;
        }
        None
    }

    /// Binds `name` to `value`, overwriting any earlier binding.
    pub fn insert_chars(&mut self, name: Vec<char>, value: Vec<char>)
        requires
            old(self).wf(),
        ensures
            final(self)@ == old(self)@.insert(name@, value@),
            final(self).wf(),
    {
        let ghost qs = pairs_view(self.entries@);
        let idx = self.find_idx(&name);
        match idx {
            Some(j) => {
                let ghost nv = (name@, value@);
                let _ = self.entries.remove(j);
                self.entries.push((name, value));
                proof {
                    let qs2 = pairs_view(self.entries@);
                    assert(qs2 =~= qs.remove(j as int).push(nv));
                    assert(unique_keys(qs2)) by {
                        assert forall|a: int, b: int|
                            0 <= a < b < qs2.len() implies (#[trigger] qs2[a]).0 != (
                        #[trigger] qs2[b]).0 by {
                            if b < qs2.len() - 1 {
                                if a < j && b < j {
                                    assert(qs2[a] == qs[a] && qs2[b] == qs[b]);
                                } else if a < j {
                                    assert(qs2[a] == qs[a] && qs2[b] == qs[b + 1]);
                                } else {
                                    assert(qs2[a] == qs[a + 1] && qs2[b] == qs[b + 1]);
                                }
                            } else {
                                // the new last entry carries `name`, which no
                                // remaining entry carries
                                assert(qs2[b].0 == nv.0);
                                if a < j {
                                    assert(qs2[a] == qs[a]);
                                    assert(qs[a].0 != qs[j as int].0);
                                } else {
                                    assert(qs2[a] == qs[a + 1]);
                                    assert(qs[a + 1].0 != qs[j as int].0);
                                }
                            }
                        }
                    }
                    lemma_map_of_keys(qs);
                    lemma_map_of_index(qs);
                    lemma_map_of_keys(qs2);
                    lemma_map_of_index(qs2);
                    let m1 = map_of(qs2);
                    let m2 = map_of(qs).insert(nv.0, nv.1);
                    assert forall|k: Seq<char>| #[trigger]
                        m1.dom().contains(k) implies m2.dom().contains(k) && m1[k] == m2[k] by {
                        assert(m1.contains_key(k));
                        if k == nv.0 {
                            assert(qs2[qs2.len() - 1] == nv);
                            assert(m1[k] == nv.1);
                        } else {
                            let a = choose|a: int| 0 <= a < qs2.len() && (#[trigger] qs2[a]).0 == k;
                            assert(a < qs2.len() - 1);
                            let b: int = if a < j {
                                a
                            } else {
                                a + 1
                            };
                            assert(qs[b] == qs2[a]);
                            assert(map_of(qs).contains_key(k) && map_of(qs)[k] == qs2[a].1);
                            assert(m1[k] == qs2[a].1);
                        }
                    }
                    assert forall|k: Seq<char>| #[trigger]
                        m2.dom().contains(k) implies m1.dom().contains(k) by {
                        if k == nv.0 {
                            assert(qs2[qs2.len() - 1] == nv);
                        } else {
                            assert(map_of(qs).contains_key(k));
                            let b = choose|b: int| 0 <= b < qs.len() && (#[trigger] qs[b]).0 == k;
                            assert(b != j);
                            let a: int = if b < j {
                                b
                            } else {
                                b - 1
                            };
                            assert(qs2[a] == qs[b]);
                            assert(m1.contains_key(k));
                        }
                    }
                    assert(m1.dom() =~= m2.dom());
                    assert(m1 =~= m2);
                }
            },
            None => {
                let ghost nv = (name@, value@);
                self.entries.push((name, value));
                proof {
                    let qs2 = pairs_view(self.entries@);
                    assert(qs2 =~= qs.push(nv));
                    assert(unique_keys(qs2)) by {
                        assert forall|a: int, b: int|
                            0 <= a < b < qs2.len() implies (#[trigger] qs2[a]).0 != (
                        #[trigger] qs2[b]).0 by {
                            if b < qs2.len() - 1 {
                                assert(qs2[a] == qs[a] && qs2[b] == qs[b]);
                            } else {
                                assert(qs2[a] == qs[a] && qs2[b] == nv);
                            }
                        }
                    }
                    lemma_map_of_push(qs, nv);
                }
            },
        }
    }

    /// Whether `name` is bound.
    pub fn contains_chars(&self, name: &Vec<char>) -> (r: bool)
        requires
            self.wf(),
        ensures
            r == self@.contains_key(name@),
    {
        proof {
            lemma_map_of_keys(pairs_view(self.entries@));
            lemma_map_of_index(pairs_view(self.entries@));
        }
        match self.find_idx(name) {
            Some(j) => {
                proof {
                    assert(pairs_view(self.entries@)[j as int].0 == self.entries@[j as int].0@);
                }
                true
            },
            None => {
                proof {
                    if self@.contains_key(name@) {
                        let j = choose|j: int|
                            0 <= j < pairs_view(self.entries@).len() && (#[trigger] pairs_view(
                                self.entries@,
                            )[j]).0 == name@;
                        assert(self.entries@[j].0@ == name@);
                    }
                }
                false
            },
        }
    }

    /// The value bound to `name`, if any.
    pub fn get(&self, name: &str) -> (r: Option<String>)
        requires
            self.wf(),
        ensures
            match r {
                Some(v) => self@.contains_key(name@) && v@ == self@[name@],
                None => !self@.contains_key(name@),
            },
    {
        proof {
            lemma_map_of_keys(pairs_view(self.entries@));
            lemma_map_of_index(pairs_view(self.entries@));
        }
        let nv = to_chars(name);
        match self.find_idx(&nv) {
            Some(j) => {
                proof {
                    assert(pairs_view(self.entries@)[j as int] == (
                        self.entries@[j as int].0@,
                        self.entries@[j as int].1@,
                    ));
                }
                let e = &self.entries[j];
                Some(chars_to_string(&e.1))
            },
            None => {
                proof {
                    if self@.contains_key(name@) {
                        let j = choose|j: int|
                            0 <= j < pairs_view(self.entries@).len() && (#[trigger] pairs_view(
                                self.entries@,
                            )[j]).0 == name@;
                        assert(self.entries@[j].0@ == name@);
                    }
                }
                None
            },
        }
    }

    /// The number of entries held.
    pub fn len(&self) -> (r: usize)
        ensures
            r == self.spec_len(),
    {
        self.entries.len()
    }

    /// The name and value of the entry at `j`.
    pub fn entry_at(&self, j: usize) -> (r: (String, String))
        requires
            self.wf(),
            j < self.spec_len(),
        ensures
            r.0@ == self.spec_key_at(j as int),
            r.1@ == self.spec_value_at(j as int),
            self@.contains_key(r.0@) && self@[r.0@] == r.1@,
    {
        proof {
            lemma_map_of_index(pairs_view(self.entries@));
            assert(pairs_view(self.entries@)[j as int].0 == self.entries@[j as int].0@);
        }
        let e = &self.entries[j];
        (chars_to_string(&e.0), chars_to_string(&e.1))
    }

    /// Writes every binding of `self` into `store`.  With
    /// `override_existing` set, the binding of `self` always wins; without
    /// it, a name that `store` already binds is left alone.
    pub fn populate_into(&self, store: &mut EnvMap, override_existing: bool)
        requires
            self.wf(),
            old(store).wf(),
        ensures
            final(store).wf(),
            forall|k: Seq<char>| #[trigger]
                final(store)@.contains_key(k) == (old(store)@.contains_key(k)
                    || self@.contains_key(k)),
            forall|k: Seq<char>| #[trigger]
                self@.contains_key(k) && (override_existing || !old(store)@.contains_key(k))
                    ==> final(store)@[k] == self@[k],
            forall|k: Seq<char>| #[trigger]
                old(store)@.contains_key(k) && (!override_existing || !self@.contains_key(k))
                    ==> final(store)@[k] == old(store)@[k],
    {
        proof {
            lemma_map_of_keys(pairs_view(self.entries@));
            lemma_map_of_index(pairs_view(self.entries@));
        }
        let ghost ps = pairs_view(self.entries@);
        let mut j: usize = 0;
        while j < self.entries.len()
            invariant
                j <= self.entries@.len(),
                ps == pairs_view(self.entries@),
                unique_keys(ps),
                forall|i: int|
                    0 <= i < ps.len() ==> self@.contains_key((#[trigger] ps[i]).0) && self@[(
                    #[trigger] ps[i]).0] == ps[i].1,
                forall|k: Seq<char>| #[trigger]
                    self@.contains_key(k) ==> exists|i: int|
                        0 <= i < ps.len() && (#[trigger] ps[i]).0 == k,
                forall|k: Seq<char>| #[trigger]
                    store@.contains_key(k) == (old(store)@.contains_key(k) || exists|i: int|
                        0 <= i < j && (#[trigger] ps[i]).0 == k),
                forall|i: int|
                    0 <= i < j && (override_existing || !old(store)@.contains_key(
                        (#[trigger] ps[i]).0,
                    )) ==> store@[ps[i].0] == ps[i].1,
                forall|k: Seq<char>| #[trigger]
                    old(store)@.contains_key(k) && (!override_existing || !(exists|i: int|
                        0 <= i < j && (#[trigger] ps[i]).0 == k)) ==> store@[k] == old(
                        store,
                    )@[k],
                store.wf(),
            decreases self.entries@.len() - j,
        {
            let e = &self.entries[j];
            proof {
                assert(ps[j as int] == (e.0@, e.1@));
            }
            let skip = !override_existing && store.contains_chars(&e.0);
            if !skip {
                let kc = copy_range(&e.0, 0, e.0.len());
                let vc = copy_range(&e.1, 0, e.1.len());
                proof {
                    assert(kc@ =~= e.0@);
                    assert(vc@ =~= e.1@);
                }
                store.insert_chars(kc, vc);
            }
            proof {
                if skip {
                    assert(store@.contains_key(ps[j as int].0));
                    assert(old(store)@.contains_key(ps[j as int].0)) by {
                        if !old(store)@.contains_key(ps[j as int].0) {
                            let i = choose|i: int|
                                0 <= i < j && (#[trigger] ps[i]).0 == ps[j as int].0;
                            assert(false);
                        }
                    }
                }
            }
            j = j + 1;
        }
        proof {
            assert forall|k: Seq<char>| #[trigger]
                final(store)@.contains_key(k) == (old(store)@.contains_key(k)
                    || self@.contains_key(k)) by {
                if exists|i: int| 0 <= i < ps.len() && (#[trigger] ps[i]).0 == k {
                    let i = choose|i: int| 0 <= i < ps.len() && (#[trigger] ps[i]).0 == k;
                    assert(self@.contains_key(k));
                }
            }
            assert forall|k: Seq<char>| #[trigger]
                self@.contains_key(k) && (override_existing || !old(store)@.contains_key(k))
                    implies final(store)@[k] == self@[k] by {
                let i = choose|i: int| 0 <= i < ps.len() && (#[trigger] ps[i]).0 == k;
                assert(store@[ps[i].0] == ps[i].1);
            }
        }
    }
}

} // verus!
