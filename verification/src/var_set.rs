//! A small set of variable names, kept in insertion order so that every
//! listing of it is deterministic.

use vstd::prelude::*;
use crate::text::str_eq;

verus! {

/// A set of names without repetition, in insertion order.
pub struct VarSet {
    pub items: Vec<String>,
}

/// The names of a list of strings.
pub open spec fn names_of(v: Seq<String>) -> Seq<Seq<char>> {
    v.map_values(|s: String| s@)
}

impl VarSet {
    /// The set of names held.
    pub open spec fn view(&self) -> Set<Seq<char>> {
        names_of(self.items@).to_set()
    }

    /// No name is held twice.
    pub open spec fn wf(&self) -> bool {
        names_of(self.items@).no_duplicates()
    }

    pub fn new() -> (r: VarSet)
        ensures
            r.wf(),
            r.view() == Set::<Seq<char>>::empty(),
            r.items@.len() == 0,
    {
        let r = VarSet { items: Vec::new() };
        assert(names_of(r.items@) =~= Seq::<Seq<char>>::empty());
        assert(r.view() =~= Set::<Seq<char>>::empty());
        r
    }

    fn position(&self, name: &str) -> (r: Option<usize>)
        ensures
            match r {
                Some(k) => k < self.items@.len() && self.items@[k as int]@ == name@,
                None => !self.view().contains(name@),
            },
    {
        let mut k: usize = 0;
        while k < self.items.len()
            invariant
                k <= self.items@.len(),
                forall|m: int| 0 <= m < k ==> self.items@[m]@ != name@,
            decreases self.items@.len() - k,
        {
            if str_eq(self.items[k].as_str(), name) {
                return Some(k);
            }
            k = k + 1;
        }
        proof {
            if names_of(self.items@).to_set().contains(name@) {
                let m = names_of(self.items@).index_of(name@);
                assert(names_of(self.items@)[m] == self.items@[m]@);
            }
        }
        None
    }

    pub fn contains(&self, name: &str) -> (r: bool)
        ensures
            r == self.view().contains(name@),
    {
        match self.position(name) {
            Some(k) => {
                assert(names_of(self.items@)[k as int] == name@);
                true
            },
            None => false,
        }
    }

    pub fn insert(&mut self, name: &str)
        requires
            old(self).wf(),
        ensures
            final(self).wf(),
            final(self).view() == old(self).view().insert(name@),
    {
        match self.position(name) {
            None => {
                let ghost prev = names_of(self.items@);
                self.items.push(name.to_string());
                proof {
                    assert(names_of(self.items@) =~= prev.push(name@));
                    assert(names_of(self.items@).to_set() =~= prev.to_set().insert(name@)) by {
                        assert forall|x| names_of(self.items@).to_set().contains(x) implies prev.to_set().insert(name@).contains(x) by {
                            let j = names_of(self.items@).index_of(x);
                            if j < prev.len() {
                                assert(prev[j] == x);
                            }
                        }
                        assert forall|x| prev.to_set().insert(name@).contains(x) implies names_of(self.items@).to_set().contains(x) by {
                            if x == name@ {
                                assert(names_of(self.items@)[prev.len() as int] == x);
                            } else {
                                let j = prev.index_of(x);
                                assert(names_of(self.items@)[j] == x);
                            }
                        }
                    }
                }
            },
            Some(k) => {
                assert(names_of(self.items@)[k as int] == name@);
                assert(self.view().insert(name@) =~= self.view());
            },
        }
    }

    pub fn remove(&mut self, name: &str)
        requires
            old(self).wf(),
        ensures
            final(self).wf(),
            final(self).view() == old(self).view().remove(name@),
    {
        let ghost old_names = names_of(self.items@);
        let mut kept: Vec<String> = Vec::new();
        let mut k: usize = 0;
        while k < self.items.len()
            invariant
                k <= self.items@.len(),
                old_names == names_of(self.items@),
                old_names.no_duplicates(),
                forall|x: Seq<char>| names_of(kept@).contains(x) <==> (x != name@ && old_names.subrange(0, k as int).contains(x)),
                names_of(kept@).no_duplicates(),
            decreases self.items@.len() - k,
        {
            let ghost before = names_of(kept@);
            let ghost sk = old_names.subrange(0, k as int);
            let ghost sk1 = old_names.subrange(0, k + 1);
            proof {
                assert(sk1 =~= sk.push(old_names[k as int]));
                assert(old_names[k as int] == self.items@[k as int]@);
                assert forall|x: Seq<char>| sk1.contains(x) <==> (sk.contains(x) || x == old_names[k as int]) by {
                    if sk1.contains(x) {
                        let j = sk1.index_of(x);
                        if j < k {
                            assert(sk[j] == x);
                        }
                    }
                    if sk.contains(x) {
                        let j = sk.index_of(x);
                        assert(sk1[j] == x);
                    }
                    if x == old_names[k as int] {
                        assert(sk1[k as int] == x);
                    }
                }
            }
            if !str_eq(self.items[k].as_str(), name) {
                let c = self.items[k].clone();
                kept.push(c);
                proof {
                    assert(names_of(kept@) =~= before.push(old_names[k as int]));
                    assert forall|m: int| 0 <= m < before.len() implies before[m] != old_names[k as int] by {
                        assert(before.contains(before[m]));
                        let j = sk.index_of(before[m]);
                        assert(old_names[j] == before[m]);
                    }
                    assert forall|x: Seq<char>| names_of(kept@).contains(x) <==> (before.contains(x) || x == old_names[k as int]) by {
                        if names_of(kept@).contains(x) {
                            let j = names_of(kept@).index_of(x);
                            if j < before.len() {
                                assert(before[j] == x);
                            }
                        }
                        if before.contains(x) {
                            let j = before.index_of(x);
                            assert(names_of(kept@)[j] == x);
                        }
                        if x == old_names[k as int] {
                            assert(names_of(kept@)[before.len() as int] == x);
                        }
                    }
                }
            }
            k = k + 1;
            assert(sk1 == old_names.subrange(0, k as int));
            assert forall|x: Seq<char>| names_of(kept@).contains(x) <==> (x != name@ && old_names.subrange(0, k as int).contains(x)) by {
                assert(before.contains(x) <==> (x != name@ && sk.contains(x)));
                assert(sk1.contains(x) <==> (sk.contains(x) || x == old_names[k - 1]));
                if old_names[k - 1] == name@ {
                    assert(names_of(kept@) == before);
                } else {
                    assert(names_of(kept@).contains(x) <==> (before.contains(x) || x == old_names[k - 1]));
                }
            }
        }
        self.items = kept;
        proof {
            assert(old_names.subrange(0, old_names.len() as int) =~= old_names);
            assert(self.view() =~= names_of(old(self).items@).to_set().remove(name@));
        }
    }

    pub fn clear(&mut self)
        ensures
            final(self).wf(),
            final(self).view() == Set::<Seq<char>>::empty(),
    {
        *self = VarSet::new();
    }

    /// An independent copy.
    pub fn copy(&self) -> (r: VarSet)
        ensures
            r.view() == self.view(),
            r.wf() == self.wf(),
            names_of(r.items@) == names_of(self.items@),
    {
        let mut items: Vec<String> = Vec::new();
        let mut k: usize = 0;
        while k < self.items.len()
            invariant
                k <= self.items@.len(),
                names_of(items@) == names_of(self.items@).subrange(0, k as int),
            decreases self.items@.len() - k,
        {
            let ghost prev = names_of(items@);
            let c = self.items[k].clone();
            items.push(c);
            assert(names_of(items@) =~= prev.push(self.items@[k as int]@));
            k = k + 1;
            assert(names_of(items@) =~= names_of(self.items@).subrange(0, k as int));
        }
        assert(names_of(self.items@).subrange(0, self.items@.len() as int) =~= names_of(self.items@));
        VarSet { items }
    }

    /// Adds every name of `other`.
    pub fn extend(&mut self, other: &VarSet)
        requires
            old(self).wf(),
        ensures
            final(self).wf(),
            final(self).view() == old(self).view().union(other.view()),
    {
        let ghost start = self.view();
        let ghost others = names_of(other.items@);
        let mut k: usize = 0;
        while k < other.items.len()
            invariant
                k <= other.items@.len(),
                others == names_of(other.items@),
                self.wf(),
                self.view() == start.union(others.subrange(0, k as int).to_set()),
            decreases other.items@.len() - k,
        {
            self.insert(other.items[k].as_str());
            proof {
                assert(others.subrange(0, k + 1).to_set() =~= others.subrange(0, k as int).to_set().insert(others[k as int])) by {
                    assert forall|x| others.subrange(0, k + 1).to_set().contains(x) implies others.subrange(0, k as int).to_set().insert(others[k as int]).contains(x) by {
                        let j = others.subrange(0, k + 1).index_of(x);
                        if j < k {
                            assert(others.subrange(0, k as int)[j] == x);
                        }
                    }
                    assert forall|x| others.subrange(0, k as int).to_set().insert(others[k as int]).contains(x) implies others.subrange(0, k + 1).to_set().contains(x) by {
                        if x == others[k as int] {
                            assert(others.subrange(0, k + 1)[k as int] == x);
                        } else {
                            let j = others.subrange(0, k as int).index_of(x);
                            assert(others.subrange(0, k + 1)[j] == x);
                        }
                    }
                }
                assert(self.view() =~= start.union(others.subrange(0, k + 1).to_set()));
            }
            k = k + 1;
        }
        assert(others.subrange(0, others.len() as int) =~= others);
    }
}

} // verus!
