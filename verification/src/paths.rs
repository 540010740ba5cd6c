//! A small verified set of path strings.  The engine receives and returns
//! selections and keep-sets as plain lists of ids; this type gives them set
//! semantics with a `Set<Seq<char>>` view.

use vstd::prelude::*;

use crate::strutil::str_eq;

verus! {

broadcast use vstd::seq::Seq::lemma_push_to_set_commute;

/// A set of id strings, stored as a duplicate-free vector.
pub struct PathSet {
    pub items: Vec<String>,
}

impl View for PathSet {
    type V = Set<Seq<char>>;

    open spec fn view(&self) -> Set<Seq<char>> {
        self.items@.map_values(|s: String| s@).to_set()
    }
}

/// No two stored strings have the same content.
pub open spec fn nodup(ps: PathSet) -> bool {
    ps.items@.map_values(|s: String| s@).no_duplicates()
}

impl PathSet {
    /// The empty set.
    pub fn new() -> (r: PathSet)
        ensures
            r@ == Set::<Seq<char>>::empty(),
            nodup(r),
            r.items@.len() == 0,
    {
        let r = PathSet { items: Vec::new() };
        proof {
            assert(r.items@.map_values(|s: String| s@) =~= Seq::<Seq<char>>::empty());
            assert(r@ =~= Set::<Seq<char>>::empty());
        }
        r
    }

    /// Membership by content.
    pub fn contains(&self, s: &str) -> (r: bool)
        ensures
            r == self@.contains(s@),
    {
        let ghost views = self.items@.map_values(|t: String| t@);
        let mut k: usize = 0;
        while k < self.items.len()
            invariant
                k <= self.items@.len(),
                views == self.items@.map_values(|t: String| t@),
                forall|j: int| 0 <= j < k ==> #[trigger] views[j] != s@,
            decreases self.items@.len() - k,
        {
            if str_eq(self.items[k].as_str(), s) {
                proof {
                    assert(views[k as int] == s@);
                    assert(self@.contains(s@));
                }
                return true;
            }
            k = k + 1;
        }
        proof {
            if self@.contains(s@) {
                let j = choose|j: int| 0 <= j < views.len() && views[j] == s@;
                assert(false);
            }
        }
        false
    }

    /// Inserts a string; a no-op when the content is already present.
    pub fn insert(&mut self, s: String)
        requires
            nodup(*old(self)),
        ensures
            nodup(*final(self)),
            final(self)@ == old(self)@.insert(s@),
    {
        if !self.contains(s.as_str()) {
            let ghost prev = self.items@.map_values(|t: String| t@);
            self.items.push(s);
            proof {
                let now = self.items@.map_values(|t: String| t@);
                assert(now =~= prev.push(s@));
                assert(now.to_set() =~= prev.to_set().insert(s@));
            }
        } else {
            proof {
                assert(old(self)@.insert(s@) =~= old(self)@);
            }
        }
    }

    /// Removes a string by content; a no-op when it is absent.
    pub fn remove(&mut self, s: &str)
        requires
            nodup(*old(self)),
        ensures
            nodup(*final(self)),
            final(self)@ == old(self)@.remove(s@),
    {
        let ghost views = self.items@.map_values(|t: String| t@);
        let mut k: usize = 0;
        while k < self.items.len()
            invariant
                nodup(*self),
                *self == *old(self),
                k <= self.items@.len(),
                views == self.items@.map_values(|t: String| t@),
                forall|j: int| 0 <= j < k ==> #[trigger] views[j] != s@,
            decreases self.items@.len() - k,
        {
            if str_eq(self.items[k].as_str(), s) {
                let ghost prev = self.items@.map_values(|t: String| t@);
                self.items.remove(k);
                proof {
                    let now = self.items@.map_values(|t: String| t@);
                    assert(now =~= prev.subrange(0, k as int) + prev.subrange(
                        k + 1,
                        prev.len() as int,
                    ));
                    assert(prev =~= prev.subrange(0, k as int) + seq![prev[k as int]]
                        + prev.subrange(k + 1, prev.len() as int));
                    assert forall|j: int| 0 <= j < now.len() implies #[trigger] now[j] != s@ by {
                        if j < k {
                            assert(now[j] == prev[j]);
                        } else {
                            assert(now[j] == prev[j + 1]);
                            assert(prev[j + 1] != prev[k as int]);
                        }
                    }
                    assert(now.no_duplicates()) by {
                        assert forall|a: int, b: int|
                            0 <= a < b < now.len() implies #[trigger] now[a] != #[trigger] now[b] by {
                            let pa = if a < k {
                                a
                            } else {
                                a + 1
                            };
                            let pb = if b < k {
                                b
                            } else {
                                b + 1
                            };
                            assert(now[a] == prev[pa] && now[b] == prev[pb]);
                        }
                    }
                    assert(now.to_set() =~= prev.to_set().remove(s@)) by {
                        assert forall|p: Seq<char>| now.to_set().contains(p) implies prev.to_set()
                            .remove(s@).contains(p) by {
                            let j = choose|j: int| 0 <= j < now.len() && now[j] == p;
                            let pj = if j < k {
                                j
                            } else {
                                j + 1
                            };
                            assert(prev[pj] == p);
                        }
                        assert forall|p: Seq<char>|
                            prev.to_set().remove(s@).contains(p) implies now.to_set().contains(
                            p,
                        ) by {
                            let j = choose|j: int| 0 <= j < prev.len() && prev[j] == p;
                            if j < k {
                                assert(now[j] == p);
                            } else {
                                assert(j != k);
                                assert(now[j - 1] == p);
                            }
                        }
                    }
                }
                return ;
            }
            k = k + 1;
        }
        proof {
            if old(self)@.contains(s@) {
                let j = choose|j: int| 0 <= j < views.len() && views[j] == s@;
                assert(false);
            }
            assert(old(self)@.remove(s@) =~= old(self)@);
        }
    }

    /// The stored strings, in storage order.
    pub fn to_vec(self) -> (r: Vec<String>)
        ensures
            r@.map_values(|s: String| s@).to_set() == self@,
    {
        self.items
    }

    /// Builds a set from a list of strings, dropping duplicate contents.
    pub fn from_vec(list: Vec<String>) -> (r: PathSet)
        ensures
            nodup(r),
            r@ == list@.map_values(|s: String| s@).to_set(),
    {
        let mut r = PathSet::new();
        let mut k: usize = 0;
        while k < list.len()
            invariant
                k <= list@.len(),
                nodup(r),
                r@ == list@.map_values(|s: String| s@).subrange(0, k as int).to_set(),
            decreases list@.len() - k,
        {
            let s: String = list[k].clone();
            r.insert(s);
            proof {
                let views = list@.map_values(|t: String| t@);
                assert(views.subrange(0, k + 1) =~= views.subrange(0, k as int).push(
                    views[k as int],
                ));
                assert(views.subrange(0, k as int).push(views[k as int]).to_set()
                    =~= views.subrange(0, k as int).to_set().insert(views[k as int]));
            }
            k = k + 1;
        }
        proof {
            let views = list@.map_values(|t: String| t@);
            assert(views.subrange(0, views.len() as int) =~= views);
        }
        r
    }

    /// How many distinct contents the set holds.
    pub fn len(&self) -> (r: usize)
        requires
            nodup(*self),
        ensures
            r == self@.len(),
    {
        proof {
            self.items@.map_values(|t: String| t@).unique_seq_to_set();
        }
        self.items.len()
    }
}

/// The view of a path set is always a finite set.
pub proof fn lemma_pathset_finite(ps: PathSet)
    ensures
        ps@.finite(),
        ps@.len() <= ps.items@.len(),
{
    ps.items@.map_values(|t: String| t@).lemma_cardinality_of_set();
}

} // verus!
