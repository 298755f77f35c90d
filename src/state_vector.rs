use vstd::prelude::*;

verus! {

/// The clock that a replica is at in a map of clocks; an absent replica is at 0.
pub open spec fn at(m: Map<u64, u64>, r: u64) -> u64 {
    if m.contains_key(r) {
        m[r]
    } else {
        0
    }
}

/// Entries strictly ordered by replica id.
pub open spec fn sorted_ids(s: Seq<(u64, u64)>) -> bool {
    forall|i: int, j: int| 0 <= i < j < s.len() ==> s[i].0 < s[j].0
}

/// The map from replica id to next clock that a list of entries describes.
pub open spec fn map_of(s: Seq<(u64, u64)>) -> Map<u64, u64> {
    Map::new(
        |r: u64| exists|i: int| 0 <= i < s.len() && s[i].0 == r,
        |r: u64| s[choose|i: int| 0 <= i < s.len() && s[i].0 == r].1,
    )
}

/// With ids in order, an entry gives the clock of its replica.
pub proof fn lemma_map_of_entry(s: Seq<(u64, u64)>, i: int)
    requires
        sorted_ids(s),
        0 <= i < s.len(),
    ensures
        map_of(s).contains_key(s[i].0),
        map_of(s)[s[i].0] == s[i].1,
        at(map_of(s), s[i].0) == s[i].1,
{
    let r = s[i].0;
    assert(exists|k: int| 0 <= k < s.len() && s[k].0 == r);
    let j = choose|k: int| 0 <= k < s.len() && s[k].0 == r;
    if j < i {
        assert(s[j].0 < s[i].0);
    } else if i < j {
        assert(s[i].0 < s[j].0);
    }
}

/// For each replica, the next clock not yet applied from it.
#[derive(Debug)]
pub struct StateVector {
    pub entries: Vec<(u64, u64)>,
}

impl View for StateVector {
    type V = Map<u64, u64>;

    open spec fn view(&self) -> Map<u64, u64> {
        map_of(self.entries@)
    }
}

impl StateVector {
    pub open spec fn wf(&self) -> bool {
        sorted_ids(self.entries@)
    }

    /// The all-zero state vector.
    pub fn new() -> (r: StateVector)
        ensures
            r.wf(),
            r@ == Map::<u64, u64>::empty(),
            r.entries@.len() == 0,
    {
        let r = StateVector { entries: Vec::new() };
        assert(r@ =~= Map::<u64, u64>::empty());
        r
    }

    pub fn copy(&self) -> (r: StateVector)
        ensures
            r.entries@ == self.entries@,
    {
        let mut entries: Vec<(u64, u64)> = Vec::new();
        let mut i: usize = 0;
        while i < self.entries.len()
            invariant
                0 <= i <= self.entries@.len(),
                entries@ == self.entries@.subrange(0, i as int),
            decreases self.entries@.len() - i,
        {
            entries.push(self.entries[i]);
            i = i + 1;
            assert(entries@ =~= self.entries@.subrange(0, i as int));
        }
        assert(entries@ =~= self.entries@);
        StateVector { entries }
    }

    /// The next clock expected from replica `r`.
    pub fn get(&self, r: u64) -> (c: u64)
        requires
            self.wf(),
        ensures
            c == at(self@, r),
    {
        let mut i: usize = 0;
        while i < self.entries.len()
            invariant
                self.wf(),
                0 <= i <= self.entries@.len(),
                forall|k: int| 0 <= k < i ==> self.entries@[k].0 != r,
            decreases self.entries@.len() - i,
        {
            if self.entries[i].0 == r {
                proof {
                    lemma_map_of_entry(self.entries@, i as int);
                }
                return self.entries[i].1;
            }
            i = i + 1;
        }
        assert(!self@.contains_key(r));
        0
    }

    /// Moves replica `r` on by one clock.
    pub fn advance(&mut self, r: u64)
        requires
            old(self).wf(),
            at(old(self)@, r) < u64::MAX,
        ensures
            final(self).wf(),
            final(self)@ == old(self)@.insert(r, (at(old(self)@, r) + 1) as u64),
    {
        let ghost s0 = self.entries@;
        let mut i: usize = 0;
        while i < self.entries.len() && self.entries[i].0 < r
            invariant
                self.entries@ == s0,
                sorted_ids(s0),
                0 <= i <= s0.len(),
                forall|k: int| 0 <= k < i ==> s0[k].0 < r,
            decreases s0.len() - i,
        {
            i = i + 1;
        }
        if i < self.entries.len() && self.entries[i].0 == r {
            let v = self.entries[i].1;
            proof {
                lemma_map_of_entry(s0, i as int);
            }
            self.entries.set(i, (r, v + 1));
            proof {
                let s1 = self.entries@;
                assert(sorted_ids(s1));
                assert forall|q: u64| map_of(s1).contains_key(q) == map_of(s0).insert(r, (v + 1) as u64).contains_key(q) by {
                    if map_of(s0).contains_key(q) {
                        let j = choose|k: int| 0 <= k < s0.len() && s0[k].0 == q;
                        assert(s1[j].0 == q);
                    }
                    if map_of(s1).contains_key(q) {
                        let j = choose|k: int| 0 <= k < s1.len() && s1[k].0 == q;
                        assert(s0[j].0 == q);
                    }
                }
                assert forall|q: u64| #[trigger] map_of(s1).contains_key(q) implies map_of(s1)[q] == map_of(s0).insert(r, (v + 1) as u64)[q] by {
                    let j = choose|k: int| 0 <= k < s1.len() && s1[k].0 == q;
                    lemma_map_of_entry(s1, j);
                    if q != r {
                        assert(s0[j].0 == q);
                        lemma_map_of_entry(s0, j);
                    }
                }
                assert(map_of(s1) =~= map_of(s0).insert(r, (v + 1) as u64));
            }
        } else {
            proof {
                assert forall|k: int| 0 <= k < s0.len() implies s0[k].0 != r by {
                    if k >= i {
                        assert(s0[i as int].0 > r);
                        if k > i {
                            assert(s0[i as int].0 < s0[k].0);
                        }
                    }
                }
                assert(!map_of(s0).contains_key(r));
            }
            self.entries.insert(i, (r, 1));
            proof {
                let s1 = self.entries@;
                assert(s1 == s0.insert(i as int, (r, 1u64)));
                assert(sorted_ids(s1)) by {
                    assert forall|a: int, b: int| 0 <= a < b < s1.len() implies s1[a].0 < s1[b].0 by {
                        if a < i && b > i {
                            assert(s1[b] == s0[b - 1]);
                        } else if a > i {
                            assert(s1[a] == s0[a - 1] && s1[b] == s0[b - 1]);
                        } else if a == i {
                            assert(s1[b] == s0[b - 1]);
                            if b - 1 > i {
                                assert(s0[i as int].0 < s0[b - 1].0);
                            }
                        }
                    }
                }
                let m1 = map_of(s0).insert(r, 1u64);
                assert forall|q: u64| map_of(s1).contains_key(q) == m1.contains_key(q) by {
                    if map_of(s0).contains_key(q) {
                        let j = choose|k: int| 0 <= k < s0.len() && s0[k].0 == q;
                        if j < i {
                            assert(s1[j].0 == q);
                        } else {
                            assert(s1[j + 1].0 == q);
                        }
                    }
                    if q == r {
                        assert(s1[i as int].0 == q);
                    }
                    if map_of(s1).contains_key(q) && q != r {
                        let j = choose|k: int| 0 <= k < s1.len() && s1[k].0 == q;
                        if j < i {
                            assert(s0[j].0 == q);
                        } else {
                            assert(s0[j - 1].0 == q);
                        }
                    }
                }
                assert forall|q: u64| #[trigger] map_of(s1).contains_key(q) implies map_of(s1)[q] == m1[q] by {
                    let j = choose|k: int| 0 <= k < s1.len() && s1[k].0 == q;
                    lemma_map_of_entry(s1, j);
                    if q != r {
                        if j < i {
                            assert(s0[j].0 == q);
                            lemma_map_of_entry(s0, j);
                        } else {
                            assert(s0[j - 1].0 == q);
                            lemma_map_of_entry(s0, j - 1);
                        }
                    } else {
                        lemma_map_of_entry(s1, i as int);
                    }
                }
                assert(map_of(s1) =~= m1);
            }
        }
    }
}

} // verus!
