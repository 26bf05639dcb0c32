//! Dense immutable set of component type ids.
//!
//! The set assigns each contained id a dense index below `upper_bound()`.
//! Ids are kept strictly sorted, so the indexing depends only on which ids
//! are present, never on the order in which they were supplied.

use vstd::prelude::*;

verus! {

/// A set of component type ids with a dense index for each contained id.
pub struct TypeIdSet {
    pub ids: Vec<u64>,
}

impl TypeIdSet {
    /// Canonical form: ids strictly increasing, hence no duplicates.
    pub open spec fn wf(&self) -> bool {
        forall|i: int, j: int| 0 <= i < j < self.ids@.len() ==> self.ids@[i] < self.ids@[j]
    }

    pub open spec fn spec_contains(&self, id: u64) -> bool {
        self.ids@.contains(id)
    }

    /// The dense index of a contained id: its position in the sorted order.
    pub open spec fn spec_index_of(&self, id: u64) -> int {
        choose|k: int| 0 <= k < self.ids@.len() && self.ids@[k] == id
    }

    pub open spec fn spec_len(&self) -> int {
        self.ids@.len() as int
    }

    /// Builds the set from ids in any order, ignoring duplicates.
    pub fn new(input: &Vec<u64>) -> (s: Self)
        ensures
            s.wf(),
            forall|id: u64| s.spec_contains(id) <==> input@.contains(id),
    {
        let mut ids: Vec<u64> = Vec::new();
        let mut n: usize = 0;
        while n < input.len()
            invariant
                n <= input@.len(),
                forall|i: int, j: int| 0 <= i < j < ids@.len() ==> ids@[i] < ids@[j],
                forall|id: u64| ids@.contains(id) <==> input@.take(n as int).contains(id),
            decreases input@.len() - n,
        {
            let x = input[n];
            let mut p: usize = 0;
            while p < ids.len() && ids[p] < x
                invariant
                    p <= ids@.len(),
                    forall|i: int| 0 <= i < p ==> ids@[i] < x,
                decreases ids@.len() - p,
            {
                p = p + 1;
            }
            let ghost pre = ids@;
            if p < ids.len() && ids[p] == x {
                // already present
                proof {
                    assert(ids@.contains(x)) by {
                        assert(ids@[p as int] == x);
                    }
                }
            } else {
                ids.insert(p, x);
                proof {
                    assert forall|i: int, j: int| 0 <= i < j < ids@.len() implies ids@[i]
                        < ids@[j] by {
                        if j < p {
                            assert(ids@[i] == pre[i] && ids@[j] == pre[j]);
                        } else if i > p {
                            assert(ids@[i] == pre[i - 1] && ids@[j] == pre[j - 1]);
                        } else if i < p && j == p {
                            assert(ids@[i] == pre[i] && ids@[j] == x);
                        } else if i == p {
                            assert(ids@[i] == x && ids@[j] == pre[j - 1]);
                            assert(pre[j - 1] >= x);
                            assert(pre[j - 1] != x) by {
                                if j - 1 == p {
                                    // pre[p] >= x and pre[p] != x by the branch test
                                } else {
                                    assert(pre[p as int] < pre[j - 1]);
                                }
                            }
                        } else {
                            assert(i < p && j > p);
                            assert(ids@[i] == pre[i] && ids@[j] == pre[j - 1]);
                            assert(pre[i] < x);
                            assert(pre[j - 1] >= x);
                        }
                    }
                    assert forall|id: u64| ids@.contains(id) implies (pre.contains(id) || id
                        == x) by {
                        let k = choose|k: int| 0 <= k < ids@.len() && ids@[k] == id;
                        if k < p {
                            assert(pre[k] == id);
                        } else if k > p {
                            assert(pre[k - 1] == id);
                        }
                    }
                    assert forall|id: u64| pre.contains(id) implies ids@.contains(id) by {
                        let k = choose|k: int| 0 <= k < pre.len() && pre[k] == id;
                        if k < p {
                            assert(ids@[k] == id);
                        } else {
                            assert(ids@[k + 1] == id);
                        }
                    }
                    assert(ids@.contains(x)) by {
                        assert(ids@[p as int] == x);
                    }
                }
            }
            proof {
                assert(input@.take(n + 1 as int).drop_last() =~= input@.take(n as int));
                assert forall|id: u64| input@.take(n + 1 as int).contains(id) implies
                    ids@.contains(id) by {
                    let k = choose|k: int|
                        0 <= k < input@.take(n + 1 as int).len() && #[trigger] input@.take(
                            n + 1 as int,
                        )[k] == id;
                    if k < n {
                        assert(input@.take(n as int)[k] == id);
                        assert(input@.take(n as int).contains(id));
                        assert(pre.contains(id));
                    } else {
                        assert(id == x);
                        assert(ids@.contains(x));
                    }
                }
                assert forall|id: u64| ids@.contains(id) implies input@.take(
                    n + 1 as int,
                ).contains(id) by {
                    if pre.contains(id) && id != x {
                        assert(input@.take(n as int).contains(id));
                        let k = choose|k: int|
                            0 <= k < input@.take(n as int).len() && input@.take(n as int)[k] == id;
                        assert(input@.take(n + 1 as int)[k] == id);
                    } else {
                        assert(input@.take(n + 1 as int)[n as int] == x);
                    }
                }
            }
            n = n + 1;
        }
        proof {
            assert(input@.take(input@.len() as int) =~= input@);
        }
        TypeIdSet { ids }
    }

    /// Number of ids in the set.
    pub fn len(&self) -> (n: usize)
        ensures
            n == self.spec_len(),
    {
        self.ids.len()
    }

    /// Exclusive end of the dense index range the set hands out.
    pub fn upper_bound(&self) -> (n: usize)
        ensures
            n == self.spec_len(),
    {
        self.ids.len()
    }

    /// Membership test.
    pub fn contains_id(&self, id: u64) -> (r: bool)
        requires
            self.wf(),
        ensures
            r == self.spec_contains(id),
    {
        self.get(id).is_some()
    }

    /// Dense index of `id`, or `None` when the set lacks it.
    pub fn get(&self, id: u64) -> (r: Option<usize>)
        requires
            self.wf(),
        ensures
            match r {
                Some(k) => self.spec_contains(id) && k == self.spec_index_of(id) && k
                    < self.spec_len() && self.ids@[k as int] == id,
                None => !self.spec_contains(id),
            },
    {
        let mut k: usize = 0;
        while k < self.ids.len()
            invariant
                k <= self.ids@.len(),
                forall|i: int| 0 <= i < k ==> self.ids@[i] != id,
                self.wf(),
            decreases self.ids@.len() - k,
        {
            if self.ids[k] == id {
                proof {
                    let w = self.spec_index_of(id);
                    assert(self.ids@[w] == id);
                    assert(w == k) by {
                        if w < k {
                            assert(self.ids@[w] != id);
                        } else if w > k {
                            assert(self.ids@[k as int] < self.ids@[w]);
                        }
                    }
                }
                return Some(k);
            }
            k = k + 1;
        }
        proof {
            if self.spec_contains(id) {
                let w = choose|w: int| 0 <= w < self.ids@.len() && self.ids@[w] == id;
                assert(self.ids@[w] != id);
            }
        }
        None
    }

    /// The `(dense index, id)` pairs in index order.
    pub fn indexed(&self) -> (r: Vec<(usize, u64)>)
        ensures
            r@.len() == self.ids@.len(),
            forall|k: int| 0 <= k < r@.len() ==> r@[k] == (k as usize, self.ids@[k]),
    {
        let mut r: Vec<(usize, u64)> = Vec::new();
        let mut k: usize = 0;
        while k < self.ids.len()
            invariant
                k <= self.ids@.len(),
                r@.len() == k,
                forall|i: int| 0 <= i < k ==> r@[i] == (i as usize, self.ids@[i]),
            decreases self.ids@.len() - k,
        {
            r.push((k, self.ids[k]));
            k = k + 1;
        }
        r
    }
}

/// Two strictly sorted sequences with the same members are equal.
proof fn lemma_sorted_same_members_equal(s1: Seq<u64>, s2: Seq<u64>)
    requires
        forall|i: int, j: int| 0 <= i < j < s1.len() ==> s1[i] < s1[j],
        forall|i: int, j: int| 0 <= i < j < s2.len() ==> s2[i] < s2[j],
        forall|id: u64| s1.contains(id) <==> s2.contains(id),
    ensures
        s1 == s2,
    decreases s1.len(),
{
    if s1.len() == 0 {
        assert(s2.len() == 0) by {
            if s2.len() > 0 {
                assert(s2.contains(s2[0]));
                assert(s1.contains(s2[0]));
            }
        }
        assert(s1 =~= s2);
    } else {
        assert(s2.len() > 0) by {
            assert(s1.contains(s1[0]));
        }
        assert(s1[0] == s2[0]) by {
            assert(s1.contains(s1[0]));
            assert(s2.contains(s1[0]));
            let k = choose|k: int| 0 <= k < s2.len() && s2[k] == s1[0];
            assert(s2[0] <= s2[k]);
            assert(s2.contains(s2[0]));
            assert(s1.contains(s2[0]));
            let m = choose|m: int| 0 <= m < s1.len() && s1[m] == s2[0];
            assert(s1[0] <= s1[m]);
        }
        let t1 = s1.subrange(1, s1.len() as int);
        let t2 = s2.subrange(1, s2.len() as int);
        assert forall|id: u64| t1.contains(id) implies t2.contains(id) by {
            let k = choose|k: int| 0 <= k < t1.len() && t1[k] == id;
            assert(s1[k + 1] == id);
            assert(s1.contains(id));
            assert(s2.contains(id));
            let m = choose|m: int| 0 <= m < s2.len() && s2[m] == id;
            assert(m != 0) by {
                assert(s1[0] < s1[k + 1]);
            }
            assert(t2[m - 1] == id);
        }
        assert forall|id: u64| t2.contains(id) implies t1.contains(id) by {
            let k = choose|k: int| 0 <= k < t2.len() && t2[k] == id;
            assert(s2[k + 1] == id);
            assert(s2.contains(id));
            assert(s1.contains(id));
            let m = choose|m: int| 0 <= m < s1.len() && s1[m] == id;
            assert(m != 0) by {
                assert(s2[0] < s2[k + 1]);
            }
            assert(t1[m - 1] == id);
        }
        lemma_sorted_same_members_equal(t1, t2);
        assert(s1 =~= s2) by {
            assert forall|k: int| 0 <= k < s1.len() implies s1[k] == s2[k] by {
                if k > 0 {
                    assert(s1[k] == t1[k - 1] && s2[k] == t2[k - 1]);
                }
            }
        }
    }
}

/// The dense indexing is stable: two sets built from the same ids, in any
/// order, hold identical id sequences and therefore identical indexings.
pub proof fn lemma_indexing_stable(a: &TypeIdSet, b: &TypeIdSet)
    requires
        a.wf(),
        b.wf(),
        forall|id: u64| a.spec_contains(id) <==> b.spec_contains(id),
    ensures
        a.ids@ == b.ids@,
        forall|id: u64| a.spec_contains(id) ==> a.spec_index_of(id) == b.spec_index_of(id),
{
    assert forall|id: u64| a.ids@.contains(id) <==> b.ids@.contains(id) by {
        assert(a.spec_contains(id) <==> b.spec_contains(id));
    }
    lemma_sorted_same_members_equal(a.ids@, b.ids@);
}

} // verus!
