//! Reference counts of outstanding fetches, keyed by role-erased transaction hash.

use vstd::prelude::*;
use crate::types::{DeployHash, deploy_hash_eq};

verus! {

/// The count that `s` holds for `k`, zero when `k` has no entry.
pub open spec fn count_in(s: Seq<(DeployHash, u64)>, k: DeployHash) -> nat {
    if exists|i: int| 0 <= i < s.len() && s[i].0 == k {
        s[choose|i: int| 0 <= i < s.len() && s[i].0 == k].1 as nat
    } else {
        0
    }
}

/// No key has two entries.
pub open spec fn keys_distinct(s: Seq<(DeployHash, u64)>) -> bool {
    forall|i: int, j: int| 0 <= i < s.len() && 0 <= j < s.len() && i != j ==> s[i].0 != s[j].0
}

proof fn lemma_count_at(s: Seq<(DeployHash, u64)>, i: int)
    requires
        keys_distinct(s),
        0 <= i < s.len(),
    ensures
        count_in(s, s[i].0) == s[i].1 as nat,
{
    let k = s[i].0;
    assert(exists|j: int| 0 <= j < s.len() && s[j].0 == k);
    let c = choose|j: int| 0 <= j < s.len() && s[j].0 == k;
    assert(c == i);
}

/// A mapping from hash to positive count; a key whose count drops to zero has no entry.
pub struct KeyedCounter {
    entries: Vec<(DeployHash, u64)>,
}

impl KeyedCounter {
    /// Every entry is positive and no key has two entries.
    pub closed spec fn wf(&self) -> bool {
        &&& keys_distinct(self.entries@)
        &&& forall|i: int| 0 <= i < self.entries@.len() ==> #[trigger] self.entries@[i].1 > 0
    }

    /// The current count of `k`.
    pub closed spec fn count(&self, k: DeployHash) -> nat {
        count_in(self.entries@, k)
    }

    /// No key has a positive count.
    pub closed spec fn is_empty(&self) -> bool {
        self.entries@.len() == 0
    }

    pub proof fn lemma_empty(&self)
        requires
            self.wf(),
        ensures
            self.is_empty() <==> forall|k: DeployHash| self.count(k) == 0,
    {
        if !self.is_empty() {
            lemma_count_at(self.entries@, 0);
            assert(self.count(self.entries@[0].0) > 0);
        }
    }

    pub fn new() -> (r: Self)
        ensures
            r.wf(),
            r.is_empty(),
            forall|k: DeployHash| r.count(k) == 0,
    {
        KeyedCounter { entries: Vec::new() }
    }

    fn find(&self, k: &DeployHash) -> (r: Option<usize>)
        ensures
            match r {
                Some(i) => i < self.entries@.len() && self.entries@[i as int].0 == *k,
                None => forall|i: int| 0 <= i < self.entries@.len() ==> self.entries@[i].0 != *k,
            },
    {
        let mut i: usize = 0;
        while i < self.entries.len()
            invariant
                0 <= i <= self.entries@.len(),
                forall|j: int| 0 <= j < i ==> self.entries@[j].0 != *k,
            decreases self.entries@.len() - i,
        {
            if deploy_hash_eq(&self.entries[i].0, k) {
                return Some(i);
            }
            i = i + 1;
        }
        None
    }

    /// The current count of `k`.
    pub fn get(&self, k: &DeployHash) -> (r: u64)
        requires
            self.wf(),
        ensures
            r as nat == self.count(*k),
    {
        match self.find(k) {
            Some(i) => {
                proof {
                    lemma_count_at(self.entries@, i as int);
                }
                self.entries[i].1
            },
            None => 0,
        }
    }

    /// Increments the count of `k` and returns the new count.
    pub fn inc(&mut self, k: &DeployHash) -> (r: u64)
        requires
            old(self).wf(),
            old(self).count(*k) < u64::MAX,
        ensures
            final(self).wf(),
            r as nat == old(self).count(*k) + 1,
            final(self).count(*k) == r as nat,
            forall|k2: DeployHash| k2 != *k ==> final(self).count(k2) == old(self).count(k2),
    {
        let ghost s = self.entries@;
        match self.find(k) {
            Some(i) => {
                proof {
                    lemma_count_at(s, i as int);
                }
                let v = self.entries[i].1 + 1;
                self.entries.set(i, (*k, v));
                let ghost t = self.entries@;
                proof {
                    assert(t == s.update(i as int, (*k, v)));
                    assert(keys_distinct(t));
                    lemma_count_at(t, i as int);
                    assert forall|k2: DeployHash| k2 != *k implies count_in(t, k2) == count_in(
                        s,
                        k2,
                    ) by {
                        if exists|j: int| 0 <= j < s.len() && s[j].0 == k2 {
                            let j = choose|j: int| 0 <= j < s.len() && s[j].0 == k2;
                            lemma_count_at(s, j);
                            lemma_count_at(t, j);
                        } else {
                            assert(!exists|j: int| 0 <= j < t.len() && t[j].0 == k2);
                        }
                    }
                }
                v
            },
            None => {
                self.entries.push((*k, 1));
                let ghost t = self.entries@;
                proof {
                    assert(t == s.push((*k, 1u64)));
                    assert(keys_distinct(t));
                    lemma_count_at(t, s.len() as int);
                    assert forall|k2: DeployHash| k2 != *k implies count_in(t, k2) == count_in(
                        s,
                        k2,
                    ) by {
                        if exists|j: int| 0 <= j < s.len() && s[j].0 == k2 {
                            let j = choose|j: int| 0 <= j < s.len() && s[j].0 == k2;
                            lemma_count_at(s, j);
                            lemma_count_at(t, j);
                        } else {
                            assert(!exists|j: int| 0 <= j < t.len() && t[j].0 == k2);
                        }
                    }
                }
                1
            },
        }
    }

    /// Decrements the count of `k` and returns the new count; the entry goes when it reaches zero.
    pub fn dec(&mut self, k: &DeployHash) -> (r: u64)
        requires
            old(self).wf(),
            old(self).count(*k) > 0,
        ensures
            final(self).wf(),
            r as nat == old(self).count(*k) - 1,
            final(self).count(*k) == r as nat,
            forall|k2: DeployHash| k2 != *k ==> final(self).count(k2) == old(self).count(k2),
    {
        let ghost s = self.entries@;
        match self.find(k) {
            Some(i) => {
                proof {
                    lemma_count_at(s, i as int);
                }
                let v = self.entries[i].1 - 1;
                if v == 0 {
                    self.entries.remove(i);
                    let ghost t = self.entries@;
                    proof {
                        assert(t == s.remove(i as int));
                        assert(keys_distinct(t));
                        assert(!exists|j: int| 0 <= j < t.len() && t[j].0 == *k) by {
                            assert forall|j: int| 0 <= j < t.len() implies t[j].0 != *k by {
                                if j < i {
                                    assert(t[j] == s[j]);
                                } else {
                                    assert(t[j] == s[j + 1]);
                                }
                            }
                        }
                        assert forall|k2: DeployHash| k2 != *k implies count_in(t, k2) == count_in(
                            s,
                            k2,
                        ) by {
                            if exists|j: int| 0 <= j < s.len() && s[j].0 == k2 {
                                let j = choose|j: int| 0 <= j < s.len() && s[j].0 == k2;
                                lemma_count_at(s, j);
                                if j < i {
                                    lemma_count_at(t, j);
                                } else {
                                    lemma_count_at(t, j - 1);
                                }
                            } else {
                                assert(!exists|j: int| 0 <= j < t.len() && t[j].0 == k2) by {
                                    assert forall|j: int| 0 <= j < t.len() implies t[j].0
                                        != k2 by {
                                        if j < i {
                                            assert(t[j] == s[j]);
                                        } else {
                                            assert(t[j] == s[j + 1]);
                                        }
                                    }
                                }
                            }
                        }
                    }
                } else {
                    self.entries.set(i, (*k, v));
                    let ghost t = self.entries@;
                    proof {
                        assert(t == s.update(i as int, (*k, v)));
                        assert(keys_distinct(t));
                        lemma_count_at(t, i as int);
                        assert forall|k2: DeployHash| k2 != *k implies count_in(t, k2) == count_in(
                            s,
                            k2,
                        ) by {
                            if exists|j: int| 0 <= j < s.len() && s[j].0 == k2 {
                                let j = choose|j: int| 0 <= j < s.len() && s[j].0 == k2;
                                lemma_count_at(s, j);
                                lemma_count_at(t, j);
                            } else {
                                assert(!exists|j: int| 0 <= j < t.len() && t[j].0 == k2);
                            }
                        }
                    }
                }
                v
            },
            None => {
                proof {
                    assert(!exists|j: int| 0 <= j < s.len() && s[j].0 == *k);
                }
                0
            },
        }
    }
}

} // verus!
