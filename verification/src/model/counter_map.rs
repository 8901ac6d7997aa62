use vstd::prelude::*;
use vstd::string::*;
use crate::utils_module::parse_utils::str_eq;

verus! {

/// The index of the first entry with the given key, or the length of the
/// sequence when no entry has it.
pub open spec fn seq_find<V>(s: Seq<(Seq<char>, V)>, k: Seq<char>) -> int
    decreases s.len(),
{
    if s.len() == 0 {
        0
    } else if s[0].0 == k {
        0
    } else {
        1 + seq_find(s.drop_first(), k)
    }
}

/// What inserting a pair does to the entry sequence: an existing key keeps
/// its place and takes the new value, a fresh key is appended.
pub open spec fn seq_insert<V>(s: Seq<(Seq<char>, V)>, k: Seq<char>, v: V) -> Seq<
    (Seq<char>, V),
> {
    if seq_find(s, k) < s.len() {
        s.update(seq_find(s, k), (k, v))
    } else {
        s.push((k, v))
    }
}

pub proof fn lemma_seq_find<V>(s: Seq<(Seq<char>, V)>, k: Seq<char>)
    ensures
        0 <= seq_find(s, k) <= s.len(),
        seq_find(s, k) < s.len() ==> s[seq_find(s, k)].0 == k,
        forall|j: int| 0 <= j < seq_find(s, k) ==> (#[trigger] s[j]).0 != k,
    decreases s.len(),
{
    if s.len() > 0 && s[0].0 != k {
        lemma_seq_find(s.drop_first(), k);
        assert forall|j: int| 0 <= j < seq_find(s, k) implies (#[trigger] s[j]).0 != k by {
            if j >= 1 {
                assert(s.drop_first()[j - 1] == s[j]);
            }
        }
    }
}

/// An insertion-ordered mapping from names to counter records with unique
/// keys, the shape both snapshot kinds store their per-interface counters in.
pub struct CounterMap<V> {
    entries: Vec<(String, V)>,
}

impl<V: Copy> CounterMap<V> {
    /// The entries as a sequence of key/value pairs, in insertion order.
    pub closed spec fn entries_seq(&self) -> Seq<(Seq<char>, V)> {
        self.entries@.map_values(|e: (String, V)| (e.0@, e.1))
    }

    /// No two entries share a key.
    pub open spec fn wf(&self) -> bool {
        forall|i: int, j: int|
            0 <= i < j < self.entries_seq().len() ==> (#[trigger] self.entries_seq()[i]).0 != (
            #[trigger] self.entries_seq()[j]).0
    }

    pub open spec fn spec_contains(&self, k: Seq<char>) -> bool {
        seq_find(self.entries_seq(), k) < self.entries_seq().len()
    }

    /// The value stored under a key, if any.
    pub open spec fn spec_get(&self, k: Seq<char>) -> Option<V> {
        if self.spec_contains(k) {
            Some(self.entries_seq()[seq_find(self.entries_seq(), k)].1)
        } else {
            None
        }
    }

    pub open spec fn spec_len(&self) -> nat {
        self.entries_seq().len()
    }

    pub fn new() -> (r: Self)
        ensures
            r.entries_seq() == Seq::<(Seq<char>, V)>::empty(),
            r.wf(),
    {
        let r = CounterMap { entries: Vec::new() };
        proof {
            assert(r.entries_seq() =~= Seq::<(Seq<char>, V)>::empty());
        }
        r
    }

    pub fn len(&self) -> (n: usize)
        ensures
            n == self.spec_len(),
    {
        proof {
            assert(self.entries_seq().len() == self.entries@.len());
        }
        self.entries.len()
    }

    /// The entry at a position, in insertion order.
    pub fn entry_at(&self, i: usize) -> (r: (&String, &V))
        requires
            i < self.spec_len(),
        ensures
            r.0@ == self.entries_seq()[i as int].0,
            *r.1 == self.entries_seq()[i as int].1,
    {
        let e: &(String, V) = &self.entries[i];
        (&e.0, &e.1)
    }

    /// Stores the value under the key, replacing any previous value, as
    /// `seq_insert` describes; fresh keys go to the end.
    pub fn insert(&mut self, k: String, v: V)
        requires
            old(self).wf(),
        ensures
            final(self).entries_seq() == seq_insert(old(self).entries_seq(), k@, v),
            final(self).wf(),
            final(self).spec_get(k@) == Some(v),
    {
        let ghost s0 = self.entries_seq();
        let n: usize = self.entries.len();
        proof {
            assert(s0.len() == n);
        }
        let mut i: usize = 0;
        while i < n
            invariant
                0 <= i <= n,
                n == self.entries@.len(),
                s0 == self.entries_seq(),
                old(self).wf(),
                s0 == old(self).entries_seq(),
                forall|j: int| 0 <= j < i ==> (#[trigger] s0[j]).0 != k@,
            decreases n - i,
        {
            if str_eq(self.entries[i].0.as_str(), k.as_str()) {
                proof {
                    assert(s0[i as int].0 == k@);
                    assert(seq_find(s0, k@) == i) by {
                        lemma_seq_find(s0, k@);
                        if seq_find(s0, k@) < i {
                            assert(s0[seq_find(s0, k@)].0 == k@);
                        }
                    }
                }
                self.entries.set(i, (k, v));
                proof {
                    let s1 = self.entries_seq();
                    assert(s1 =~= s0.update(i as int, (k@, v)));
                    assert(s1 == seq_insert(s0, k@, v));
                    assert(forall|j: int| 0 <= j < s1.len() ==> (#[trigger] s1[j]).0 == s0[j].0);
                    assert(self.wf());
                    assert(seq_find(s1, k@) == i) by {
                        lemma_seq_find(s1, k@);
                        if seq_find(s1, k@) < i {
                            assert(s1[seq_find(s1, k@)].0 == k@);
                            assert(s0[seq_find(s1, k@)].0 == k@);
                        }
                        if i < seq_find(s1, k@) {
                            assert(s1[i as int].0 != k@);
                        }
                    }
                }
                return ;
            }
            i = i + 1;
        }
        proof {
            assert(seq_find(s0, k@) >= n) by {
                lemma_seq_find(s0, k@);
                if seq_find(s0, k@) < n {
                    assert(s0[seq_find(s0, k@)].0 == k@);
                }
            }
        }
        self.entries.push((k, v));
        proof {
            let s1 = self.entries_seq();
            assert(s1 =~= s0.push((k@, v)));
            assert(s1 == seq_insert(s0, k@, v));
            assert(forall|j: int| 0 <= j < n ==> (#[trigger] s1[j]) == s0[j]);
            assert(s1[n as int] == (k@, v));
            assert(self.wf());
            assert(seq_find(s1, k@) == n) by {
                lemma_seq_find(s1, k@);
                if seq_find(s1, k@) < n {
                    assert(s1[seq_find(s1, k@)].0 == k@);
                    assert(s0[seq_find(s1, k@)].0 == k@);
                }
                if n < seq_find(s1, k@) {
                    assert(s1[n as int].0 != k@);
                }
            }
        }
    }

    /// The value stored under the key: the first (and, in a well-formed map,
    /// only) entry with it.
    pub fn get(&self, k: &str) -> (r: Option<&V>)
        ensures
            match r {
                Some(v) => self.spec_get(k@) == Some(*v),
                None => self.spec_get(k@) is None,
            },
    {
        let ghost s0 = self.entries_seq();
        let n: usize = self.entries.len();
        proof {
            assert(s0.len() == n);
        }
        let mut i: usize = 0;
        while i < n
            invariant
                0 <= i <= n,
                n == self.entries@.len(),
                s0 == self.entries_seq(),
                forall|j: int| 0 <= j < i ==> (#[trigger] s0[j]).0 != k@,
            decreases n - i,
        {
            if str_eq(self.entries[i].0.as_str(), k) {
                proof {
                    assert(s0[i as int].0 == k@);
                    assert(seq_find(s0, k@) == i) by {
                        lemma_seq_find(s0, k@);
                        if seq_find(s0, k@) < i {
                            assert(s0[seq_find(s0, k@)].0 == k@);
                        }
                    }
                }
                return Some(&self.entries[i].1);
            }
            i = i + 1;
        }
        proof {
            assert(seq_find(s0, k@) >= n) by {
                lemma_seq_find(s0, k@);
                if seq_find(s0, k@) < n {
                    assert(s0[seq_find(s0, k@)].0 == k@);
                }
            }
        }
        None
    }
}

} // verus!
