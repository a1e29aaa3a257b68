//! The storage model: a content-addressed key-value store with digest
//! keys and byte values. Once a key is written it stays present; a
//! rewrite replaces the value.

use crate::types::Digest;
use vstd::prelude::*;

verus! {

/// A content-addressed store: digest keys, byte values, distinct keys.
pub struct Store {
    pub entries: Vec<(Digest, Vec<u8>)>,
}

impl Store {
    /// Well-formedness: one entry per key.
    pub open spec fn wf(self) -> bool {
        forall|i: int, j: int|
            0 <= i < j < self.entries@.len() ==> self.entries@[i].0 != self.entries@[j].0
    }

    /// Whether the key is present.
    pub open spec fn spec_contains(self, d: Digest) -> bool {
        exists|i: int| 0 <= i < self.entries@.len() && self.entries@[i].0 == d
    }

    /// The bytes stored under a present key.
    pub open spec fn spec_value(self, d: Digest) -> Seq<u8> {
        self.entries@[choose|i: int|
            0 <= i < self.entries@.len() && self.entries@[i].0 == d].1@
    }

    pub fn new() -> (r: Store)
        ensures
            r.wf(),
            r.entries@.len() == 0,
            forall|d: Digest| !r.spec_contains(d),
    {
        Store { entries: Vec::new() }
    }

    /// Writes a value under a key; a present key has its value replaced.
    pub fn write(&mut self, key: Digest, value: Vec<u8>)
        requires
            old(self).wf(),
        ensures
            final(self).wf(),
            final(self).spec_contains(key),
            final(self).spec_value(key) == value@,
            forall|d: Digest|
                d != key ==> (final(self).spec_contains(d) <==> old(self).spec_contains(d)),
            forall|d: Digest|
                d != key && old(self).spec_contains(d) ==> final(self).spec_value(d) == old(
                    self,
                ).spec_value(d),
    {
        let n = self.entries.len();
        let mut i: usize = 0;
        while i < n
            invariant
                *self == *old(self),
                old(self).wf(),
                n == self.entries@.len(),
                i <= n,
                forall|j: int| 0 <= j < i ==> self.entries@[j].0 != key,
            decreases n - i,
        {
            if self.entries[i].0 == key {
                let ghost olde = self.entries@;
                self.entries.set(i, (key, value));
                proof {
                    assert(self.entries@[i as int].0 == key);
                    assert(final(self).spec_contains(key));
                    let w = choose|w: int|
                        0 <= w < self.entries@.len() && self.entries@[w].0 == key;
                    assert(w == i);
                    assert forall|d: Digest| d != key implies (final(self).spec_contains(d)
                        <==> old(self).spec_contains(d)) by {
                        if old(self).spec_contains(d) {
                            let q = choose|q: int| 0 <= q < olde.len() && olde[q].0 == d;
                            assert(self.entries@[q].0 == d);
                        }
                        if final(self).spec_contains(d) {
                            let q = choose|q: int|
                                0 <= q < self.entries@.len() && self.entries@[q].0 == d;
                            assert(olde[q].0 == d);
                        }
                    }
                    assert forall|d: Digest| d != key && old(self).spec_contains(d)
                        implies final(self).spec_value(d) == old(self).spec_value(d) by {
                        let q = choose|q: int| 0 <= q < olde.len() && olde[q].0 == d;
                        assert(self.entries@[q].0 == d);
                        let q2 = choose|q2: int|
                            0 <= q2 < self.entries@.len() && self.entries@[q2].0 == d;
                        assert(q2 == q);
                    }
                }
                return ;
            }
            i += 1;
        }
        let ghost olde = self.entries@;
        self.entries.push((key, value));
        proof {
            assert(self.entries@[olde.len() as int].0 == key);
            assert(final(self).spec_contains(key));
            let w = choose|w: int| 0 <= w < self.entries@.len() && self.entries@[w].0 == key;
            assert(w == olde.len());
            assert forall|p: int, q: int| 0 <= p < q < self.entries@.len() implies self.entries@[p].0
                != self.entries@[q].0 by {
                if q < olde.len() {
                    assert(self.entries@[p] == olde[p] && self.entries@[q] == olde[q]);
                } else {
                    assert(self.entries@[p] == olde[p]);
                }
            }
            assert forall|d: Digest| d != key implies (final(self).spec_contains(d)
                <==> old(self).spec_contains(d)) by {
                if old(self).spec_contains(d) {
                    let q = choose|q: int| 0 <= q < olde.len() && olde[q].0 == d;
                    assert(self.entries@[q].0 == d);
                }
                if final(self).spec_contains(d) {
                    let q = choose|q: int|
                        0 <= q < self.entries@.len() && self.entries@[q].0 == d;
                    assert(q < olde.len());
                    assert(olde[q].0 == d);
                }
            }
            assert forall|d: Digest| d != key && old(self).spec_contains(d)
                implies final(self).spec_value(d) == old(self).spec_value(d) by {
                let q = choose|q: int| 0 <= q < olde.len() && olde[q].0 == d;
                assert(self.entries@[q].0 == d);
                let q2 = choose|q2: int|
                    0 <= q2 < self.entries@.len() && self.entries@[q2].0 == d;
                assert(q2 == q);
            }
        }
    }

    /// Reads the value under a key.
    pub fn read(&self, key: &Digest) -> (r: Option<&Vec<u8>>)
        requires
            self.wf(),
        ensures
            match r {
                Some(v) => self.spec_contains(*key) && v@ == self.spec_value(*key),
                None => !self.spec_contains(*key),
            },
    {
        let n = self.entries.len();
        let mut i: usize = 0;
        while i < n
            invariant
                self.wf(),
                n == self.entries@.len(),
                i <= n,
                forall|j: int| 0 <= j < i ==> self.entries@[j].0 != *key,
            decreases n - i,
        {
            if self.entries[i].0 == *key {
                proof {
                    let w = choose|w: int|
                        0 <= w < self.entries@.len() && self.entries@[w].0 == *key;
                    assert(w == i);
                }
                return Some(&self.entries[i].1);
            }
            i += 1;
        }
        None
    }

    /// Whether the key is present.
    pub fn contains(&self, key: &Digest) -> (r: bool)
        requires
            self.wf(),
        ensures
            r == self.spec_contains(*key),
    {
        match self.read(key) {
            Some(_) => true,
            None => false,
        }
    }
}

} // verus!
