use vstd::prelude::*;

verus! {

/// The value of the first entry of `keys` equal to `who`, in an association
/// list given as parallel sequences.
pub open spec fn assoc_get<V>(keys: Seq<Seq<char>>, vals: Seq<V>, who: Seq<char>) -> Option<V> {
    if exists|i: int| 0 <= i < keys.len() && keys[i] == who {
        Some(vals[choose|i: int| 0 <= i < keys.len() && keys[i] == who])
    } else {
        None
    }
}

/// A table keyed by account address (compared by its characters), holding
/// one value per address.
pub struct AddrTable<V> {
    keys: Vec<String>,
    vals: Vec<V>,
}

impl<V> AddrTable<V> {
    pub closed spec fn wf(&self) -> bool {
        &&& self.keys@.len() == self.vals@.len()
        &&& forall|i: int, j: int|
            0 <= i < j < self.keys@.len() ==> #[trigger] self.keys@[i]@ != #[trigger] self.keys@[j]@
    }

    /// `who` has an entry.
    pub closed spec fn contains(&self, who: Seq<char>) -> bool {
        exists|i: int| 0 <= i < self.keys@.len() && #[trigger] self.keys@[i]@ == who
    }

    /// Position of the entry of `who`.
    pub closed spec fn slot(&self, who: Seq<char>) -> int {
        choose|i: int| 0 <= i < self.keys@.len() && #[trigger] self.keys@[i]@ == who
    }

    /// The value stored for `who`, if any.
    pub closed spec fn spec_get(&self, who: Seq<char>) -> Option<V> {
        if self.contains(who) {
            Some(self.vals@[self.slot(who)])
        } else {
            None
        }
    }

    /// The value at position `i`.
    pub closed spec fn val_at(&self, i: int) -> V {
        self.vals@[i]
    }

    /// Number of entries.
    pub closed spec fn size(&self) -> nat {
        self.keys@.len()
    }

    proof fn lemma_slot(&self, i: int)
        requires
            self.wf(),
            0 <= i < self.keys@.len(),
        ensures
            self.contains(self.keys@[i]@),
            self.slot(self.keys@[i]@) == i,
    {
        let who = self.keys@[i]@;
        assert(self.contains(who));
        let k = self.slot(who);
        if k != i {
            if k < i {
                assert(self.keys@[k]@ != self.keys@[i]@);
            } else {
                assert(self.keys@[i]@ != self.keys@[k]@);
            }
        }
    }

    /// Distinct addresses occupy distinct positions.
    pub proof fn lemma_slot_injective(&self, w1: Seq<char>, w2: Seq<char>)
        requires
            self.wf(),
            self.contains(w1),
            self.contains(w2),
            self.slot(w1) == self.slot(w2),
        ensures
            w1 == w2,
    {
    }

    /// An address has a value exactly when it has an entry.
    pub proof fn lemma_get_some(&self, w: Seq<char>)
        ensures
            self.spec_get(w) is Some <==> self.contains(w),
    {
    }


    /// Addresses of the entries, in position order.
    pub closed spec fn key_seq(&self) -> Seq<Seq<char>> {
        Seq::new(self.keys@.len(), |i: int| self.keys@[i]@)
    }

    /// Values of the entries, in position order.
    pub closed spec fn val_seq(&self) -> Seq<V> {
        self.vals@
    }

    /// A table is the association list of its entries, without repeated keys.
    pub proof fn lemma_assoc(&self)
        requires
            self.wf(),
        ensures
            self.key_seq().len() == self.val_seq().len(),
            self.key_seq().len() == self.size(),
            self.key_seq().no_duplicates(),
            forall|i: int| 0 <= i < self.size() ==> #[trigger] self.val_seq()[i] == self.val_at(i),
            forall|w: Seq<char>| #[trigger] self.spec_get(w) == assoc_get(self.key_seq(), self.val_seq(), w),
            forall|w: Seq<char>| #[trigger] self.contains(w) == self.key_seq().contains(w),
    {
        assert forall|w: Seq<char>| #[trigger] self.spec_get(w) == assoc_get(self.key_seq(), self.val_seq(), w) by {
            if exists|i: int| 0 <= i < self.key_seq().len() && self.key_seq()[i] == w {
                let i = choose|i: int| 0 <= i < self.key_seq().len() && self.key_seq()[i] == w;
                assert(self.keys@[i]@ == w);
                self.lemma_slot(i);
                assert(self.spec_get(w) == Some(self.vals@[i]));
            } else {
                if self.contains(w) {
                    let k = self.slot(w);
                    assert(self.key_seq()[k] == w);
                }
            }
        }
        assert forall|w: Seq<char>| #[trigger] self.contains(w) == self.key_seq().contains(w) by {
            if self.contains(w) {
                let i = self.slot(w);
                assert(self.key_seq()[i] == w);
            }
            if self.key_seq().contains(w) {
                let i = choose|i: int| 0 <= i < self.key_seq().len() && self.key_seq()[i] == w;
                assert(self.keys@[i]@ == w);
            }
        }
    }

    /// The address at position `i`.
    pub fn key(&self, i: usize) -> (k: &String)
        requires
            self.wf(),
            i < self.size(),
        ensures
            k@ == self.key_seq()[i as int],
    {
        &self.keys[i]
    }

    /// Number of entries.
    pub fn len(&self) -> (n: usize)
        requires
            self.wf(),
        ensures
            n == self.size(),
            n == self.key_seq().len(),
            n == self.val_seq().len(),
    {
        self.keys.len()
    }

    /// An empty table.
    pub fn new() -> (r: Self)
        ensures
            r.wf(),
            forall|w: Seq<char>| r.spec_get(w) is None,
            forall|w: Seq<char>| !r.contains(w),
            r.size() == 0,
            r.key_seq() == Seq::<Seq<char>>::empty(),
            r.val_seq() == Seq::<V>::empty(),
    {
        AddrTable { keys: Vec::new(), vals: Vec::new() }
    }

    /// Position of the entry of `who`.
    pub fn find(&self, who: &String) -> (r: Option<usize>)
        requires
            self.wf(),
        ensures
            r is None <==> !self.contains(who@),
            r is None <==> self.spec_get(who@) is None,
            r matches Some(i) ==> i < self.size() && self.slot(who@) == i && self.spec_get(who@)
                == Some(self.val_at(i as int)),
    {
        let n = self.keys.len();
        let mut i: usize = 0;
        while i < n
            invariant
                self.wf(),
                n == self.keys@.len(),
                i <= n,
                forall|j: int| 0 <= j < i ==> self.keys@[j]@ != who@,
            decreases n - i,
        {
            if self.keys[i] == *who {
                proof {
                    self.lemma_slot(i as int);
                }
                return Some(i);
            }
            i = i + 1;
        }
        None
    }

    /// The value at position `i`.
    pub fn at(&self, i: usize) -> (v: &V)
        requires
            self.wf(),
            i < self.size(),
        ensures
            *v == self.val_at(i as int),
            *v == self.val_seq()[i as int],
    {
        &self.vals[i]
    }

    /// Exchange the value at position `i` with `v`.
    pub fn swap_at(&mut self, i: usize, v: &mut V)
        requires
            old(self).wf(),
            i < old(self).size(),
        ensures
            final(self).wf(),
            final(self).size() == old(self).size(),
            *final(v) == old(self).val_at(i as int),
            forall|w: Seq<char>| #[trigger] final(self).contains(w) == old(self).contains(w),
            forall|w: Seq<char>| old(self).contains(w) ==> #[trigger] final(self).slot(w) == old(self).slot(w),
            forall|w: Seq<char>|
                #[trigger] final(self).spec_get(w) == if old(self).contains(w) && old(self).slot(w)
                    == i {
                    Some(*old(v))
                } else {
                    old(self).spec_get(w)
                },
    {
        self.vals.set_and_swap(i, v);
        proof {
            assert forall|w: Seq<char>| #[trigger] self.contains(w) == old(self).contains(w) by {
                if old(self).contains(w) {
                    let k = old(self).slot(w);
                    assert(self.keys@[k]@ == w);
                }
                if self.contains(w) {
                    let k = self.slot(w);
                    assert(old(self).keys@[k]@ == w);
                }
            }
            assert forall|w: Seq<char>| #[trigger] self.contains(w) implies self.slot(w) == old(self).slot(w) by {
                let k = old(self).slot(w);
                self.lemma_slot(k);
            }
        }
    }

    /// Add an entry for an address that has none.
    pub fn push_new(&mut self, who: String, v: V) -> (i: usize)
        requires
            old(self).wf(),
            !old(self).contains(who@),
        ensures
            final(self).wf(),
            i == old(self).size(),
            final(self).size() == old(self).size() + 1,
            final(self).contains(who@),
            final(self).slot(who@) == i,
            final(self).spec_get(who@) == Some(v),
            final(self).key_seq() == old(self).key_seq().push(who@),
            final(self).val_seq() == old(self).val_seq().push(v),
            forall|w: Seq<char>| #[trigger] final(self).contains(w) == (old(self).contains(w) || w == who@),
            forall|w: Seq<char>|
                w != who@ ==> #[trigger] final(self).spec_get(w) == old(self).spec_get(w),
    {
        let ghost who_v = who@;
        let i = self.keys.len();
        self.keys.push(who);
        self.vals.push(v);
        proof {
            assert forall|a: int, b: int|
                0 <= a < b < self.keys@.len() implies #[trigger] self.keys@[a]@ != #[trigger] self.keys@[b]@ by {
                if b == i {
                    assert(old(self).keys@[a]@ == self.keys@[a]@);
                }
            }
            self.lemma_slot(i as int);
            assert forall|w: Seq<char>| #[trigger] self.contains(w) == (old(self).contains(w) || w == who_v) by {
                if old(self).contains(w) {
                    let k = old(self).slot(w);
                    assert(self.keys@[k]@ == w);
                }
                if self.contains(w) && w != who_v {
                    let k = self.slot(w);
                    assert(old(self).keys@[k]@ == w);
                }
            }
            assert forall|w: Seq<char>| w != who_v implies #[trigger] self.spec_get(w) == old(self).spec_get(w) by {
                if old(self).contains(w) {
                    let k = old(self).slot(w);
                    self.lemma_slot(k);
                }
            }
        }
        i
    }
}

} // verus!
