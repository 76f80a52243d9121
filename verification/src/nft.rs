//! Per-owner index of the tokens minted by a sequential NFT collection.

use vstd::prelude::*;
use crate::table::AddrTable;

verus! {

/// The collection's owner index: for each owner, the ids minted to it, in
/// mint order.
pub struct NFTContract {
    tokens: AddrTable<Vec<u32>>,
}

impl NFTContract {
    pub closed spec fn wf(&self) -> bool {
        self.tokens.wf()
    }

    /// Ids minted to `owner`, in mint order.
    pub closed spec fn tokens_of(&self, owner: Seq<char>) -> Seq<u32> {
        match self.tokens.spec_get(owner) {
            Some(v) => v@,
            None => Seq::empty(),
        }
    }

    /// An empty collection index.
    pub fn new() -> (r: Self)
        ensures
            r.wf(),
            forall|w: Seq<char>| r.tokens_of(w) == Seq::<u32>::empty(),
    {
        NFTContract { tokens: AddrTable::new() }
    }

    /// The index as stored for one owner: `owner` holds `tokens`, and no
    /// other owner holds anything.
    pub fn with_owner(owner: &String, tokens: Vec<u32>) -> (r: Self)
        ensures
            r.wf(),
            r.tokens_of(owner@) == tokens@,
            forall|w: Seq<char>| w != owner@ ==> #[trigger] r.tokens_of(w) == Seq::<u32>::empty(),
    {
        let mut t: AddrTable<Vec<u32>> = AddrTable::new();
        t.push_new(owner.clone(), tokens);
        NFTContract { tokens: t }
    }

    /// Record that token `token_id`, just minted by the collection, belongs
    /// to `to`; returns the id.
    pub fn mint(&mut self, to: &String, token_id: u32) -> (r: u32)
        requires
            old(self).wf(),
        ensures
            final(self).wf(),
            r == token_id,
            final(self).tokens_of(to@) == old(self).tokens_of(to@).push(token_id),
            forall|w: Seq<char>| w != to@ ==> #[trigger] final(self).tokens_of(w) == old(self).tokens_of(w),
    {
        match self.tokens.find(to) {
            Some(i) => {
                let ghost t0 = self.tokens;
                let mut v: Vec<u32> = Vec::new();
                self.tokens.swap_at(i, &mut v);
                v.push(token_id);
                let ghost done = v;
                self.tokens.swap_at(i, &mut v);
                proof {
                    assert(t0.contains(to@));
                    assert forall|w: Seq<char>| w != to@ implies #[trigger] self.tokens.spec_get(w) == t0.spec_get(w) by {
                        if t0.contains(w) && t0.slot(w) == i {
                            t0.lemma_slot_injective(w, to@);
                        }
                    }
                    assert(self.tokens.spec_get(to@) == Some(done));
                }
            },
            None => {
                let mut v: Vec<u32> = Vec::new();
                v.push(token_id);
                self.tokens.push_new(to.clone(), v);
                proof {
                    assert(Seq::<u32>::empty().push(token_id) =~= seq![token_id]);
                }
            },
        }
        token_id
    }

    /// Ids minted to `owner`, in mint order.
    pub fn tokens_of_owner(&self, owner: &String) -> (r: Vec<u32>)
        requires
            self.wf(),
        ensures
            r@ == self.tokens_of(owner@),
    {
        match self.tokens.find(owner) {
            Some(i) => self.tokens.at(i).clone(),
            None => Vec::new(),
        }
    }
}

} // verus!
