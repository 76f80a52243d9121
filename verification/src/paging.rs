use vstd::prelude::*;

verus! {

/// Maximum number of entries on one page of an index.
pub const PAGE_SIZE: u32 = 50;

/// Largest number of entries an index can hold while every page number
/// still fits in a `u32`.
pub const MAX_INDEX_ITEMS: u64 = 214_748_364_750;

/// The page that holds the entry at position `k` of an index.
pub open spec fn page_of(k: int) -> int {
    k / (PAGE_SIZE as int)
}

/// `s` with the entry at position `k` replaced by the last entry and the last
/// entry dropped: removal by swap-with-tail.
pub open spec fn swap_remove_spec(s: Seq<u64>, k: int) -> Seq<u64> {
    s.update(k, s.last()).drop_last()
}

/// `k` is the first position on page `p` of `s` that holds `target`.
pub open spec fn first_slot(s: Seq<u64>, target: u64, p: int, k: int) -> bool {
    &&& 0 <= k < s.len()
    &&& page_of(k) == p
    &&& s[k] == target
    &&& forall|j: int| p * (PAGE_SIZE as int) <= j < k ==> s[j] != target
}

/// `target` occurs on page `p` of `s`.
pub open spec fn on_page(s: Seq<u64>, target: u64, p: int) -> bool {
    exists|k: int| 0 <= k < s.len() && page_of(k) == p && s[k] == target
}

/// The first position on page `p` of `s` holding `target`.
pub open spec fn slot_on_page(s: Seq<u64>, target: u64, p: int) -> int {
    choose|k: int| first_slot(s, target, p, k)
}

pub proof fn lemma_position(k: int)
    requires
        0 <= k,
    ensures
        k == 50 * page_of(k) + k % 50,
        0 <= k % 50 < 50,
        0 <= page_of(k),
{
    vstd::arithmetic::div_mod::lemma_fundamental_div_mod(k, 50);
    vstd::arithmetic::div_mod::lemma_mod_bound(k, 50);
    vstd::arithmetic::div_mod::lemma_div_pos_is_pos(k, 50);
}

pub proof fn lemma_position_converse(p: int, j: int)
    requires
        0 <= p,
        0 <= j < 50,
    ensures
        page_of(50 * p + j) == p,
        (50 * p + j) % 50 == j,
{
    vstd::arithmetic::div_mod::lemma_fundamental_div_mod_converse(50 * p + j, 50, p, j);
}

/// The first slot of a value on a page is unique.
pub proof fn lemma_first_slot_unique(s: Seq<u64>, target: u64, p: int, k: int)
    requires
        first_slot(s, target, p, k),
    ensures
        slot_on_page(s, target, p) == k,
        on_page(s, target, p),
{
    let k2 = slot_on_page(s, target, p);
    assert(first_slot(s, target, p, k2));
    lemma_position(k);
    lemma_position(k2);
    if k2 < k {
        assert(s[k2] != target);
    } else if k < k2 {
        assert(s[k] != target);
    }
}

/// A value present on a page has a first slot there.
pub proof fn lemma_on_page_first_slot(s: Seq<u64>, target: u64, p: int)
    requires
        on_page(s, target, p),
    ensures
        first_slot(s, target, p, slot_on_page(s, target, p)),
        0 <= slot_on_page(s, target, p) < s.len(),
        s.len() > 0,
{
    let k = choose|k: int| 0 <= k < s.len() && page_of(k) == p && s[k] == target;
    lemma_first_slot_below(s, target, p, k);
}

proof fn lemma_first_slot_below(s: Seq<u64>, target: u64, p: int, k: int)
    requires
        0 <= k < s.len(),
        page_of(k) == p,
        s[k] == target,
    ensures
        exists|f: int| first_slot(s, target, p, f),
    decreases k,
{
    lemma_position(k);
    if exists|j: int| p * 50 <= j < k && s[j] == target {
        let j = choose|j: int| p * 50 <= j < k && s[j] == target;
        assert(page_of(j) == p) by {
            lemma_position_converse(p, j - 50 * p);
        }
        lemma_first_slot_below(s, target, p, j);
    } else {
        assert(first_slot(s, target, p, k));
    }
}

/// Removing an entry present on a page shortens the index by one.
pub proof fn lemma_swap_remove_len(s: Seq<u64>, target: u64, p: int)
    requires
        on_page(s, target, p),
    ensures
        swap_remove_spec(s, slot_on_page(s, target, p)).len() == s.len() - 1,
{
    lemma_on_page_first_slot(s, target, p);
}

/// In a list without duplicates, the page of an entry's position holds it,
/// first at that very position.
pub proof fn lemma_distinct_slot(s: Seq<u64>, k: int)
    requires
        s.no_duplicates(),
        0 <= k < s.len(),
    ensures
        on_page(s, s[k], page_of(k)),
        slot_on_page(s, s[k], page_of(k)) == k,
{
    lemma_position(k);
    assert forall|j: int| page_of(k) * (PAGE_SIZE as int) <= j < k implies s[j] != s[k] by {}
    assert(first_slot(s, s[k], page_of(k), k));
    lemma_first_slot_unique(s, s[k], page_of(k), k);
}

/// Removal by swap-with-tail: the slot gets the last entry, every other
/// position keeps its entry, and a list without duplicates keeps none and
/// loses exactly the removed entry.
pub proof fn lemma_swap_remove(s: Seq<u64>, k: int)
    requires
        0 <= k < s.len(),
    ensures
        swap_remove_spec(s, k).len() == s.len() - 1,
        forall|j: int|
            0 <= j < s.len() - 1 ==> #[trigger] swap_remove_spec(s, k)[j] == if j == k {
                s.last()
            } else {
                s[j]
            },
        s.no_duplicates() ==> swap_remove_spec(s, k).no_duplicates(),
        s.no_duplicates() ==> forall|y: u64|
            #[trigger] swap_remove_spec(s, k).contains(y) <==> (s.contains(y) && y != s[k]),
{
    let r = swap_remove_spec(s, k);
    let n = s.len();
    if s.no_duplicates() {
        assert forall|a: int, b: int| 0 <= a < b < r.len() implies r[a] != r[b] by {
            let ia = if a == k { n - 1 } else { a };
            let ib = if b == k { n - 1 } else { b };
            assert(r[a] == s[ia]);
            assert(r[b] == s[ib]);
        }
        assert forall|y: u64| #[trigger] r.contains(y) <==> (s.contains(y) && y != s[k]) by {
            if r.contains(y) {
                let j = choose|j: int| 0 <= j < r.len() && r[j] == y;
                let ij = if j == k { n - 1 } else { j };
                assert(s[ij] == y);
            }
            if s.contains(y) && y != s[k] {
                let j = choose|j: int| 0 <= j < s.len() && s[j] == y;
                if j == n - 1 {
                    assert(r[k] == y);
                } else {
                    assert(r[j] == y);
                }
            }
        }
    }
}

/// A paginated list of ids. Pages are stored separately and every page but
/// the last is full; the last page is non-empty.
pub struct PagedIndex {
    pages: Vec<Vec<u64>>,
    count: u64,
    items: Ghost<Seq<u64>>,
}

impl View for PagedIndex {
    type V = Seq<u64>;

    /// The entries of the index, in page order.
    closed spec fn view(&self) -> Seq<u64> {
        self.items@
    }
}

impl PagedIndex {
    /// Number of pages an index of `n` entries occupies.
    pub open spec fn pages_for(n: int) -> int {
        (n + 49) / 50
    }

    pub closed spec fn wf(&self) -> bool {
        &&& self.count <= MAX_INDEX_ITEMS
        &&& self.items@.len() == self.count
        &&& self.pages@.len() == Self::pages_for(self.count as int)
        &&& forall|p: int|
            0 <= p < self.pages@.len() ==> #[trigger] self.pages@[p]@.len() == (if p + 1
                < self.pages@.len() {
                50
            } else {
                self.count - 50 * p
            })
        &&& forall|p: int, j: int|
            0 <= p < self.pages@.len() && 0 <= j < self.pages@[p]@.len() ==> #[trigger] self.pages@[p]@[j]
                == self.items@[50 * p + j]
    }

    /// Number of pages currently stored.
    pub closed spec fn page_count(&self) -> nat {
        self.pages@.len()
    }

    pub proof fn lemma_page_count(&self)
        requires
            self.wf(),
        ensures
            self.page_count() == Self::pages_for(self@.len() as int),
            self@.len() <= MAX_INDEX_ITEMS,
    {
    }

    /// An empty index.
    pub fn new() -> (r: PagedIndex)
        ensures
            r.wf(),
            r@ == Seq::<u64>::empty(),
    {
        PagedIndex { pages: Vec::new(), count: 0, items: Ghost(Seq::empty()) }
    }

    /// Number of entries.
    pub fn len(&self) -> (n: u64)
        requires
            self.wf(),
        ensures
            n == self@.len(),
    {
        self.count
    }

    /// The entry at position `k`.
    pub fn get(&self, k: u64) -> (x: u64)
        requires
            self.wf(),
            k < self@.len(),
        ensures
            x == self@[k as int],
    {
        proof {
            lemma_position(k as int);
            let p = page_of(k as int);
            assert(p < self.pages@.len()) by {
                assert(p * 50 <= k);
            }
            assert(self.pages@[p]@.len() > k % 50) by {
                if p + 1 < self.pages@.len() {
                } else {
                }
            }
        }
        let p: usize = (k / 50) as usize;
        let j: usize = (k % 50) as usize;
        self.pages[p][j]
    }


    /// An index holding `items` in order, if it fits.
    pub fn from_items(items: &Vec<u64>) -> (r: Option<PagedIndex>)
        ensures
            r is Some <==> items@.len() <= MAX_INDEX_ITEMS,
            r matches Some(ix) ==> ix.wf() && ix@ == items@,
    {
        let n = items.len();
        if n as u64 > MAX_INDEX_ITEMS {
            return None;
        }
        let mut ix = PagedIndex::new();
        let mut k: usize = 0;
        while k < n
            invariant
                n == items@.len(),
                n <= MAX_INDEX_ITEMS,
                k <= n,
                ix.wf(),
                ix@ == items@.subrange(0, k as int),
            decreases n - k,
        {
            ix.append(items[k]);
            k = k + 1;
            proof {
                assert(ix@ =~= items@.subrange(0, k as int));
            }
        }
        proof {
            assert(items@.subrange(0, n as int) =~= items@);
        }
        Some(ix)
    }

    /// Append `item`; returns the page on which it was placed.
    pub fn append(&mut self, item: u64) -> (page: u32)
        requires
            old(self).wf(),
            old(self)@.len() < MAX_INDEX_ITEMS,
        ensures
            final(self).wf(),
            final(self)@ == old(self)@.push(item),
            page == page_of(old(self)@.len() as int),
    {
        let ghost old_items = self.items@;
        let n = self.count;
        proof {
            lemma_position(n as int);
        }
        let page_idx: u64 = n / 50;
        let slot: u64 = n % 50;
        if slot == 0 {
            proof {
                assert(self.pages@.len() == page_idx);
            }
            let mut fresh: Vec<u64> = Vec::new();
            fresh.push(item);
            self.pages.push(fresh);
        } else {
            proof {
                assert(self.pages@.len() == page_idx + 1);
                assert(self.pages@[page_idx as int]@.len() == slot);
            }
            self.pages[page_idx as usize].push(item);
        }
        self.count = n + 1;
        self.items = Ghost(old_items.push(item));
        proof {
            assert forall|p: int, j: int|
                0 <= p < self.pages@.len() && 0 <= j < self.pages@[p]@.len() implies #[trigger] self.pages@[p]@[j]
                == self.items@[50 * p + j] by {
                if p == page_idx && j == slot {
                } else {
                    assert(j < old(self).pages@[p]@.len());
                }
            }
        }
        page_idx as u32
    }

    /// All entries, concatenated in page order.
    pub fn read_all(&self) -> (out: Vec<u64>)
        requires
            self.wf(),
        ensures
            out@ == self@,
    {
        let mut out: Vec<u64> = Vec::new();
        let n = self.count;
        let mut k: u64 = 0;
        while k < n
            invariant
                self.wf(),
                n == self@.len(),
                k <= n,
                out@ == self@.subrange(0, k as int),
            decreases n - k,
        {
            let x = self.get(k);
            out.push(x);
            k = k + 1;
            proof {
                assert(out@ =~= self@.subrange(0, k as int));
            }
        }
        proof {
            assert(out@ =~= self@);
        }
        out
    }

    /// Remove `target` from page `target_page`, filling its slot with the
    /// last entry of the whole index. Returns the moved entry and its new
    /// page when the moved entry changed page; `None` when the target was on
    /// the last page, or was not found on `target_page` (then nothing changes).
    pub fn remove(&mut self, target: u64, target_page: u32) -> (moved: Option<(u64, u32)>)
        requires
            old(self).wf(),
        ensures
            final(self).wf(),
            on_page(old(self)@, target, target_page as int) ==> {
                &&& final(self)@ == swap_remove_spec(
                    old(self)@,
                    slot_on_page(old(self)@, target, target_page as int),
                )
                &&& moved == (if target_page as int == page_of(old(self)@.len() - 1) {
                    None::<(u64, u32)>
                } else {
                    Some((old(self)@.last(), target_page))
                })
            },
            !on_page(old(self)@, target, target_page as int) ==> final(self)@ == old(self)@
                && moved == None::<(u64, u32)>,
    {
        let ghost old_items = self.items@;
        let npages = self.pages.len();
        if (target_page as usize) >= npages {
            proof {
                assert forall|k: int|
                    0 <= k < old_items.len() && page_of(k) == target_page implies old_items[k]
                    != target by {
                    lemma_position(k);
                    assert(k >= 50 * npages);
                }
            }
            return None;
        }
        let tp: usize = target_page as usize;
        let plen = self.pages[tp].len();
        let mut i: usize = 0;
        let mut found: Option<usize> = None;
        while i < plen
            invariant_except_break
                found is None,
            invariant
                self.wf(),
                self.items@ == old_items,
                tp < self.pages@.len(),
                plen == self.pages@[tp as int]@.len(),
                i <= plen,
                forall|j: int| 0 <= j < i ==> self.pages@[tp as int]@[j] != target,
            ensures
                found matches Some(f) ==> f < plen && self.pages@[tp as int]@[f as int] == target
                    && forall|j: int| 0 <= j < f ==> self.pages@[tp as int]@[j] != target,
                found is None ==> forall|j: int| 0 <= j < plen ==> self.pages@[tp as int]@[j] != target,
            decreases plen - i,
        {
            if self.pages[tp][i] == target {
                found = Some(i);
                break;
            }
            i = i + 1;
        }
        let idx: usize = match found {
            None => {
                proof {
                    assert forall|k: int|
                        0 <= k < old_items.len() && page_of(k) == target_page implies old_items[k]
                        != target by {
                        lemma_position(k);
                        let j = k % 50;
                        if j < plen {
                            assert(self.pages@[tp as int]@[j] == old_items[50 * tp + j]);
                        } else {
                            assert(tp + 1 == npages);
                        }
                    }
                }
                return None;
            },
            Some(f) => f,
        };
        let ghost gk: int = 50 * tp + idx;
        proof {
            lemma_position_converse(tp as int, idx as int);
            assert(self.pages@[tp as int]@[idx as int] == old_items[gk]);
            assert forall|j: int| tp * 50 <= j < gk implies old_items[j] != target by {
                assert(self.pages@[tp as int]@[j - 50 * tp] == old_items[50 * tp + (j - 50 * tp)]);
            }
            assert(first_slot(old_items, target, target_page as int, gk));
            lemma_first_slot_unique(old_items, target, target_page as int, gk);
        }
        let n = self.count;
        let last_page = npages - 1;
        let ghost new_items = swap_remove_spec(old_items, gk);
        let moved = if tp == last_page {
            let li = plen - 1;
            if idx != li {
                let v = self.pages[tp][li];
                self.pages[tp].set(idx, v);
            }
            self.pages[tp].pop();
            if self.pages[tp].len() == 0 {
                self.pages.pop();
            }
            proof {
                assert(old_items.last() == old_items[50 * tp + li]);
            }
            None
        } else {
            let llen = self.pages[last_page].len();
            let last_item = self.pages[last_page][llen - 1];
            proof {
                assert(last_item == old_items[50 * last_page + (llen - 1)]);
                assert(n - 1 == 50 * last_page + (llen - 1));
            }
            self.pages[tp].set(idx, last_item);
            self.pages[last_page].pop();
            if self.pages[last_page].len() == 0 {
                self.pages.pop();
            }
            Some((last_item, target_page))
        };
        self.count = n - 1;
        self.items = Ghost(new_items);
        proof {
            lemma_position((n - 1) as int);
            assert(page_of((n - 1) as int) == last_page) by {
                lemma_position_converse(last_page as int, (n - 1 - 50 * last_page) as int);
            }
            assert forall|p: int, j: int|
                0 <= p < self.pages@.len() && 0 <= j < self.pages@[p]@.len() implies #[trigger] self.pages@[p]@[j]
                == self.items@[50 * p + j] by {
                assert(self.pages@[p]@[j] == self.items@[50 * p + j]);
            }
        }
        moved
    }
}


/// Removing what was just appended restores the index: the new entry sits
/// alone at the end, on the page `append` reports.
pub proof fn law_append_then_remove(s: Seq<u64>, x: u64)
    requires
        !s.contains(x),
    ensures
        on_page(s.push(x), x, page_of(s.len() as int)),
        swap_remove_spec(s.push(x), slot_on_page(s.push(x), x, page_of(s.len() as int))) == s,
{
    let t = s.push(x);
    let k = s.len() as int;
    assert(t[k] == x);
    assert forall|j: int| page_of(k) * (PAGE_SIZE as int) <= j < k implies t[j] != x by {
        assert(t[j] == s[j]);
    }
    assert(first_slot(t, x, page_of(k), k));
    lemma_first_slot_unique(t, x, page_of(k), k);
    assert(swap_remove_spec(t, k) =~= s);
}

} // verus!
