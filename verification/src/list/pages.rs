//! The pages a window holds, by page number.
use vstd::prelude::*;
use std::collections::{HashMap, HashSet};
use crate::list::shape::{cut_rows, lists_pages, PAGE_SIZE};

verus! {

broadcast use vstd::std_specs::hash::group_hash_axioms;

/// A table of pages. Its view is the map from a page's number to its rows.
pub struct PageTable<T> {
    held: HashMap<u32, Vec<T>>,
}

impl<T> View for PageTable<T> {
    type V = Map<u32, Seq<T>>;

    closed spec fn view(&self) -> Map<u32, Seq<T>> {
        self.held@.map_values(|rows: Vec<T>| rows@)
    }
}

impl<T> PageTable<T> {
    /// A table that holds nothing.
    pub fn new() -> (out: Self)
        ensures
            out@ == Map::<u32, Seq<T>>::empty(),
    {
        let out = PageTable { held: HashMap::new() };
        assert(out@ =~= Map::<u32, Seq<T>>::empty());
        out
    }

    /// The rows of `page`, if it is held.
    pub fn get(&self, page: u32) -> (out: Option<&Vec<T>>)
        ensures
            match out {
                Some(rows) => self@.contains_key(page) && rows@ == self@[page],
                None => !self@.contains_key(page),
            },
    {
        self.held.get(&page)
    }

    /// The rows of a page that is held.
    pub fn rows(&self, page: u32) -> (out: &Vec<T>)
        requires
            self@.contains_key(page),
        ensures
            out@ == self@[page],
    {
        self.held.get(&page).unwrap()
    }

    /// Whether `page` is held.
    pub fn contains(&self, page: u32) -> (out: bool)
        ensures
            out == self@.contains_key(page),
    {
        self.held.contains_key(&page)
    }

    /// The numbers of the pages held, lowest first.
    pub fn numbers(&self) -> (out: Vec<u32>)
        ensures
            lists_pages(self@, out@),
    {
        let mut out: Vec<u32> = Vec::new();
        for page in it: self.held.keys()
            invariant
                it.seq().unref().to_set() == self.held@.dom(),
                forall|i: int, j: int|
                    0 <= i < j < out@.len() ==> #[trigger] out@[i] < #[trigger] out@[j],
                forall|p: u32| #[trigger]
                    out@.contains(p) == it.seq().unref().take(it.index() as int).contains(p),
        {
            let ghost seen = it.seq().unref().take(it.index() as int);
            let ghost before = out@;
            insert_sorted(&mut out, *page);
            proof {
                assert(it.seq().unref().take(it.index() + 1) =~= seen.push(*page));
                assert forall|p: u32| #[trigger]
                    out@.contains(p) == it.seq().unref().take(it.index() + 1).contains(p) by {
                    lemma_push_contains(seen, *page, p);
                    assert(before.contains(p) == seen.contains(p));
                }
            }
        }
        proof {
            let all = vstd::std_specs::iter::IteratorSpec::remaining(&self.held.keys()).unref();
            assert(all.take(all.len() as int) =~= all);
            assert forall|p: u32| #[trigger] self@.contains_key(p) == out@.contains(p) by {
                assert(all.to_set().contains(p) == self.held@.dom().contains(p));
            }
            assert forall|i: int| 0 <= i < out@.len() implies self@.contains_key(#[trigger] out@[i]) by {
                assert(out@.contains(out@[i]));
            }
        }
        out
    }

    /// Hold `rows` as `page`, in place of whatever was held there.
    pub fn insert(&mut self, page: u32, rows: Vec<T>)
        ensures
            final(self)@ == old(self)@.insert(page, rows@),
    {
        let ghost before = self@;
        let _before = self.held.insert(page, rows);
        assert(self@ =~= before.insert(page, rows@));
    }

    /// Take `page` out, handing back its rows.
    pub fn take(&mut self, page: u32) -> (out: Option<Vec<T>>)
        ensures
            final(self)@ == old(self)@.remove(page),
            match out {
                Some(rows) => old(self)@.contains_key(page) && rows@ == old(self)@[page],
                None => !old(self)@.contains_key(page),
            },
    {
        let ghost before = self@;
        let out = self.held.remove(&page);
        assert(self@ =~= before.remove(page));
        out
    }

    /// Forget every page.
    pub fn clear(&mut self)
        ensures
            final(self)@ == Map::<u32, Seq<T>>::empty(),
    {
        self.held.clear();
        assert(self@ =~= Map::<u32, Seq<T>>::empty());
    }

    /// Forget every page from `limit` on.
    pub fn keep_below(&mut self, limit: u32)
        ensures
            final(self)@ == old(self)@.restrict(Set::new(|page: u32| page < limit)),
    {
        let ghost before = self@;
        let numbers = self.numbers();
        let mut i: usize = 0;
        while i < numbers.len()
            invariant
                i <= numbers@.len(),
                lists_pages(before, numbers@),
                forall|p: u32| #[trigger]
                    self@.contains_key(p) == (before.contains_key(p) && !(limit <= p
                        && numbers@.take(i as int).contains(p))),
                forall|p: u32| #[trigger] self@.contains_key(p) ==> self@[p] == before[p],
            decreases numbers@.len() - i,
        {
            let page: u32 = numbers[i];
            let ghost seen = numbers@.take(i as int);
            if page >= limit {
                let _gone = self.take(page);
            }
            i += 1;
            proof {
                assert(numbers@.take(i as int) =~= seen.push(page));
                assert forall|p: u32| #[trigger]
                    self@.contains_key(p) == (before.contains_key(p) && !(limit <= p
                        && numbers@.take(i as int).contains(p))) by {
                    lemma_push_contains(seen, page, p);
                }
            }
        }
        proof {
            assert(numbers@.take(numbers@.len() as int) =~= numbers@);
            assert(self@ =~= before.restrict(Set::new(|page: u32| page < limit)));
        }
    }

    /// Forget every row from `position` on, and every page that then has no
    /// place before it.
    pub fn cut_at(&mut self, position: u32)
        ensures
            final(self)@ == Map::new(
                |p: u32| old(self)@.contains_key(p) && p * PAGE_SIZE < position,
                |p: u32| cut_rows(old(self)@[p], p, position as int),
            ),
    {
        let ghost before = self@;
        let ghost after = Map::new(
            |p: u32| before.contains_key(p) && p * PAGE_SIZE < position,
            |p: u32| cut_rows(before[p], p, position as int),
        );
        let numbers = self.numbers();
        let mut i: usize = 0;
        while i < numbers.len()
            invariant
                i <= numbers@.len(),
                lists_pages(before, numbers@),
                after == Map::new(
                    |p: u32| before.contains_key(p) && p * PAGE_SIZE < position,
                    |p: u32| cut_rows(before[p], p, position as int),
                ),
                forall|p: u32| #[trigger]
                    self@.contains_key(p) == (if numbers@.take(i as int).contains(p) {
                        after.contains_key(p)
                    } else {
                        before.contains_key(p)
                    }),
                forall|p: u32| #[trigger]
                    self@.contains_key(p) ==> self@[p] == (if numbers@.take(i as int).contains(p) {
                        after[p]
                    } else {
                        before[p]
                    }),
            decreases numbers@.len() - i,
        {
            let page: u32 = numbers[i];
            let ghost seen = numbers@.take(i as int);
            proof {
                assert(!seen.contains(page)) by {
                    if seen.contains(page) {
                        let k = choose|k: int| 0 <= k < seen.len() && seen[k] == page;
                        assert(numbers@[k] < numbers@[i as int]);
                    }
                }
                assert(before.contains_key(numbers@[i as int]));
                assert(page as u64 * PAGE_SIZE as u64 <= u32::MAX as u64 * 50) by (nonlinear_arith)
                    requires
                        PAGE_SIZE == 50,
                ;
            }
            let start: u64 = page as u64 * PAGE_SIZE as u64;
            match self.take(page) {
                Some(mut rows) => {
                    if start < position as u64 {
                        let left: usize = (position as u64 - start) as usize;
                        let ghost whole = rows@;
                        if rows.len() > left {
                            rows.truncate(left);
                        }
                        assert(rows@ =~= cut_rows(whole, page, position as int));
                        self.insert(page, rows);
                    }
                },
                None => {},
            }
            i += 1;
            proof {
                assert(numbers@.take(i as int) =~= seen.push(page));
                assert forall|p: u32| #[trigger] numbers@.take(i as int).contains(p) == (seen.contains(p)
                    || p == page) by {
                    lemma_push_contains(seen, page, p);
                }
            }
        }
        proof {
            assert(numbers@.take(numbers@.len() as int) =~= numbers@);
            assert(self@ =~= after);
        }
    }
}

/// A set of page numbers. Its view is the set.
pub struct PageSet {
    numbers: HashSet<u32>,
}

impl View for PageSet {
    type V = Set<u32>;

    closed spec fn view(&self) -> Set<u32> {
        self.numbers@
    }
}

impl PageSet {
    /// The empty set.
    pub fn new() -> (out: Self)
        ensures
            out@ == Set::<u32>::empty(),
    {
        PageSet { numbers: HashSet::new() }
    }

    /// Whether `page` is in the set.
    pub fn contains(&self, page: u32) -> (out: bool)
        ensures
            out == self@.contains(page),
    {
        self.numbers.contains(&page)
    }

    /// Put `page` in, and say whether it was not in before.
    pub fn insert(&mut self, page: u32) -> (out: bool)
        ensures
            out == !old(self)@.contains(page),
            final(self)@ == old(self)@.insert(page),
    {
        self.numbers.insert(page)
    }

    /// Take `page` out.
    pub fn remove(&mut self, page: u32)
        ensures
            final(self)@ == old(self)@.remove(page),
    {
        let ghost before = self@;
        let _was = self.numbers.remove(&page);
        assert(self@ =~= before.remove(page));
    }

    /// Empty the set.
    pub fn clear(&mut self)
        ensures
            final(self)@ == Set::<u32>::empty(),
    {
        self.numbers.clear();
    }

    /// The pages from `limit` on.
    fn from(&self, limit: u32) -> (out: Vec<u32>)
        ensures
            out@.no_duplicates(),
            forall|p: u32| #[trigger] out@.contains(p) == (p >= limit && self@.contains(p)),
    {
        let mut out: Vec<u32> = Vec::new();
        for page in it: self.numbers.iter()
            invariant
                it.seq().unref().to_set() == self@,
                it.seq().no_duplicates(),
                out@.no_duplicates(),
                forall|p: u32| #[trigger]
                    out@.contains(p) == (p >= limit && it.seq().unref().take(
                        it.index() as int,
                    ).contains(p)),
        {
            let ghost all = it.seq().unref();
            let ghost seen = all.take(it.index() as int);
            let ghost before = out@;
            proof {
                assert(!seen.contains(*page)) by {
                    if seen.contains(*page) {
                        let k = choose|k: int| 0 <= k < seen.len() && seen[k] == *page;
                        assert(it.seq()[k] == it.seq()[it.index() as int]);
                    }
                }
                assert(!before.contains(*page));
            }
            if *page >= limit {
                out.push(*page);
            }
            proof {
                assert(all.take(it.index() + 1) =~= seen.push(*page));
                assert forall|p: u32| #[trigger]
                    out@.contains(p) == (p >= limit && all.take(it.index() + 1).contains(p)) by {
                    lemma_push_contains(seen, *page, p);
                    lemma_push_contains(before, *page, p);
                    assert(before.contains(p) == (p >= limit && seen.contains(p)));
                }
            }
        }
        proof {
            let all = vstd::std_specs::iter::IteratorSpec::remaining(&self.numbers.iter()).unref();
            assert(all.take(all.len() as int) =~= all);
            assert forall|p: u32| #[trigger] out@.contains(p) == (p >= limit && self@.contains(p)) by {
                assert(all.to_set().contains(p) == self@.contains(p));
            }
        }
        out
    }

    /// Whether any page from `page` on is in the set.
    pub fn any_from(&self, page: u32) -> (out: bool)
        ensures
            out == exists|p: u32| #[trigger] self@.contains(p) && p >= page,
    {
        let later = self.from(page);
        if later.len() > 0 {
            assert(later@.contains(later@[0]));
            true
        } else {
            assert forall|p: u32| #[trigger] self@.contains(p) implies p < page by {
                assert(!later@.contains(p));
            }
            false
        }
    }

    /// Take out every page from `limit` on, handing those back.
    pub fn split_from(&mut self, limit: u32) -> (out: Vec<u32>)
        ensures
            final(self)@ == old(self)@.filter(|page: u32| page < limit),
            out@.no_duplicates(),
            out@.to_set() == old(self)@.filter(|page: u32| page >= limit),
    {
        let ghost before = self@;
        let out = self.from(limit);
        let mut i: usize = 0;
        while i < out.len()
            invariant
                i <= out@.len(),
                forall|p: u32| #[trigger]
                    self@.contains(p) == (before.contains(p) && !out@.take(i as int).contains(p)),
            decreases out@.len() - i,
        {
            let ghost seen = out@.take(i as int);
            self.remove(out[i]);
            i += 1;
            proof {
                assert(out@.take(i as int) =~= seen.push(out@[i - 1]));
                assert forall|p: u32| #[trigger] self@.contains(p) == (before.contains(p)
                    && !out@.take(i as int).contains(p)) by {
                    lemma_push_contains(seen, out@[i - 1], p);
                }
            }
        }
        proof {
            assert(out@.take(out@.len() as int) =~= out@);
            assert(self@ =~= before.filter(|page: u32| page < limit));
            assert(out@.to_set() =~= before.filter(|page: u32| page >= limit));
        }
        out
    }
}

/// Put `page` into the ascending `list`, once.
pub(crate) fn insert_sorted(list: &mut Vec<u32>, page: u32)
    requires
        forall|i: int, j: int|
            0 <= i < j < old(list)@.len() ==> #[trigger] old(list)@[i] < #[trigger] old(list)@[j],
    ensures
        forall|i: int, j: int|
            0 <= i < j < final(list)@.len() ==> #[trigger] final(list)@[i] < #[trigger] final(list)@[j],
        forall|p: u32| #[trigger]
            final(list)@.contains(p) == (old(list)@.contains(p) || p == page),
{
    let ghost before = list@;
    let mut slot: usize = 0;
    while slot < list.len() && list[slot] < page
        invariant
            slot <= list@.len(),
            list@ == before,
            forall|i: int| 0 <= i < slot ==> #[trigger] list@[i] < page,
        decreases list@.len() - slot,
    {
        slot += 1;
    }
    if slot < list.len() && list[slot] == page {
        assert(before[slot as int] == page);
        return;
    }
    list.insert(slot, page);
    proof {
        assert forall|i: int, j: int|
            0 <= i < j < list@.len() implies #[trigger] list@[i] < #[trigger] list@[j] by {
            let a = if i < slot { i } else { i - 1 };
            let b = if j < slot { j } else { j - 1 };
            if i != slot {
                assert(list@[i] == before[a]);
            }
            if j != slot {
                assert(list@[j] == before[b]);
            }
        }
        assert forall|p: u32| #[trigger] list@.contains(p) == (before.contains(p) || p == page) by {
            if before.contains(p) {
                let i = choose|i: int| 0 <= i < before.len() && before[i] == p;
                let j = if i < slot { i } else { i + 1 };
                assert(list@[j] == p);
            }
            if list@.contains(p) {
                let j = choose|j: int| 0 <= j < list@.len() && list@[j] == p;
                let i = if j < slot { j } else { j - 1 };
                if j != slot {
                    assert(before[i] == p);
                }
            }
            assert(list@[slot as int] == page);
        }
    }
}

/// What a sequence holds once one more value is pushed onto it.
pub proof fn lemma_push_contains(s: Seq<u32>, value: u32, p: u32)
    ensures
        s.push(value).contains(p) == (s.contains(p) || p == value),
{
    if s.contains(p) {
        let i = choose|i: int| 0 <= i < s.len() && s[i] == p;
        assert(s.push(value)[i] == p);
    }
    assert(s.push(value)[s.len() as int] == value);
}

} // verus!
