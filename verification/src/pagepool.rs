//! An append-only posting bucket: vector ids kept in pages of 32.

use vstd::prelude::*;

verus! {

/// How many ids one page holds.
pub open spec fn page_size() -> int {
    32
}

/// The concatenation of a sequence of pages.
pub open spec fn flat(s: Seq<Seq<u32>>) -> Seq<u32>
    decreases s.len(),
{
    if s.len() == 0 {
        Seq::empty()
    } else {
        s[0] + flat(s.drop_first())
    }
}

/// Appending a page to the pool concatenates it at the end.
pub proof fn lemma_flat_push(s: Seq<Seq<u32>>, p: Seq<u32>)
    ensures
        flat(s.push(p)) == flat(s) + p,
    decreases s.len(),
{
    if s.len() == 0 {
        assert(s.push(p).drop_first() =~= Seq::<Seq<u32>>::empty());
        assert(s.push(p)[0] + flat(Seq::<Seq<u32>>::empty()) =~= flat(s) + p);
    } else {
        assert(s.push(p).drop_first() =~= s.drop_first().push(p));
        lemma_flat_push(s.drop_first(), p);
        assert(s[0] + (flat(s.drop_first()) + p) =~= (s[0] + flat(s.drop_first())) + p);
    }
}

/// An id is in the concatenation exactly when some page holds it.
pub proof fn lemma_flat_contains(s: Seq<Seq<u32>>, x: u32)
    ensures
        flat(s).contains(x) <==> exists|i: int| 0 <= i < s.len() && (#[trigger] s[i]).contains(x),
    decreases s.len(),
{
    if s.len() > 0 {
        lemma_flat_contains(s.drop_first(), x);
        if flat(s).contains(x) {
            let k = choose|k: int| 0 <= k < flat(s).len() && flat(s)[k] == x;
            if k < s[0].len() {
                assert(s[0].contains(x));
            } else {
                assert(flat(s.drop_first())[k - s[0].len()] == x);
                assert(flat(s.drop_first()).contains(x));
                let i = choose|i: int|
                    0 <= i < s.drop_first().len() && (#[trigger] s.drop_first()[i]).contains(x);
                assert(s[i + 1].contains(x));
            }
        }
        if exists|i: int| 0 <= i < s.len() && (#[trigger] s[i]).contains(x) {
            let i = choose|i: int| 0 <= i < s.len() && (#[trigger] s[i]).contains(x);
            if i == 0 {
                let k = choose|k: int| 0 <= k < s[0].len() && s[0][k] == x;
                assert(flat(s)[k] == x);
            } else {
                assert(s.drop_first()[i - 1].contains(x));
                assert(flat(s.drop_first()).contains(x));
                let k = choose|k: int|
                    0 <= k < flat(s.drop_first()).len() && flat(s.drop_first())[k] == x;
                assert(flat(s)[s[0].len() + k] == x);
            }
        }
    }
}

/// A paginated, append-only list of vector ids.
pub struct Pagepool {
    pages: Vec<Vec<u32>>,
}

impl Pagepool {
    /// The pages, as sequences.
    pub closed spec fn pages_view(&self) -> Seq<Seq<u32>> {
        self.pages@.map_values(|p: Vec<u32>| p@)
    }

    /// All ids in the pool, in append order.
    pub closed spec fn ids(&self) -> Seq<u32> {
        flat(self.pages_view())
    }

    /// Every page is nonempty, full but perhaps the last.
    pub closed spec fn wf(&self) -> bool {
        forall|i: int|
            0 <= i < self.pages@.len() ==> {
                &&& 1 <= (#[trigger] self.pages@[i])@.len() <= page_size()
                &&& (i < self.pages@.len() - 1 ==> self.pages@[i]@.len() == page_size())
            }
    }

    /// An empty pool.
    pub fn new() -> (r: Self)
        ensures
            r.wf(),
            r.ids() == Seq::<u32>::empty(),
    {
        let r = Pagepool { pages: Vec::new() };
        proof {
            assert(r.pages_view() =~= Seq::<Seq<u32>>::empty());
        }
        r
    }

    /// Appends an id to the last page, opening a new page when it is full.
    pub fn push(&mut self, id: u32)
        requires
            old(self).wf(),
        ensures
            final(self).wf(),
            final(self).ids() == old(self).ids().push(id),
    {
        let ghost old_pages = self.pages_view();
        let n = self.pages.len();
        if n == 0 {
            let mut page: Vec<u32> = Vec::new();
            page.push(id);
            self.pages.push(page);
            proof {
                assert(self.pages_view() =~= old_pages.push(seq![id]));
                lemma_flat_push(old_pages, seq![id]);
                assert(flat(old_pages) + seq![id] =~= old(self).ids().push(id));
            }
        } else {
            let mut page = self.pages.pop().unwrap();
            if page.len() == 32 {
                self.pages.push(page);
                let mut fresh: Vec<u32> = Vec::new();
                fresh.push(id);
                self.pages.push(fresh);
                proof {
                    assert(self.pages_view() =~= old_pages.push(seq![id]));
                    lemma_flat_push(old_pages, seq![id]);
                    assert(flat(old_pages) + seq![id] =~= old(self).ids().push(id));
                }
            } else {
                let ghost trunk = self.pages_view();
                let ghost last = page@;
                page.push(id);
                self.pages.push(page);
                proof {
                    assert(old_pages =~= trunk.push(last));
                    assert(self.pages_view() =~= trunk.push(last.push(id)));
                    lemma_flat_push(trunk, last);
                    lemma_flat_push(trunk, last.push(id));
                    assert(flat(trunk) + last.push(id) =~= (flat(trunk) + last).push(id));
                }
            }
        }
    }

    /// Whether an id appears in the pool; a linear scan.
    pub fn contains(&self, id: u32) -> (r: bool)
        requires
            self.wf(),
        ensures
            r == self.ids().contains(id),
    {
        let mut i: usize = 0;
        while i < self.pages.len()
            invariant
                i <= self.pages@.len(),
                forall|p: int, k: int|
                    0 <= p < i && 0 <= k < self.pages@[p]@.len() ==> #[trigger] self.pages@[p]@[k]
                        != id,
            decreases self.pages@.len() - i,
        {
            let page = &self.pages[i];
            let mut k: usize = 0;
            while k < page.len()
                invariant
                    k <= page@.len(),
                    page@ == self.pages@[i as int]@,
                    i < self.pages@.len(),
                    forall|p: int, j: int|
                        0 <= p < i && 0 <= j < self.pages@[p]@.len() ==> #[trigger] self.pages@[p]@[j]
                            != id,
                    forall|j: int| 0 <= j < k ==> page@[j] != id,
                decreases page@.len() - k,
            {
                if page[k] == id {
                    proof {
                        lemma_flat_contains(self.pages_view(), id);
                        assert(self.pages_view()[i as int].contains(id));
                    }
                    return true;
                }
                k = k + 1;
            }
            i = i + 1;
        }
        proof {
            lemma_flat_contains(self.pages_view(), id);
            assert forall|p: int| 0 <= p < self.pages_view().len() implies !(
            #[trigger] self.pages_view()[p]).contains(id) by {
                assert(self.pages_view()[p] == self.pages@[p]@);
            }
        }
        false
    }
}

} // verus!
