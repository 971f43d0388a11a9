use vstd::prelude::*;
use vstd::arithmetic::div_mod::lemma_div_is_ordered;

verus! {

/// Number of pages of `page_size` bytes needed to cover `len` bytes.
pub open spec fn page_count(len: nat, page_size: nat) -> nat
    recommends
        page_size > 0,
{
    if len == 0 {
        0
    } else {
        ((len - 1) / (page_size as int) + 1) as nat
    }
}

/// Whether page `page` overlaps the byte range `[start, start + len)`.
pub open spec fn page_touched(start: nat, len: nat, page_size: nat, page: int) -> bool
    recommends
        page_size > 0,
{
    len > 0 && start / page_size <= page <= (start + len - 1) / (page_size as int)
}

/// The flags `d` after the pages that `[start, start + len)` touches were marked.
pub open spec fn mark_pages(d: Seq<bool>, start: nat, len: nat, page_size: nat) -> Seq<bool> {
    Seq::new(d.len(), |i: int| d[i] || page_touched(start, len, page_size, i))
}

/// Marking two byte ranges dirty gives the same flags in either order, and every
/// page that either range touches ends up dirty: no marking is lost to another.
pub proof fn lemma_marks_commute(d: Seq<bool>, page_size: nat, s1: nat, l1: nat, s2: nat, l2: nat)
    ensures
        mark_pages(mark_pages(d, s1, l1, page_size), s2, l2, page_size) == mark_pages(
            mark_pages(d, s2, l2, page_size),
            s1,
            l1,
            page_size,
        ),
        forall|i: int|
            0 <= i < d.len() && (page_touched(s1, l1, page_size, i) || page_touched(
                s2,
                l2,
                page_size,
                i,
            )) ==> #[trigger] mark_pages(mark_pages(d, s1, l1, page_size), s2, l2, page_size)[i],
{
    assert(mark_pages(mark_pages(d, s1, l1, page_size), s2, l2, page_size) =~= mark_pages(
        mark_pages(d, s2, l2, page_size),
        s1,
        l1,
        page_size,
    ));
}

/// Marking a byte range on clean flags sets exactly the pages the range touches.
pub proof fn lemma_mark_clean_exact(d: Seq<bool>, page_size: nat, start: nat, len: nat)
    requires
        forall|i: int| 0 <= i < d.len() ==> !d[i],
    ensures
        forall|i: int|
            0 <= i < d.len() ==> #[trigger] mark_pages(d, start, len, page_size)[i] == page_touched(
                start,
                len,
                page_size,
                i,
            ),
{
}

/// Dirty page tracker: one flag per page of a byte range.
#[derive(Debug)]
pub struct Bitmap {
    pages: Vec<bool>,
    byte_len: usize,
    page_size: usize,
}

impl View for Bitmap {
    type V = Seq<bool>;

    closed spec fn view(&self) -> Seq<bool> {
        self.pages@
    }
}

impl Bitmap {
    /// The number of bytes covered.
    pub closed spec fn spec_byte_len(&self) -> nat {
        self.byte_len as nat
    }

    /// The page size in bytes.
    pub closed spec fn spec_page_size(&self) -> nat {
        self.page_size as nat
    }

    pub closed spec fn wf(&self) -> bool {
        &&& self.page_size > 0
        &&& self.pages@.len() == page_count(self.byte_len as nat, self.page_size as nat)
    }

    /// A well-formed bitmap has one flag per page and a positive page size.
    pub proof fn lemma_wf(&self)
        requires
            self.wf(),
        ensures
            self.spec_page_size() > 0,
            self@.len() == page_count(self.spec_byte_len(), self.spec_page_size()),
    {
    }

    /// A bitmap over `byte_len` bytes with every page clean.
    pub fn new(byte_len: usize, page_size: usize) -> (r: Bitmap)
        requires
            page_size > 0,
        ensures
            r.wf(),
            r.spec_byte_len() == byte_len,
            r.spec_page_size() == page_size,
            r@.len() == page_count(byte_len as nat, page_size as nat),
            forall|i: int| 0 <= i < r@.len() ==> !r@[i],
    {
        let n: usize = if byte_len == 0 {
            0
        } else {
            (byte_len - 1) / page_size + 1
        };
        let mut pages: Vec<bool> = Vec::new();
        let mut i: usize = 0;
        while i < n
            invariant
                i <= n,
                pages@.len() == i,
                forall|j: int| 0 <= j < i ==> !pages@[j],
            decreases n - i,
        {
            pages.push(false);
            i = i + 1;
        }
        Bitmap { pages, byte_len, page_size }
    }

    /// The number of bytes covered.
    pub fn byte_len(&self) -> (r: usize)
        ensures
            r == self.spec_byte_len(),
    {
        self.byte_len
    }

    /// The page size in bytes.
    pub fn page_size(&self) -> (r: usize)
        ensures
            r == self.spec_page_size(),
    {
        self.page_size
    }

    /// The number of pages tracked.
    pub fn len(&self) -> (r: usize)
        ensures
            r == self@.len(),
    {
        self.pages.len()
    }

    /// Whether page `index` has been written since the last reset.
    pub fn is_page_dirty(&self, index: usize) -> (r: bool)
        ensures
            r == (index < self@.len() && self@[index as int]),
    {
        index < self.pages.len() && self.pages[index]
    }

    /// Whether the page holding byte `offset` has been written since the last reset.
    pub fn is_addr_set(&self, offset: usize) -> (r: bool)
        requires
            self.wf(),
        ensures
            r == (offset < self.spec_byte_len() && self@[offset as int / self.spec_page_size() as int]),
    {
        if offset < self.byte_len {
            proof {
                lemma_div_is_ordered(offset as int, (self.byte_len - 1) as int, self.page_size as int);
            }
            self.pages[offset / self.page_size]
        } else {
            false
        }
    }

    /// Marks dirty every page that the byte range `[start, start + len)` touches.
    pub fn set_addr_range(&mut self, start: usize, len: usize)
        requires
            old(self).wf(),
            start + len <= old(self).spec_byte_len(),
        ensures
            final(self).wf(),
            final(self).spec_byte_len() == old(self).spec_byte_len(),
            final(self).spec_page_size() == old(self).spec_page_size(),
            final(self)@.len() == old(self)@.len(),
            forall|i: int|
                0 <= i < final(self)@.len() ==> #[trigger] final(self)@[i] == (old(self)@[i]
                    || page_touched(start as nat, len as nat, old(self).spec_page_size(), i)),
    {
        if len == 0 {
            return;
        }
        let first = start / self.page_size;
        let last = (start + len - 1) / self.page_size;
        proof {
            lemma_div_is_ordered((start + len - 1) as int, (self.byte_len - 1) as int, self.page_size as int);
            lemma_div_is_ordered(start as int, (start + len - 1) as int, self.page_size as int);
        }
        let mut p: usize = first;
        while p <= last
            invariant
                self.wf(),
                self.byte_len == old(self).byte_len,
                self.page_size == old(self).page_size,
                first <= p <= last + 1,
                first == start as int / self.page_size as int,
                last == (start + len - 1) as int / self.page_size as int,
                last < self.pages@.len(),
                self.pages@.len() == old(self).pages@.len(),
                forall|i: int|
                    0 <= i < self.pages@.len() ==> #[trigger] self.pages@[i] == (old(self).pages@[i]
                        || (first <= i < p)),
            decreases last + 1 - p,
        {
            self.pages.set(p, true);
            p = p + 1;
        }
    }

    /// Marks every page clean.
    pub fn reset(&mut self)
        requires
            old(self).wf(),
        ensures
            final(self).wf(),
            final(self).spec_byte_len() == old(self).spec_byte_len(),
            final(self).spec_page_size() == old(self).spec_page_size(),
            final(self)@.len() == old(self)@.len(),
            forall|i: int| 0 <= i < final(self)@.len() ==> !final(self)@[i],
    {
        let n = self.pages.len();
        let mut p: usize = 0;
        while p < n
            invariant
                self.wf(),
                self.byte_len == old(self).byte_len,
                self.page_size == old(self).page_size,
                n == self.pages@.len(),
                p <= n,
                forall|i: int| 0 <= i < p ==> !self.pages@[i],
            decreases n - p,
        {
            self.pages.set(p, false);
            p = p + 1;
        }
    }
}

} // verus!
