use vstd::prelude::*;
use crate::item::ItemId;

verus! {

/// One of the five fixed rankings of stories.
#[derive(Clone, Copy, Debug, PartialEq, Eq, Structural)]
pub enum Category {
    Top,
    New,
    Show,
    Ask,
    Jobs,
}

impl Category {
    /// The prefix of the remote endpoint `/{prefix}stories.json` that ranks
    /// this category.
    pub fn endpoint_prefix(&self) -> (r: &'static str)
        ensures
            r@ == match *self {
                Category::Top => "top"@,
                Category::New => "new"@,
                Category::Show => "show"@,
                Category::Ask => "ask"@,
                Category::Jobs => "job"@,
            },
    {
        match self {
            Category::Top => "top",
            Category::New => "new",
            Category::Show => "show",
            Category::Ask => "ask",
            Category::Jobs => "job",
        }
    }
}

/// The first position of page `index` of `size` entries, clipped to `len`.
pub open spec fn window_start(len: int, index: int, size: int) -> int {
    if index * size < len {
        index * size
    } else {
        len
    }
}

/// The position after page `index` of `size` entries, clipped to `len`.
pub open spec fn window_end(len: int, index: int, size: int) -> int {
    if index * size + size < len {
        index * size + size
    } else {
        len
    }
}

/// Which slice of a ranked list is on screen: page `index` of `size` entries.
pub struct PageWindow {
    pub index: usize,
    pub size: usize,
}

impl PageWindow {
    /// The first page of `size` entries.
    pub fn new(size: usize) -> (r: Self)
        ensures
            r.index == 0,
            r.size == size,
    {
        PageWindow { index: 0, size }
    }

    /// The positions `[start, end)` of the entries on this page of a list of
    /// `len` entries: `[index * size, index * size + size)` clipped to the list.
    pub fn range(&self, len: usize) -> (r: (usize, usize))
        ensures
            r.0 == window_start(len as int, self.index as int, self.size as int),
            r.1 == window_end(len as int, self.index as int, self.size as int),
            r.0 <= r.1 <= len,
    {
        let index = self.index;
        let size = self.size;
        if size == 0 {
            assert(index * 0 == 0) by (nonlinear_arith);
            return (0, 0);
        }
        if index > len / size {
            proof {
                assert(index * size >= len) by (nonlinear_arith)
                    requires
                        index > len / size,
                        size > 0,
                ;
            }
            return (len, len);
        }
        proof {
            assert(index * size <= len) by (nonlinear_arith)
                requires
                    index <= len / size,
                    size > 0,
            ;
        }
        let start = index * size;
        let left = len - start;
        let take = if size < left { size } else { left };
        (start, start + take)
    }

    /// The ids of `ranked` on this page, in their ranked order: empty past
    /// the end of the list, shorter than `size` on its last page.
    pub fn visible_ids(&self, ranked: &Vec<ItemId>) -> (r: Vec<ItemId>)
        ensures
            r@ == ranked@.subrange(
                window_start(ranked@.len() as int, self.index as int, self.size as int),
                window_end(ranked@.len() as int, self.index as int, self.size as int),
            ),
    {
        let (start, end) = self.range(ranked.len());
        let mut r: Vec<ItemId> = Vec::new();
        let mut i = start;
        while i < end
            invariant
                start <= i <= end <= ranked@.len(),
                r@ == ranked@.subrange(start as int, i as int),
            decreases end - i,
        {
            r.push(ranked[i]);
            i += 1;
            assert(ranked@.subrange(start as int, i as int) == ranked@.subrange(
                start as int,
                i - 1,
            ).push(ranked@[i - 1]));
        }
        r
    }

    /// Moves to the next page; the index stays where it is at its largest value.
    pub fn advance(&mut self)
        ensures
            final(self).size == old(self).size,
            final(self).index == if old(self).index < usize::MAX {
                old(self).index + 1
            } else {
                old(self).index as int
            },
    {
        if self.index < usize::MAX {
            self.index += 1;
        }
    }

    /// Moves to the previous page, stopping at the first.
    pub fn retreat(&mut self)
        ensures
            final(self).size == old(self).size,
            final(self).index == if old(self).index > 0 {
                old(self).index - 1
            } else {
                0
            },
    {
        if self.index > 0 {
            self.index -= 1;
        }
    }

    /// Goes back to the first page.
    pub fn reset(&mut self)
        ensures
            final(self).size == old(self).size,
            final(self).index == 0,
    {
        self.index = 0;
    }
}

/// Where the ranked list of the active category stands.
#[derive(Debug)]
pub enum PageList {
    /// Its fetch is in flight.
    Loading,
    /// It arrived, in the server's order.
    Done(Vec<ItemId>),
    /// Its fetch failed; a refresh starts it again.
    Failed(String),
}

/// What can happen to the ranked list.
pub enum PageEvent {
    /// The fetch in flight finished.
    Fetched(Result<Vec<ItemId>, String>),
    /// The user asked for a fresh list.
    Refresh,
}

/// The state that `event` moves `state` to: a finished fetch settles a
/// loading list and is ignored otherwise; a refresh always starts loading.
pub open spec fn page_step(state: PageList, event: PageEvent) -> PageList {
    match event {
        PageEvent::Refresh => PageList::Loading,
        PageEvent::Fetched(outcome) => match state {
            PageList::Loading => match outcome {
                Ok(ids) => PageList::Done(ids),
                Err(e) => PageList::Failed(e),
            },
            _ => state,
        },
    }
}

impl PageList {
    /// Records that the fetch of the list finished with `outcome`.
    pub fn fetched(&mut self, outcome: Result<Vec<ItemId>, String>)
        ensures
            *final(self) == page_step(*old(self), PageEvent::Fetched(outcome)),
    {
        if let PageList::Loading = self {
            *self = match outcome {
                Ok(ids) => PageList::Done(ids),
                Err(e) => PageList::Failed(e),
            };
        }
    }

    /// Starts loading the list anew; the caller issues its fetch.
    pub fn restart(&mut self)
        ensures
            *final(self) == page_step(*old(self), PageEvent::Refresh),
    {
        *self = PageList::Loading;
    }

    /// Whether the fetch of the list is in flight.
    pub fn is_loading(&self) -> (r: bool)
        ensures
            r == (*self is Loading),
    {
        match self {
            PageList::Loading => true,
            _ => false,
        }
    }
}

/// A finished list never turns into a failed one, nor a failed list into a
/// finished one, in one step: each goes through loading first.
pub proof fn lemma_no_direct_done_failed(state: PageList, event: PageEvent)
    ensures
        state is Done ==> !(page_step(state, event) is Failed),
        state is Failed ==> !(page_step(state, event) is Done),
{
}

} // verus!
