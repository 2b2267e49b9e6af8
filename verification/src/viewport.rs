//! The screen is one viewport, or two side by side; each shows a buffer view.

use vstd::prelude::*;
use crate::buffer_position::BufferPosition;
use crate::buffer_view::BufferViewHandle;

verus! {

/// Lines of the screen that viewports do not use.
pub const VERTICAL_MARGIN: usize = 2;

/// A region of the screen showing buffer views, the current one first.
pub struct Viewport {
    pub is_current: bool,
    pub buffer_view_handles: Vec<BufferViewHandle>,
    pub scroll: usize,
    pub x: usize,
    pub width: usize,
    pub height: usize,
}

/// `s` with the items at `i` and `j` swapped.
pub open spec fn swapped<A>(s: Seq<A>, i: int, j: int) -> Seq<A> {
    s.update(i, s[j]).update(j, s[i])
}

/// The first index of `h` in `s`, searched from `k`.
pub open spec fn index_of(s: Seq<BufferViewHandle>, h: BufferViewHandle, k: int) -> Option<int>
    decreases s.len() - k,
{
    if k < 0 || k >= s.len() {
        None
    } else if s[k] == h {
        Some(k)
    } else {
        index_of(s, h, k + 1)
    }
}

proof fn lemma_index_of_bounds(s: Seq<BufferViewHandle>, h: BufferViewHandle, k: int)
    requires
        0 <= k,
    ensures
        index_of(s, h, k) matches Some(i) ==> k <= i < s.len() && s[i] == h,
    decreases s.len() - k,
{
    if k < s.len() && s[k] != h {
        lemma_index_of_bounds(s, h, k + 1);
    }
}

impl Default for Viewport {
    fn default() -> (r: Self)
        ensures
            !r.is_current,
            r.handles().len() == 0,
            r.scroll == 0,
            r.x == 0,
            r.width == 0,
            r.height == 0,
    {
        Viewport { is_current: false, buffer_view_handles: Vec::new(), scroll: 0, x: 0, width: 0, height: 0 }
    }
}

impl Viewport {
    /// The buffer views shown, the current one first.
    pub open spec fn handles(&self) -> Seq<BufferViewHandle> {
        self.buffer_view_handles@
    }

    pub fn current_buffer_view_handle(&self) -> (r: Option<&BufferViewHandle>)
        ensures
            self.handles().len() == 0 ==> r is None,
            self.handles().len() > 0 ==> r == Some(&self.handles()[0]),
    {
        if self.buffer_view_handles.len() == 0 {
            None
        } else {
            Some(&self.buffer_view_handles[0])
        }
    }

    /// Makes `handle` the current view: it swaps places with the first one,
    /// added at the end first when not shown yet; scrolls back to the top.
    pub fn set_current_buffer_view_handle(&mut self, handle: BufferViewHandle)
        ensures
            final(self).handles() == match index_of(old(self).handles(), handle, 0) {
                Some(i) => swapped(old(self).handles(), 0, i),
                None => swapped(old(self).handles().push(handle), 0, old(self).handles().len() as int),
            },
            final(self).scroll == 0,
            final(self).is_current == old(self).is_current,
            final(self).x == old(self).x,
            final(self).width == old(self).width,
            final(self).height == old(self).height,
    {
        let mut k: usize = 0;
        while k < self.buffer_view_handles.len() && self.buffer_view_handles[k] != handle
            invariant
                k <= self.buffer_view_handles.len(),
                self.buffer_view_handles@ == old(self).buffer_view_handles@,
                index_of(old(self).handles(), handle, 0) == index_of(old(self).handles(), handle, k as int),
            decreases self.buffer_view_handles.len() - k,
        {
            k = k + 1;
        }
        if k == self.buffer_view_handles.len() {
            self.buffer_view_handles.push(handle);
        }
        let first = self.buffer_view_handles[0];
        let other = self.buffer_view_handles[k];
        self.buffer_view_handles.set(0, other);
        self.buffer_view_handles.set(k, first);
        self.scroll = 0;
    }

    /// Scrolls just enough to show the cursor's line.
    pub fn scroll_to_cursor(&mut self, cursor: BufferPosition)
        requires
            old(self).scroll + old(self).height <= usize::MAX,
            old(self).height > 0 || cursor.line_index < usize::MAX,
        ensures
            cursor.line_index < old(self).scroll ==> final(self).scroll == cursor.line_index,
            old(self).scroll <= cursor.line_index < old(self).scroll + old(self).height ==> final(self).scroll == old(self).scroll,
            cursor.line_index >= old(self).scroll + old(self).height ==> final(self).scroll == cursor.line_index - old(self).height + 1,
            final(self).handles() == old(self).handles(),
            final(self).is_current == old(self).is_current,
            final(self).x == old(self).x,
            final(self).width == old(self).width,
            final(self).height == old(self).height,
    {
        if cursor.line_index < self.scroll {
            self.scroll = cursor.line_index;
        } else if cursor.line_index >= self.scroll + self.height {
            self.scroll = cursor.line_index - self.height + 1;
        }
    }
}

/// The viewports of the screen: the second one is shown once split.
pub struct ViewportCollection {
    first: Viewport,
    second: Viewport,
    is_split: bool,
}

impl ViewportCollection {
    pub closed spec fn first(&self) -> Viewport {
        self.first
    }

    pub closed spec fn second(&self) -> Viewport {
        self.second
    }

    pub closed spec fn split(&self) -> bool {
        self.is_split
    }

    /// One viewport, current, with nothing shown.
    pub fn new() -> (r: Self)
        ensures
            !r.split(),
            r.first().is_current,
            !r.second().is_current,
            r.first().handles().len() == 0,
            r.second().handles().len() == 0,
    {
        let mut first = Viewport::default();
        first.is_current = true;
        let second = Viewport::default();
        ViewportCollection { first, second, is_split: false }
    }

    /// Sizes the viewports to a screen of `width` by `height`, side by side
    /// when split.
    pub fn set_view_size(&mut self, width: usize, height: usize)
        requires
            height >= VERTICAL_MARGIN,
        ensures
            final(self).first().height == height - VERTICAL_MARGIN,
            final(self).second().height == height - VERTICAL_MARGIN,
            old(self).split() ==> final(self).first().width == width / 2 && final(self).second().x == width / 2
                && final(self).second().width == width - width / 2,
            !old(self).split() ==> final(self).first().width == width && final(self).second().x == old(self).second().x
                && final(self).second().width == old(self).second().width,
            final(self).split() == old(self).split(),
            final(self).first().x == old(self).first().x,
            final(self).first().is_current == old(self).first().is_current,
            final(self).second().is_current == old(self).second().is_current,
            final(self).first().scroll == old(self).first().scroll,
            final(self).second().scroll == old(self).second().scroll,
            final(self).first().handles() == old(self).first().handles(),
            final(self).second().handles() == old(self).second().handles(),
    {
        self.first.height = height - VERTICAL_MARGIN;
        self.second.height = height - VERTICAL_MARGIN;
        if self.is_split {
            let half_width = width / 2;
            self.first.width = half_width;
            self.second.x = half_width;
            self.second.width = width - half_width;
        } else {
            self.first.width = width;
        }
    }

    /// Moves the focus to the other viewport; the first time, splits the
    /// screen and shows in the new viewport a copy of the current view, made
    /// by `duplicate`.
    pub fn focus_next_viewport<F: FnOnce(BufferViewHandle) -> BufferViewHandle>(&mut self, duplicate: F)
        requires
            old(self).first().height <= usize::MAX - VERTICAL_MARGIN,
            forall|h: BufferViewHandle| call_requires(duplicate, (h,)),
        ensures
            final(self).split(),
            final(self).first().is_current == !old(self).first().is_current,
            final(self).second().is_current == !old(self).second().is_current,
            old(self).split() ==> final(self).first().handles() == old(self).first().handles()
                && final(self).second().handles() == old(self).second().handles(),
            !old(self).split() ==> final(self).first().handles() == old(self).first().handles()
                && final(self).first().height == old(self).first().height
                && final(self).first().width == old(self).first().width / 2
                && final(self).second().x == old(self).first().width / 2
                && final(self).second().width == old(self).first().width - old(self).first().width / 2
                && final(self).second().height == old(self).first().height
                && (old(self).first().handles().len() == 0 ==> final(self).second().handles() == old(self).second().handles())
                && (old(self).first().handles().len() > 0 ==> final(self).second().handles().len() == old(self).second().handles().len() + 1
                    && final(self).second().handles().take(old(self).second().handles().len() as int) == old(self).second().handles()
                    && call_ensures(duplicate, (old(self).first().handles()[0],), final(self).second().handles().last())),
    {
        if !self.is_split {
            self.is_split = true;
            let width = self.first.width;
            let height = self.first.height + VERTICAL_MARGIN;
            self.set_view_size(width, height);
            if self.first.buffer_view_handles.len() > 0 {
                let current = self.first.buffer_view_handles[0];
                let copy = duplicate(current);
                self.second.buffer_view_handles.push(copy);
                assert(self.second.buffer_view_handles@.take(old(self).second.buffer_view_handles@.len() as int) =~= old(self).second.buffer_view_handles@);
            }
        }
        self.first.is_current = !self.first.is_current;
        self.second.is_current = !self.second.is_current;
    }

    /// The viewport that has the focus.
    pub fn current_viewport(&self) -> (r: &Viewport)
        ensures
            self.first().is_current ==> *r == self.first(),
            !self.first().is_current ==> *r == self.second(),
    {
        if self.first.is_current {
            &self.first
        } else {
            &self.second
        }
    }

    /// The viewport that has the focus, for change.
    pub fn current_viewport_mut(&mut self) -> (r: &mut Viewport)
        ensures
            old(self).first().is_current ==> *r == old(self).first() && final(self).first() == *final(r)
                && final(self).second() == old(self).second(),
            !old(self).first().is_current ==> *r == old(self).second() && final(self).second() == *final(r)
                && final(self).first() == old(self).first(),
            final(self).split() == old(self).split(),
    {
        if self.first.is_current {
            &mut self.first
        } else {
            &mut self.second
        }
    }

    /// The viewports shown: the first, and the second once split.
    pub fn iter(&self) -> (r: Vec<&Viewport>)
        ensures
            self.split() ==> r@.len() == 2 && *r@[0] == self.first() && *r@[1] == self.second(),
            !self.split() ==> r@.len() == 1 && *r@[0] == self.first(),
    {
        let mut r: Vec<&Viewport> = Vec::new();
        r.push(&self.first);
        if self.is_split {
            r.push(&self.second);
        }
        r
    }
}

/// After a view is made current it is the first one shown, and the views
/// shown are the same but for the one added.
pub proof fn lemma_set_current_first(handles: Seq<BufferViewHandle>, handle: BufferViewHandle)
    ensures
        ({
            let after = match index_of(handles, handle, 0) {
                Some(i) => swapped(handles, 0, i),
                None => swapped(handles.push(handle), 0, handles.len() as int),
            };
            &&& after[0] == handle
            &&& after.len() == if index_of(handles, handle, 0) is Some { handles.len() } else { handles.len() + 1 }
            &&& after.to_multiset() == if index_of(handles, handle, 0) is Some {
                handles.to_multiset()
            } else {
                handles.to_multiset().insert(handle)
            }
        }),
{
    lemma_index_of_bounds(handles, handle, 0);
    match index_of(handles, handle, 0) {
        Some(i) => {
            lemma_swap_multiset(handles, 0, i);
        },
        None => {
            let pushed = handles.push(handle);
            lemma_swap_multiset(pushed, 0, handles.len() as int);
            vstd::seq_lib::to_multiset_build(handles, handle);
        },
    }
}

/// Swapping two items keeps the same items.
proof fn lemma_swap_multiset<A>(s: Seq<A>, i: int, j: int)
    requires
        0 <= i < s.len(),
        0 <= j < s.len(),
    ensures
        swapped(s, i, j).to_multiset() == s.to_multiset(),
        swapped(s, i, j)[i] == s[j],
        swapped(s, i, j).len() == s.len(),
{
    broadcast use vstd::seq_lib::group_to_multiset_ensures;

    if i != j {
        let s1 = s.update(i, s[j]);
        vstd::seq_lib::to_multiset_update(s, i, s[j]);
        vstd::seq_lib::to_multiset_update(s1, j, s[i]);
        assert(s.to_multiset().count(s[i]) > 0) by {
            assert(s.contains(s[i]));
        }
        assert(s1.to_multiset().count(s[j]) > 0) by {
            assert(s1[i] == s[j]);
            assert(s1.contains(s[j]));
        }
        assert(swapped(s, i, j).to_multiset() =~= s.to_multiset());
    }
}

} // verus!
