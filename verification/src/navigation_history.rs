//! The history of places a client went to, to move back and forth in it and
//! to jump back to the previous buffer.

use vstd::prelude::*;
use crate::buffer::BufferHandle;
use crate::buffer_position::BufferPosition;

verus! {

#[derive(Clone, Copy)]
pub enum NavigationMovement {
    Forward,
    Backward,
}

/// A place in the history: a buffer and the main cursor's position in it.
#[derive(Debug, Clone, Copy, PartialEq, Eq, Structural)]
pub struct NavigationHistorySnapshot {
    pub buffer_handle: BufferHandle,
    pub position: BufferPosition,
}

/// The places a client went to, and where in them it stands.
pub struct NavigationHistory {
    snapshots: Vec<NavigationHistorySnapshot>,
    current_snapshot_index: u32,
    on_previous_buffer: bool,
}

/// What a navigation history holds.
#[verifier::ext_equal]
pub struct NavigationHistoryView {
    pub snapshots: Seq<NavigationHistorySnapshot>,
    pub current: int,
    pub on_previous_buffer: bool,
}

impl View for NavigationHistory {
    type V = NavigationHistoryView;

    closed spec fn view(&self) -> NavigationHistoryView {
        NavigationHistoryView {
            snapshots: self.snapshots@,
            current: self.current_snapshot_index as int,
            on_previous_buffer: self.on_previous_buffer,
        }
    }
}

/// The history after saving the place `current` (the buffer shown and the
/// main cursor's position): what follows the current entry is dropped (all
/// of it is kept after a jump to the previous buffer), and the place is
/// added unless it is the last entry already.
pub open spec fn saved(h: NavigationHistoryView, current: Option<NavigationHistorySnapshot>) -> NavigationHistoryView {
    match current {
        None => h,
        Some(snapshot) => {
            let index = if h.on_previous_buffer {
                h.snapshots.len() as int
            } else {
                h.current
            };
            let kept = if index < h.snapshots.len() {
                h.snapshots.take(index)
            } else {
                h.snapshots
            };
            if kept.len() > 0 && kept.last() == snapshot {
                NavigationHistoryView { snapshots: kept, current: index, on_previous_buffer: false }
            } else {
                NavigationHistoryView {
                    snapshots: kept.push(snapshot),
                    current: (kept.len() + 1) as int,
                    on_previous_buffer: false,
                }
            }
        },
    }
}

/// The history after a move, and the place moved to, if any.
pub open spec fn moved(h: NavigationHistoryView, movement: NavigationMovement, current: Option<NavigationHistorySnapshot>) -> (NavigationHistoryView, Option<NavigationHistorySnapshot>) {
    match movement {
        NavigationMovement::Forward => if h.current + 1 >= h.snapshots.len() {
            (h, None)
        } else {
            let index = h.current + 1;
            (
                NavigationHistoryView { snapshots: h.snapshots, current: index, on_previous_buffer: false },
                Some(h.snapshots[index]),
            )
        },
        NavigationMovement::Backward => if h.current == 0 {
            (h, None)
        } else {
            let h1 = if h.current == h.snapshots.len() {
                let s = saved(h, current);
                NavigationHistoryView {
                    snapshots: s.snapshots,
                    current: if s.current > 1 {
                        s.current - 1
                    } else {
                        s.current
                    },
                    on_previous_buffer: s.on_previous_buffer,
                }
            } else {
                h
            };
            let index = h1.current - 1;
            (
                NavigationHistoryView { snapshots: h1.snapshots, current: index, on_previous_buffer: false },
                Some(h1.snapshots[index]),
            )
        },
    }
}

/// The last entry before `k` whose buffer is not `buffer`.
pub open spec fn last_other_buffer(s: Seq<NavigationHistorySnapshot>, buffer: Option<BufferHandle>, k: int) -> Option<int>
    decreases k,
{
    if k <= 0 {
        None
    } else if buffer != Some(s[k - 1].buffer_handle) {
        Some(k - 1)
    } else {
        last_other_buffer(s, buffer, k - 1)
    }
}

/// The history once the current place is recorded for a jump to the
/// previous buffer: added unless the current entry is in the same buffer.
pub open spec fn recorded(h: NavigationHistoryView, current: Option<NavigationHistorySnapshot>) -> Seq<NavigationHistorySnapshot> {
    match current {
        None => h.snapshots,
        Some(snapshot) => if 0 <= h.current < h.snapshots.len() && h.snapshots[h.current].buffer_handle
            == snapshot.buffer_handle {
            h.snapshots
        } else {
            h.snapshots.push(snapshot)
        },
    }
}

/// The history with the entries of `buffer` before `k` removed, from the
/// last one down, the current entry moving back with each removal at or
/// before it.
pub open spec fn removed(s: Seq<NavigationHistorySnapshot>, current: int, buffer: BufferHandle, k: int) -> (Seq<NavigationHistorySnapshot>, int)
    decreases k,
{
    if k <= 0 || k > s.len() {
        (s, current)
    } else if s[k - 1].buffer_handle == buffer {
        removed(
            s.remove(k - 1),
            if current > 0 && k - 1 <= current {
                current - 1
            } else {
                current
            },
            buffer,
            k - 1,
        )
    } else {
        removed(s, current, buffer, k - 1)
    }
}

/// Removing the entries of a buffer leaves none of them, and keeps the
/// current entry within the history.
pub proof fn lemma_removed(s: Seq<NavigationHistorySnapshot>, current: int, buffer: BufferHandle, k: int)
    requires
        0 <= k <= s.len(),
        0 <= current <= s.len(),
        forall|j: int| k <= j < s.len() ==> (#[trigger] s[j]).buffer_handle != buffer,
    ensures
        forall|j: int| 0 <= j < removed(s, current, buffer, k).0.len() ==> (#[trigger] removed(s, current, buffer, k).0[j]).buffer_handle != buffer,
        0 <= removed(s, current, buffer, k).1 <= removed(s, current, buffer, k).0.len(),
    decreases k,
{
    if k > 0 {
        if s[k - 1].buffer_handle == buffer {
            let s2 = s.remove(k - 1);
            let c2 = if current > 0 && k - 1 <= current {
                current - 1
            } else {
                current
            };
            assert forall|j: int| k - 1 <= j < s2.len() implies (#[trigger] s2[j]).buffer_handle != buffer by {
                assert(s2[j] == s[j + 1]);
            }
            lemma_removed(s2, c2, buffer, k - 1);
        } else {
            lemma_removed(s, current, buffer, k - 1);
        }
    }
}

impl NavigationHistory {
    /// The current entry lies within the history, whose length fits the index.
    pub open spec fn wf(&self) -> bool {
        &&& 0 <= self@.current <= self@.snapshots.len()
        &&& self@.snapshots.len() <= u32::MAX
    }

    pub fn new() -> (r: Self)
        ensures
            r.wf(),
            r@.snapshots.len() == 0,
            r@.current == 0,
            !r@.on_previous_buffer,
    {
        NavigationHistory { snapshots: Vec::new(), current_snapshot_index: 0, on_previous_buffer: false }
    }

    pub fn clear(&mut self)
        ensures
            final(self).wf(),
            final(self)@.snapshots.len() == 0,
            final(self)@.current == 0,
            !final(self)@.on_previous_buffer,
    {
        self.snapshots.clear();
        self.current_snapshot_index = 0;
        self.on_previous_buffer = false;
    }

    /// The index of the current entry.
    pub fn current_snapshot_index(&self) -> (r: u32)
        ensures
            r == self@.current,
    {
        self.current_snapshot_index
    }

    /// The number of entries.
    pub fn snapshot_count(&self) -> (r: usize)
        ensures
            r == self@.snapshots.len(),
    {
        self.snapshots.len()
    }

    /// Saves the place `current` of the client, if it shows a buffer.
    pub fn save_snapshot(&mut self, current: Option<NavigationHistorySnapshot>)
        requires
            old(self).wf(),
            old(self)@.snapshots.len() < u32::MAX,
        ensures
            final(self).wf(),
            final(self)@ == saved(old(self)@, current),
            current matches Some(s) ==> (final(self)@.snapshots.len() > 0
                && final(self)@.snapshots.last() == s
                && final(self)@.current == final(self)@.snapshots.len()),
            current is None ==> final(self)@ == old(self)@,
    {
        proof {
            if let Some(s) = current {
                lemma_saved_records_place(old(self)@, s);
            }
        }
        let snapshot = match current {
            Some(s) => s,
            None => return,
        };
        if self.on_previous_buffer {
            self.current_snapshot_index = self.snapshots.len() as u32;
        }
        self.snapshots.truncate(self.current_snapshot_index as usize);
        self.on_previous_buffer = false;
        let n = self.snapshots.len();
        if n > 0 {
            let last = self.snapshots[n - 1];
            if last.buffer_handle == snapshot.buffer_handle && last.position == snapshot.position {
                assert(self@ =~= saved(old(self)@, current));
                return;
            }
        }
        self.snapshots.push(snapshot);
        self.current_snapshot_index = self.snapshots.len() as u32;
        assert(self@ =~= saved(old(self)@, current));
    }

    /// Moves one entry forward or back in the history, and gives the place to
    /// go to; moving back from the end first saves the client's place.
    pub fn move_in_history(&mut self, movement: NavigationMovement, current: Option<NavigationHistorySnapshot>) -> (r: Option<NavigationHistorySnapshot>)
        requires
            old(self).wf(),
            old(self)@.snapshots.len() < u32::MAX,
        ensures
            final(self).wf(),
            (final(self)@, r) == moved(old(self)@, movement, current),
    {
        match movement {
            NavigationMovement::Forward => {
                if self.current_snapshot_index as usize + 1 >= self.snapshots.len() {
                    return None;
                }
                self.current_snapshot_index = self.current_snapshot_index + 1;
            },
            NavigationMovement::Backward => {
                if self.current_snapshot_index == 0 {
                    return None;
                }
                if self.current_snapshot_index as usize == self.snapshots.len() {
                    self.save_snapshot(current);
                    if self.current_snapshot_index > 1 {
                        self.current_snapshot_index = self.current_snapshot_index - 1;
                    }
                }
                self.current_snapshot_index = self.current_snapshot_index - 1;
            },
        }
        let snapshot = self.snapshots[self.current_snapshot_index as usize];
        self.on_previous_buffer = false;
        Some(snapshot)
    }

    /// Jumps to the last entry in another buffer than the client's, after
    /// recording the client's place, and gives that buffer.
    pub fn move_to_previous_buffer(&mut self, current: Option<NavigationHistorySnapshot>) -> (r: Option<BufferHandle>)
        requires
            old(self).wf(),
            old(self)@.snapshots.len() < u32::MAX,
        ensures
            final(self).wf(),
            final(self)@.snapshots == recorded(old(self)@, current),
            ({
                let s = recorded(old(self)@, current);
                let buffer = match current {
                    Some(c) => Some(c.buffer_handle),
                    None => None,
                };
                match last_other_buffer(s, buffer, s.len() as int) {
                    Some(i) => r == Some(s[i].buffer_handle) && final(self)@.current == i
                        && final(self)@.on_previous_buffer,
                    None => r is None && final(self)@.current == old(self)@.current
                        && final(self)@.on_previous_buffer == old(self)@.on_previous_buffer,
                }
            }),
    {
        if let Some(c) = current {
            let index = self.current_snapshot_index as usize;
            let same = index < self.snapshots.len() && self.snapshots[index].buffer_handle == c.buffer_handle;
            if !same {
                self.snapshots.push(c);
            }
        }
        let buffer = match current {
            Some(c) => Some(c.buffer_handle),
            None => None,
        };
        let mut k = self.snapshots.len();
        while k > 0
            invariant
                k <= self.snapshots.len(),
                self.snapshots@ == recorded(old(self)@, current),
                self.current_snapshot_index == old(self).current_snapshot_index,
                self.on_previous_buffer == old(self).on_previous_buffer,
                self.snapshots.len() <= u32::MAX,
                old(self).wf(),
                buffer == match current {
                    Some(c) => Some(c.buffer_handle),
                    None => None,
                },
                last_other_buffer(self.snapshots@, buffer, self.snapshots.len() as int) == last_other_buffer(
                    self.snapshots@,
                    buffer,
                    k as int,
                ),
            decreases k,
        {
            let h = self.snapshots[k - 1].buffer_handle;
            let differs = match buffer {
                Some(b) => b != h,
                None => true,
            };
            if differs {
                self.current_snapshot_index = (k - 1) as u32;
                self.on_previous_buffer = true;
                return Some(h);
            }
            k = k - 1;
        }
        None
    }

    /// Removes the entries of a buffer that was closed.
    pub fn remove_snapshots_with_buffer_handle(&mut self, buffer_handle: BufferHandle)
        requires
            old(self).wf(),
        ensures
            final(self).wf(),
            final(self)@.snapshots == removed(old(self)@.snapshots, old(self)@.current, buffer_handle, old(self)@.snapshots.len() as int).0,
            final(self)@.current == removed(old(self)@.snapshots, old(self)@.current, buffer_handle, old(self)@.snapshots.len() as int).1,
            final(self)@.on_previous_buffer == old(self)@.on_previous_buffer,
            forall|j: int| 0 <= j < final(self)@.snapshots.len() ==> (#[trigger] final(self)@.snapshots[j]).buffer_handle != buffer_handle,
    {
        proof {
            lemma_removed(old(self)@.snapshots, old(self)@.current, buffer_handle, old(self)@.snapshots.len() as int);
        }
        let mut k = self.snapshots.len();
        while k > 0
            invariant
                k <= self.snapshots.len(),
                self.snapshots.len() <= u32::MAX,
                self.current_snapshot_index <= self.snapshots.len(),
                self.on_previous_buffer == old(self).on_previous_buffer,
                removed(self.snapshots@, self.current_snapshot_index as int, buffer_handle, k as int) == removed(
                    old(self)@.snapshots,
                    old(self)@.current,
                    buffer_handle,
                    old(self)@.snapshots.len() as int,
                ),
            decreases k,
        {
            let i = k - 1;
            if self.snapshots[i].buffer_handle == buffer_handle {
                self.snapshots.remove(i);
                if self.current_snapshot_index > 0 && i <= self.current_snapshot_index as usize {
                    self.current_snapshot_index = self.current_snapshot_index - 1;
                }
            }
            k = i;
        }
    }
}

impl Default for NavigationHistory {
    fn default() -> (r: Self)
        ensures
            r.wf(),
            r@.snapshots.len() == 0,
            r@.current == 0,
            !r@.on_previous_buffer,
    {
        NavigationHistory::new()
    }
}

/// Saving the same place twice in a row saves it once.
pub proof fn lemma_save_twice(h: NavigationHistoryView, current: Option<NavigationHistorySnapshot>)
    requires
        0 <= h.current <= h.snapshots.len(),
    ensures
        saved(saved(h, current), current) == saved(h, current),
{
    let once = saved(h, current);
    if let Some(snapshot) = current {
        let twice = saved(once, current);
        assert(once.snapshots.len() > 0 && once.snapshots.last() == snapshot);
        assert(once.current == once.snapshots.len());
        assert(twice.snapshots =~= once.snapshots);
    }
}

/// Saving a place records it: afterwards the history ends with that place
/// (same buffer, same position) and stands past it, free of any earlier jump
/// to the previous buffer. The entries kept before it are the ones up to the
/// current entry (the whole history after a jump to the previous buffer), in
/// order; the place is a new entry unless the last kept entry is the very same
/// place, in which case nothing is added. Saving no place changes nothing.
pub proof fn lemma_saved_records_place(h: NavigationHistoryView, s: NavigationHistorySnapshot)
    requires
        0 <= h.current <= h.snapshots.len(),
    ensures
        saved(h, None) == h,
        ({
            let r = saved(h, Some(s));
            let index = if h.on_previous_buffer { h.snapshots.len() as int } else { h.current };
            &&& r.snapshots.len() > 0
            &&& r.snapshots.last().buffer_handle == s.buffer_handle
            &&& r.snapshots.last().position == s.position
            &&& r.snapshots.last() == s
            &&& r.current == r.snapshots.len()
            &&& !r.on_previous_buffer
            &&& r.snapshots.len() <= index + 1
            &&& r.snapshots.len() >= index
            &&& r.snapshots.drop_last() == h.snapshots.take(r.snapshots.len() - 1)
            &&& (index == 0 || h.snapshots[index - 1].buffer_handle != s.buffer_handle
                || h.snapshots[index - 1].position != s.position) ==> r.snapshots.len() == index + 1
            &&& (index > 0 && h.snapshots[index - 1].buffer_handle == s.buffer_handle
                && h.snapshots[index - 1].position == s.position) ==> r.snapshots == h.snapshots.take(index)
        }),
{
    let r = saved(h, Some(s));
    let index = if h.on_previous_buffer { h.snapshots.len() as int } else { h.current };
    let kept = if index < h.snapshots.len() { h.snapshots.take(index) } else { h.snapshots };
    assert(kept =~= h.snapshots.take(index));
    if kept.len() > 0 && kept.last() == s {
        assert(r.snapshots == kept);
        assert(r.snapshots.drop_last() =~= h.snapshots.take(r.snapshots.len() - 1));
    } else {
        assert(r.snapshots == kept.push(s));
        assert(r.snapshots.drop_last() =~= h.snapshots.take(r.snapshots.len() - 1));
        if index > 0 && h.snapshots[index - 1].buffer_handle == s.buffer_handle
            && h.snapshots[index - 1].position == s.position {
            assert(kept.last() == h.snapshots[index - 1]);
        }
    }
}

} // verus!
