//! A vector of slots that reuses the slots freed by removals.

use vstd::prelude::*;

verus! {

/// Slots, each empty or holding an item; the last slot, if any, is full.
pub struct SlotVec<T>(Vec<Option<T>>);

/// Index of the first empty slot, if any.
pub open spec fn first_free<T>(s: Seq<Option<T>>) -> Option<int> {
    if exists|i: int| 0 <= i < s.len() && s[i] is None {
        Some(choose|i: int| 0 <= i < s.len() && s[i] is None && forall|j: int| 0 <= j < i ==> s[j] is Some)
    } else {
        None
    }
}

/// The slots with the trailing empty ones dropped.
pub open spec fn trimmed<T>(s: Seq<Option<T>>) -> Seq<Option<T>>
    decreases s.len(),
{
    if s.len() > 0 && s.last() is None {
        trimmed(s.drop_last())
    } else {
        s
    }
}

impl<T> SlotVec<T> {
    pub closed spec fn view(&self) -> Seq<Option<T>> {
        self.0@
    }

    /// No trailing empty slot.
    pub open spec fn wf(&self) -> bool {
        self.view().len() == 0 || self.view().last() is Some
    }

    pub fn new() -> (r: Self)
        ensures
            r.wf(),
            r.view().len() == 0,
    {
        Self(Vec::new())
    }

    /// Puts `item` in the first empty slot, or in a new slot at the end, and
    /// returns the slot's index.
    pub fn push(&mut self, item: T) -> (r: usize)
        requires
            old(self).wf(),
        ensures
            final(self).wf(),
            match first_free(old(self).view()) {
                Some(i) => r == i && final(self).view() == old(self).view().update(i, Some(item)),
                None => r == old(self).view().len() && final(self).view() == old(self).view().push(Some(item)),
            },
    {
        let len = self.0.len();
        let mut i: usize = 0;
        while i < len
            invariant
                len == self.0.len(),
                self.0@ == old(self).0@,
                old(self).wf(),
                i <= len,
                forall|j: int| 0 <= j < i ==> (#[trigger] self.0@[j]) is Some,
            decreases len - i,
        {
            if self.0[i].is_none() {
                self.0.set(i, Some(item));
                proof {
                    let s = old(self).0@;
                    assert(s[i as int] is None);
                    let k = choose|k: int| 0 <= k < s.len() && s[k] is None && forall|j: int| 0 <= j < k ==> s[j] is Some;
                    assert(k == i) by {
                        if k < i {
                            assert(s[k] is Some);
                        } else if k > i {
                            assert(s[i as int] is Some);
                        }
                    }
                }
                return i;
            }
            i = i + 1;
        }
        self.0.push(Some(item));
        len
    }

    /// Empties slot `index` and drops the trailing empty slots.
    pub fn remove(&mut self, index: usize)
        requires
            old(self).wf(),
        ensures
            final(self).wf(),
            (index < old(self).view().len() && old(self).view()[index as int] is Some) ==> final(self).view()
                == trimmed(old(self).view().update(index as int, None)),
            !(index < old(self).view().len() && old(self).view()[index as int] is Some) ==> final(self).view()
                == old(self).view(),
    {
        if index < self.0.len() {
            if self.0[index].is_some() {
                self.0.set(index, None);
                let ghost s = self.0@;
                let mut n = self.0.len();
                proof {
                    assert(s.take(s.len() as int) =~= s);
                }
                while n > 0 && self.0[n - 1].is_none()
                    invariant
                        self.0@ == s,
                        n <= s.len(),
                        trimmed(s) == trimmed(s.take(n as int)),
                    decreases n,
                {
                    proof {
                        assert(s.take(n as int).drop_last() =~= s.take(n - 1));
                    }
                    n = n - 1;
                }
                self.0.truncate(n);
                proof {
                    assert(self.0@ =~= s.take(n as int));
                }
            }
        }
    }

    pub fn get(&self, index: usize) -> (r: Option<&T>)
        ensures
            index < self.view().len() && self.view()[index as int] is Some ==> r == Some(
                &self.view()[index as int]->0,
            ),
            !(index < self.view().len() && self.view()[index as int] is Some) ==> r is None,
    {
        if index < self.0.len() {
            match &self.0[index] {
                Some(x) => Some(x),
                None => None,
            }
        } else {
            None
        }
    }

    /// The item in slot `index`, for change.
    pub fn get_mut(&mut self, index: usize) -> (r: Option<&mut T>)
        ensures
            index < old(self).view().len() && old(self).view()[index as int] is Some ==> {
                &&& r is Some
                &&& *r.unwrap() == old(self).view()[index as int]->0
                &&& final(self).view() == old(self).view().update(index as int, Some(*final(r.unwrap())))
            },
            !(index < old(self).view().len() && old(self).view()[index as int] is Some) ==> {
                &&& r is None
                &&& final(self).view() == old(self).view()
            },
    {
        if index < self.0.len() {
            match &mut self.0[index] {
                Some(x) => Some(x),
                None => None,
            }
        } else {
            None
        }
    }

    pub fn is_empty(&self) -> (r: bool)
        ensures
            r == (self.view().len() == 0),
    {
        self.0.len() == 0
    }

    /// The full slots with their index, in order.
    pub fn iter(&self) -> (r: Vec<(usize, &T)>)
        ensures
            forall|k: int| 0 <= k < r@.len() ==> {
                let (i, x) = #[trigger] r@[k];
                &&& i < self.view().len()
                &&& self.view()[i as int] == Some(*x)
            },
            forall|k1: int, k2: int| 0 <= k1 < k2 < r@.len() ==> (#[trigger] r@[k1]).0 < (#[trigger] r@[k2]).0,
            forall|i: int| 0 <= i < self.view().len() && (#[trigger] self.view()[i]) is Some ==> exists|k: int| 0 <= k < r@.len() && r@[k].0 == i,
    {
        let mut r: Vec<(usize, &T)> = Vec::new();
        let mut i: usize = 0;
        while i < self.0.len()
            invariant
                i <= self.0.len(),
                forall|k: int| 0 <= k < r@.len() ==> {
                    let (j, x) = #[trigger] r@[k];
                    &&& j < i
                    &&& self.0@[j as int] == Some(*x)
                },
                forall|k1: int, k2: int| 0 <= k1 < k2 < r@.len() ==> (#[trigger] r@[k1]).0 < (#[trigger] r@[k2]).0,
                forall|j: int| 0 <= j < i && (#[trigger] self.0@[j]) is Some ==> exists|k: int| 0 <= k < r@.len() && r@[k].0 == j,
            decreases self.0.len() - i,
        {
            match &self.0[i] {
                Some(x) => {
                    let ghost before = r@;
                    r.push((i, x));
                    proof {
                        assert(r@[r@.len() - 1].0 == i);
                        assert forall|j: int| 0 <= j < i + 1 && (#[trigger] self.0@[j]) is Some implies exists|k: int| 0 <= k < r@.len() && r@[k].0 == j by {
                            if j == i {
                                assert(r@[r@.len() - 1].0 == j);
                            } else {
                                let k = choose|k: int| 0 <= k < before.len() && before[k].0 == j;
                                assert(r@[k] == before[k]);
                            }
                        }
                    }
                },
                None => {},
            }
            i = i + 1;
        }
        r
    }
}

} // verus!
