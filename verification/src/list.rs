//! A sequential list of fixed capacity 50 with 1-based positions.

pub mod sq_list;

use vstd::prelude::*;
use vstd::std_specs::cmp::PartialEqSpec;

verus! {

/// Maximum capacity of the list.
const MAX_SIZE: usize = 50;

/// A sequential list of at most 50 elements; the view is the sequence of
/// live elements, in order.
pub struct SqList<T> {
    data: Vec<T>,
    len: usize,
}

impl<T> View for SqList<T> {
    type V = Seq<T>;

    closed spec fn view(&self) -> Seq<T> {
        self.data@.take(self.len as int)
    }
}

impl<T> SqList<T> where T: PartialOrd + Copy + Default {
    /// The backing vector always holds exactly 50 slots, of which the first
    /// `len` are live.
    pub closed spec fn wf(&self) -> bool {
        self.data@.len() == 50 && self.len <= 50
    }

    /// Creates a new empty list.
    pub fn new() -> (s: Self)
        ensures
            s.wf(),
            s@ == Seq::<T>::empty(),
    {
        let mut data: Vec<T> = Vec::new();
        let d = T::default();
        while data.len() < MAX_SIZE
            invariant
                data@.len() <= 50,
            decreases 50 - data@.len(),
        {
            data.push(d);
        }
        let s = Self { data, len: 0 };
        proof {
            assert(s@ =~= Seq::<T>::empty());
        }
        s
    }

    /// Inserts `e` at 1-based position `i`, shifting later elements up.
    /// Fails, changing nothing, when `i` is 0 or past one place beyond the
    /// end, or when the list is full.
    pub fn insert(&mut self, i: usize, e: T) -> (r: bool)
        requires
            old(self).wf(),
        ensures
            final(self).wf(),
            r == !(i == 0 || i > old(self)@.len() + 1 || old(self)@.len() >= 50),
            r ==> final(self)@ == old(self)@.insert(i - 1, e),
            !r ==> final(self)@ == old(self)@,
    {
        if i == 0 || i > self.len + 1 {
            return false;
        }
        if self.len >= MAX_SIZE {
            return false;
        }
        let mut j = self.len;
        while j >= i
            invariant
                1 <= i,
                i - 1 <= j <= old(self).len,
                old(self).wf(),
                old(self).len < 50,
                self.len == old(self).len,
                self.data@.len() == 50,
                forall|m: int| 0 <= m <= j ==> self.data@[m] == old(self).data@[m],
                forall|m: int|
                    j < m <= old(self).len ==> self.data@[m] == old(self).data@[m - 1],
            decreases j,
        {
            self.data[j] = self.data[j - 1];
            j = j - 1;
        }
        self.data[i - 1] = e;
        self.len = self.len + 1;
        proof {
            assert(final(self)@ =~= old(self)@.insert(i - 1, e));
        }
        true
    }

    /// Removes and returns the element at 1-based position `i`, shifting
    /// later elements down; `None`, changing nothing, when `i` is 0 or past
    /// the end.
    pub fn delete(&mut self, i: usize) -> (r: Option<T>)
        requires
            old(self).wf(),
        ensures
            final(self).wf(),
            (i == 0 || i > old(self)@.len()) ==> r is None && final(self)@ == old(self)@,
            (1 <= i <= old(self)@.len()) ==> r == Some(old(self)@[i - 1]) && final(self)@ == old(
                self,
            )@.remove(i - 1),
    {
        if i == 0 || i > self.len {
            return None;
        }
        let result = self.data[i - 1];
        let mut j = i;
        while j < self.len
            invariant
                1 <= i <= j <= self.len,
                old(self).wf(),
                self.len == old(self).len,
                self.data@.len() == 50,
                forall|m: int| 0 <= m < i - 1 ==> self.data@[m] == old(self).data@[m],
                forall|m: int| i - 1 <= m < j - 1 ==> self.data@[m] == old(self).data@[m + 1],
                forall|m: int| j - 1 <= m < 50 ==> self.data@[m] == old(self).data@[m],
            decreases self.len - j,
        {
            self.data[j - 1] = self.data[j];
            j = j + 1;
        }
        self.len = self.len - 1;
        proof {
            assert(final(self)@ =~= old(self)@.remove(i - 1));
        }
        Some(result)
    }

    /// The 1-based position of the first element equal to `elem`, or 0 when
    /// none is.
    pub fn locate_elem(&self, elem: T) -> (r: usize)
        requires
            self.wf(),
        ensures
            T::obeys_eq_spec() ==> (r == 0 ==> forall|k: int|
                0 <= k < self@.len() ==> !(#[trigger] self@[k].eq_spec(&elem))),
            T::obeys_eq_spec() ==> (r != 0 ==> 1 <= r <= self@.len() && self@[r - 1].eq_spec(&elem)
                && forall|k: int| 0 <= k < r - 1 ==> !(#[trigger] self@[k].eq_spec(&elem))),
    {
        let mut i: usize = 0;
        while i < self.len
            invariant
                self.wf(),
                i <= self.len,
                T::obeys_eq_spec() ==> forall|k: int|
                    0 <= k < i ==> !(#[trigger] self@[k].eq_spec(&elem)),
            decreases self.len - i,
        {
            if self.data[i] == elem {
                return i + 1;
            }
            i = i + 1;
        }
        0
    }
}

} // verus!
