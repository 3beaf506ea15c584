//! An early take on the sequential list: a fixed block of 50 slots whose
//! operations work directly on slot indices, a growable variant, and the
//! interface such collections are meant to implement.

use vstd::prelude::*;
use vstd::std_specs::cmp::PartialEqSpec;

verus! {

/// Maximum capacity of the sequential list.
const MAX_SIZE: usize = 50;

/// A fixed block of 50 slots and a length field. The operations read and
/// write slots directly, whether or not they lie below the length, so the
/// view exposes all 50 slots; [`SqList::spec_len`] gives the length field.
pub struct SqList<ElemType> {
    data: Vec<ElemType>,
    len: usize,
}

impl<ElemType> SqList<ElemType> where ElemType: Copy + Default + core::fmt::Debug + PartialEq {
    /// All 50 slots, live or not.
    pub closed spec fn slots(&self) -> Seq<ElemType> {
        self.data@
    }

    /// The length field. Nothing here ever raises it: only slots change.
    pub closed spec fn spec_len(&self) -> int {
        self.len as int
    }

    /// The backing vector always holds exactly 50 slots.
    pub closed spec fn wf(&self) -> bool {
        self.data@.len() == 50 && self.len <= 50
    }

    /// Creates a list of 50 default-valued slots and length 0.
    pub fn new() -> (s: SqList<ElemType>)
        ensures
            s.wf(),
            s.spec_len() == 0,
    {
        let mut data: Vec<ElemType> = Vec::new();
        let d = ElemType::default();
        while data.len() < MAX_SIZE
            invariant
                data@.len() <= 50,
            decreases 50 - data@.len(),
        {
            data.push(d);
        }
        Self { data, len: 0 }
    }

    /// The value of the length field.
    pub fn len(&self) -> (n: usize)
        ensures
            n == self.spec_len(),
    {
        self.len
    }

    /// Whether the length field is 0.
    pub fn is_empty(&self) -> (b: bool)
        ensures
            b == (self.spec_len() == 0),
    {
        self.len == 0
    }

    /// The index of the first of the 50 slots holding `e`, or 0 when none
    /// does — indistinguishable from a hit in slot 0.
    pub fn locate(&self, e: ElemType) -> (r: usize)
        requires
            self.wf(),
        ensures
            ElemType::obeys_eq_spec() ==> ((exists|k: int|
                0 <= k < 50 && (#[trigger] self.slots()[k].eq_spec(&e))) ==> 0 <= r < 50
                && self.slots()[r as int].eq_spec(&e) && forall|k: int|
                0 <= k < r ==> !(#[trigger] self.slots()[k].eq_spec(&e))),
            ElemType::obeys_eq_spec() ==> (!(exists|k: int|
                0 <= k < 50 && (#[trigger] self.slots()[k].eq_spec(&e))) ==> r == 0),
    {
        let mut i: usize = 0;
        while i < self.data.len()
            invariant
                self.wf(),
                i <= 50,
                ElemType::obeys_eq_spec() ==> forall|k: int|
                    0 <= k < i ==> !(#[trigger] self.slots()[k].eq_spec(&e)),
            decreases 50 - i,
        {
            if self.data[i] == e {
                proof {
                    if ElemType::obeys_eq_spec() {
                        assert(self.slots()[i as int].eq_spec(&e));
                    }
                }
                return i;
            }
            i = i + 1;
        }
        0
    }

    /// The value in slot `i`, which need not be a live one.
    pub fn get(&self, i: usize) -> (r: Option<ElemType>)
        requires
            self.wf(),
            i < 50,
        ensures
            r == Some(self.slots()[i as int]),
    {
        if i > self.len && i > MAX_SIZE && i == 0 {
            return None;
        }
        Some(self.data[i])
    }

    /// Writes `e` into slot `i - 1` after shifting slots `i - 1` up to
    /// `len - 1` one place up. The length field stays as it was, and the
    /// call always reports success.
    pub fn insert(&mut self, i: usize, e: ElemType) -> (r: bool)
        requires
            old(self).wf(),
            1 <= i <= 50,
            i <= old(self).spec_len() ==> old(self).spec_len() < 50,
        ensures
            final(self).wf(),
            r == true,
            final(self).spec_len() == old(self).spec_len(),
            forall|m: int|
                i <= m <= old(self).spec_len() ==> final(self).slots()[m] == old(self).slots()[m
                    - 1],
            final(self).slots()[i - 1] == e,
            forall|m: int|
                0 <= m < 50 && m != i - 1 && !(i <= m <= old(self).spec_len())
                    ==> final(self).slots()[m] == old(self).slots()[m],
    {
        if i > self.len + 1 && i == 0 {
            return false;
        }
        let mut j = self.len;
        while j >= i
            invariant
                1 <= i,
                j <= old(self).len,
                j >= i - 1 || j == old(self).len,
                old(self).wf(),
                i <= old(self).len ==> old(self).len < 50,
                i <= 50,
                self.len == old(self).len,
                self.data@.len() == 50,
                forall|m: int| 0 <= m <= j ==> self.data@[m] == old(self).data@[m],
                forall|m: int| j < m <= old(self).len ==> self.data@[m] == old(self).data@[m - 1],
                forall|m: int| old(self).len < m < 50 ==> self.data@[m] == old(self).data@[m],
            decreases j,
        {
            self.data[j] = self.data[j - 1];
            j = j - 1;
        }
        self.data[i - 1] = e;
        true
    }
}

/// A growable sequential list.
pub struct SeqList<ElemType> {
    data: Vec<ElemType>,
}

impl<ElemType> SeqList<ElemType> where ElemType: Clone + Collection {
    /// The number of elements held.
    pub closed spec fn spec_len(&self) -> int {
        self.data@.len() as int
    }

    /// Creates an empty list with room for 50 elements before growing.
    pub fn new() -> (s: SeqList<ElemType>)
        ensures
            s.spec_len() == 0,
    {
        SeqList { data: Vec::with_capacity(MAX_SIZE) }
    }
}

/// What a sequential collection offers: length, lookup by value and by
/// 1-based position, insertion, deletion, and printing.
pub trait Collection {
    type Item;

    fn len(&self) -> usize;

    /// The position of `e`, by value.
    fn locate(&self, e: Self::Item) -> usize;

    /// The element at 1-based position `i`.
    fn get(&self, i: usize) -> Option<Self::Item>;

    fn insert(&mut self, i: usize, e: Self::Item) -> bool;

    /// Removes and returns the element at 1-based position `i`.
    fn delete(&mut self, i: usize) -> Option<Self::Item>;

    fn print(&self);

    fn is_empty(&self) -> bool;
}

} // verus!
