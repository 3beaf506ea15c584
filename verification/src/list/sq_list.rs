//! Small in-place algorithms on a growable vector: removing the minimum by
//! moving the last element into its place, reversing, and deleting by value
//! or by range.

use vstd::prelude::*;
use vstd::seq_lib::*;
use vstd::std_specs::cmp::PartialEqSpec;
use vstd::std_specs::cmp::PartialOrdIs;
use vstd::std_specs::cmp::PartialOrdSpec;

verus! {

/// The index the minimum scan settles on after the first `n` elements: the
/// first index holding the least element, ties going to the earlier one.
pub open spec fn min_upto<T: PartialOrd>(s: Seq<T>, n: int) -> int
    decreases n,
{
    if n <= 1 {
        0
    } else {
        let m = min_upto(s, n - 1);
        if s[n - 1].is_lt(&s[m]) {
            n - 1
        } else {
            m
        }
    }
}

/// Removes the first occurrence of the minimum by overwriting it with the
/// last element and popping the last slot. An empty vector stays empty; a
/// one-element vector becomes empty.
pub fn remove_min_and_move_last<T>(vec: &mut Vec<T>) where
    T: PartialOrd + Copy + core::fmt::Debug,

    ensures
        old(vec)@.len() == 0 ==> final(vec)@ == old(vec)@,
        old(vec)@.len() > 0 ==> final(vec)@.len() == old(vec)@.len() - 1,
        T::obeys_partial_cmp_spec() && old(vec)@.len() > 0 ==> final(vec)@ == (if min_upto(
            old(vec)@,
            old(vec)@.len() as int,
        ) < old(vec)@.len() - 1 {
            old(vec)@.drop_last().update(
                min_upto(old(vec)@, old(vec)@.len() as int),
                old(vec)@.last(),
            )
        } else {
            old(vec)@.drop_last()
        }),
{
    if vec.is_empty() {
        return ;
    }
    let mut min_index: usize = 0;
    let mut i: usize = 1;
    while i < vec.len()
        invariant
            vec@ == old(vec)@,
            1 <= i <= vec@.len(),
            min_index < i,
            T::obeys_partial_cmp_spec() ==> min_index as int == min_upto(vec@, i as int),
        decreases vec@.len() - i,
    {
        if vec[i] < vec[min_index] {
            min_index = i;
        }
        i = i + 1;
    }
    if let Some(last_element) = vec.pop() {
        if min_index < vec.len() {
            vec[min_index] = last_element;
        }
    }
}

/// Reverses the vector in place.
pub fn reverse<T>(list: &mut Vec<T>) where T: Copy + core::fmt::Debug
    ensures
        final(list)@ == old(list)@.reverse(),
{
    let n = list.len();
    let mut i: usize = 0;
    while i < n / 2
        invariant
            n == list@.len(),
            i <= n / 2,
            forall|k: int| 0 <= k < i ==> list@[k] == old(list)@[n - 1 - k],
            forall|k: int| 0 <= k < i ==> list@[n - 1 - k] == old(list)@[k],
            forall|k: int| i <= k < n - i ==> list@[k] == old(list)@[k],
        decreases n - i,
    {
        let j = n - i - 1;
        let a = list[i];
        let b = list[j];
        list[i] = b;
        list[j] = a;
        i = i + 1;
    }
    proof {
        assert(final(list)@ =~= old(list)@.reverse());
    }
}

/// The elements of `s` not equal to `x`, in order.
pub open spec fn spec_del_x<T: PartialEq>(s: Seq<T>, x: T) -> Seq<T> {
    s.filter(|e: T| !e.eq_spec(&x))
}

/// The elements of `s` outside the closed range [`lo`, `hi`], in order.
pub open spec fn spec_del_range<T: PartialOrd>(s: Seq<T>, lo: T, hi: T) -> Seq<T> {
    s.filter(|e: T| e.is_lt(&lo) || e.is_gt(&hi))
}

/// Removes every element equal to `x`, keeping the order of the rest.
pub fn del_x<T>(list: &mut Vec<T>, x: T) where T: PartialEq
    ensures
        T::obeys_eq_spec() ==> final(list)@ == spec_del_x(old(list)@, x),
{
    let ghost all = list@;
    let mut tmp: Vec<T> = Vec::new();
    while list.len() > 0
        invariant
            list@ + tmp@.reverse() == all,
        decreases list@.len(),
    {
        let ghost l0 = list@;
        let ghost t0 = tmp@;
        let v = list.pop().unwrap();
        tmp.push(v);
        proof {
            assert(tmp@.reverse() =~= seq![l0.last()] + t0.reverse());
            assert(list@ + tmp@.reverse() =~= all);
        }
    }
    proof {
        reveal(Seq::filter);
        assert(list@ =~= Seq::<T>::empty());
        assert(list@ + tmp@.reverse() =~= tmp@.reverse());
        assert(tmp@.reverse() == all);
        assert(all.skip(0) =~= all);
        assert(all.take(0) =~= Seq::<T>::empty());
    }
    while tmp.len() > 0
        invariant
            tmp@.len() <= all.len(),
            tmp@.reverse() =~= all.skip(all.len() - tmp@.len()),
            T::obeys_eq_spec() ==> list@ == spec_del_x(all.take(all.len() - tmp@.len()), x),
        decreases tmp@.len(),
    {
        let ghost k = all.len() - tmp@.len();
        let ghost t0 = tmp@;
        let v = tmp.pop().unwrap();
        proof {
            assert(t0.reverse()[0] == t0.last());
            assert(t0.last() == all[k as int]);
            assert(tmp@.reverse() =~= t0.reverse().drop_first());
            assert(tmp@.reverse() =~= all.skip(k + 1));
        }
        let keep = !(v == x);
        if keep {
            list.push(v);
        }
        proof {
            reveal(Seq::filter);
            assert(all.take(k + 1).drop_last() =~= all.take(k as int));
            assert(all.take(k + 1).last() == all[k as int]);
            if T::obeys_eq_spec() {
                if !all[k as int].eq_spec(&x) {
                    assert(spec_del_x(all.take(k + 1), x) == spec_del_x(all.take(k as int), x).push(
                        all[k as int],
                    ));
                } else {
                    assert(spec_del_x(all.take(k + 1), x) == spec_del_x(all.take(k as int), x));
                }
            }
        }
    }
    proof {
        assert(all.take(all.len() as int) =~= all);
    }
}

/// When `s < t`, removes every element `e` with `s <= e <= t` and returns
/// `true`; when `s >= t`, changes nothing and returns `false`.
pub fn del_x_t<T>(list: &mut Vec<T>, s: T, t: T) -> (r: bool) where T: PartialOrd
    ensures
        T::obeys_partial_cmp_spec() ==> {
            &&& r == !s.is_ge(&t)
            &&& !r ==> final(list)@ == old(list)@
            &&& r ==> final(list)@ == spec_del_range(old(list)@, s, t)
        },
{
    if s >= t {
        return false;
    }
    let ghost all = list@;
    let mut tmp: Vec<T> = Vec::new();
    while list.len() > 0
        invariant
            list@ + tmp@.reverse() == all,
        decreases list@.len(),
    {
        let ghost l0 = list@;
        let ghost t0 = tmp@;
        let v = list.pop().unwrap();
        tmp.push(v);
        proof {
            assert(tmp@.reverse() =~= seq![l0.last()] + t0.reverse());
            assert(list@ + tmp@.reverse() =~= all);
        }
    }
    proof {
        reveal(Seq::filter);
        assert(list@ =~= Seq::<T>::empty());
        assert(list@ + tmp@.reverse() =~= tmp@.reverse());
        assert(tmp@.reverse() == all);
        assert(all.skip(0) =~= all);
        assert(all.take(0) =~= Seq::<T>::empty());
    }
    while tmp.len() > 0
        invariant
            tmp@.len() <= all.len(),
            tmp@.reverse() =~= all.skip(all.len() - tmp@.len()),
            T::obeys_partial_cmp_spec() ==> list@ == spec_del_range(
                all.take(all.len() - tmp@.len()),
                s,
                t,
            ),
        decreases tmp@.len(),
    {
        let ghost k = all.len() - tmp@.len();
        let ghost t0 = tmp@;
        let v = tmp.pop().unwrap();
        proof {
            assert(t0.reverse()[0] == t0.last());
            assert(t0.last() == all[k as int]);
            assert(tmp@.reverse() =~= t0.reverse().drop_first());
            assert(tmp@.reverse() =~= all.skip(k + 1));
        }
        let keep_low = v < s;
        let keep_high = v > t;
        if keep_low || keep_high {
            list.push(v);
        }
        proof {
            reveal(Seq::filter);
            assert(all.take(k + 1).drop_last() =~= all.take(k as int));
            assert(all.take(k + 1).last() == all[k as int]);
            if T::obeys_partial_cmp_spec() {
                if all[k as int].is_lt(&s) || all[k as int].is_gt(&t) {
                    assert(spec_del_range(all.take(k + 1), s, t) == spec_del_range(
                        all.take(k as int),
                        s,
                        t,
                    ).push(all[k as int]));
                } else {
                    assert(spec_del_range(all.take(k + 1), s, t) == spec_del_range(
                        all.take(k as int),
                        s,
                        t,
                    ));
                }
            }
        }
    }
    proof {
        assert(all.take(all.len() as int) =~= all);
    }
    true
}

} // verus!
