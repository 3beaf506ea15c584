use algorithm_exercises::linear;
use algorithm_exercises::linear::Collection;
use algorithm_exercises::linear::SeqList;
use algorithm_exercises::list::sq_list::del_x;
use algorithm_exercises::list::sq_list::del_x_t;
use algorithm_exercises::list::sq_list::remove_min_and_move_last;
use algorithm_exercises::list::sq_list::reverse;
use algorithm_exercises::list::SqList;

#[test]
fn test_reverse() {
    let mut val = vec![1, 2, 3, 4, 5, 6];
    reverse(&mut val);
    assert_eq!(val, vec![6, 5, 4, 3, 2, 1]);
}

#[test]
fn test_empty() {
    let mut v: Vec<i32> = vec![];
    remove_min_and_move_last(&mut v);
    assert!(v.is_empty());
}

#[test]
fn test_single() {
    let mut v = vec![42i32];
    remove_min_and_move_last(&mut v);
    assert!(v.is_empty());
}

#[test]
fn test_unique_min() {
    let mut v = vec![5, 2, 7, 3];
    remove_min_and_move_last(&mut v);
    assert_eq!(v.len(), 3);
    assert!(!v.contains(&2));
    assert_eq!(v[1], 3);
}

#[test]
fn test_duplicate_min() {
    let mut v = vec![6, 3, 9, 3, 8];
    remove_min_and_move_last(&mut v);
    assert_eq!(v.len(), 4);
    let count_3 = v.iter().filter(|&&x| x == 3).count();
    assert_eq!(count_3, 1);
}

#[test]
fn test_del_x_t() {
    let mut vec1 = vec![1, 2, 3, 4, 5];
    assert_eq!(del_x_t(&mut vec1, 2, 4), true);
    assert_eq!(vec1, vec![1, 5]);

    let mut vec2 = vec![1, 2, 3, 4, 5];
    assert_eq!(del_x_t(&mut vec2, 1, 5), true);
    assert_eq!(vec2, vec![]);

    let mut vec3: Vec<i32> = vec![];
    assert_eq!(del_x_t(&mut vec3, 2, 4), true);
    assert_eq!(vec3, vec![]);

    let mut vec4 = vec![1, 2, 3, 4, 5];
    assert_eq!(del_x_t(&mut vec4, 4, 2), false);
    assert_eq!(vec4, vec![1, 2, 3, 4, 5]);

    let mut vec5 = vec![1.0, 2.5, 3.5, 4.0, 5.0];
    assert_eq!(del_x_t(&mut vec5, 2.0, 4.0), true);
    assert_eq!(vec5, vec![1.0, 5.0]);

    let mut vec6 = vec![2, 3, 4];
    assert_eq!(del_x_t(&mut vec6, 1, 5), true);
    assert_eq!(vec6, vec![]);

    let mut vec7 = vec![1, 5];
    assert_eq!(del_x_t(&mut vec7, 2, 4), true);
    assert_eq!(vec7, vec![1, 5]);

    let mut vec8 = vec![1, 2, 2, 3, 3, 3, 4, 5];
    assert_eq!(del_x_t(&mut vec8, 2, 4), true);
    assert_eq!(vec8, vec![1, 5]);
}

#[test]
fn test_del_x_removes_all() {
    let mut v = vec![1, 2, 1, 3, 1];
    del_x(&mut v, 1);
    assert_eq!(v, vec![2, 3]);
    let mut w: Vec<i32> = vec![];
    del_x(&mut w, 7);
    assert_eq!(w, vec![]);
}

#[test]
fn test_sq_list_insert_delete() {
    let mut l: SqList<i32> = SqList::new();
    assert!(l.insert(1, 10));
    assert!(l.insert(2, 30));
    assert!(l.insert(2, 20));
    // Positions are 1-based; inserting at 0 or past the end fails.
    assert!(!l.insert(0, 99));
    assert!(!l.insert(5, 99));
    assert_eq!(l.locate_elem(10), 1);
    assert_eq!(l.locate_elem(20), 2);
    assert_eq!(l.locate_elem(30), 3);
    assert_eq!(l.locate_elem(99), 0);
    assert_eq!(l.delete(2), Some(20));
    assert_eq!(l.locate_elem(30), 2);
    assert_eq!(l.delete(0), None);
    assert_eq!(l.delete(3), None);
    assert_eq!(l.delete(1), Some(10));
    assert_eq!(l.delete(1), Some(30));
    assert_eq!(l.delete(1), None);
}

#[test]
fn test_sq_list_capacity() {
    let mut l: SqList<i32> = SqList::new();
    for i in 0..50 {
        assert!(l.insert(1, i));
    }
    // The 51st element does not fit.
    assert!(!l.insert(1, 99));
}

#[test]
fn test_linear_sq_list_quirks() {
    let mut l: linear::SqList<i32> = linear::SqList::new();
    assert!(l.is_empty());
    assert_eq!(l.len(), 0);
    // Insertion writes the slot but never raises the length.
    assert!(l.insert(1, 42));
    assert_eq!(l.len(), 0);
    assert_eq!(l.get(0), Some(42));
    // A value in slot 0 and a missing value both locate to 0.
    assert_eq!(l.locate(42), 0);
    assert_eq!(l.locate(7), 0);
    assert!(l.insert(2, 9));
    assert_eq!(l.get(1), Some(9));
    assert_eq!(l.locate(9), 1);
}

#[derive(Clone)]
struct Singleton(i32);

impl Collection for Singleton {
    type Item = i32;

    fn len(&self) -> usize {
        1
    }

    fn locate(&self, e: i32) -> usize {
        if self.0 == e {
            1
        } else {
            0
        }
    }

    fn get(&self, i: usize) -> Option<i32> {
        if i == 1 {
            Some(self.0)
        } else {
            None
        }
    }

    fn insert(&mut self, _i: usize, _e: i32) -> bool {
        false
    }

    fn delete(&mut self, _i: usize) -> Option<i32> {
        None
    }

    fn print(&self) {}

    fn is_empty(&self) -> bool {
        false
    }
}

#[test]
fn test_seq_list_new() {
    let _l: SeqList<Singleton> = SeqList::new();
    let s = Singleton(5);
    assert_eq!(s.locate(5), 1);
    assert_eq!(s.get(1), Some(5));
}
