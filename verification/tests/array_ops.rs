use spinoso::array::Array;

fn array(values: &[i32]) -> Array<i32> {
    Array::from(values.to_vec())
}

#[test]
fn new_arrays_are_empty() {
    let ary: Array<i32> = Array::new();
    assert!(ary.is_empty());
    assert_eq!(ary.len(), 0);
    let ary: Array<i32> = Array::with_capacity(10);
    assert_eq!(ary.len(), 0);
    assert!(ary.capacity() >= 10);
    let ary: Array<i32> = Array::default();
    assert!(ary.is_empty());
}

#[test]
fn assoc_holds_the_pair() {
    let ary = Array::assoc(0, 100);
    assert_eq!(ary.len(), 2);
    assert_eq!(ary.as_slice(), [0, 100]);
}

#[test]
fn push_pop_and_index() {
    let mut ary = Array::new();
    ary.push(1);
    ary.push(2);
    assert_eq!(ary.len(), 2);
    assert_eq!(ary.get(0), Some(&1));
    assert_eq!(ary.pop(), Some(2));
    assert_eq!(ary.len(), 1);
    assert_eq!(ary.get(1), None);
    assert_eq!(ary.get(3), None);
    assert_eq!(ary.pop(), Some(1));
    assert_eq!(ary.pop(), None);
}

#[test]
fn iter_visits_the_elements_in_order() {
    let ary = array(&[1, 2, 4]);
    let mut iterator = ary.iter();
    assert_eq!(iterator.next(), Some(&1));
    assert_eq!(iterator.next(), Some(&2));
    assert_eq!(iterator.next(), Some(&4));
    assert_eq!(iterator.next(), None);
}

#[test]
fn slices_and_conversions() {
    let mut ary = array(&[2, 1, 4]);
    assert_eq!(ary.as_slice().binary_search(&4), Ok(2));
    ary.as_mut_slice().sort();
    assert_eq!(ary.as_slice(), [1, 2, 4]);
    assert_eq!(ary.clone().into_inner(), vec![1, 2, 4]);
    assert_eq!(ary.clone().into_vec(), vec![1, 2, 4]);
    let boxed: Box<[i32]> = ary.into_boxed_slice();
    assert_eq!(&*boxed, [1, 2, 4]);
}

#[test]
fn capacity_and_clear() {
    let mut ary = array(&[1]);
    ary.reserve(10);
    assert!(ary.capacity() >= 11);
    ary.shrink_to_fit();
    assert!(ary.capacity() >= 1);
    assert_eq!(ary.as_slice(), [1]);
    ary.clear();
    assert!(ary.is_empty());
}

#[test]
fn delete_at_removes_one_element() {
    let mut ary = array(&[1, 2, 4]);
    assert_eq!(ary.delete_at(1), Some(2));
    assert_eq!(ary.as_slice(), [1, 4]);
    assert_eq!(ary.delete_at(10), None);
    assert_eq!(ary.as_slice(), [1, 4]);
}

#[test]
fn first_and_last() {
    let mut ary = Array::new();
    assert_eq!(ary.first(), None);
    assert_eq!(ary.last(), None);
    assert_eq!(ary.first_n(4), [0_i32; 0]);
    assert_eq!(ary.last_n(4), [0_i32; 0]);
    ary.push(1);
    ary.push(2);
    assert_eq!(ary.first(), Some(&1));
    assert_eq!(ary.last(), Some(&2));
    assert_eq!(ary.first_n(0), [0_i32; 0]);
    assert_eq!(ary.first_n(4), [1, 2]);
    assert_eq!(ary.last_n(0), [0_i32; 0]);
    assert_eq!(ary.last_n(4), [1, 2]);
    ary.concat(&[3, 4, 5, 6, 7, 8, 9, 10]);
    assert_eq!(ary.first_n(4), [1, 2, 3, 4]);
    assert_eq!(ary.last_n(4), [7, 8, 9, 10]);
}

#[test]
fn take_n_and_drop_n() {
    let ary = array(&[1, 2, 4, 7, 8, 9]);
    assert_eq!(ary.take_n(0), [0_i32; 0]);
    assert_eq!(ary.take_n(2), [1, 2]);
    assert_eq!(ary.take_n(10), [1, 2, 4, 7, 8, 9]);
    assert_eq!(ary.drop_n(0), [1, 2, 4, 7, 8, 9]);
    assert_eq!(ary.drop_n(4), [8, 9]);
    assert_eq!(ary.drop_n(10), [0_i32; 0]);
}

#[test]
fn pop_n_takes_from_the_end() {
    let mut ary = array(&[1, 2, 4, 7, 8, 9]);
    assert_eq!(ary.pop_n(0).as_slice(), [0_i32; 0]);
    assert_eq!(ary.as_slice(), [1, 2, 4, 7, 8, 9]);
    assert_eq!(ary.pop_n(3).as_slice(), [7, 8, 9]);
    assert_eq!(ary.as_slice(), [1, 2, 4]);
    assert_eq!(ary.pop_n(100).as_slice(), [1, 2, 4]);
    assert!(ary.is_empty());
    assert_eq!(ary.pop_n(1).as_slice(), [0_i32; 0]);
}

#[test]
fn shift_n_takes_from_the_front() {
    let mut ary = array(&[1, 2, 4, 7, 8, 9]);
    assert_eq!(ary.shift_n(0).as_slice(), [0_i32; 0]);
    assert_eq!(ary.as_slice(), [1, 2, 4, 7, 8, 9]);
    assert_eq!(ary.shift_n(3).as_slice(), [1, 2, 4]);
    assert_eq!(ary.as_slice(), [7, 8, 9]);
    assert_eq!(ary.shift_n(100).as_slice(), [7, 8, 9]);
    assert!(ary.is_empty());
    assert_eq!(ary.shift_n(1).as_slice(), [0_i32; 0]);
}

#[test]
fn shift_and_unshift() {
    let mut ary = array(&[1, 2]);
    ary.unshift(3);
    assert_eq!(ary.as_slice(), [3, 1, 2]);
    assert_eq!(ary.shift(), Some(3));
    assert_eq!(ary.shift(), Some(1));
    assert_eq!(ary.shift(), Some(2));
    assert_eq!(ary.shift(), None);
    let mut ary = array(&[1, 2]);
    ary.unshift_n(&[0, 5, 9]);
    assert_eq!(ary.as_slice(), [0, 5, 9, 1, 2]);
}

#[test]
fn reverse_turns_the_order() {
    let mut ary = array(&[1, 2, 4]);
    ary.reverse();
    assert_eq!(ary.as_slice(), [4, 2, 1]);
    let mut ary = array(&[]);
    ary.reverse();
    assert!(ary.is_empty());
}

#[test]
fn slice_is_cut_to_the_array() {
    let empty: Array<i32> = Array::new();
    assert_eq!(empty.slice(0, 0), [0_i32; 0]);
    assert_eq!(empty.slice(0, 4), [0_i32; 0]);
    assert_eq!(empty.slice(2, 4), [0_i32; 0]);
    let ary = array(&[1, 2, 3]);
    assert_eq!(ary.slice(0, 0), [0_i32; 0]);
    assert_eq!(ary.slice(0, 4), [1, 2, 3]);
    assert_eq!(ary.slice(2, 0), [0_i32; 0]);
    assert_eq!(ary.slice(2, 4), [3]);
    assert_eq!(ary.slice(1, 1), [2]);
    assert_eq!(ary.slice(3, 1), [0_i32; 0]);
    assert_eq!(ary.slice(10, 100), [0_i32; 0]);
    assert_eq!(ary.slice(1, usize::MAX), [2, 3]);
}

#[test]
fn with_len_and_default_repeats_the_default() {
    let ary: Array<&str> = Array::with_len_and_default(3, "spinoso");
    assert_eq!(ary.len(), 3);
    assert_eq!(ary.as_slice(), ["spinoso", "spinoso", "spinoso"]);
}

#[test]
fn concat_appends() {
    let mut ary = array(&[1, 2, 4]);
    ary.concat(&[7, 8, 9]);
    assert_eq!(ary.len(), 6);
    assert_eq!(ary.as_slice(), [1, 2, 4, 7, 8, 9]);
}

#[test]
fn repeat_copies_the_elements() {
    let ary = array(&[1, 2]);
    assert_eq!(ary.repeat(3).map(Array::into_vec), Some(vec![1, 2, 1, 2, 1, 2]));
    assert_eq!(ary.repeat(0).map(Array::into_vec), Some(vec![]));
    assert_eq!(ary.repeat(usize::MAX).map(Array::into_vec), None);
    assert_eq!(array(&[]).repeat(usize::MAX).map(Array::into_vec), Some(vec![]));
}

#[test]
fn set_fills_the_gap_with_defaults() {
    let mut ary = array(&[1, 2, 4]);
    ary.set(1, 11);
    assert_eq!(ary.as_slice(), [1, 11, 4]);
    ary.set(5, 263);
    assert_eq!(ary.as_slice(), [1, 11, 4, 0, 0, 263]);
    let mut ary: Array<i32> = array(&[]);
    ary.set(5, 11);
    assert_eq!(ary.as_slice(), [0, 0, 0, 0, 0, 11]);
}

#[test]
fn set_with_drain_replaces_a_range_by_one_element() {
    let mut ary = array(&[1, 2, 4]);
    assert_eq!(ary.set_with_drain(1, 0, 10), 0);
    assert_eq!(ary.as_slice(), [1, 10, 2, 4]);
    assert_eq!(ary.set_with_drain(2, 5, 20), 2);
    assert_eq!(ary.as_slice(), [1, 10, 20]);
    assert_eq!(ary.set_with_drain(5, 5, 30), 0);
    assert_eq!(ary.as_slice(), [1, 10, 20, 0, 0, 30]);
    assert_eq!(ary.set_with_drain(0, 1, 40), 1);
    assert_eq!(ary.as_slice(), [40, 10, 20, 0, 0, 30]);
    assert_eq!(ary.set_with_drain(1, 2, 50), 2);
    assert_eq!(ary.as_slice(), [40, 50, 0, 0, 30]);
}

#[test]
fn insert_slice_and_set_slice() {
    let mut ary = array(&[1, 2, 4]);
    ary.insert_slice(1, &[7, 8, 9]);
    assert_eq!(ary.as_slice(), [1, 7, 8, 9, 2, 4]);
    ary.insert_slice(8, &[100, 200]);
    assert_eq!(ary.as_slice(), [1, 7, 8, 9, 2, 4, 0, 0, 100, 200]);
    let mut ary = array(&[1, 2, 4]);
    assert_eq!(ary.set_slice(1, 5, &[7, 8, 9]), 2);
    assert_eq!(ary.as_slice(), [1, 7, 8, 9]);
    assert_eq!(ary.set_slice(6, 1, &[100, 200]), 0);
    assert_eq!(ary.as_slice(), [1, 7, 8, 9, 0, 0, 100, 200]);
}
