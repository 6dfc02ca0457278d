use ndarray_iter::array::{Array, AxisRange};
use ndarray_iter::iter::Axes;

fn flat_values<T: Clone + Copy, const D: usize>(array: &Array<'_, T, D>) -> Vec<T> {
    let mut it = array.flat();
    let mut out = Vec::new();
    while let Some(x) = it.next() {
        out.push(*x);
    }
    out
}

fn slabs_values<T: Clone + Copy, const D: usize>(array: &Array<'_, T, D>, axis: usize) -> Vec<Vec<T>> {
    let mut views = array.axis_view(axis);
    let mut out = Vec::new();
    while let Some(view) = views.next() {
        out.push(flat_values(&view));
    }
    out
}

fn axes_values<const D: usize>(shape: &[usize; D], strides: &[usize; D]) -> Vec<(usize, usize)> {
    let mut axes = Axes::init(shape, strides);
    let mut out = Vec::new();
    while let Some(pair) = axes.next() {
        out.push(pair);
    }
    out
}

#[test]
fn iter() {
    // 2-D array:
    // 1 2 3
    // 4 5 6
    let array = Array::init(vec![1, 2, 3, 4, 5, 6], [2, 3]);

    let mut it = array.flat();
    let mut values: Vec<usize> = Vec::new();
    while let Some(x) = it.next() {
        values.push(*x);
    }
    assert_eq!(values, vec![1, 2, 3, 4, 5, 6])
}

#[test]
fn two_by_three_axes() {
    let array = Array::init(vec![1, 2, 3, 4, 5, 6], [2, 3]);
    let mut axes = array.axes();
    assert_eq!(axes.next(), Some((2, 3)));
    assert_eq!(axes.next(), Some((3, 1)));
    assert_eq!(axes.next(), None);
    assert_eq!(axes.next(), None);
}

#[test]
fn two_by_three_rows() {
    let array = Array::init(vec![1, 2, 3, 4, 5, 6], [2, 3]);
    assert_eq!(slabs_values(&array, 0), vec![vec![1, 2, 3], vec![4, 5, 6]]);
}

#[test]
fn two_by_three_columns() {
    let array = Array::init(vec![1, 2, 3, 4, 5, 6], [2, 3]);
    assert_eq!(slabs_values(&array, 1), vec![vec![1, 4], vec![2, 5], vec![3, 6]]);
}

#[test]
fn slab_shape_and_strides() {
    let array = Array::init(vec![1, 2, 3, 4, 5, 6], [2, 3]);
    let mut views = array.axis_view(1);
    let first = views.next().unwrap();
    assert_eq!(first.shape(), &[2, 1]);
    assert_eq!(first.strides(), &[3, 1]);
    assert_eq!(first.get([1, 0]), Some(&4));
    assert_eq!(first.get([0, 1]), None);
}

#[test]
fn axes_rebuilt_give_same_pairs() {
    let shape = [4, 5, 6];
    let strides = [30, 6, 1];
    let first = axes_values(&shape, &strides);
    let second = axes_values(&shape, &strides);
    assert_eq!(first, vec![(4, 30), (5, 6), (6, 1)]);
    assert_eq!(first, second);
}

#[test]
fn flat_three_dims_row_major() {
    let data: Vec<u32> = (0..24).collect();
    let array = Array::init(data.clone(), [2, 3, 4]);
    assert_eq!(array.strides(), &[12, 4, 1]);
    assert_eq!(flat_values(&array), data);
    assert_eq!(array.get([1, 2, 3]), Some(&23));
    assert_eq!(array.get([1, 0, 2]), Some(&14));
}

#[test]
fn flat_count_is_product_of_extents() {
    let data: Vec<u8> = (0..30).collect();
    let array = Array::init(data, [5, 3, 2]);
    assert_eq!(flat_values(&array).len(), 30);
}

#[test]
fn flat_ends_and_stays_ended() {
    let array = Array::init(vec!['a', 'b'], [2]);
    let mut it = array.flat();
    assert_eq!(it.next(), Some(&'a'));
    assert_eq!(it.next(), Some(&'b'));
    assert_eq!(it.next(), None);
    assert_eq!(it.next(), None);
}

#[test]
fn zero_extent_gives_nothing() {
    let array: Array<'_, i32, 2> = Array::init(Vec::new(), [2, 0]);
    assert!(flat_values(&array).is_empty());
    assert!(slabs_values(&array, 1).is_empty());
    // Along the non-empty axis each slab is itself empty.
    assert_eq!(slabs_values(&array, 0), vec![Vec::<i32>::new(), Vec::new()]);
    assert_eq!(array.strides(), &[0, 0]);
}

#[test]
fn zero_extent_first_axis() {
    let array: Array<'_, i32, 3> = Array::init(Vec::new(), [0, 3, 4]);
    assert!(flat_values(&array).is_empty());
    assert!(slabs_values(&array, 0).is_empty());
    assert_eq!(slabs_values(&array, 2).len(), 4);
}

#[test]
fn get_out_of_range() {
    let array = Array::init(vec![1, 2, 3, 4, 5, 6], [2, 3]);
    assert_eq!(array.get([2, 0]), None);
    assert_eq!(array.get([0, 3]), None);
    assert_eq!(array.get([1, 1]), Some(&5));
}

#[test]
fn slice_of_slice_is_strided() {
    let data: Vec<i64> = (0..12).collect();
    let array = Array::init(data, [3, 4]);
    let view = array.slice(&[AxisRange { start: 1, end: 3 }, AxisRange { start: 1, end: 4 }]);
    assert_eq!(view.shape(), &[2, 3]);
    assert_eq!(view.strides(), &[4, 1]);
    assert_eq!(flat_values(&view), vec![5, 6, 7, 9, 10, 11]);
    assert_eq!(slabs_values(&view, 1), vec![vec![5, 9], vec![6, 10], vec![7, 11]]);
    let inner = view.slice(&[AxisRange { start: 0, end: 2 }, AxisRange { start: 2, end: 3 }]);
    assert_eq!(flat_values(&inner), vec![7, 11]);
}

#[test]
fn slabs_on_axis_zero_reassemble() {
    let data: Vec<u16> = (10..34).collect();
    let array = Array::init(data.clone(), [4, 3, 2]);
    let joined: Vec<u16> = slabs_values(&array, 0).into_iter().flatten().collect();
    assert_eq!(joined, flat_values(&array));
    assert_eq!(joined, data);
}

#[test]
fn slabs_middle_axis() {
    let data: Vec<u8> = (0..8).collect();
    let array = Array::init(data, [2, 2, 2]);
    assert_eq!(slabs_values(&array, 1), vec![vec![0, 1, 4, 5], vec![2, 3, 6, 7]]);
}

#[test]
fn single_axis_array() {
    let array = Array::init(vec![7, 8, 9], [3]);
    assert_eq!(flat_values(&array), vec![7, 8, 9]);
    assert_eq!(slabs_values(&array, 0), vec![vec![7], vec![8], vec![9]]);
    let mut axes = array.axes();
    assert_eq!(axes.next(), Some((3, 1)));
    assert_eq!(axes.next(), None);
}
