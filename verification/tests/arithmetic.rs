use tensor::shape::MISMATCH_MESSAGE;
use tensor::{ShapeMismatch, Tensor};

fn filled<const N: usize>(dim: [usize; N], values: &[f64]) -> Tensor<f64, N> {
    let mut t: Tensor<f64, N> = Tensor::new(dim);
    assert_eq!(t.size(), values.len());
    let mut only = Tensor::<f64, 1>::new([values.len()]);
    for (i, v) in values.iter().enumerate() {
        *only.at_mut(i) = *v;
    }
    let mut next = 0usize;
    fill(&mut t, [0; N], 0, values, &mut next);
    assert_eq!(t.data(), only.data());
    t
}

fn fill<const N: usize>(
    t: &mut Tensor<f64, N>,
    coord: [usize; N],
    axis: usize,
    values: &[f64],
    next: &mut usize,
) {
    if axis == N {
        *t.index_mut(coord) = values[*next];
        *next += 1;
        return;
    }
    for i in 0..t.dim()[axis] {
        let mut c = coord;
        c[axis] = i;
        fill(t, c, axis + 1, values, next);
    }
}

#[test]
fn adding_tensors_adds_the_elements_at_each_coordinate() {
    let a = filled([3], &[1.3, 2.2, 3.1]);
    let b = filled([3], &[7.9, 8.8, 9.7]);
    let sum = a.add_ref(&b).unwrap();
    assert_eq!(sum.dim(), [3]);
    assert_eq!(*sum.at(0), 1.3 + 7.9);
    assert_eq!(*sum.at(1), 2.2 + 8.8);
    assert_eq!(*sum.at(2), 3.1 + 9.7);
    assert!((*sum.at(0) - 9.2).abs() < 1e-12);
    assert!((*sum.at(1) - 11.0).abs() < 1e-12);
    assert!((*sum.at(2) - 12.8).abs() < 1e-12);
}

#[test]
fn adding_tensors_of_rank_three() {
    let a = filled([2, 2, 2], &[1.0, 2.0, 3.0, 4.0, 5.0, 6.0, 7.0, 8.0]);
    let b = filled([2, 2, 2], &[0.5, 0.25, 0.125, 1.5, 2.5, 3.5, 4.5, 5.5]);
    let sum = a.clone().add(&b).unwrap();
    assert_eq!(sum.dim(), [2, 2, 2]);
    for i in 0..2 {
        for j in 0..2 {
            for k in 0..2 {
                assert_eq!(*sum.index([i, j, k]), *a.index([i, j, k]) + *b.index([i, j, k]));
            }
        }
    }
    assert_eq!(sum.data(), &[1.5, 2.25, 3.125, 5.5, 7.5, 9.5, 11.5, 13.5][..]);
}

#[test]
fn adding_a_scalar_adds_it_to_the_element_at_each_coordinate() {
    let a = filled([2, 3], &[1.0, 2.0, 3.0, 4.0, 5.0, 6.0]);
    let sum = a.clone().add_scalar(0.5);
    assert_eq!(sum.dim(), [2, 3]);
    for i in 0..2 {
        for j in 0..3 {
            assert_eq!(*sum.index([i, j]), *a.index([i, j]) + 0.5);
        }
    }
    assert_eq!(sum.data(), &[1.5, 2.5, 3.5, 4.5, 5.5, 6.5][..]);
}

#[test]
fn adding_a_scalar_in_place() {
    let mut a = filled([2, 2], &[1.0, 2.0, 3.0, 4.0]);
    a.add_assign_scalar(-1.0);
    assert_eq!(a.data(), &[0.0, 1.0, 2.0, 3.0][..]);
    assert_eq!(a.dim(), [2, 2]);
}

#[test]
fn integer_elements_are_added_too() {
    let mut a: Tensor<i64, 2> = Tensor::new([2, 2]);
    let mut b: Tensor<i64, 2> = Tensor::new([2, 2]);
    *a.index_mut([0, 0]) = 5;
    *a.index_mut([1, 1]) = -3;
    *b.index_mut([0, 0]) = 7;
    *b.index_mut([0, 1]) = 11;
    a.add_assign(&b).unwrap();
    assert_eq!(a.data(), &[12, 11, 0, -3][..]);
    let c = a.add_scalar(100);
    assert_eq!(c.data(), &[112, 111, 100, 97][..]);
}

#[test]
fn a_shape_mismatch_is_a_fault_and_leaves_both_operands_as_they_were() {
    let mut a = filled([5], &[1.0, 2.0, 3.0, 4.0, 5.0]);
    let b = filled([4], &[10.0, 20.0, 30.0, 40.0]);
    let fault = a.add_assign(&b).unwrap_err();
    assert_eq!(fault, ShapeMismatch { axis: 0, left: 5, right: 4 });
    assert_eq!(fault.message(), MISMATCH_MESSAGE);
    assert_eq!(a.dim(), [5]);
    assert_eq!(a.data(), &[1.0, 2.0, 3.0, 4.0, 5.0][..]);
    assert_eq!(b.dim(), [4]);
    assert_eq!(b.data(), &[10.0, 20.0, 30.0, 40.0][..]);
}

#[test]
fn a_shape_mismatch_on_a_later_axis_is_a_fault() {
    let mut a = filled([2, 3], &[1.0, 2.0, 3.0, 4.0, 5.0, 6.0]);
    let b = filled([2, 2], &[1.0, 2.0, 3.0, 4.0]);
    assert_eq!(a.add_assign(&b), Err(ShapeMismatch { axis: 1, left: 3, right: 2 }));
    assert_eq!(a.data(), &[1.0, 2.0, 3.0, 4.0, 5.0, 6.0][..]);
    assert_eq!(
        a.add_ref(&b).unwrap_err(),
        ShapeMismatch { axis: 1, left: 3, right: 2 }
    );
    assert_eq!(
        b.add(&a).unwrap_err(),
        ShapeMismatch { axis: 1, left: 2, right: 3 }
    );
}

#[test]
fn shapes_with_the_same_number_of_elements_still_have_to_match() {
    let mut a = filled([2, 3], &[1.0, 2.0, 3.0, 4.0, 5.0, 6.0]);
    let b = filled([3, 2], &[1.0, 2.0, 3.0, 4.0, 5.0, 6.0]);
    assert_eq!(a.add_assign(&b), Err(ShapeMismatch { axis: 0, left: 2, right: 3 }));
    assert_eq!(a.data(), &[1.0, 2.0, 3.0, 4.0, 5.0, 6.0][..]);
}

#[test]
fn adding_twice_is_adding_the_double() {
    let a = filled([2, 2], &[1.0, -2.5, 3.25, 0.0]);
    let b = filled([2, 2], &[0.5, 4.0, -1.75, 8.0]);

    let mut twice = a.clone();
    twice.add_assign(&b).unwrap();
    twice.add_assign(&b).unwrap();

    let mut at_once = a.clone();
    at_once.add_assign(&b.clone().add(&b.clone()).unwrap()).unwrap();

    assert_eq!(twice.data(), at_once.data());
    assert_eq!(twice.data(), &[2.0, 5.5, -0.25, 16.0][..]);
}

#[test]
fn adding_twice_is_adding_the_double_for_integers() {
    let mut a: Tensor<u32, 1> = Tensor::new([3]);
    let mut b: Tensor<u32, 1> = Tensor::new([3]);
    for i in 0..3 {
        *a.at_mut(i) = 10 * (i as u32 + 1);
        *b.at_mut(i) = i as u32 + 1;
    }
    let mut twice = a.clone();
    twice.add_assign(&b).unwrap();
    twice.add_assign(&b).unwrap();
    let mut at_once = a.clone();
    at_once.add_assign(&b.add_ref(&b).unwrap()).unwrap();
    assert_eq!(twice.data(), at_once.data());
    assert_eq!(twice.data(), &[12, 24, 36][..]);
}

#[test]
fn rounding_can_tell_the_two_groupings_apart() {
    let a = filled([1], &[1e16]);
    let b = filled([1], &[1.0]);
    let mut twice = a.clone();
    twice.add_assign(&b).unwrap();
    twice.add_assign(&b).unwrap();
    let mut at_once = a.clone();
    at_once.add_assign(&b.add_ref(&b).unwrap()).unwrap();
    assert_eq!(*twice.at(0), (1e16 + 1.0) + 1.0);
    assert_eq!(*at_once.at(0), 1e16 + (1.0 + 1.0));
    assert_ne!(*twice.at(0), *at_once.at(0));
}

#[test]
fn adding_by_reference_leaves_the_operands_as_they_were() {
    let a = filled([2, 2], &[1.0, 2.0, 3.0, 4.0]);
    let b = filled([2, 2], &[10.0, 20.0, 30.0, 40.0]);
    let sum = a.add_ref(&b).unwrap();
    assert_eq!(sum.data(), &[11.0, 22.0, 33.0, 44.0][..]);
    assert_eq!(a.data(), &[1.0, 2.0, 3.0, 4.0][..]);
    assert_eq!(b.data(), &[10.0, 20.0, 30.0, 40.0][..]);
    assert_eq!(b.dim(), [2, 2]);

    let moved = a.add(&b).unwrap();
    assert_eq!(moved.data(), sum.data());
    assert_eq!(b.data(), &[10.0, 20.0, 30.0, 40.0][..]);
    for i in 0..2 {
        for j in 0..2 {
            assert_eq!(*b.index([i, j]), 10.0 * (2 * i + j + 1) as f64);
        }
    }
}

#[test]
fn adding_in_place_leaves_the_right_operand_as_it_was() {
    let mut a = filled([3], &[1.0, 2.0, 3.0]);
    let b = filled([3], &[0.5, 0.5, 0.5]);
    a.add_assign(&b).unwrap();
    assert_eq!(a.data(), &[1.5, 2.5, 3.5][..]);
    assert_eq!(b.data(), &[0.5, 0.5, 0.5][..]);
}

#[test]
fn adding_empty_tensors_adds_nothing() {
    let mut a: Tensor<f64, 2> = Tensor::new([0, 3]);
    let b: Tensor<f64, 2> = Tensor::new([0, 3]);
    assert_eq!(a.add_assign(&b), Ok(()));
    assert_eq!(a.size(), 0);
    a.add_assign_scalar(1.0);
    assert_eq!(a.size(), 0);
}
