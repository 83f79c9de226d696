use logicpad_solver::polyomino::{
    check_shape, flip_shape, normalize_shape, rotate_shape, shape_before, shape_equal,
    transform_invariant,
};

#[test]
fn normalize_sorts_and_shifts() {
    assert_eq!(normalize_shape(&[(2, 3), (1, 3)]), vec![(0, 0), (1, 0)]);
    assert_eq!(normalize_shape(&[(5, 7), (4, 9), (4, 8)]), vec![(0, 1), (0, 2), (1, 0)]);
    assert_eq!(normalize_shape(&[(-3, -4)]), vec![(0, 0)]);
}

#[test]
fn normalize_keeps_repeated_points() {
    assert_eq!(normalize_shape(&[(1, 1), (1, 1), (0, 2)]), vec![(0, 1), (1, 0), (1, 0)]);
}

#[test]
fn normalize_twice_is_normalize() {
    let s = [(7, 2), (6, 2), (6, 3), (6, 4)];
    let n = normalize_shape(&s);
    assert_eq!(normalize_shape(&n), n);
}

#[test]
fn rotate_maps_x_y_to_y_minus_x() {
    assert_eq!(rotate_shape(&[(0, 0), (0, 1)]), vec![(0, 0), (1, 0)]);
    // (0,0) (1,0) (2,0) (2,1) goes to (0,0) (0,-1) (0,-2) (1,-2).
    assert_eq!(
        rotate_shape(&[(0, 0), (1, 0), (2, 0), (2, 1)]),
        vec![(0, 0), (0, 1), (0, 2), (1, 0)]
    );
}

#[test]
fn flip_maps_x_y_to_minus_x_y() {
    assert_eq!(flip_shape(&[(0, 0), (1, 1)]), vec![(0, 1), (1, 0)]);
}

#[test]
fn rotate_four_times_is_normalize() {
    let s = [(3, 3), (3, 4), (4, 4), (5, 4), (5, 5)];
    let r = rotate_shape(&rotate_shape(&rotate_shape(&rotate_shape(&s))));
    assert_eq!(r, normalize_shape(&s));
    assert_eq!(flip_shape(&flip_shape(&s)), normalize_shape(&s));
}

#[test]
fn invariant_of_domino() {
    assert_eq!(transform_invariant(&[(0, 0), (0, 1)]), vec![(0, 0), (0, 1)]);
    assert_eq!(transform_invariant(&[(4, 2), (5, 2)]), vec![(0, 0), (0, 1)]);
}

#[test]
fn invariant_is_the_least_image() {
    let s = [(0, 0), (1, 0), (2, 0), (2, 1)];
    let mut images = vec![];
    let mut cur = s.to_vec();
    for _ in 0..4 {
        cur = rotate_shape(&cur);
        images.push(cur.clone());
        images.push(flip_shape(&cur));
    }
    let least = images.iter().min().unwrap().clone();
    assert_eq!(transform_invariant(&s), least);
    assert_eq!(transform_invariant(&s), vec![(0, 0), (0, 1), (0, 2), (1, 0)]);
}

#[test]
fn invariant_does_not_change_under_rotate_and_flip() {
    let s = [(0, 0), (1, 0), (2, 0), (2, 1)];
    let inv = transform_invariant(&s);
    assert_eq!(transform_invariant(&rotate_shape(&s)), inv);
    assert_eq!(transform_invariant(&flip_shape(&s)), inv);
    assert_eq!(transform_invariant(&[(9, 9), (9, 8), (9, 7), (8, 7)]), inv);
    assert_eq!(transform_invariant(&[(2, 1), (2, 0), (1, 0), (0, 0)]), inv);
}

#[test]
fn invariant_tells_shapes_apart() {
    let l = transform_invariant(&[(0, 0), (1, 0), (2, 0), (2, 1)]);
    let t = transform_invariant(&[(0, 0), (0, 1), (0, 2), (1, 1)]);
    let i = transform_invariant(&[(0, 0), (0, 1), (0, 2), (0, 3)]);
    assert_ne!(l, t);
    assert_ne!(l, i);
    assert_ne!(t, i);
}

#[test]
fn invariant_of_shape_with_negative_points_is_a_normal_form() {
    assert_eq!(transform_invariant(&[(-5, 0)]), vec![(0, 0)]);
    assert_eq!(transform_invariant(&[(-5, 0), (-5, -1)]), vec![(0, 0), (0, 1)]);
}

#[test]
fn shapes_are_ordered_like_vectors() {
    let a = vec![(0, 0), (0, 1)];
    let b = vec![(0, 0), (1, 0)];
    let c = vec![(0, 0)];
    assert!(shape_before(&a, &b));
    assert!(!shape_before(&b, &a));
    assert!(shape_before(&c, &a));
    assert!(!shape_before(&a, &a));
    assert!(shape_equal(&a, &a));
    assert!(!shape_equal(&a, &b));
    assert!(!shape_equal(&a, &c));
}

#[test]
fn shapes_that_can_be_normalized_and_turned() {
    assert_eq!(check_shape(&[]), (true, true));
    assert_eq!(check_shape(&[(3, -4), (-3, 4)]), (true, true));
    // The least row cannot be negated.
    assert_eq!(check_shape(&[(i32::MIN, 0)]), (true, false));
    assert_eq!(check_shape(&[(0, i32::MIN)]), (true, true));
    // The rows are too far apart.
    assert_eq!(check_shape(&[(i32::MIN, 0), (0, 0)]), (false, false));
    assert_eq!(check_shape(&[(-1, 0), (i32::MAX, 0)]), (false, false));
    assert_eq!(check_shape(&[(0, 0), (i32::MAX, 0)]), (true, true));
    assert_eq!(check_shape(&[(0, -2), (0, i32::MAX)]), (false, false));
    assert_eq!(normalize_shape(&[(i32::MIN, 5), (i32::MIN + 1, 5)]), vec![(0, 0), (1, 0)]);
    assert_eq!(normalize_shape(&[(0, 0), (i32::MAX, 0)]), vec![(0, 0), (i32::MAX, 0)]);
}
