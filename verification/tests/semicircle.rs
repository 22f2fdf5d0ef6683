use rasterization::{offset, Rasterization, SemicircleFilled, Span};

fn sp(start: i64, end: i64) -> Span {
    Span { start, end }
}

#[test]
fn test_semicircle_new_empty() {
    let semicircle_iter = SemicircleFilled::<i32>::new(0);
    let vec = semicircle_iter.spans();
    assert_eq!(vec, vec![]);
}

#[test]
fn test_semicircle_new_clone() {
    let semicircle_iter = SemicircleFilled::<i32>::new(10);
    let semicircle_iter_clone = semicircle_iter.clone();
    assert_eq!(semicircle_iter, semicircle_iter_clone);
}

#[test]
fn test_semicircle_circle_empty() {
    let circle_vec = SemicircleFilled::<isize>::new(0).spans().circle();
    assert_eq!(circle_vec, vec![]);
}

#[test]
fn test_semicircle_circle_clone() {
    let circle_iter = SemicircleFilled::<isize>::new(6);
    let circle_iter_clone = circle_iter.clone();
    let circle_vec = circle_iter.spans().circle();
    let circle_clone_vec = circle_iter_clone.spans().circle();
    assert_eq!(circle_vec, circle_clone_vec);
}

#[test]
fn test_semicircle_circle_three() {
    let vec = SemicircleFilled::<i32>::new(3).spans().circle();
    assert_eq!(vec, 
        vec![(-3, -1), (-3, 0), (-2, -1), (-2, 0), (-1, -1), (-1, 0),
        (0, -1), (0, 0), (1, -1), (1, 0), (2, -1), (2, 0), (-3, -2),
        (-3, 1), (-2, -2), (-2, 1), (-1, -2), (-1, 1), (0, -2),
        (0, 1), (1, -2), (1, 1), (2, -2), (2, 1), (-2, -3), (-2, 2),
        (-1, -3), (-1, 2), (0, -3), (0, 2), (1, -3), (1, 2)]);
}

#[test]
fn test_semicircle_circle_one() {
    let vec = SemicircleFilled::<i32>::new(1).spans().circle();
    assert_eq!(vec, 
        vec![(-1, -1), (-1, 0), (0, -1), (0, 0)]);
}

#[test]
fn test_semicircle_circle_long_empty() {
    let circle_long_vec = SemicircleFilled::<i64>::new(0).spans().circle_long(0, 0);
    assert_eq!(circle_long_vec, vec![]);
    let circle_long_vec = SemicircleFilled::<i64>::new(0).spans().circle_long(-10, 10);
    assert_eq!(circle_long_vec, vec![]);
}

#[test]
fn test_semicircle_circle_long_clone() {
    let circle_long_iter = SemicircleFilled::<i64>::new(6);
    let circle_long_iter_clone = circle_long_iter.clone();
    let circle_long_vec = circle_long_iter.spans().circle_long(-1, 1);
    let circle_long_clone_vec = circle_long_iter_clone.spans().circle_long(-1, 1);
    assert_eq!(circle_long_vec, circle_long_clone_vec);
}

#[test]
fn test_semicircle_circle_long_five() {
    let circle_long_vec = SemicircleFilled::<i64>::new(5).spans().circle_long(-2, 2);
    assert_eq!(circle_long_vec,
        vec![(-7, -1), (-7, 0), (-6, -1), (-6, 0), (-5, -1), (-5, 0),
        (-4, -1), (-4, 0), (-3, -1), (-3, 0), (-2, -1), (-2, 0),
        (-1, -1), (-1, 0), (0, -1), (0, 0), (1, -1), (1, 0), (2, -1),
        (2, 0), (3, -1), (3, 0), (4, -1), (4, 0), (5, -1), (5, 0),
        (6, -1), (6, 0), (-7, -2), (-7, 1), (-6, -2), (-6, 1),
        (-5, -2), (-5, 1), (-4, -2), (-4, 1), (-3, -2), (-3, 1),
        (-2, -2), (-2, 1), (-1, -2), (-1, 1), (0, -2), (0, 1),
        (1, -2), (1, 1), (2, -2), (2, 1), (3, -2), (3, 1), (4, -2),
        (4, 1), (5, -2), (5, 1), (6, -2), (6, 1), (-6, -3), (-6, 2),
        (-5, -3), (-5, 2), (-4, -3), (-4, 2), (-3, -3), (-3, 2),
        (-2, -3), (-2, 2), (-1, -3), (-1, 2), (0, -3), (0, 2),
        (1, -3), (1, 2), (2, -3), (2, 2), (3, -3), (3, 2), (4, -3),
        (4, 2), (5, -3), (5, 2), (-5, -4), (-5, 3), (-4, -4),
        (-4, 3), (-3, -4), (-3, 3), (-2, -4), (-2, 3), (-1, -4),
        (-1, 3), (0, -4), (0, 3), (1, -4), (1, 3), (2, -4), (2, 3),
        (3, -4), (3, 3), (4, -4), (4, 3), (-4, -5), (-4, 4), (-3, -5),
        (-3, 4), (-2, -5), (-2, 4), (-1, -5), (-1, 4), (0, -5),
        (0, 4), (1, -5), (1, 4), (2, -5), (2, 4), (3, -5), (3, 4)]);
}

#[test]
fn test_semicircle_semicircle_top_empty() {
    let semicircle_top_vec = SemicircleFilled::<i64>::new(0).spans().semicircle_top();
    assert_eq!(semicircle_top_vec, vec![]);
}

#[test]
fn test_semicircle_semicircle_top_clone() {
    let semicircle_top_iter = SemicircleFilled::<isize>::new(6);
    let semicircle_top_iter_clone = semicircle_top_iter.clone();
    let semicircle_top_vec = semicircle_top_iter.spans().semicircle_top();
    let semicircle_top_clone_vec = semicircle_top_iter_clone.spans().semicircle_top();
    assert_eq!(semicircle_top_vec, semicircle_top_clone_vec);
}

#[test]
fn test_semicircle_semicircle_top_four() {
    let semicircle_top_vec = SemicircleFilled::<isize>::new(4).spans().semicircle_top();
    assert_eq!(semicircle_top_vec,
        vec![(-4, -1), (-3, -1), (-2, -1), (-1, -1), (0, -1),
        (1, -1), (2, -1), (3, -1), (-4, -2), (-3, -2), (-2, -2),
        (-1, -2), (0, -2), (1, -2), (2, -2), (3, -2), (-3, -3),
        (-2, -3), (-1, -3), (0, -3), (1, -3), (2, -3), (-2, -4),
        (-1, -4), (0, -4), (1, -4)]);
}

#[test]
fn test_semicircle_semicircle_bottom_empty() {
    let semicircle_bottom_vec = SemicircleFilled::<i32>::new(0).spans().semicircle_bottom();
    assert_eq!(semicircle_bottom_vec, vec![]);
}

#[test]
fn test_semicircle_semicircle_bottom_clone() {
    let semicircle_bottom_iter = SemicircleFilled::<i32>::new(6);
    let semicircle_bottom_iter_clone = semicircle_bottom_iter.clone();
    let semicircle_bottom_vec = semicircle_bottom_iter.spans().semicircle_bottom();
    let semicircle_bottom_clone_vec = semicircle_bottom_iter_clone.spans().semicircle_bottom();
    assert_eq!(semicircle_bottom_vec, semicircle_bottom_clone_vec);
}

#[test]
fn test_semicircle_semicircle_bottom_four() {
    let semicircle_bottom_vec = SemicircleFilled::<i32>::new(4).spans().semicircle_bottom();
    assert_eq!(semicircle_bottom_vec,
        vec![(-4, 0), (-3, 0), (-2, 0), (-1, 0), (0, 0), (1, 0),
        (2, 0), (3, 0), (-4, 1), (-3, 1), (-2, 1), (-1, 1), (0, 1),
        (1, 1), (2, 1), (3, 1), (-3, 2), (-2, 2), (-1, 2), (0, 2),
        (1, 2), (2, 2), (-2, 3), (-1, 3), (0, 3), (1, 3)]);
}

#[test]
fn test_semicircle_semicircle_top_long_empty() {
    let vec = SemicircleFilled::<i32>::new(0).spans().semicircle_top_long(0, 0);
    assert_eq!(vec, vec![]);
    let vec = SemicircleFilled::<i32>::new(0).spans().semicircle_top_long(-20, 20);
    assert_eq!(vec, vec![]);
}

#[test]
fn test_semicircle_semicircle_top_long_four() {
    let vec = SemicircleFilled::<i32>::new(4).spans().semicircle_top_long(-2, 2);
    assert_eq!(vec,
        vec![(-6, -1), (-5, -1), (-4, -1), (-3, -1), (-2, -1),
        (-1, -1), (0, -1), (1, -1), (2, -1), (3, -1), (4, -1),
        (5, -1), (-6, -2), (-5, -2), (-4, -2), (-3, -2), (-2, -2),
        (-1, -2), (0, -2), (1, -2), (2, -2), (3, -2), (4, -2),
        (5, -2), (-5, -3), (-4, -3), (-3, -3), (-2, -3), (-1, -3),
        (0, -3), (1, -3), (2, -3), (3, -3), (4, -3), (-4, -4),
        (-3, -4), (-2, -4), (-1, -4), (0, -4), (1, -4), (2, -4), (3, -4)]);

    let vec = SemicircleFilled::<i32>::new(4).spans().semicircle_top_long(2, -2);
    assert_eq!(vec,
        vec![(-2, -1), (-1, -1), (0, -1), (1, -1), (-2, -2),
        (-1, -2), (0, -2), (1, -2), (-1, -3), (0, -3)]);

    let vec = SemicircleFilled::<i32>::new(4).spans().semicircle_top_long(4, -4);
    assert_eq!(vec,
        vec![]);
}

#[test]
fn test_semicircle_semicircle_bottom_long_empty() {
    let vec = SemicircleFilled::<i32>::new(0).spans().semicircle_bottom_long(0, 0);
    assert_eq!(vec, vec![]);
    let vec = SemicircleFilled::<i32>::new(0).spans().semicircle_bottom_long(-20, 20);
    assert_eq!(vec, vec![]);
}

#[test]
fn test_semicircle_semicircle_bottom_long_five() {
    let vec = SemicircleFilled::<i32>::new(5).spans().semicircle_bottom_long(-2, 2);
    assert_eq!(vec,
        vec![(-7, 0), (-6, 0), (-5, 0), (-4, 0), (-3, 0), (-2, 0),
        (-1, 0), (0, 0), (1, 0), (2, 0), (3, 0), (4, 0), (5, 0),
        (6, 0), (-7, 1), (-6, 1), (-5, 1), (-4, 1), (-3, 1), (-2, 1),
        (-1, 1), (0, 1), (1, 1), (2, 1), (3, 1), (4, 1), (5, 1),
        (6, 1), (-6, 2), (-5, 2), (-4, 2), (-3, 2), (-2, 2), (-1, 2),
        (0, 2), (1, 2), (2, 2), (3, 2), (4, 2), (5, 2), (-5, 3),
        (-4, 3), (-3, 3), (-2, 3), (-1, 3), (0, 3), (1, 3), (2, 3),
        (3, 3), (4, 3), (-4, 4), (-3, 4), (-2, 4), (-1, 4), (0, 4),
        (1, 4), (2, 4), (3, 4)]);

    let vec = SemicircleFilled::<i32>::new(5).spans().semicircle_bottom_long(2, -2);
    assert_eq!(vec,
        vec![(-3, 0), (-2, 0), (-1, 0), (0, 0), (1, 0), (2, 0),
        (-3, 1), (-2, 1), (-1, 1), (0, 1), (1, 1), (2, 1), (-2, 2),
        (-1, 2), (0, 2), (1, 2), (-1, 3), (0, 3)]);

    let vec = SemicircleFilled::<i32>::new(5).spans().semicircle_bottom_long(5, -5);
    assert_eq!(vec,
        vec![]);
}

#[test]
fn test_semicircle_first_quadrant_empty() {
    let vec = SemicircleFilled::<i32>::new(0).spans().first_quadrant(0);
    assert_eq!(vec, vec![]);
    let vec = SemicircleFilled::<i32>::new(0).spans().first_quadrant(10);
    assert_eq!(vec, vec![]);
    let vec = SemicircleFilled::<i32>::new(0).spans().first_quadrant(-10);
    assert_eq!(vec, vec![]);
}

#[test]
fn test_semicircle_first_quadrant_four() {
    let vec = SemicircleFilled::<i32>::new(4).spans().first_quadrant(0);
    assert_eq!(vec,
        vec![(0, -1), (1, -1), (2, -1), (3, -1), (0, -2), (1, -2),
        (2, -2), (3, -2), (0, -3), (1, -3), (2, -3), (0, -4), (1, -4)]);
}

#[test]
fn test_semicircle_first_quadrant_clone() {
    let iter = SemicircleFilled::<isize>::new(6);
    let iter_clone = iter.clone();
    let vec = iter.spans().first_quadrant(10);
    let clone_vec = iter_clone.spans().first_quadrant(10);
    assert_eq!(vec, clone_vec);
}

#[test]
fn test_semicircle_first_quadrant_four_long() {
    let vec = SemicircleFilled::<i32>::new(4).spans().first_quadrant(4);
    assert_eq!(vec,
        vec![(0, -1), (1, -1), (2, -1), (3, -1), (4, -1), (5, -1),
        (6, -1), (7, -1), (0, -2), (1, -2), (2, -2), (3, -2),
        (4, -2), (5, -2), (6, -2), (7, -2), (0, -3), (1, -3),
        (2, -3), (3, -3), (4, -3), (5, -3), (6, -3), (0, -4),
        (1, -4), (2, -4), (3, -4), (4, -4), (5, -4)]);

    let vec = SemicircleFilled::<i32>::new(4).spans().first_quadrant(-2);
    assert_eq!(vec,
        vec![(0, -1), (1, -1), (0, -2), (1, -2), (0, -3)]);

    let vec = SemicircleFilled::<i32>::new(4).spans().first_quadrant(-4);
    assert_eq!(vec,
        vec![]);
}

#[test]
fn test_semicircle_second_quadrant_empty() {
    let vec = SemicircleFilled::<i32>::new(0).spans().second_quadrant(0);
    assert_eq!(vec, vec![]);
    let vec = SemicircleFilled::<i32>::new(0).spans().second_quadrant(10);
    assert_eq!(vec, vec![]);
    let vec = SemicircleFilled::<i32>::new(0).spans().second_quadrant(-10);
    assert_eq!(vec, vec![]);
}

#[test]
fn test_semicircle_second_quadrant_five() {
    let vec = SemicircleFilled::<i32>::new(5).spans().second_quadrant(0);
    assert_eq!(vec,
        vec![(-5, -1), (-4, -1), (-3, -1), (-2, -1), (-1, -1),
        (-5, -2), (-4, -2), (-3, -2), (-2, -2), (-1, -2), (-4, -3),
        (-3, -3), (-2, -3), (-1, -3), (-3, -4), (-2, -4), (-1, -4),
        (-2, -5), (-1, -5)]);
}

#[test]
fn test_semicircle_second_quadrant_clone() {
    let iter = SemicircleFilled::<isize>::new(6);
    let iter_clone = iter.clone();
    let vec = iter.spans().second_quadrant(10);
    let clone_vec = iter_clone.spans().second_quadrant(10);
    assert_eq!(vec, clone_vec);
}

#[test]
fn test_semicircle_second_quadrant_five_long() {
    let vec = SemicircleFilled::<i32>::new(5).spans().second_quadrant(-2);
    assert_eq!(vec,
        vec![(-5, -1), (-4, -1), (-3, -1), (-5, -2), (-4, -2),
        (-3, -2), (-4, -3), (-3, -3), (-3, -4)]);

    let vec = SemicircleFilled::<i32>::new(5).spans().second_quadrant(-5);
    assert_eq!(vec,
        vec![]);

    let vec = SemicircleFilled::<i32>::new(5).spans().second_quadrant(1);
    assert_eq!(vec,
        vec![(-5, -1), (-4, -1), (-3, -1), (-2, -1), (-1, -1),
        (0, -1), (-5, -2), (-4, -2), (-3, -2), (-2, -2), (-1, -2),
        (0, -2), (-4, -3), (-3, -3), (-2, -3), (-1, -3), (0, -3),
        (-3, -4), (-2, -4), (-1, -4), (0, -4), (-2, -5), (-1, -5), (0, -5)]);
}

#[test]
fn test_semicircle_third_quadrant_empty() {
    let vec = SemicircleFilled::<i32>::new(0).spans().third_quadrant(0);
    assert_eq!(vec, vec![]);
    let vec = SemicircleFilled::<i32>::new(0).spans().third_quadrant(10);
    assert_eq!(vec, vec![]);
    let vec = SemicircleFilled::<i32>::new(0).spans().third_quadrant(-10);
    assert_eq!(vec, vec![]);
}

#[test]
fn test_semicircle_third_quadrant_five() {
    let vec = SemicircleFilled::<i32>::new(5).spans().third_quadrant(0);
    assert_eq!(vec,
        vec![(-5, 0), (-4, 0), (-3, 0), (-2, 0), (-1, 0), (-5, 1),
        (-4, 1), (-3, 1), (-2, 1), (-1, 1), (-4, 2), (-3, 2),
        (-2, 2), (-1, 2), (-3, 3), (-2, 3), (-1, 3), (-2, 4), (-1, 4)]);
}

#[test]
fn test_semicircle_third_quadrant_clone() {
    let iter = SemicircleFilled::<isize>::new(6);
    let iter_clone = iter.clone();
    let vec = iter.spans().third_quadrant(10);
    let clone_vec = iter_clone.spans().third_quadrant(10);
    assert_eq!(vec, clone_vec);
}

#[test]
fn test_semicircle_third_quadrant_five_long() {
    let vec = SemicircleFilled::<i32>::new(5).spans().third_quadrant(-3);
    assert_eq!(vec,
        vec![(-5, 0), (-4, 0), (-5, 1), (-4, 1), (-4, 2)]);

    let vec = SemicircleFilled::<i32>::new(5).spans().third_quadrant(-5);
    assert_eq!(vec,
        vec![]);

    let vec = SemicircleFilled::<i32>::new(5).spans().third_quadrant(2);
    assert_eq!(vec,
        vec![(-5, 0), (-4, 0), (-3, 0), (-2, 0), (-1, 0), (0, 0),
        (1, 0), (-5, 1), (-4, 1), (-3, 1), (-2, 1), (-1, 1), (0, 1),
        (1, 1), (-4, 2), (-3, 2), (-2, 2), (-1, 2), (0, 2), (1, 2),
        (-3, 3), (-2, 3), (-1, 3), (0, 3), (1, 3), (-2, 4), (-1, 4),
        (0, 4), (1, 4)]);
}

#[test]
fn test_semicircle_fourth_quadrant_empty() {
    let vec = SemicircleFilled::<i32>::new(0).spans().fourth_quadrant(0);
    assert_eq!(vec, vec![]);
    let vec = SemicircleFilled::<i32>::new(0).spans().fourth_quadrant(10);
    assert_eq!(vec, vec![]);
    let vec = SemicircleFilled::<i32>::new(0).spans().fourth_quadrant(-10);
    assert_eq!(vec, vec![]);
}

#[test]
fn test_semicircle_fourth_quadrant_five() {
    let vec = SemicircleFilled::<i32>::new(5).spans().fourth_quadrant(0);
    assert_eq!(vec,
        vec![(0, 0), (1, 0), (2, 0), (3, 0), (4, 0), (0, 1), (1, 1),
        (2, 1), (3, 1), (4, 1), (0, 2), (1, 2), (2, 2), (3, 2),
        (0, 3), (1, 3), (2, 3), (0, 4), (1, 4)]);
}

#[test]
fn test_semicircle_fourth_quadrant_clone() {
    let iter = SemicircleFilled::<isize>::new(6);
    let iter_clone = iter.clone();
    let vec = iter.spans().fourth_quadrant(10);
    let clone_vec = iter_clone.spans().fourth_quadrant(10);
    assert_eq!(vec, clone_vec);
}

#[test]
fn test_semicircle_fourth_quadrant_five_long() {
    let vec = SemicircleFilled::<i32>::new(5).spans().fourth_quadrant(-2);
    assert_eq!(vec,
        vec![(0, 0), (1, 0), (2, 0), (0, 1), (1, 1), (2, 1), (0, 2),
        (1, 2), (0, 3)]);

    let vec = SemicircleFilled::<i32>::new(5).spans().fourth_quadrant(-5);
    assert_eq!(vec,
        vec![]);

    let vec = SemicircleFilled::<i32>::new(5).spans().fourth_quadrant(3);
    assert_eq!(vec,
        vec![(0, 0), (1, 0), (2, 0), (3, 0), (4, 0), (5, 0), (6, 0),
        (7, 0), (0, 1), (1, 1), (2, 1), (3, 1), (4, 1), (5, 1),
        (6, 1), (7, 1), (0, 2), (1, 2), (2, 2), (3, 2), (4, 2),
        (5, 2), (6, 2), (0, 3), (1, 3), (2, 3), (3, 3), (4, 3),
        (5, 3), (0, 4), (1, 4), (2, 4), (3, 4), (4, 4)]);
}

#[test]
fn test_semicircle_semicircle_top_empty_rev() {
    let semicircle_top_vec = SemicircleFilled::<i32>::new(0)
        .rev()
        .semicircle_top();
    assert_eq!(semicircle_top_vec, vec![]);
}

#[test]
fn test_semicircle_isize_semicircle_top_clone_rev() {
    let semicircle_top_iter = SemicircleFilled::<isize>::new(6);
    let semicircle_top_iter_clone = semicircle_top_iter.clone();
    let semicircle_top_vec = semicircle_top_iter.rev().semicircle_top();
    let semicircle_top_clone_vec = semicircle_top_iter_clone.rev().semicircle_top();
    assert_eq!(semicircle_top_vec, semicircle_top_clone_vec);
}

#[test]
fn test_semicircle_i32_semicircle_top_clone_rev() {
    let semicircle_top_iter = SemicircleFilled::<i32>::new(100);
    let semicircle_top_iter_clone = semicircle_top_iter.clone();
    let semicircle_top_vec = semicircle_top_iter.rev().semicircle_top();
    let semicircle_top_clone_vec = semicircle_top_iter_clone.rev().semicircle_top();
    assert_eq!(semicircle_top_vec, semicircle_top_clone_vec);
}

#[test]
fn test_semicircle_i64_semicircle_top_clone_rev() {
    let semicircle_top_iter = SemicircleFilled::<i64>::new(5);
    let semicircle_top_iter_clone = semicircle_top_iter.clone();
    let semicircle_top_vec = semicircle_top_iter.rev().semicircle_top();
    let semicircle_top_clone_vec = semicircle_top_iter_clone.rev().semicircle_top();
    assert_eq!(semicircle_top_vec, semicircle_top_clone_vec);
}

#[test]
fn test_semicircle_isize_semicircle_top_five_rev() {
    let semicircle_top_vec = SemicircleFilled::<isize>::new(5)
        .rev()
        .semicircle_top();
    assert_eq!(semicircle_top_vec,
        vec![(-2, -5), (-1, -5), (0, -5), (1, -5), (-3, -4), (-2, -4),
        (-1, -4), (0, -4), (1, -4), (2, -4), (-4, -3), (-3, -3), (-2, -3), (-1, -3),
        (0, -3), (1, -3), (2, -3), (3, -3), (-5, -2), (-4, -2), (-3, -2), (-2, -2),
        (-1, -2), (0, -2), (1, -2), (2, -2), (3, -2), (4, -2), (-5, -1), (-4, -1),
        (-3, -1), (-2, -1), (-1, -1), (0, -1), (1, -1), (2, -1), (3, -1), (4, -1)]);
}

#[test]
fn test_semicircle_i32_semicircle_top_five_rev() {
    let semicircle_top_vec = SemicircleFilled::<i32>::new(5)
        .rev()
        .semicircle_top();
    assert_eq!(semicircle_top_vec,
        vec![(-2, -5), (-1, -5), (0, -5), (1, -5), (-3, -4), (-2, -4),
        (-1, -4), (0, -4), (1, -4), (2, -4), (-4, -3), (-3, -3), (-2, -3), (-1, -3),
        (0, -3), (1, -3), (2, -3), (3, -3), (-5, -2), (-4, -2), (-3, -2), (-2, -2),
        (-1, -2), (0, -2), (1, -2), (2, -2), (3, -2), (4, -2), (-5, -1), (-4, -1),
        (-3, -1), (-2, -1), (-1, -1), (0, -1), (1, -1), (2, -1), (3, -1), (4, -1)]);
}

#[test]
fn test_semicircle_i64_semicircle_top_five_rev() {
    let semicircle_top_vec = SemicircleFilled::<i64>::new(5)
        .rev()
        .semicircle_top();
    assert_eq!(semicircle_top_vec,
        vec![(-2, -5), (-1, -5), (0, -5), (1, -5), (-3, -4), (-2, -4),
        (-1, -4), (0, -4), (1, -4), (2, -4), (-4, -3), (-3, -3), (-2, -3), (-1, -3),
        (0, -3), (1, -3), (2, -3), (3, -3), (-5, -2), (-4, -2), (-3, -2), (-2, -2),
        (-1, -2), (0, -2), (1, -2), (2, -2), (3, -2), (4, -2), (-5, -1), (-4, -1),
        (-3, -1), (-2, -1), (-1, -1), (0, -1), (1, -1), (2, -1), (3, -1), (4, -1)]);
}

#[test]
fn test_semicircle_circle_offset_empty() {
    let circle_vec = offset(SemicircleFilled::<isize>::new(0).spans().circle(), 0, 0);
    assert_eq!(circle_vec, vec![]);
}

#[test]
fn test_semicircle_circle_offset_clone() {
    let circle_iter = SemicircleFilled::<isize>::new(6);
    let circle_iter_clone = circle_iter.clone();
    let circle_vec = offset(circle_iter.spans().circle(), 6, 6);
    let circle_clone_vec = offset(circle_iter_clone.spans().circle(), 6, 6);
    assert_eq!(circle_vec, circle_clone_vec);
}

#[test]
fn test_semicircle_circle_offset_three() {
    let vec = offset(SemicircleFilled::<i32>::new(3).spans().circle(), 3, 3);
    assert_eq!(vec, 
        vec![(0, 2), (0, 3), (1, 2), (1, 3), (2, 2), (2, 3),
        (3, 2), (3, 3), (4, 2), (4, 3), (5, 2), (5, 3), (0, 1),
        (0, 4), (1, 1), (1, 4), (2, 1), (2, 4), (3, 1),
        (3, 4), (4, 1), (4, 4), (5, 1), (5, 4), (1, 0), (1, 5),
        (2, 0), (2, 5), (3, 0), (3, 5), (4, 0), (4, 5)]);
}

#[test]
fn test_semicircle_circle_offset_one() {
    let vec = offset(SemicircleFilled::<i32>::new(1).spans().circle(), 1, 1);
    assert_eq!(vec, 
        vec![(0, 0), (0, 1), (1, 0), (1, 1)]);
}
