use earclip::polygon::Deviation;
use earclip::{deviation, earcut, earcut_impl, Node, Store};

#[test]
fn square_has_two_triangles() {
    let data: Vec<i32> = vec![0, 0, 10, 0, 10, 10, 0, 10];
    let holes: Vec<usize> = vec![];
    let triangles: Vec<usize> = earcut(&data, &holes, 2);
    let expected: Vec<usize> = vec![2, 3, 0, 0, 1, 2];
    assert_eq!(triangles, expected);
}

#[test]
fn convex_hexagon_has_four_triangles_of_its_area() {
    let data: Vec<i32> = vec![4, 0, 8, 2, 8, 6, 4, 8, 0, 6, 0, 2];
    let holes: Vec<usize> = vec![];
    let triangles: Vec<usize> = earcut(&data, &holes, 2);
    assert_eq!(triangles.len(), 3 * 4);
    assert!(triangles.iter().all(|&v| v < 6));
    let d: Deviation = deviation(&data, &holes, &triangles, 2);
    assert_eq!(d.polygon, 96);
    assert_eq!(d.triangles, 96);
}

#[test]
fn l_shape_has_four_triangles_of_its_area() {
    let data: Vec<i32> = vec![0, 0, 6, 0, 6, 2, 2, 2, 2, 6, 0, 6];
    let holes: Vec<usize> = vec![];
    let triangles: Vec<usize> = earcut(&data, &holes, 2);
    assert_eq!(triangles.len(), 3 * 4);
    assert!(triangles.iter().all(|&v| v < 6));
    let d: Deviation = deviation(&data, &holes, &triangles, 2);
    assert_eq!(d.polygon, 40);
    assert_eq!(d.triangles, 40);
}

#[test]
fn l_shape_triangles() {
    let data: Vec<i32> = vec![0, 0, 6, 0, 6, 2, 2, 2, 2, 6, 0, 6];
    let holes: Vec<usize> = vec![];
    let triangles: Vec<usize> = earcut(&data, &holes, 2);
    let expected: Vec<usize> = vec![4, 5, 0, 0, 1, 2, 3, 4, 0, 0, 2, 3];
    assert_eq!(triangles, expected);
}

#[test]
fn square_given_clockwise() {
    let data: Vec<i32> = vec![0, 0, 0, 10, 10, 10, 10, 0];
    let holes: Vec<usize> = vec![];
    let triangles: Vec<usize> = earcut(&data, &holes, 2);
    let expected: Vec<usize> = vec![1, 0, 3, 3, 2, 1];
    assert_eq!(triangles, expected);
}

#[test]
fn square_with_square_hole() {
    let data: Vec<i32> = vec![0, 0, 100, 0, 100, 100, 0, 100, 20, 20, 80, 20, 80, 80, 20, 80];
    let holes: Vec<usize> = vec![4];
    let triangles: Vec<usize> = earcut(&data, &holes, 2);
    let expected: Vec<usize> = vec![0, 4, 7, 5, 4, 0, 3, 0, 7, 5, 0, 1, 2, 3, 7, 6, 5, 1, 2, 7, 6, 6, 1, 2];
    assert_eq!(triangles, expected);
}

#[test]
fn square_with_square_hole_keeps_area() {
    let data: Vec<i32> = vec![0, 0, 100, 0, 100, 100, 0, 100, 20, 20, 80, 20, 80, 80, 20, 80];
    let holes: Vec<usize> = vec![4];
    let triangles: Vec<usize> = earcut(&data, &holes, 2);
    assert_eq!(triangles.len(), 3 * 8);
    assert!(triangles.iter().all(|&v| v < 8));
    let d: Deviation = deviation(&data, &holes, &triangles, 2);
    assert_eq!(d.polygon, 12800);
    assert_eq!(d.triangles, 12800);
}

#[test]
fn holes_with_the_same_leftmost_x() {
    let data: Vec<i32> = vec![0, 0, 100, 0, 100, 100, 0, 100, 10, 60, 30, 60, 30, 80, 10, 80, 10, 10, 30, 10, 30, 30, 10, 30];
    let holes: Vec<usize> = vec![4, 8];
    let triangles: Vec<usize> = earcut(&data, &holes, 2);
    let expected: Vec<usize> = vec![0, 4, 7, 0, 8, 11, 9, 8, 0, 3, 0, 7, 4, 0, 11, 9, 0, 1, 2, 3, 7, 5, 4, 11, 10, 9, 1, 2, 7, 6, 5, 11, 10, 10, 1, 2, 2, 6, 5, 5, 10, 2];
    assert_eq!(triangles, expected);
}

#[test]
fn two_holes_keep_area() {
    let data: Vec<i32> = vec![0, 0, 100, 0, 100, 100, 0, 100, 10, 60, 30, 60, 30, 80, 10, 80, 10, 10, 30, 10, 30, 30, 10, 30];
    let holes: Vec<usize> = vec![4, 8];
    let triangles: Vec<usize> = earcut(&data, &holes, 2);
    assert_eq!(triangles.len(), 3 * 14);
    assert!(triangles.iter().all(|&v| v < 12));
    let d: Deviation = deviation(&data, &holes, &triangles, 2);
    assert_eq!(d.polygon, 18400);
    assert_eq!(d.triangles, 18400);
}

#[test]
fn hole_of_a_single_point() {
    let data: Vec<i32> = vec![0, 0, 100, 0, 100, 100, 0, 100, 50, 50];
    let holes: Vec<usize> = vec![4];
    let triangles: Vec<usize> = earcut(&data, &holes, 2);
    let expected: Vec<usize> = vec![4, 0, 1, 3, 0, 4, 4, 1, 2, 2, 3, 4];
    assert_eq!(triangles, expected);
}

#[test]
fn hole_of_a_single_point_keeps_area() {
    let data: Vec<i32> = vec![0, 0, 100, 0, 100, 100, 0, 100, 50, 50];
    let holes: Vec<usize> = vec![4];
    let triangles: Vec<usize> = earcut(&data, &holes, 2);
    assert_eq!(triangles.len(), 3 * 4);
    assert!(triangles.iter().all(|&v| v < 5));
    let d: Deviation = deviation(&data, &holes, &triangles, 2);
    assert_eq!(d.polygon, 20000);
    assert_eq!(d.triangles, 20000);
}

#[test]
fn points_on_a_line_have_no_triangle() {
    let data: Vec<i32> = vec![0, 0, 5, 5, 10, 10, 20, 20];
    let holes: Vec<usize> = vec![];
    let triangles: Vec<usize> = earcut(&data, &holes, 2);
    let expected: Vec<usize> = vec![];
    assert_eq!(triangles, expected);
}

#[test]
fn two_vertices_have_no_triangle() {
    let data: Vec<i32> = vec![0, 0, 5, 5];
    let holes: Vec<usize> = vec![];
    let triangles: Vec<usize> = earcut(&data, &holes, 2);
    let expected: Vec<usize> = vec![];
    assert_eq!(triangles, expected);
}

#[test]
fn one_coordinate_has_no_triangle() {
    let data: Vec<i32> = vec![7];
    let holes: Vec<usize> = vec![];
    let triangles: Vec<usize> = earcut(&data, &holes, 2);
    let expected: Vec<usize> = vec![];
    assert_eq!(triangles, expected);
}

#[test]
fn repeated_first_vertex_is_dropped() {
    let data: Vec<i32> = vec![0, 0, 10, 0, 10, 10, 0, 10, 0, 0];
    let holes: Vec<usize> = vec![];
    let triangles: Vec<usize> = earcut(&data, &holes, 2);
    let expected: Vec<usize> = vec![3, 0, 1, 1, 2, 3];
    assert_eq!(triangles, expected);
}

#[test]
fn empty_outer_ring_has_no_triangle() {
    let data: Vec<i32> = vec![0, 0, 10, 0, 10, 10, 0, 10];
    let holes: Vec<usize> = vec![0];
    let triangles: Vec<usize> = earcut(&data, &holes, 2);
    let expected: Vec<usize> = vec![];
    assert_eq!(triangles, expected);
}

#[test]
fn crossing_edges_are_cut_out() {
    let data: Vec<i32> = vec![0, 1, 0, 9, 2, 8, 1, 5, 9, 0, 1, 3, 9, 6, 2, 10];
    let holes: Vec<usize> = vec![];
    let triangles: Vec<usize> = earcut(&data, &holes, 2);
    let expected: Vec<usize> = vec![2, 3, 4, 7, 0, 2, 2, 4, 6, 2, 6, 7];
    assert_eq!(triangles, expected);
}

#[test]
fn ring_is_split_along_a_diagonal() {
    let data: Vec<i32> = vec![6, 1, 4, 3, 10, 6, 5, 3, 7, 0, 11, 5, 11, 6, 5, 10, 6, 3];
    let holes: Vec<usize> = vec![];
    let triangles: Vec<usize> = earcut(&data, &holes, 2);
    let expected: Vec<usize> = vec![4, 5, 6, 2, 3, 4, 6, 7, 2, 2, 4, 6, 2, 7, 8, 2, 8, 0];
    assert_eq!(triangles, expected);
}

#[test]
fn triangle_may_repeat_a_vertex() {
    let data: Vec<i32> = vec![3, 3, 0, 1, 1, 1, 4, 0, 1, 0, 4, 2, 2, 4, 3, 4];
    let holes: Vec<usize> = vec![7];
    let triangles: Vec<usize> = earcut(&data, &holes, 2);
    let expected: Vec<usize> = vec![0, 1, 2, 0, 2, 3, 5, 6, 6, 0, 3, 5];
    assert_eq!(triangles, expected);
}

#[test]
fn third_coordinate_is_ignored() {
    let data: Vec<i32> = vec![0, 0, 5, 10, 0, -3, 10, 10, 7, 0, 10, 1];
    let holes: Vec<usize> = vec![];
    let triangles: Vec<usize> = earcut(&data, &holes, 3);
    let expected: Vec<usize> = vec![2, 3, 0, 0, 1, 2];
    assert_eq!(triangles, expected);
}

#[test]
fn indexed_star() {
    let data: Vec<i32> = vec![1000, 0, 599, 42, 990, 139, 587, 125, 961, 276, 564, 205, 914, 407, 530, 282, 848, 530, 485, 353, 766, 643, 432, 417, 669, 743, 369, 473, 559, 829, 300, 520, 438, 899, 225, 556, 309, 951, 145, 582, 174, 985, 63, 597, 35, 999, -21, 600, -105, 995, -104, 591, -242, 970, -185, 571, -375, 927, -263, 539, -500, 866, -336, 497, -616, 788, -401, 446, -719, 695, -460, 386, -809, 588, -509, 318, -883, 469, -548, 244, -940, 342, -577, 165, -978, 208, -594, 84, -998, 70, -600, 0, -998, -70, -594, -84, -978, -208, -577, -165, -940, -342, -548, -244, -883, -469, -509, -318, -809, -588, -460, -386, -719, -695, -401, -446, -616, -788, -336, -497, -500, -866, -263, -539, -375, -927, -185, -571, -242, -970, -104, -591, -105, -995, -21, -600, 35, -999, 63, -597, 174, -985, 145, -582, 309, -951, 225, -556, 438, -899, 300, -520, 559, -829, 369, -473, 669, -743, 432, -417, 766, -643, 485, -353, 848, -530, 530, -282, 914, -407, 564, -205, 961, -276, 587, -125, 990, -139, 599, -42];
    let holes: Vec<usize> = vec![];
    let triangles: Vec<usize> = earcut(&data, &holes, 2);
    let expected: Vec<usize> = vec![89, 0, 1, 1, 2, 3, 3, 4, 5, 5, 6, 7, 7, 8, 9, 9, 10, 11, 11, 12, 13, 13, 14, 15, 15, 16, 17, 17, 18, 19, 19, 20, 21, 21, 22, 23, 23, 24, 25, 25, 26, 27, 27, 28, 29, 29, 30, 31, 31, 32, 33, 33, 34, 35, 35, 36, 37, 37, 38, 39, 39, 40, 41, 41, 42, 43, 43, 44, 45, 45, 46, 47, 47, 48, 49, 49, 50, 51, 51, 52, 53, 53, 54, 55, 55, 56, 57, 57, 58, 59, 59, 60, 61, 61, 62, 63, 63, 64, 65, 65, 66, 67, 67, 68, 69, 69, 70, 71, 71, 72, 73, 73, 74, 75, 75, 76, 77, 77, 78, 79, 79, 80, 81, 81, 82, 83, 83, 84, 85, 85, 86, 87, 87, 88, 89, 89, 1, 3, 3, 5, 7, 7, 9, 11, 11, 13, 15, 15, 17, 19, 19, 21, 23, 23, 25, 27, 27, 29, 31, 31, 33, 35, 35, 37, 39, 39, 41, 43, 43, 45, 47, 47, 49, 51, 51, 53, 55, 55, 57, 59, 59, 61, 63, 63, 65, 67, 67, 69, 71, 71, 73, 75, 75, 77, 79, 79, 81, 83, 83, 85, 87, 87, 89, 3, 3, 7, 11, 11, 15, 19, 19, 23, 27, 27, 31, 35, 35, 39, 43, 43, 47, 51, 51, 55, 59, 59, 63, 67, 67, 71, 75, 75, 79, 83, 83, 87, 3, 3, 11, 19, 19, 27, 35, 35, 43, 51, 51, 59, 67, 67, 75, 83, 83, 3, 19, 19, 35, 51, 51, 67, 83, 83, 19, 51];
    assert_eq!(triangles, expected);
}

#[test]
fn indexed_star_has_88_triangles_of_its_area() {
    let data: Vec<i32> = vec![1000, 0, 599, 42, 990, 139, 587, 125, 961, 276, 564, 205, 914, 407, 530, 282, 848, 530, 485, 353, 766, 643, 432, 417, 669, 743, 369, 473, 559, 829, 300, 520, 438, 899, 225, 556, 309, 951, 145, 582, 174, 985, 63, 597, 35, 999, -21, 600, -105, 995, -104, 591, -242, 970, -185, 571, -375, 927, -263, 539, -500, 866, -336, 497, -616, 788, -401, 446, -719, 695, -460, 386, -809, 588, -509, 318, -883, 469, -548, 244, -940, 342, -577, 165, -978, 208, -594, 84, -998, 70, -600, 0, -998, -70, -594, -84, -978, -208, -577, -165, -940, -342, -548, -244, -883, -469, -509, -318, -809, -588, -460, -386, -719, -695, -401, -446, -616, -788, -336, -497, -500, -866, -263, -539, -375, -927, -185, -571, -242, -970, -104, -591, -105, -995, -21, -600, 35, -999, 63, -597, 174, -985, 145, -582, 309, -951, 225, -556, 438, -899, 300, -520, 559, -829, 369, -473, 669, -743, 432, -417, 766, -643, 485, -353, 848, -530, 530, -282, 914, -407, 564, -205, 961, -276, 587, -125, 990, -139, 599, -42];
    let holes: Vec<usize> = vec![];
    let triangles: Vec<usize> = earcut(&data, &holes, 2);
    assert_eq!(triangles.len(), 3 * 88);
    assert!(triangles.iter().all(|&v| v < 90));
    let d: Deviation = deviation(&data, &holes, &triangles, 2);
    assert_eq!(d.polygon, 3767568);
    assert_eq!(d.triangles, 3767568);
}

#[test]
fn indexed_star_with_hole() {
    let data: Vec<i32> = vec![1000, 0, 599, 42, 990, 139, 587, 125, 961, 276, 564, 205, 914, 407, 530, 282, 848, 530, 485, 353, 766, 643, 432, 417, 669, 743, 369, 473, 559, 829, 300, 520, 438, 899, 225, 556, 309, 951, 145, 582, 174, 985, 63, 597, 35, 999, -21, 600, -105, 995, -104, 591, -242, 970, -185, 571, -375, 927, -263, 539, -500, 866, -336, 497, -616, 788, -401, 446, -719, 695, -460, 386, -809, 588, -509, 318, -883, 469, -548, 244, -940, 342, -577, 165, -978, 208, -594, 84, -998, 70, -600, 0, -998, -70, -594, -84, -978, -208, -577, -165, -940, -342, -548, -244, -883, -469, -509, -318, -809, -588, -460, -386, -719, -695, -401, -446, -616, -788, -336, -497, -500, -866, -263, -539, -375, -927, -185, -571, -242, -970, -104, -591, -105, -995, -21, -600, 35, -999, 63, -597, 174, -985, 145, -582, 309, -951, 225, -556, 438, -899, 300, -520, 559, -829, 369, -473, 669, -743, 432, -417, 766, -643, 485, -353, 848, -530, 530, -282, 914, -407, 564, -205, 961, -276, 587, -125, 990, -139, 599, -42, -100, -100, 100, -100, 100, 100, -100, 100];
    let holes: Vec<usize> = vec![90];
    let triangles: Vec<usize> = earcut(&data, &holes, 2);
    let expected: Vec<usize> = vec![90, 48, 49, 49, 50, 51, 51, 52, 53, 53, 54, 55, 55, 56, 57, 57, 58, 59, 59, 60, 61, 61, 62, 63, 63, 64, 65, 65, 66, 67, 67, 68, 69, 69, 70, 71, 71, 72, 73, 73, 74, 75, 75, 76, 77, 77, 78, 79, 79, 80, 81, 81, 82, 83, 83, 84, 85, 85, 86, 87, 87, 88, 89, 89, 0, 1, 1, 2, 3, 3, 4, 5, 5, 6, 7, 7, 8, 9, 9, 10, 11, 11, 12, 13, 13, 14, 15, 15, 16, 17, 17, 18, 19, 19, 20, 21, 21, 22, 23, 23, 24, 25, 25, 26, 27, 27, 28, 29, 29, 30, 31, 31, 32, 33, 33, 34, 35, 35, 36, 37, 37, 38, 39, 39, 40, 41, 41, 42, 43, 43, 44, 45, 45, 46, 47, 47, 48, 90, 91, 90, 49, 49, 51, 53, 53, 55, 57, 57, 59, 61, 61, 63, 65, 65, 67, 69, 69, 71, 73, 73, 75, 77, 77, 79, 81, 81, 83, 85, 85, 87, 89, 89, 1, 3, 3, 5, 7, 7, 9, 11, 11, 13, 15, 15, 17, 19, 19, 21, 23, 23, 25, 27, 27, 29, 31, 31, 33, 35, 35, 37, 39, 39, 41, 43, 43, 45, 47, 47, 90, 93, 91, 49, 53, 53, 57, 61, 61, 65, 69, 69, 73, 77, 77, 81, 85, 85, 89, 3, 3, 7, 11, 11, 15, 19, 19, 23, 27, 27, 31, 35, 35, 39, 43, 43, 47, 93, 91, 53, 61, 61, 69, 77, 77, 85, 3, 3, 11, 19, 19, 27, 35, 35, 43, 93, 91, 61, 77, 77, 3, 19, 19, 35, 93, 92, 91, 77, 19, 93, 92, 92, 77, 19];
    assert_eq!(triangles, expected);
}

#[test]
fn indexed_star_with_hole_keeps_area() {
    let data: Vec<i32> = vec![1000, 0, 599, 42, 990, 139, 587, 125, 961, 276, 564, 205, 914, 407, 530, 282, 848, 530, 485, 353, 766, 643, 432, 417, 669, 743, 369, 473, 559, 829, 300, 520, 438, 899, 225, 556, 309, 951, 145, 582, 174, 985, 63, 597, 35, 999, -21, 600, -105, 995, -104, 591, -242, 970, -185, 571, -375, 927, -263, 539, -500, 866, -336, 497, -616, 788, -401, 446, -719, 695, -460, 386, -809, 588, -509, 318, -883, 469, -548, 244, -940, 342, -577, 165, -978, 208, -594, 84, -998, 70, -600, 0, -998, -70, -594, -84, -978, -208, -577, -165, -940, -342, -548, -244, -883, -469, -509, -318, -809, -588, -460, -386, -719, -695, -401, -446, -616, -788, -336, -497, -500, -866, -263, -539, -375, -927, -185, -571, -242, -970, -104, -591, -105, -995, -21, -600, 35, -999, 63, -597, 174, -985, 145, -582, 309, -951, 225, -556, 438, -899, 300, -520, 559, -829, 369, -473, 669, -743, 432, -417, 766, -643, 485, -353, 848, -530, 530, -282, 914, -407, 564, -205, 961, -276, 587, -125, 990, -139, 599, -42, -100, -100, 100, -100, 100, 100, -100, 100];
    let holes: Vec<usize> = vec![90];
    let triangles: Vec<usize> = earcut(&data, &holes, 2);
    assert_eq!(triangles.len(), 3 * 94);
    assert!(triangles.iter().all(|&v| v < 94));
    let d: Deviation = deviation(&data, &holes, &triangles, 2);
    assert_eq!(d.polygon, 3687568);
    assert_eq!(d.triangles, 3687568);
}

#[test]
fn indexed_comb() {
    let data: Vec<i32> = vec![0, 0, 5, 100, 10, 0, 15, 110, 20, 0, 25, 120, 30, 0, 35, 100, 40, 0, 45, 110, 50, 0, 55, 120, 60, 0, 65, 100, 70, 0, 75, 110, 80, 0, 85, 120, 90, 0, 95, 100, 100, 0, 105, 110, 110, 0, 115, 120, 120, 0, 125, 100, 130, 0, 135, 110, 140, 0, 145, 120, 150, 0, 155, 100, 160, 0, 165, 110, 170, 0, 175, 120, 180, 0, 185, 100, 190, 0, 195, 110, 200, 0, 205, 120, 210, 0, 215, 100, 220, 0, 225, 110, 230, 0, 235, 120, 240, 0, 245, 100, 250, 0, 255, 110, 260, 0, 265, 120, 270, 0, 275, 100, 280, 0, 285, 110, 290, 0, 295, 120, 300, 0, 305, 100, 310, 0, 315, 110, 320, 0, 325, 120, 330, 0, 335, 100, 340, 0, 345, 110, 350, 0, 355, 120, 360, 0, 365, 100, 370, 0, 375, 110, 380, 0, 385, 120, 390, 0, 395, 100, 400, 0, 405, 110, 410, 0, 415, 120, 420, 0, 425, 100, 430, 0, 435, 110, 440, 0, 445, 120, 450, -50, -10, -50];
    let holes: Vec<usize> = vec![];
    let triangles: Vec<usize> = earcut(&data, &holes, 2);
    let expected: Vec<usize> = vec![0, 91, 90, 90, 89, 88, 88, 87, 86, 86, 85, 84, 84, 83, 82, 82, 81, 80, 80, 79, 78, 78, 77, 76, 76, 75, 74, 74, 73, 72, 72, 71, 70, 70, 69, 68, 68, 67, 66, 66, 65, 64, 64, 63, 62, 62, 61, 60, 60, 59, 58, 58, 57, 56, 56, 55, 54, 54, 53, 52, 52, 51, 50, 50, 49, 48, 48, 47, 46, 46, 45, 44, 44, 43, 42, 42, 41, 40, 40, 39, 38, 38, 37, 36, 36, 35, 34, 34, 33, 32, 32, 31, 30, 30, 29, 28, 28, 27, 26, 26, 25, 24, 24, 23, 22, 22, 21, 20, 20, 19, 18, 18, 17, 16, 16, 15, 14, 14, 13, 12, 12, 11, 10, 10, 9, 8, 8, 7, 6, 6, 5, 4, 4, 3, 2, 2, 1, 0, 90, 88, 86, 2, 0, 90, 90, 86, 84, 4, 2, 90, 90, 84, 82, 6, 4, 90, 90, 82, 80, 8, 6, 90, 90, 80, 78, 10, 8, 90, 90, 78, 76, 12, 10, 90, 90, 76, 74, 14, 12, 90, 90, 74, 72, 16, 14, 90, 90, 72, 70, 18, 16, 90, 90, 70, 68, 20, 18, 90, 90, 68, 66, 22, 20, 90, 90, 66, 64, 24, 22, 90, 90, 64, 62, 26, 24, 90, 90, 62, 60, 28, 26, 90, 90, 60, 58, 30, 28, 90, 90, 58, 56, 32, 30, 90, 90, 56, 54, 34, 32, 90, 90, 54, 52, 36, 34, 90, 90, 52, 50, 38, 36, 90, 90, 50, 48, 40, 38, 90, 90, 48, 46, 42, 40, 90, 90, 46, 44, 44, 42, 90];
    assert_eq!(triangles, expected);
}

#[test]
fn indexed_comb_keeps_area() {
    let data: Vec<i32> = vec![0, 0, 5, 100, 10, 0, 15, 110, 20, 0, 25, 120, 30, 0, 35, 100, 40, 0, 45, 110, 50, 0, 55, 120, 60, 0, 65, 100, 70, 0, 75, 110, 80, 0, 85, 120, 90, 0, 95, 100, 100, 0, 105, 110, 110, 0, 115, 120, 120, 0, 125, 100, 130, 0, 135, 110, 140, 0, 145, 120, 150, 0, 155, 100, 160, 0, 165, 110, 170, 0, 175, 120, 180, 0, 185, 100, 190, 0, 195, 110, 200, 0, 205, 120, 210, 0, 215, 100, 220, 0, 225, 110, 230, 0, 235, 120, 240, 0, 245, 100, 250, 0, 255, 110, 260, 0, 265, 120, 270, 0, 275, 100, 280, 0, 285, 110, 290, 0, 295, 120, 300, 0, 305, 100, 310, 0, 315, 110, 320, 0, 325, 120, 330, 0, 335, 100, 340, 0, 345, 110, 350, 0, 355, 120, 360, 0, 365, 100, 370, 0, 375, 110, 380, 0, 385, 120, 390, 0, 395, 100, 400, 0, 405, 110, 410, 0, 415, 120, 420, 0, 425, 100, 430, 0, 435, 110, 440, 0, 445, 120, 450, -50, -10, -50];
    let holes: Vec<usize> = vec![];
    let triangles: Vec<usize> = earcut(&data, &holes, 2);
    assert_eq!(triangles.len(), 3 * 90);
    assert!(triangles.iter().all(|&v| v < 92));
    let d: Deviation = deviation(&data, &holes, &triangles, 2);
    assert_eq!(d.polygon, 94750);
    assert_eq!(d.triangles, 94750);
}

#[test]
fn indexed_hole_outside_the_outer_box() {
    let data: Vec<i32> = vec![0, 0, 5, 100, 10, 0, 15, 110, 20, 0, 25, 120, 30, 0, 35, 100, 40, 0, 45, 110, 50, 0, 55, 120, 60, 0, 65, 100, 70, 0, 75, 110, 80, 0, 85, 120, 90, 0, 95, 100, 100, 0, 105, 110, 110, 0, 115, 120, 120, 0, 125, 100, 130, 0, 135, 110, 140, 0, 145, 120, 150, 0, 155, 100, 160, 0, 165, 110, 170, 0, 175, 120, 180, 0, 185, 100, 190, 0, 195, 110, 200, 0, 205, 120, 210, 0, 215, 100, 220, 0, 225, 110, 230, 0, 235, 120, 240, 0, 245, 100, 250, 0, 255, 110, 260, 0, 265, 120, 270, 0, 275, 100, 280, 0, 285, 110, 290, 0, 295, 120, 300, 0, 305, 100, 310, 0, 315, 110, 320, 0, 325, 120, 330, 0, 335, 100, 340, 0, 345, 110, 350, 0, 355, 120, 360, 0, 365, 100, 370, 0, 375, 110, 380, 0, 385, 120, 390, 0, 395, 100, 400, 0, 405, 110, 410, 0, 415, 120, 420, 0, 425, 100, 430, 0, 435, 110, 440, 0, 445, 120, 450, -50, -10, -50, -500, -500, -490, -500, -490, -490];
    let holes: Vec<usize> = vec![92];
    let triangles: Vec<usize> = earcut(&data, &holes, 2);
    let expected: Vec<usize> = vec![0, 91, 90, 90, 89, 88, 88, 87, 86, 86, 85, 84, 84, 83, 82, 82, 81, 80, 80, 79, 78, 78, 77, 76, 76, 75, 74, 74, 73, 72, 72, 71, 70, 70, 69, 68, 68, 67, 66, 66, 65, 64, 64, 63, 62, 62, 61, 60, 60, 59, 58, 58, 57, 56, 56, 55, 54, 54, 53, 52, 52, 51, 50, 50, 49, 48, 48, 47, 46, 46, 45, 44, 44, 43, 42, 42, 41, 40, 40, 39, 38, 38, 37, 36, 36, 35, 34, 34, 33, 32, 32, 31, 30, 30, 29, 28, 28, 27, 26, 26, 25, 24, 24, 23, 22, 22, 21, 20, 20, 19, 18, 18, 17, 16, 16, 15, 14, 14, 13, 12, 12, 11, 10, 10, 9, 8, 8, 7, 6, 6, 5, 4, 4, 3, 2, 2, 1, 0, 90, 88, 86, 2, 0, 90, 90, 86, 84, 4, 2, 90, 90, 84, 82, 6, 4, 90, 90, 82, 80, 8, 6, 90, 90, 80, 78, 10, 8, 90, 90, 78, 76, 12, 10, 90, 90, 76, 74, 14, 12, 90, 90, 74, 72, 16, 14, 90, 90, 72, 70, 18, 16, 90, 90, 70, 68, 20, 18, 90, 90, 68, 66, 22, 20, 90, 90, 66, 64, 24, 22, 90, 90, 64, 62, 26, 24, 90, 90, 62, 60, 28, 26, 90, 90, 60, 58, 30, 28, 90, 90, 58, 56, 32, 30, 90, 90, 56, 54, 34, 32, 90, 90, 54, 52, 36, 34, 90, 90, 52, 50, 38, 36, 90, 90, 50, 48, 40, 38, 90, 90, 48, 46, 42, 40, 90, 90, 46, 44, 44, 42, 90];
    assert_eq!(triangles, expected);
}

#[test]
fn convex_polygon_of_100_vertices_has_98_triangles() {
    let mut data: Vec<i32> = Vec::new();
    for k in 0..100 {
        data.push(k);
        data.push(k * k);
    }
    let triangles: Vec<usize> = earcut(&data, &[], 2);
    assert_eq!(triangles.len(), 3 * 98);
    let d: Deviation = deviation(&data, &[], &triangles, 2);
    assert_eq!(d.polygon, 323400);
    assert_eq!(d.triangles, 323400);
    data.reverse();
    for pair in data.chunks_mut(2) {
        pair.swap(0, 1);
    }
    let triangles: Vec<usize> = earcut(&data, &[], 2);
    assert_eq!(triangles.len(), 3 * 98);
}

#[test]
fn convex_polygons_have_two_triangles_less_than_vertices() {
    let rings: Vec<Vec<i32>> = vec![
        vec![0, 0, 4, 0, 0, 3],
        vec![0, 0, 0, 3, 4, 0],
        vec![0, 0, 10, 0, 10, 10, 0, 10],
        vec![0, 10, 10, 10, 10, 0, 0, 0],
        vec![2, 0, 6, 0, 8, 3, 6, 6, 2, 6, 0, 3],
        vec![0, 3, 2, 6, 6, 6, 8, 3, 6, 0, 2, 0],
    ];
    for data in rings.iter() {
        let triangles: Vec<usize> = earcut(data, &[], 2);
        assert_eq!(triangles.len(), 3 * (data.len() / 2 - 2));
        let d: Deviation = deviation(data, &[], &triangles, 2);
        assert!(d.polygon > 0);
        assert_eq!(d.polygon as u128, d.triangles);
    }
}

#[test]
fn without_holes_no_triangle_repeats_a_vertex() {
    let rings: Vec<Vec<i32>> = vec![
        vec![0, 0, 10, 0, 10, 10, 0, 10],
        vec![0, 1, 0, 9, 2, 8, 1, 5, 9, 0, 1, 3, 9, 6, 2, 10],
        vec![6, 1, 4, 3, 10, 6, 5, 3, 7, 0, 11, 5, 11, 6, 5, 10, 6, 3],
        vec![1, 2, 2, 2, 1, 2, 1, 1, 1, 1, 2, 4, 1, 5, 1, 3, 2, 4, 2, 4],
    ];
    for data in rings.iter() {
        let triangles: Vec<usize> = earcut(data, &[], 2);
        assert_eq!(triangles.len() % 3, 0);
        assert!(triangles.len() <= 3 * (data.len() / 2 - 2));
        for t in triangles.chunks(3) {
            assert!(t[0] != t[1] && t[1] != t[2] && t[0] != t[2]);
        }
    }
}

#[test]
fn emitted_numbers_are_vertices_of_the_input() {
    let data: Vec<i32> = vec![3, 3, 0, 1, 1, 1, 4, 0, 1, 0, 4, 2, 2, 4, 3, 4];
    let triangles: Vec<usize> = earcut(&data, &[7], 2);
    assert_eq!(triangles.len() % 3, 0);
    assert!(triangles.iter().all(|&v| v < 8));
}

#[test]
fn a_store_gives_the_same_triangles_when_used_again() {
    let first: Vec<i32> = vec![0, 0, 100, 0, 100, 100, 0, 100, 20, 20, 80, 20, 80, 80, 20, 80];
    let second: Vec<i32> = vec![10, 0, 0, 50, 60, 60, 70, 10];
    let fresh: Vec<usize> = earcut(&second, &[], 2);
    let mut nodes: Vec<Node> = Vec::new();
    let mut queue: Vec<(usize, i32)> = Vec::new();
    let mut out: Vec<usize> = Vec::new();
    {
        let mut store = Store::new(&first, &mut nodes, &mut queue);
        earcut_impl(&mut store, &[4], &mut out, 2);
    }
    assert_eq!(out, earcut(&first, &[4], 2));
    let mut again: Vec<usize> = Vec::new();
    {
        let mut store = Store::new(&second, &mut nodes, &mut queue);
        earcut_impl(&mut store, &[], &mut again, 2);
    }
    assert_eq!(again, fresh);
    assert_eq!(again, vec![1, 0, 3, 3, 2, 1]);
}

#[test]
fn triangles_are_pushed_behind_what_the_list_holds() {
    let data: Vec<i32> = vec![10, 0, 0, 50, 60, 60, 70, 10];
    let mut nodes: Vec<Node> = Vec::new();
    let mut queue: Vec<(usize, i32)> = Vec::new();
    let mut out: Vec<usize> = vec![7, 8, 9];
    let mut store = Store::new(&data, &mut nodes, &mut queue);
    earcut_impl(&mut store, &[], &mut out, 2);
    assert_eq!(out, vec![7, 8, 9, 1, 0, 3, 3, 2, 1]);
}

#[test]
fn a_new_store_starts_with_the_dummy_node() {
    let data: Vec<i32> = vec![1, 2, 3, 4];
    let mut nodes: Vec<Node> = Vec::new();
    let mut queue: Vec<(usize, i32)> = vec![(5, 6)];
    {
        let store = Store::new(&data, &mut nodes, &mut queue);
        assert_eq!(store.data, &[1, 2, 3, 4]);
    }
    assert_eq!(nodes.len(), 1);
    assert_eq!(nodes[0].i, 0);
    assert_eq!(nodes[0].prev_i, 1);
    assert_eq!(nodes[0].next_i, 1);
    assert_eq!(queue, vec![(5, 6)]);
}

#[test]
fn deviation_of_a_partial_triangulation() {
    let data: Vec<i32> = vec![0, 0, 10, 0, 10, 10, 0, 10];
    let d: Deviation = deviation(&data, &[], &[0, 1, 2], 2);
    assert_eq!(d.polygon, 200);
    assert_eq!(d.triangles, 100);
    let none: Deviation = deviation(&data, &[], &[], 2);
    assert_eq!(none.polygon, 200);
    assert_eq!(none.triangles, 0);
}

#[test]
fn deviation_of_a_polygon_without_area() {
    let data: Vec<i32> = vec![0, 0, 5, 5, 10, 10];
    let d: Deviation = deviation(&data, &[], &[], 2);
    assert_eq!(d.polygon, 0);
    assert_eq!(d.triangles, 0);
}

#[test]
fn deviation_subtracts_the_holes() {
    let data: Vec<i32> = vec![0, 0, 100, 0, 100, 100, 0, 100, 20, 20, 80, 20, 80, 80, 20, 80];
    let d: Deviation = deviation(&data, &[4], &[0, 1, 2, 0, 2, 3], 2);
    assert_eq!(d.polygon, 12800);
    assert_eq!(d.triangles, 20000);
}
