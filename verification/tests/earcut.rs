use earclip::earcut;

#[test]
fn indices_2d() {
    let verts: Vec<i32> = Vec::from([10, 0, 0, 50, 60, 60, 70, 10]);
    let indices: Vec<usize> = earcut(&verts, &[], 2);
    assert_eq!(indices, vec![1, 0, 3, 3, 2, 1]);
}

#[test]
fn indices_3d() {
    let verts: Vec<i32> = Vec::from([10, 0, 0, 0, 50, 0, 60, 60, 0, 70, 10, 0]);
    let indices: Vec<usize> = earcut(&verts, &[], 3);
    assert_eq!(indices, vec![1, 0, 3, 3, 2, 1]);
}

#[test]
fn earcut_empty() {
    let verts: Vec<i32> = Vec::new();
    let indices: Vec<usize> = earcut(&verts, &[], 2);
    let expected: Vec<usize> = Vec::new();
    assert_eq!(indices, expected);
}

#[test]
fn infinite_loop() {
    let verts: Vec<i32> =
        Vec::from([1, 2, 2, 2, 1, 2, 1, 1, 1, 2, 4, 1, 5, 1, 3, 2, 4, 2, 4, 1]);
    let indices: Vec<usize> = earcut(&verts, &[5], 2);
    assert_eq!(indices, vec![8, 5, 6]);
}
