use earclip::earclip;

#[test]
fn earclip_empty() {
    let polygon: Vec<Vec<Vec<i32>>> = vec![];
    let (vertices, indices) = earclip::<usize>(&polygon, None);
    assert_eq!(vertices, vec![]);
    assert_eq!(indices, vec![]);
}

#[test]
fn simple() {
    let polygon = vec![vec![vec![0, 0, 0], vec![1, 0, 0], vec![0, 1, 0]]];
    let (vertices, indices) = earclip::<usize>(&polygon, None);
    assert_eq!(vertices, vec![0, 0, 0, 1, 0, 0, 0, 1, 0]);
    assert_eq!(indices, vec![1, 2, 0]);
}

#[test]
fn flat_points() {
    let geometry = vec![
        vec![
            vec![3506, -2048],
            vec![7464, 402],
            vec![-2048, 2685],
            vec![-2048, -2048],
            vec![3506, -2048],
        ],
        vec![
            vec![-2048, -37],
            vec![1235, 747],
            vec![338, -1464],
            vec![-116, -1188],
            vec![-2048, -381],
            vec![-2048, -37],
        ],
        vec![vec![-1491, -1981], vec![-1300, -1800], vec![-1155, -1981], vec![-1491, -1981]],
    ];
    let (vertices, indices) = earclip::<usize>(&geometry, None);
    assert_eq!(
        vertices,
        vec![
            3506, -2048, 7464, 402, -2048, 2685, -2048, -2048, 3506, -2048, -2048, -37, 1235, 747,
            338, -1464, -116, -1188, -2048, -381, -2048, -37, -1491, -1981, -1300, -1800, -1155,
            -1981, -1491, -1981,
        ]
    );
    assert_eq!(
        indices,
        vec![
            3, 11, 12, 13, 11, 3, 2, 5, 6, 7, 8, 9, 9, 3, 12, 13, 3, 0, 1, 2, 6, 7, 9, 12, 12, 13,
            0, 0, 1, 6, 7, 12, 0, 0, 6, 7,
        ]
    );
}
