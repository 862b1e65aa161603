use earclip::{
    convert_2d, convert_3d, deviation, earclip, flatten, tesselate, with_offset, Index, Point2D,
    Point3D, Site,
};

fn sites_of(heights: &[i32]) -> Vec<Site> {
    heights.iter().enumerate().map(|(v, &height)| Site { height, from: v, to: v }).collect()
}

fn listed(sites: &[Site]) -> Vec<(i32, usize, usize)> {
    sites.iter().map(|s| (s.height, s.from, s.to)).collect()
}

#[test]
fn triangle_is_cut_along_the_grid() {
    let mut sites: Vec<Site> = sites_of(&[0, 25, 0]);
    let mut indices: Vec<usize> = vec![0, 1, 2];
    tesselate(&mut sites, &mut indices, 10);
    let expected: Vec<(i32, usize, usize)> = vec![(0, 0, 0), (25, 1, 1), (0, 2, 2), (20, 1, 2), (20, 1, 0), (10, 1, 0), (10, 1, 2)];
    assert_eq!(listed(&sites), expected);
    assert_eq!(indices, vec![0, 6, 2, 1, 3, 4, 4, 3, 5, 5, 3, 6, 5, 6, 0]);
}

#[test]
fn triangle_inside_a_cell_is_kept() {
    let mut sites: Vec<Site> = sites_of(&[1, 9, 1]);
    let mut indices: Vec<usize> = vec![0, 1, 2];
    tesselate(&mut sites, &mut indices, 10);
    let expected: Vec<(i32, usize, usize)> = vec![(1, 0, 0), (9, 1, 1), (1, 2, 2)];
    assert_eq!(listed(&sites), expected);
    assert_eq!(indices, vec![0, 1, 2]);
}

#[test]
fn triangle_on_grid_lines_is_kept() {
    let mut sites: Vec<Site> = sites_of(&[0, 10, 0]);
    let mut indices: Vec<usize> = vec![0, 1, 2];
    tesselate(&mut sites, &mut indices, 10);
    let expected: Vec<(i32, usize, usize)> = vec![(0, 0, 0), (10, 1, 1), (0, 2, 2)];
    assert_eq!(listed(&sites), expected);
    assert_eq!(indices, vec![0, 1, 2]);
}

#[test]
fn triangle_with_negative_heights_is_cut() {
    let mut sites: Vec<Site> = sites_of(&[-15, 12, -2]);
    let mut indices: Vec<usize> = vec![0, 1, 2];
    tesselate(&mut sites, &mut indices, 8);
    let expected: Vec<(i32, usize, usize)> = vec![(-15, 0, 0), (12, 1, 1), (-2, 2, 2), (-8, 0, 1), (-8, 0, 2), (8, 1, 2), (8, 1, 3), (0, 1, 3), (0, 1, 2)];
    assert_eq!(listed(&sites), expected);
    assert_eq!(indices, vec![7, 2, 3, 0, 3, 4, 4, 3, 2, 1, 5, 6, 6, 5, 7, 7, 5, 8, 7, 8, 2]);
}

#[test]
fn corner_above_is_cut_downwards() {
    let mut sites: Vec<Site> = sites_of(&[0, 0, -27]);
    let mut indices: Vec<usize> = vec![0, 1, 2];
    tesselate(&mut sites, &mut indices, 10);
    let expected: Vec<(i32, usize, usize)> = vec![(0, 0, 0), (0, 1, 1), (-27, 2, 2), (-20, 2, 0), (-20, 2, 1), (-10, 2, 1), (-10, 2, 0)];
    assert_eq!(listed(&sites), expected);
    assert_eq!(indices, vec![1, 6, 0, 2, 3, 4, 4, 3, 5, 5, 3, 6, 5, 6, 1]);
}

#[test]
fn corner_between_the_others_is_cut_twice() {
    let mut sites: Vec<Site> = sites_of(&[0, 30, 15]);
    let mut indices: Vec<usize> = vec![0, 1, 2];
    tesselate(&mut sites, &mut indices, 10);
    let expected: Vec<(i32, usize, usize)> = vec![(0, 0, 0), (30, 1, 1), (15, 2, 2), (10, 0, 1), (10, 0, 2), (20, 1, 2), (20, 1, 3)];
    assert_eq!(listed(&sites), expected);
    assert_eq!(indices, vec![6, 2, 3, 0, 3, 4, 4, 3, 2, 1, 5, 6, 6, 5, 2]);
}

#[test]
fn no_triangles_nothing_to_cut() {
    let mut sites: Vec<Site> = sites_of(&[0, 25, 0]);
    let mut indices: Vec<usize> = vec![];
    tesselate(&mut sites, &mut indices, 10);
    let expected: Vec<(i32, usize, usize)> = vec![(0, 0, 0), (25, 1, 1), (0, 2, 2)];
    assert_eq!(listed(&sites), expected);
    assert_eq!(indices, Vec::<usize>::new());
}

#[test]
fn huge_spacing_cuts_once() {
    let mut sites: Vec<Site> = sites_of(&[-5, 5, 0]);
    let mut indices: Vec<usize> = vec![0, 1, 2];
    tesselate(&mut sites, &mut indices, 1000);
    let expected: Vec<(i32, usize, usize)> = vec![(-5, 0, 0), (5, 1, 1), (0, 2, 2), (0, 0, 1), (0, 0, 2)];
    assert_eq!(listed(&sites), expected);
    assert_eq!(indices, vec![2, 3, 1, 0, 3, 4, 4, 3, 2]);
}

#[test]
fn two_triangles_are_cut_in_turn() {
    let mut sites: Vec<Site> = sites_of(&[-37, 64, 15, 90]);
    let mut indices: Vec<usize> = vec![0, 1, 2, 1, 3, 2];
    tesselate(&mut sites, &mut indices, 16);
    let expected: Vec<(i32, usize, usize)> = vec![(-37, 0, 0), (64, 1, 1), (15, 2, 2), (90, 3, 3), (-32, 0, 1), (-32, 0, 2), (-16, 0, 2), (-16, 0, 1), (0, 0, 2), (0, 0, 1), (48, 1, 2), (48, 1, 9), (32, 1, 9), (32, 1, 2), (16, 1, 9), (16, 1, 2), (80, 3, 2), (80, 3, 1), (64, 16, 2), (64, 16, 1), (16, 2, 1), (16, 2, 18), (32, 2, 18), (32, 2, 1), (48, 2, 18), (48, 2, 1)];
    assert_eq!(listed(&sites), expected);
    assert_eq!(indices, vec![14, 2, 9, 18, 25, 1, 0, 4, 5, 5, 4, 6, 6, 4, 7, 6, 7, 8, 8, 7, 9, 8, 9, 2, 1, 10, 11, 11, 10, 12, 12, 10, 13, 12, 13, 14, 14, 13, 15, 14, 15, 2, 3, 16, 17, 17, 16, 1, 16, 18, 19, 19, 18, 1, 2, 20, 21, 21, 20, 22, 22, 20, 23, 22, 23, 24, 24, 23, 25, 24, 25, 18]);
}

#[test]
fn line_through_two_corners_is_no_cut() {
    let mut sites: Vec<Site> = sites_of(&[0, 10, 10]);
    let mut indices: Vec<usize> = vec![0, 1, 2];
    tesselate(&mut sites, &mut indices, 10);
    let expected: Vec<(i32, usize, usize)> = vec![(0, 0, 0), (10, 1, 1), (10, 2, 2)];
    assert_eq!(listed(&sites), expected);
    assert_eq!(indices, vec![0, 1, 2]);
}

#[test]
fn cut_triangles_stay_inside_one_cell() {
    let mut sites: Vec<Site> = sites_of(&[-37, 64, 15, 90]);
    let mut indices: Vec<usize> = vec![0, 1, 2, 1, 3, 2];
    tesselate(&mut sites, &mut indices, 16);
    assert!(indices.len() >= 6 && indices.len() % 3 == 0);
    for t in indices.chunks(3) {
        let (a, b, c) = (sites[t[0]].height, sites[t[1]].height, sites[t[2]].height);
        assert!(a.max(b).max(c) - a.min(b).min(c) <= 16);
        let cell = a.min(b).min(c).div_euclid(16);
        assert!(a.max(b).max(c) <= 16 * (cell + 1));
    }
}

#[test]
fn new_vertices_lie_on_grid_lines_inside_their_edges() {
    let mut sites: Vec<Site> = sites_of(&[-37, 64, 15, 90]);
    let mut indices: Vec<usize> = vec![0, 1, 2, 1, 3, 2];
    tesselate(&mut sites, &mut indices, 16);
    assert_eq!(listed(&sites[..4]), vec![(-37, 0, 0), (64, 1, 1), (15, 2, 2), (90, 3, 3)]);
    for (v, site) in sites.iter().enumerate().skip(4) {
        assert!(site.from < v && site.to < v);
        assert_eq!(site.height.rem_euclid(16), 0);
        let (from, to) = (sites[site.from].height, sites[site.to].height);
        assert!((from < site.height && site.height <= to) || (to <= site.height && site.height < from));
    }
}

/// Cuts a mesh of points of the plane along the grid lines of one axis. The
/// coordinates along the axis are whole multiples of `1 / units`.
fn cut_plane(points: &mut Vec<[f64; 2]>, indices: &mut Vec<usize>, axis: usize, units: i32, modulo: i32) {
    let mut sites: Vec<Site> = points
        .iter()
        .enumerate()
        .map(|(v, p)| Site { height: (p[axis] * units as f64) as i32, from: v, to: v })
        .collect();
    tesselate(&mut sites, indices, modulo * units);
    for site in sites.iter().skip(points.len()) {
        let (from, to) = (points[site.from], points[site.to]);
        let line = site.height as f64 / units as f64;
        let part = (line - from[axis]) / (to[axis] - from[axis]);
        let mut point = [from[0] + (to[0] - from[0]) * part, from[1] + (to[1] - from[1]) * part];
        point[axis] = line;
        points.push(point);
    }
}

fn doubled_area(points: &[[f64; 2]], indices: &[usize]) -> f64 {
    indices
        .chunks(3)
        .map(|t| {
            let (a, b, c) = (points[t[0]], points[t[1]], points[t[2]]);
            ((b[0] - a[0]) * (c[1] - a[1]) - (c[0] - a[0]) * (b[1] - a[1])).abs()
        })
        .sum()
}

#[test]
fn cut_points_on_the_edges_keep_the_area() {
    let mut points: Vec<[f64; 2]> = vec![[0., 0.], [4., 1.], [4., 0.]];
    let mut indices: Vec<usize> = vec![0, 1, 2];
    assert_eq!(doubled_area(&points, &indices), 4.);
    cut_plane(&mut points, &mut indices, 0, 1, 2);
    cut_plane(&mut points, &mut indices, 1, 2, 2);
    assert_eq!(points.len(), 5);
    assert_eq!(indices.len(), 9);
    assert!((doubled_area(&points, &indices) - 4.).abs() < 1e-9);
    for t in indices.chunks(3) {
        for axis in 0..2 {
            let (a, b, c) = (points[t[0]][axis], points[t[1]][axis], points[t[2]][axis]);
            assert!(a.max(b).max(c) - a.min(b).min(c) <= 2. + 1e-9);
        }
    }
}

#[test]
fn cut_points_between_grid_points_keep_the_area() {
    let mut points: Vec<[f64; 2]> = vec![[2., 0.], [0., 1.], [0., -1.]];
    let mut indices: Vec<usize> = vec![0, 1, 2];
    assert_eq!(doubled_area(&points, &indices), 4.);
    cut_plane(&mut points, &mut indices, 0, 1, 1);
    cut_plane(&mut points, &mut indices, 1, 2, 1);
    assert_eq!(points.len(), 11);
    assert_eq!(indices.len(), 27);
    assert!((doubled_area(&points, &indices) - 4.).abs() < 1e-9);
    for t in indices.chunks(3) {
        for axis in 0..2 {
            let (a, b, c) = (points[t[0]][axis], points[t[1]][axis], points[t[2]][axis]);
            assert!(a.max(b).max(c) - a.min(b).min(c) <= 1. + 1e-9);
        }
    }
}

#[test]
fn cut_along_both_axes_keeps_the_area() {
    let mut points: Vec<[f64; 2]> = vec![[0., 0.], [4., 0.], [0., 4.]];
    let mut indices: Vec<usize> = vec![0, 1, 2];
    assert_eq!(doubled_area(&points, &indices), 16.);
    cut_plane(&mut points, &mut indices, 0, 1, 2);
    cut_plane(&mut points, &mut indices, 1, 1, 2);
    assert_eq!(points.len(), 7);
    assert_eq!(indices.len(), 15);
    assert!((doubled_area(&points, &indices) - 16.).abs() < 1e-9);
    for t in indices.chunks(3) {
        for axis in 0..2 {
            let (a, b, c) = (points[t[0]][axis], points[t[1]][axis], points[t[2]][axis]);
            assert!(a.max(b).max(c) - a.min(b).min(c) <= 2. + 1e-9);
        }
    }
}

#[test]
fn cut_of_a_wide_triangle_keeps_the_area() {
    let mut points: Vec<[f64; 2]> = vec![[0., 0.], [8., 4.], [0., 8.]];
    let mut indices: Vec<usize> = vec![0, 1, 2];
    assert_eq!(doubled_area(&points, &indices), 64.);
    cut_plane(&mut points, &mut indices, 0, 1, 4);
    cut_plane(&mut points, &mut indices, 1, 1, 4);
    assert_eq!(points.len(), 11);
    assert_eq!(indices.len(), 27);
    assert!((doubled_area(&points, &indices) - 64.).abs() < 1e-9);
    for t in indices.chunks(3) {
        for axis in 0..2 {
            let (a, b, c) = (points[t[0]][axis], points[t[1]][axis], points[t[2]][axis]);
            assert!(a.max(b).max(c) - a.min(b).min(c) <= 4. + 1e-9);
        }
    }
}

#[test]
fn cut_with_quarters_keeps_the_area() {
    let mut points: Vec<[f64; 2]> = vec![[0., 0.], [8., 2.], [4., 8.]];
    let mut indices: Vec<usize> = vec![0, 1, 2];
    assert_eq!(doubled_area(&points, &indices), 56.);
    cut_plane(&mut points, &mut indices, 0, 1, 4);
    cut_plane(&mut points, &mut indices, 1, 4, 4);
    assert_eq!(points.len(), 11);
    assert_eq!(indices.len(), 27);
    assert!((doubled_area(&points, &indices) - 56.).abs() < 1e-9);
    for t in indices.chunks(3) {
        for axis in 0..2 {
            let (a, b, c) = (points[t[0]][axis], points[t[1]][axis], points[t[2]][axis]);
            assert!(a.max(b).max(c) - a.min(b).min(c) <= 4. + 1e-9);
        }
    }
}

#[test]
fn areas_add_up_after_the_cut() {
    // Heights along x and positions along y, in thirds, of the points (0, 0), (8, 4),
    // (8, -4) and (-4, 2).
    let heights = [0, 8, 8, -4];
    let mut across: Vec<i64> = vec![0, 12, -12, 6];
    let mut sites: Vec<Site> = sites_of(&heights);
    let mut indices: Vec<usize> = vec![0, 1, 2, 0, 3, 1];
    let signed = |sites: &[Site], across: &[i64], indices: &[usize]| -> i64 {
        indices
            .chunks(3)
            .map(|t| {
                let h = |v: usize| sites[v].height as i64;
                (h(t[1]) - h(t[0])) * (across[t[2]] - across[t[0]])
                    - (h(t[2]) - h(t[0])) * (across[t[1]] - across[t[0]])
            })
            .sum()
    };
    let whole = |sites: &[Site], across: &[i64], indices: &[usize]| -> i64 {
        indices.chunks(3).map(|t| signed(sites, across, t).abs()).sum()
    };
    let before = signed(&sites, &across, &indices);
    assert_eq!(before, -288);
    assert_eq!(whole(&sites, &across, &indices), 288);
    tesselate(&mut sites, &mut indices, 4);
    for site in sites.iter().skip(4) {
        let (from, to) = (sites[site.from].height as i64, sites[site.to].height as i64);
        let part = (across[site.to] - across[site.from]) * (site.height as i64 - from);
        assert_eq!(part % (to - from), 0);
        across.push(across[site.from] + part / (to - from));
    }
    assert!(indices.len() > 6);
    assert_eq!(signed(&sites, &across, &indices), before);
    assert_eq!(whole(&sites, &across, &indices), 288);
}

#[test]
fn earclip_then_cut_along_x() {
    let polygon: Vec<Vec<Vec<i32>>> = vec![vec![vec![0, 0], vec![20, 0], vec![20, 20], vec![0, 20]]];
    let (vertices, mut indices) = earclip::<usize>(&polygon, None);
    assert_eq!(vertices, vec![0, 0, 20, 0, 20, 20, 0, 20]);
    assert_eq!(indices, vec![2, 3, 0, 0, 1, 2]);
    let heights: Vec<i32> = vertices.chunks(2).map(|p| p[0]).collect();
    let mut sites: Vec<Site> = sites_of(&heights);
    tesselate(&mut sites, &mut indices, 8);
    let expected: Vec<(i32, usize, usize)> = vec![(0, 0, 0), (20, 1, 1), (20, 2, 2), (0, 3, 3), (16, 2, 3), (16, 2, 0), (8, 2, 0), (8, 2, 3), (8, 0, 1), (8, 0, 2), (16, 0, 2), (16, 0, 1)];
    assert_eq!(listed(&sites), expected);
    assert_eq!(indices, vec![0, 7, 3, 2, 11, 1, 2, 4, 5, 5, 4, 6, 6, 4, 7, 6, 7, 0, 0, 8, 9, 9, 8, 10, 10, 8, 11, 10, 11, 2]);
    let shifted: Vec<u32> = with_offset(&indices, Some(7));
    let expected: Vec<u32> = vec![7, 14, 10, 9, 18, 8, 9, 11, 12, 12, 11, 13, 13, 11, 14, 13, 14, 7, 7, 15, 16, 16, 15, 17, 17, 15, 18, 17, 18, 9];
    assert_eq!(shifted, expected);
}

#[test]
fn earclip_with_offset() {
    let polygon: Vec<Vec<Vec<i32>>> = vec![vec![vec![0, 0], vec![20, 0], vec![20, 20], vec![0, 20]]];
    let (vertices, indices) = earclip::<usize>(&polygon, Some(100));
    assert_eq!(vertices, vec![0, 0, 20, 0, 20, 20, 0, 20]);
    let expected: Vec<usize> = vec![102, 103, 100, 100, 101, 102];
    assert_eq!(indices, expected);
}

#[test]
fn earclip_numbers_as_u16() {
    let polygon: Vec<Vec<Vec<i32>>> = vec![vec![vec![0, 0], vec![20, 0], vec![20, 20], vec![0, 20]]];
    let (vertices, indices) = earclip::<u16>(&polygon, Some(65535));
    assert_eq!(vertices, vec![0, 0, 20, 0, 20, 20, 0, 20]);
    let expected: Vec<u16> = vec![1, 2, 65535, 65535, 0, 1];
    assert_eq!(indices, expected);
}

#[test]
fn earclip_with_hole() {
    let polygon: Vec<Vec<Vec<i32>>> = vec![vec![vec![0, 0], vec![100, 0], vec![100, 100], vec![0, 100]], vec![vec![20, 20], vec![80, 20], vec![80, 80], vec![20, 80]]];
    let (vertices, indices) = earclip::<usize>(&polygon, None);
    assert_eq!(vertices, vec![0, 0, 100, 0, 100, 100, 0, 100, 20, 20, 80, 20, 80, 80, 20, 80]);
    let expected: Vec<usize> = vec![0, 4, 7, 5, 4, 0, 3, 0, 7, 5, 0, 1, 2, 3, 7, 6, 5, 1, 2, 7, 6, 6, 1, 2];
    assert_eq!(indices, expected);
}

#[test]
fn earclip_offset_wraps_round() {
    let polygon: Vec<Vec<Vec<i32>>> = vec![vec![vec![0, 0], vec![20, 0], vec![20, 20], vec![0, 20]]];
    let (vertices, indices) = earclip::<usize>(&polygon, Some(18446744073709551615));
    assert_eq!(vertices, vec![0, 0, 20, 0, 20, 20, 0, 20]);
    let expected: Vec<usize> = vec![1, 2, 18446744073709551615, 18446744073709551615, 0, 1];
    assert_eq!(indices, expected);
}

#[test]
fn flatten_plane_polygon_with_holes() {
    let polygon: Vec<Vec<Vec<i32>>> = vec![
        vec![vec![0, 0], vec![10, 0], vec![10, 10]],
        vec![vec![1, 1], vec![2, 1], vec![2, 2], vec![1, 2]],
        vec![],
        vec![vec![5, 5]],
    ];
    let (vertices, holes, dim) = flatten(&polygon);
    assert_eq!(vertices, vec![0, 0, 10, 0, 10, 10, 1, 1, 2, 1, 2, 2, 1, 2, 5, 5]);
    assert_eq!(holes, vec![3, 7, 7]);
    assert_eq!(dim, 2);
}

#[test]
fn flatten_space_polygon() {
    let polygon: Vec<Vec<Vec<i32>>> =
        vec![vec![vec![0, 0, 1], vec![10, 0, 2, 99], vec![10, 10, 3]]];
    let (vertices, holes, dim) = flatten(&polygon);
    assert_eq!(vertices, vec![0, 0, 1, 10, 0, 2, 10, 10, 3]);
    assert_eq!(holes, Vec::<usize>::new());
    assert_eq!(dim, 3);
}

#[test]
fn flatten_nothing() {
    let polygon: Vec<Vec<Vec<i32>>> = vec![];
    let (vertices, holes, dim) = flatten(&polygon);
    assert_eq!(vertices, Vec::<i32>::new());
    assert_eq!(holes, Vec::<usize>::new());
    assert_eq!(dim, 2);
}

#[test]
fn index_casts() {
    assert_eq!(<u16 as Index>::from_usize(513), 513u16);
    assert_eq!(<u16 as Index>::from_usize(65536 + 5), 5u16);
    assert_eq!(<u32 as Index>::from_usize(70000), 70000u32);
    assert_eq!(<usize as Index>::from_usize(70000), 70000usize);
    assert_eq!(Index::into_usize(513u16), 513usize);
    assert_eq!(Index::into_usize(70000u32), 70000usize);
    assert_eq!(Index::into_usize(9usize), 9usize);
}

struct Plane {
    east: i32,
    north: i32,
}

impl Point2D for Plane {
    fn x_of(&self) -> i32 {
        self.east
    }

    fn y_of(&self) -> i32 {
        self.north
    }

    fn x(&self) -> i32 {
        self.east
    }

    fn y(&self) -> i32 {
        self.north
    }
}

struct Space {
    east: i32,
    north: i32,
    up: i32,
}

impl Point3D for Space {
    fn x_of(&self) -> i32 {
        self.east
    }

    fn y_of(&self) -> i32 {
        self.north
    }

    fn z_of(&self) -> i32 {
        self.up
    }

    fn x(&self) -> i32 {
        self.east
    }

    fn y(&self) -> i32 {
        self.north
    }

    fn z(&self) -> i32 {
        self.up
    }
}

#[test]
fn convert_points_of_the_plane() {
    let data: Vec<Vec<Plane>> = vec![
        vec![Plane { east: 1, north: 2 }, Plane { east: 3, north: 4 }],
        vec![],
        vec![Plane { east: -5, north: 6 }],
    ];
    let rings: Vec<Vec<Vec<i32>>> = convert_2d(&data);
    assert_eq!(rings, vec![vec![vec![1, 2], vec![3, 4]], vec![], vec![vec![-5, 6]]]);
}

#[test]
fn convert_pairs_and_triples() {
    let plane: Vec<Vec<(i32, i32)>> = vec![vec![(1, 2), (3, 4)], vec![(5, 6)]];
    assert_eq!(convert_2d(&plane), vec![vec![vec![1, 2], vec![3, 4]], vec![vec![5, 6]]]);
    let space: Vec<Vec<(i32, i32, i32)>> = vec![vec![(1, 2, 3)], vec![(4, 5, 6)]];
    assert_eq!(convert_3d(&space), vec![vec![vec![1, 2, 3]], vec![vec![4, 5, 6]]]);
}

#[test]
fn convert_points_of_space() {
    let data: Vec<Vec<Space>> =
        vec![vec![Space { east: 1, north: 2, up: 3 }, Space { east: 4, north: 5, up: 6 }]];
    let rings: Vec<Vec<Vec<i32>>> = convert_3d(&data);
    assert_eq!(rings, vec![vec![vec![1, 2, 3], vec![4, 5, 6]]]);
}

#[test]
fn converted_polygon_is_triangulated() {
    let data: Vec<Vec<Plane>> = vec![vec![
        Plane { east: 10, north: 0 },
        Plane { east: 0, north: 50 },
        Plane { east: 60, north: 60 },
        Plane { east: 70, north: 10 },
    ]];
    let (vertices, indices) = earclip::<usize>(&convert_2d(&data), None);
    assert_eq!(vertices, vec![10, 0, 0, 50, 60, 60, 70, 10]);
    assert_eq!(indices, vec![1, 0, 3, 3, 2, 1]);
    let d = deviation(&vertices, &[], &indices, 2);
    assert_eq!(d.polygon as u128, d.triangles);
}
