use earclip::arena::{insert_node, remove_node, split_polygon, Node};
use earclip::earcut::{earcut_linked, frame, is_ear, Frame, Pass};
use earclip::geometry::{
    area, div_to_zero, equals, intersects, mod2, mul_small, mul_wide, on_segment,
    point_in_triangle, sign,
};
use earclip::holes::{eliminate_hole, eliminate_holes, find_hole_bridge, sort_holes};
use earclip::ring::{
    filter_points, get_leftmost, intersects_polygon, is_valid_diagonal, linked_list,
    locally_inside, middle_inside,
};
use earclip::signed_area;
use earclip::zorder::{index_curve, is_ear_hashed, z_order};

fn at(x: i32, y: i32) -> Node {
    Node::new(0, x, y)
}

fn links(nodes: &Vec<Node>) -> Vec<(usize, usize, usize)> {
    nodes.iter().map(|n| (n.i, n.prev_i, n.next_i)).collect()
}

fn arena() -> Vec<Node> {
    vec![Node::new(0, i32::MAX, i32::MAX)]
}

#[test]
fn area_is_twice_the_signed_area() {
    assert_eq!(area(&at(0, 0), &at(4, 0), &at(0, 3)), -12);
    assert_eq!(area(&at(0, 0), &at(0, 3), &at(4, 0)), 12);
    assert_eq!(area(&at(0, 0), &at(2, 2), &at(5, 5)), 0);
}

#[test]
fn area_of_the_widest_triangle() {
    let a = at(i32::MIN, i32::MIN);
    let b = at(i32::MAX, i32::MIN);
    let c = at(i32::MIN, i32::MAX);
    assert_eq!(area(&a, &b, &c), -18446744065119617025);
}

#[test]
fn sign_of_a_number() {
    assert_eq!(sign(17), 1);
    assert_eq!(sign(0), 0);
    assert_eq!(sign(-170141183460469231731687303715884105728), -1);
}

#[test]
fn products_are_exact() {
    assert_eq!(mul_small(-4294967296, 4294967296), -18446744073709551616);
    assert_eq!(mul_wide(36893488147419103232, -3), -110680464442257309696);
}

#[test]
fn division_rounds_towards_zero() {
    assert_eq!(div_to_zero(7, 2), 3);
    assert_eq!(div_to_zero(-7, 2), -3);
    assert_eq!(div_to_zero(-1, 5), 0);
}

#[test]
fn remainder_is_never_negative() {
    assert_eq!(mod2(7, 3), 1);
    assert_eq!(mod2(-7, 3), 2);
    assert_eq!(mod2(-9, 3), 0);
    assert_eq!(mod2(0, 5), 0);
}

#[test]
fn nodes_on_one_point_are_equal() {
    assert!(equals(&Node::new(0, 3, 4), &Node::new(8, 3, 4)));
    assert!(!equals(&at(3, 4), &at(4, 3)));
}

#[test]
fn point_on_a_segment() {
    assert!(on_segment(&at(0, 0), &at(2, 2), &at(4, 4)));
    assert!(on_segment(&at(4, 4), &at(4, 4), &at(0, 0)));
    assert!(!on_segment(&at(0, 0), &at(5, 5), &at(4, 4)));
}

#[test]
fn point_in_a_triangle() {
    assert!(point_in_triangle(0, 0, 10, 0, 0, 10, 2, 2));
    assert!(point_in_triangle(0, 0, 10, 0, 0, 10, 0, 10));
    assert!(point_in_triangle(0, 0, 10, 0, 0, 10, 5, 5));
    assert!(!point_in_triangle(0, 0, 10, 0, 0, 10, 6, 5));
    assert!(!point_in_triangle(0, 0, 10, 0, 0, 10, -1, 2));
    assert!(!point_in_triangle(0, 0, 0, 10, 10, 0, 2, 2));
}

#[test]
fn segments_that_meet() {
    assert!(intersects(&at(0, 0), &at(10, 10), &at(0, 10), &at(10, 0)));
    assert!(intersects(&at(0, 0), &at(10, 0), &at(5, 0), &at(5, 5)));
    assert!(intersects(&at(0, 0), &at(10, 0), &at(10, 0), &at(20, 5)));
    assert!(!intersects(&at(0, 0), &at(10, 0), &at(0, 1), &at(10, 1)));
    assert!(!intersects(&at(0, 0), &at(4, 4), &at(5, 5), &at(9, 9)));
}

#[test]
fn signed_area_of_a_ring() {
    assert_eq!(signed_area(&[0, 0, 10, 0, 10, 10, 0, 10], 0, 8, 2), 200);
    assert_eq!(signed_area(&[0, 0, 0, 10, 10, 10, 10, 0], 0, 8, 2), -200);
    assert_eq!(
        signed_area(&[0, 0, 9, 10, 0, 9, 10, 10, 9, 0, 10, 9, 1, 1, 9, 2, 1, 9, 2, 2, 9], 12, 21, 3),
        1
    );
    assert_eq!(signed_area(&[0, 0, 10, 0, 10, 10, 0, 10], 4, 4, 2), 0);
}

#[test]
fn z_order_interleaves_the_scaled_coordinates() {
    assert_eq!(z_order(0, 0, 0, 0, 32767), 0);
    assert_eq!(z_order(32767, 0, 0, 0, 32767), 357913941);
    assert_eq!(z_order(0, 32767, 0, 0, 32767), 715827882);
    assert_eq!(z_order(32767, 32767, 0, 0, 32767), 1073741823);
    assert_eq!(z_order(3, 5, 0, 0, 32767), 39);
    assert_eq!(z_order(100, 200, -50, -60, 1000), 151463215);
    assert_eq!(z_order(5, 5, 0, 0, 10), 268435455);
}

#[test]
fn z_order_of_a_point_below_the_box() {
    assert_eq!(z_order(-60, -70, -50, -60, 1000), -8233);
}

#[test]
fn insert_node_links_behind_the_last() {
    let mut nodes = arena();
    let a = insert_node(&mut nodes, 0, 5, 6, None);
    assert_eq!(a, 1);
    assert_eq!(links(&nodes), vec![(0, 1, 1), (0, 1, 1)]);
    let b = insert_node(&mut nodes, 2, 7, 8, Some(a));
    let c = insert_node(&mut nodes, 4, 9, 10, Some(b));
    assert_eq!((b, c), (2, 3));
    assert_eq!(links(&nodes), vec![(0, 1, 1), (0, 3, 2), (2, 1, 3), (4, 2, 1)]);
    assert_eq!((nodes[3].x, nodes[3].y, nodes[3].z, nodes[3].steiner), (9, 10, 0, false));
    assert_eq!((nodes[3].prev_z_i, nodes[3].next_z_i), (None, None));
}

#[test]
fn remove_node_links_the_neighbours() {
    let mut nodes = arena();
    let a = insert_node(&mut nodes, 0, 0, 0, None);
    let b = insert_node(&mut nodes, 2, 1, 0, Some(a));
    insert_node(&mut nodes, 4, 1, 1, Some(b));
    let l = nodes[2].link_info();
    assert_eq!(remove_node(&mut nodes, l), (1, 3));
    assert_eq!(links(&nodes), vec![(0, 1, 1), (0, 3, 3), (2, 1, 3), (4, 1, 1)]);
}

#[test]
fn remove_node_mends_the_z_order_list() {
    let mut nodes = arena();
    let a = insert_node(&mut nodes, 0, 0, 0, None);
    let b = insert_node(&mut nodes, 2, 10, 0, Some(a));
    let c = insert_node(&mut nodes, 4, 10, 10, Some(b));
    insert_node(&mut nodes, 6, 0, 10, Some(c));
    index_curve(&mut nodes, 1, 0, 0, 10);
    let l = nodes[2].link_info();
    remove_node(&mut nodes, l);
    assert_eq!((nodes[1].prev_z_i, nodes[1].next_z_i), (None, Some(4)));
    assert_eq!((nodes[4].prev_z_i, nodes[4].next_z_i), (Some(1), Some(3)));
    assert_eq!((nodes[3].prev_z_i, nodes[3].next_z_i), (Some(4), None));
}

#[test]
fn split_polygon_cuts_a_ring_in_two() {
    let mut nodes = arena();
    let last = linked_list(&mut nodes, &[0, 0, 10, 0, 10, 10, 0, 10], 0, 8, 2, true);
    assert_eq!(last, Some(4));
    assert_eq!(split_polygon(&mut nodes, 1, 3), 6);
    assert_eq!(
        links(&nodes),
        vec![(0, 1, 1), (0, 4, 3), (2, 5, 6), (4, 1, 4), (6, 3, 1), (0, 6, 2), (4, 2, 5)]
    );
    assert_eq!((nodes[5].x, nodes[5].y), (0, 0));
    assert_eq!((nodes[6].x, nodes[6].y), (10, 10));
}

#[test]
fn linked_list_keeps_the_order_of_a_ring_with_the_winding_asked_for() {
    let mut nodes = arena();
    let last = linked_list(&mut nodes, &[0, 0, 10, 0, 10, 10, 0, 10], 0, 8, 2, true);
    assert_eq!(last, Some(4));
    assert_eq!(links(&nodes), vec![(0, 1, 1), (0, 4, 2), (2, 1, 3), (4, 2, 4), (6, 3, 1)]);
}

#[test]
fn linked_list_turns_a_ring_with_the_other_winding() {
    let mut nodes = arena();
    let last = linked_list(&mut nodes, &[0, 0, 10, 0, 10, 10, 0, 10], 0, 8, 2, false);
    assert_eq!(last, Some(4));
    assert_eq!(links(&nodes), vec![(0, 1, 1), (6, 4, 2), (4, 1, 3), (2, 2, 4), (0, 3, 1)]);
}

#[test]
fn linked_list_drops_a_last_vertex_that_repeats_the_first() {
    let mut nodes = arena();
    let last = linked_list(&mut nodes, &[0, 0, 10, 0, 10, 10, 0, 10, 0, 0], 0, 10, 2, true);
    assert_eq!(last, Some(1));
    assert_eq!(
        links(&nodes),
        vec![(0, 1, 1), (0, 4, 2), (2, 1, 3), (4, 2, 4), (6, 3, 1), (8, 4, 1)]
    );
}

#[test]
fn linked_list_of_no_vertices() {
    let mut nodes = arena();
    assert_eq!(linked_list(&mut nodes, &[0, 0, 10, 0], 2, 2, 2, true), None);
    assert_eq!(nodes.len(), 1);
}

#[test]
fn filter_points_drops_a_point_on_a_line() {
    let mut nodes = arena();
    let last = linked_list(&mut nodes, &[0, 0, 5, 0, 10, 0, 10, 10, 0, 10], 0, 10, 2, true);
    assert_eq!(last, Some(5));
    assert_eq!(filter_points(&mut nodes, 5, None), 1);
    assert_eq!(
        links(&nodes),
        vec![(0, 1, 1), (0, 5, 3), (2, 1, 3), (4, 1, 4), (6, 3, 5), (8, 4, 1)]
    );
}

#[test]
fn filter_points_keeps_a_single_point_hole() {
    let mut nodes = arena();
    let a = insert_node(&mut nodes, 0, 3, 3, None);
    nodes[a].steiner = true;
    assert_eq!(filter_points(&mut nodes, a, None), a);
    assert_eq!(links(&nodes), vec![(0, 1, 1), (0, 1, 1)]);
}

#[test]
fn leftmost_node_is_the_lowest_of_the_leftmost() {
    let mut nodes = arena();
    let last = linked_list(&mut nodes, &[5, 5, 0, 9, 0, 2, 7, 0], 0, 8, 2, true).unwrap();
    let left = get_leftmost(&nodes, last);
    assert_eq!((nodes[left].x, nodes[left].y), (0, 2));
}

#[test]
fn diagonals_of_a_square() {
    let mut nodes = arena();
    linked_list(&mut nodes, &[0, 0, 10, 0, 10, 10, 0, 10], 0, 8, 2, true);
    assert!(locally_inside(&nodes, 1, 3));
    assert!(locally_inside(&nodes, 3, 1));
    assert!(middle_inside(&nodes, 1, 3));
    assert!(!intersects_polygon(&nodes, 1, 3));
    assert!(is_valid_diagonal(&nodes, 1, 3));
    assert!(!is_valid_diagonal(&nodes, 1, 2));
}

#[test]
fn diagonal_outside_a_notch() {
    let mut nodes = arena();
    linked_list(&mut nodes, &[0, 0, 10, 0, 10, 10, 5, 2, 0, 10], 0, 10, 2, true);
    assert!(!is_valid_diagonal(&nodes, 3, 5));
    assert!(!middle_inside(&nodes, 3, 5));
    assert!(is_valid_diagonal(&nodes, 1, 4));
}

#[test]
fn bridge_to_a_hole() {
    let data = [0, 0, 100, 0, 100, 100, 0, 100, 20, 20, 80, 20, 80, 80, 20, 80];
    let mut nodes = arena();
    let outer = linked_list(&mut nodes, &data, 0, 8, 2, true).unwrap();
    let hole = linked_list(&mut nodes, &data, 8, 16, 2, false).unwrap();
    assert_eq!((outer, hole), (4, 8));
    let left = get_leftmost(&nodes, hole);
    assert_eq!(left, 8);
    assert_eq!(find_hole_bridge(&nodes, left, outer), Some(1));
    assert_eq!(eliminate_hole(&mut nodes, left, outer), 8);
    assert_eq!(
        links(&nodes),
        vec![
            (0, 1, 1),
            (0, 4, 8),
            (2, 9, 3),
            (4, 2, 4),
            (6, 3, 1),
            (14, 8, 6),
            (12, 5, 7),
            (10, 6, 10),
            (8, 1, 5),
            (0, 10, 2),
            (8, 7, 9)
        ]
    );
}

#[test]
fn no_bridge_to_a_hole_left_of_the_ring() {
    let data = [0, 0, 10, 0, 10, 10, 0, 10, -5, 5];
    let mut nodes = arena();
    let outer = linked_list(&mut nodes, &data, 0, 8, 2, true).unwrap();
    let hole = linked_list(&mut nodes, &data, 8, 10, 2, false).unwrap();
    assert_eq!(find_hole_bridge(&nodes, hole, outer), None);
    assert_eq!(eliminate_hole(&mut nodes, hole, outer), outer);
    assert_eq!(nodes.len(), 6);
}

#[test]
fn hole_on_a_ring_vertex_is_bridged_to_that_vertex() {
    let mut nodes = arena();
    let a = insert_node(&mut nodes, 0, 1, 5, None);
    let b = insert_node(&mut nodes, 2, 3, 0, Some(a));
    let c = insert_node(&mut nodes, 4, 6, 5, Some(b));
    let hole = insert_node(&mut nodes, 6, 3, 0, None);
    assert_eq!(find_hole_bridge(&nodes, hole, a), Some(b));
    assert_eq!(find_hole_bridge(&nodes, hole, b), Some(b));
    assert_eq!(find_hole_bridge(&nodes, hole, c), Some(b));
}

#[test]
fn hole_on_a_ring_edge_is_bridged_to_the_left_end() {
    let mut nodes = arena();
    let a = insert_node(&mut nodes, 0, 0, 4, None);
    let b = insert_node(&mut nodes, 2, 4, 0, Some(a));
    insert_node(&mut nodes, 4, 8, 4, Some(b));
    let hole = insert_node(&mut nodes, 6, 2, 2, None);
    assert_eq!(find_hole_bridge(&nodes, hole, a), Some(a));
}

#[test]
fn holes_are_listed_in_the_order_in_which_they_are_joined() {
    let data = [
        0, 0, 100, 0, 100, 100, 0, 100, 60, 60, 80, 60, 80, 80, 60, 80, 20, 40, 40, 40, 40, 50, 20,
        50, 20, 10, 40, 10, 40, 20, 20, 20,
    ];
    let mut nodes = arena();
    let outer = linked_list(&mut nodes, &data, 0, 8, 2, true).unwrap();
    let mut queue: Vec<(usize, i32)> = vec![(1, 1), (2, 2)];
    eliminate_holes(&mut nodes, &mut queue, &data, &[4, 8, 12], outer, 2);
    assert_eq!(queue.len(), 3);
    let places: Vec<(i32, i32)> = queue.iter().map(|&(node, x)| (x, nodes[node].y)).collect();
    assert_eq!(places, vec![(20, 10), (20, 40), (60, 60)]);
    for &(node, x) in queue.iter() {
        assert_eq!(nodes[node].x, x);
    }
}

#[test]
fn holes_are_sorted_by_x_then_y_then_as_listed() {
    let mut nodes = arena();
    let a = insert_node(&mut nodes, 0, 7, 1, None);
    let b = insert_node(&mut nodes, 2, 3, 9, None);
    let c = insert_node(&mut nodes, 4, 3, 2, None);
    let d = insert_node(&mut nodes, 6, 3, 2, None);
    let e = insert_node(&mut nodes, 8, -4, 0, None);
    let mut queue = vec![(a, 7), (b, 3), (c, 3), (d, 3), (e, -4)];
    sort_holes(&mut queue, &nodes);
    assert_eq!(queue, vec![(e, -4), (c, 3), (d, 3), (b, 3), (a, 7)]);
    let mut none: Vec<(usize, i32)> = vec![];
    sort_holes(&mut none, &nodes);
    assert_eq!(none, vec![]);
}

#[test]
fn index_curve_links_the_nodes_by_key() {
    let mut nodes = arena();
    let last = linked_list(&mut nodes, &[0, 0, 10, 0, 10, 10, 0, 10, 5, 5], 0, 10, 2, true);
    assert_eq!(last, Some(5));
    index_curve(&mut nodes, 5, 0, 0, 10);
    let keys: Vec<i32> = nodes.iter().map(|n| n.z).collect();
    assert_eq!(keys, vec![0, 0, 357913941, 1073741823, 715827882, 268435455]);
    let z_links: Vec<(Option<usize>, Option<usize>)> =
        nodes.iter().map(|n| (n.prev_z_i, n.next_z_i)).collect();
    assert_eq!(
        z_links,
        vec![
            (None, None),
            (None, Some(5)),
            (Some(5), Some(4)),
            (Some(4), None),
            (Some(2), Some(3)),
            (Some(1), Some(2))
        ]
    );
}

#[test]
fn ears_of_a_notched_square() {
    let mut nodes = arena();
    linked_list(&mut nodes, &[0, 0, 10, 0, 10, 10, 0, 10, 5, 5], 0, 10, 2, true);
    let by_walk: Vec<bool> = (1..6).map(|k| is_ear(&nodes, k)).collect();
    assert_eq!(by_walk, vec![true, false, false, true, false]);
    index_curve(&mut nodes, 5, 0, 0, 10);
    let by_index: Vec<bool> = (1..6).map(|k| is_ear_hashed(&nodes, k, 0, 0, 10)).collect();
    assert_eq!(by_index, by_walk);
}

#[test]
fn frame_of_a_small_buffer_is_not_indexed() {
    let f: Frame = frame(&[0, 0, 10, 0, 10, 10], 6, 2);
    assert_eq!((f.dim, f.min_x, f.min_y, f.size), (2, 0, 0, 0));
}

#[test]
fn frame_of_a_large_buffer_spans_the_outer_ring() {
    let mut data: Vec<i32> = Vec::new();
    for k in 0..100 {
        data.push(k - 30);
        data.push(2 * k + 5);
    }
    let f: Frame = frame(&data, 160, 2);
    assert_eq!((f.dim, f.min_x, f.min_y, f.size), (2, -30, 5, 158));
    let flat: Vec<i32> = vec![4; 200];
    assert_eq!(frame(&flat, 200, 2).size, 0);
}

#[test]
fn earcut_linked_slices_a_ring() {
    let mut nodes = arena();
    let last = linked_list(&mut nodes, &[10, 0, 0, 50, 60, 60, 70, 10], 0, 8, 2, true).unwrap();
    let mut triangles: Vec<usize> = Vec::new();
    let f = Frame { dim: 2, min_x: 0, min_y: 0, size: 0 };
    earcut_linked(&mut nodes, last, &mut triangles, f, Pass::Fresh, 5);
    assert_eq!(triangles, vec![1, 0, 3, 3, 2, 1]);
}
