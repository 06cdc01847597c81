use polytope::{depth_source, plan_rotations, whole_vertices, DepthSource, PlaneRotation};

fn rot(slot: usize, first: usize, second: usize) -> PlaneRotation {
    PlaneRotation { slot, first, second }
}

#[test]
fn quarter_turn_in_the_plane_is_planned() {
    let plan = plan_rotations(&vec![0, 1], &vec![true], 2);
    assert_eq!(plan, vec![rot(0, 0, 1)]);
    assert_eq!(depth_source(2), DepthSource::Coordinate(1));
}

#[test]
fn zero_angle_is_skipped() {
    assert!(plan_rotations(&vec![0, 1], &vec![false], 2).is_empty());
    assert!(plan_rotations(&vec![0, 1, 1, 2], &vec![false, false], 3).is_empty());
}

#[test]
fn out_of_range_axis_is_skipped() {
    assert!(plan_rotations(&vec![5, 0], &vec![true], 3).is_empty());
    assert!(plan_rotations(&vec![0, 3], &vec![true], 3).is_empty());
    let plan = plan_rotations(&vec![0, 5, 1, 2], &vec![true, true], 3);
    assert_eq!(plan, vec![rot(1, 1, 2)]);
}

#[test]
fn missing_angle_and_lone_axis_are_skipped() {
    assert_eq!(plan_rotations(&vec![0, 1, 1, 2], &vec![true], 3), vec![rot(0, 0, 1)]);
    assert_eq!(plan_rotations(&vec![0, 1, 2], &vec![true, true], 3), vec![rot(0, 0, 1)]);
    assert!(plan_rotations(&vec![], &vec![true], 3).is_empty());
}

#[test]
fn rotation_order_is_kept() {
    let forward = plan_rotations(&vec![0, 1, 1, 2], &vec![true, true], 3);
    assert_eq!(forward, vec![rot(0, 0, 1), rot(1, 1, 2)]);
    let backward = plan_rotations(&vec![1, 2, 0, 1], &vec![true, true], 3);
    assert_eq!(backward, vec![rot(0, 1, 2), rot(1, 0, 1)]);
    assert_ne!(forward, backward);
}

#[test]
fn depth_of_four_dimensions_averages_upper_axes() {
    assert_eq!(depth_source(4), DepthSource::Mean { start: 2, end: 4 });
    let vertex = [1.0f32, 2.0, 3.0, 4.0];
    match depth_source(4) {
        DepthSource::Mean { start, end } => {
            let tail = &vertex[start..end];
            let mean = tail.iter().sum::<f32>() / tail.len() as f32;
            assert!((mean - 3.5).abs() < 1e-6);
        }
        DepthSource::Coordinate(_) => panic!("expected a mean"),
    }
}

#[test]
fn low_dimension_depth_is_last_coordinate() {
    assert_eq!(depth_source(1), DepthSource::Coordinate(0));
    assert_eq!(depth_source(2), DepthSource::Coordinate(1));
    assert_eq!(depth_source(3), DepthSource::Mean { start: 2, end: 3 });
}

#[test]
fn partial_vertex_is_dropped() {
    assert_eq!(whole_vertices(7, 2), 3);
    assert_eq!(whole_vertices(12, 4), 3);
    assert_eq!(whole_vertices(0, 3), 0);
    assert_eq!(whole_vertices(2, 3), 0);
}
