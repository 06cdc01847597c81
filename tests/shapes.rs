use polytope::{
    build_shape, cube_coordinates, cube_edges, orthoplex_coordinates, orthoplex_edges,
    parse_shape_kind, power_of_two, simplex_edges, ShapeError, ShapeKind,
};

fn edge_pairs(flat: &[u32]) -> Vec<(u32, u32)> {
    flat.chunks(2).map(|c| (c[0], c[1])).collect()
}

#[test]
fn cube_square_has_four_vertices_and_edges() {
    let shape = build_shape("cube", 2).unwrap();
    assert_eq!(shape.dimension(), 2);
    assert_eq!(shape.vertex_count(), 4);
    assert_eq!(shape.edges(), vec![0, 1, 0, 2, 1, 3, 2, 3]);
}

#[test]
fn cube_counts_for_several_dimensions() {
    for d in 2u32..=8 {
        let shape = build_shape("cube", d).unwrap();
        assert_eq!(shape.vertex_count(), 1u32 << d);
        assert_eq!(shape.edges().len() / 2, (d as usize) << (d - 1));
    }
}

#[test]
fn cube_edges_join_vertices_differing_in_one_bit() {
    let edges = cube_edges(4);
    for (a, b) in edge_pairs(&edges) {
        assert!(a < b && b < 16);
        assert_eq!((a ^ b).count_ones(), 1);
    }
}

#[test]
fn cube_coordinates_follow_the_bits() {
    let rows = cube_coordinates(2);
    assert_eq!(rows, vec![vec![-1, -1], vec![1, -1], vec![-1, 1], vec![1, 1]]);
    let rows = cube_coordinates(5);
    assert_eq!(rows.len(), 32);
    assert!(rows.iter().all(|r| r.len() == 5 && r.iter().all(|&c| c == 1 || c == -1)));
    assert_eq!(rows[0b10110], vec![-1, 1, 1, -1, 1]);
}

#[test]
fn orthoplex_square_edges_skip_antipodes() {
    let shape = build_shape("orthoplex", 2).unwrap();
    assert_eq!(shape.vertex_count(), 4);
    assert_eq!(shape.edges(), vec![0, 2, 0, 3, 1, 2, 1, 3]);
}

#[test]
fn orthoplex_counts_for_several_dimensions() {
    for d in 2u32..=9 {
        let shape = build_shape("orthoplex", d).unwrap();
        assert_eq!(shape.vertex_count(), 2 * d);
        assert_eq!(shape.edges().len() / 2, (2 * d * (d - 1)) as usize);
    }
    assert_eq!(orthoplex_edges(3).len(), 24);
}

#[test]
fn orthoplex_vertices_are_signed_unit_vectors() {
    let rows = orthoplex_coordinates(2);
    assert_eq!(rows, vec![vec![1, 0], vec![-1, 0], vec![0, 1], vec![0, -1]]);
    for (v, row) in orthoplex_coordinates(4).iter().enumerate() {
        let nonzero: Vec<usize> = (0..4).filter(|&k| row[k] != 0).collect();
        assert_eq!(nonzero, vec![v / 2]);
        assert_eq!(row[v / 2], if v % 2 == 0 { 1 } else { -1 });
    }
}

#[test]
fn simplex_triangle_is_complete() {
    let shape = build_shape("simplex", 2).unwrap();
    assert_eq!(shape.vertex_count(), 3);
    assert_eq!(shape.edges(), vec![0, 1, 0, 2, 1, 2]);
}

#[test]
fn simplex_counts_for_several_dimensions() {
    for d in 2u32..=10 {
        let shape = build_shape("simplex", d).unwrap();
        assert_eq!(shape.vertex_count(), d + 1);
        assert_eq!(shape.edges().len() / 2, ((d + 1) * d / 2) as usize);
    }
    assert_eq!(edge_pairs(&simplex_edges(4)), vec![(0, 1), (0, 2), (0, 3), (1, 2), (1, 3), (2, 3)]);
}

#[test]
fn small_dimensions_are_raised_to_two() {
    for d in 0u32..2 {
        let shape = build_shape("cube", d).unwrap();
        assert_eq!(shape.dimension(), 2);
        assert_eq!(shape.vertex_count(), 4);
    }
    assert_eq!(build_shape("simplex", 1).unwrap().vertex_count(), 3);
}

#[test]
fn tesseract_is_unsupported() {
    match build_shape("tesseract", 4) {
        Err(ShapeError::UnsupportedShapeKind(name)) => assert_eq!(name, "tesseract"),
        _ => panic!("expected UnsupportedShapeKind"),
    }
}

#[test]
fn shape_names_are_exact() {
    assert_eq!(parse_shape_kind("cube").unwrap(), ShapeKind::Cube);
    assert_eq!(parse_shape_kind("simplex").unwrap(), ShapeKind::Simplex);
    assert_eq!(parse_shape_kind("orthoplex").unwrap(), ShapeKind::Orthoplex);
    for bad in ["", "Cube", "cubes", "cub", "simplex ", "orthoplex2"] {
        assert!(matches!(parse_shape_kind(bad), Err(ShapeError::UnsupportedShapeKind(ref n)) if n == bad));
    }
}

#[test]
fn powers_of_two() {
    assert_eq!(power_of_two(0), 1);
    assert_eq!(power_of_two(10), 1024);
    assert_eq!(power_of_two(31), 0x8000_0000);
}
