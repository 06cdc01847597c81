use vstd::prelude::*;
use crate::kind::{kind_named, parse_shape_kind, ShapeError, ShapeKind};
use crate::polytope::{
    cube_edge_list, cube_edges, cube_sign, flattens, lemma_cube_edge_count, lemma_cube_edges_in_range,
    lemma_pairs_in_range,
    lemma_orthoplex_edge_count, lemma_simplex_edge_count, orthoplex_coord, orthoplex_edge_list,
    orthoplex_edges, power_of_two, simplex_edge_list, simplex_edges, two_pow,
};

verus! {

/// The combinatorial part of a built polytope: its dimension, its number of
/// vertices and its flattened edge list.
pub struct ShapeData {
    edges: Vec<u32>,
    dimension: u32,
    vertex_count: u32,
}

/// What a `ShapeData` holds, as mathematical values.
pub struct ShapeView {
    pub dimension: nat,
    pub vertex_count: nat,
    pub edges: Seq<u32>,
}

impl View for ShapeData {
    type V = ShapeView;

    closed spec fn view(&self) -> ShapeView {
        ShapeView {
            dimension: self.dimension as nat,
            vertex_count: self.vertex_count as nat,
            edges: self.edges@,
        }
    }
}

/// Dimensions below 2 are raised to 2.
pub open spec fn clamped(dimension: nat) -> nat {
    if dimension < 2 {
        2
    } else {
        dimension
    }
}

/// Number of vertices of the polytope of `kind` in dimension `d`.
pub open spec fn vertex_total(kind: ShapeKind, d: nat) -> nat {
    match kind {
        ShapeKind::Cube => two_pow(d),
        ShapeKind::Simplex => d + 1,
        ShapeKind::Orthoplex => 2 * d,
    }
}

/// Edges of the polytope of `kind` in dimension `d`, in the order they are listed.
pub open spec fn edge_list(kind: ShapeKind, d: nat) -> Seq<(nat, nat)> {
    match kind {
        ShapeKind::Cube => cube_edge_list(d),
        ShapeKind::Simplex => simplex_edge_list(d + 1),
        ShapeKind::Orthoplex => orthoplex_edge_list(d),
    }
}

/// Largest dimensions for which vertex indices and counts fit in 32 bits.
pub open spec fn dimension_fits(kind: ShapeKind, d: nat) -> bool {
    match kind {
        ShapeKind::Cube => d <= 31,
        ShapeKind::Simplex => d < 0xFFFF_FFFF,
        ShapeKind::Orthoplex => d <= 0x7FFF_FFFF,
    }
}

/// Builds the polytope named `kind` (`"cube"`, `"simplex"` or `"orthoplex"`)
/// in `dimension` dimensions, raised to at least 2. An unknown name is refused
/// with `UnsupportedShapeKind` carrying it.
pub fn build_shape(kind: &str, dimension: u32) -> (r: Result<ShapeData, ShapeError>)
    requires
        match kind_named(kind@) {
            Some(k) => dimension_fits(k, clamped(dimension as nat)),
            None => true,
        },
    ensures
        match r {
            Ok(shape) => match kind_named(kind@) {
                Some(k) => {
                    &&& shape@.dimension == clamped(dimension as nat)
                    &&& shape@.vertex_count == vertex_total(k, shape@.dimension)
                    &&& flattens(shape@.edges, edge_list(k, shape@.dimension))
                },
                None => false,
            },
            Err(ShapeError::UnsupportedShapeKind(name)) => kind_named(kind@).is_none() && name@
                == kind@,
            Err(ShapeError::DegenerateBasis) => false,
        },
{
    let dim: u32 = if dimension < 2 {
        2
    } else {
        dimension
    };
    let shape = parse_shape_kind(kind)?;
    let (edges, vertex_count) = match shape {
        ShapeKind::Cube => {
            let count = power_of_two(dim as usize);
            (cube_edges(dim as usize), count as u32)
        },
        ShapeKind::Simplex => (simplex_edges(dim as usize + 1), dim + 1),
        ShapeKind::Orthoplex => (orthoplex_edges(dim as usize), 2 * dim),
    };
    Ok(ShapeData { edges, dimension: dim, vertex_count })
}

impl ShapeData {
    /// The dimension the shape was built in.
    pub fn dimension(&self) -> (r: u32)
        ensures
            r as nat == self@.dimension,
    {
        self.dimension
    }

    /// The number of vertices.
    pub fn vertex_count(&self) -> (r: u32)
        ensures
            r as nat == self@.vertex_count,
    {
        self.vertex_count
    }

    /// A copy of the flattened edge list: pair `k` is entries `2k` and `2k + 1`.
    pub fn edges(&self) -> (r: Vec<u32>)
        ensures
            r@ == self@.edges,
    {
        let r = self.edges.clone();
        assert(r@ =~= self.edges@);
        r
    }
}

/// For every dimension `d >= 2` the hypercube has `2^d` vertices and
/// `d * 2^(d - 1)` edges, and each of its coordinates is `+1` or `-1`.
pub proof fn lemma_cube_shape(d: nat)
    requires
        d >= 2,
    ensures
        vertex_total(ShapeKind::Cube, d) == two_pow(d),
        edge_list(ShapeKind::Cube, d).len() == d * two_pow((d - 1) as nat),
        forall|i: nat, b: nat| #[trigger] cube_sign(i, b) == 1 || cube_sign(i, b) == -1,
{
    lemma_cube_edge_count(d);
}

/// For every dimension `d >= 2` the orthoplex has `2d` vertices and
/// `2d(d - 1)` edges, and each vertex has exactly one nonzero coordinate,
/// which is `+1` or `-1`.
pub proof fn lemma_orthoplex_shape(d: nat)
    requires
        d >= 2,
    ensures
        vertex_total(ShapeKind::Orthoplex, d) == 2 * d,
        edge_list(ShapeKind::Orthoplex, d).len() == 2 * d * (d - 1),
        forall|v: nat|
            v < 2 * d ==> v / 2 < d && (#[trigger] orthoplex_coord(v, v / 2) == 1
                || orthoplex_coord(v, v / 2) == -1),
        forall|v: nat, k: nat|
            v < 2 * d && k < d && k != v / 2 ==> #[trigger] orthoplex_coord(v, k) == 0,
{
    lemma_orthoplex_edge_count(d);
}

/// For every dimension `d >= 2` the simplex has `d + 1` vertices and
/// `(d + 1) d / 2` edges.
pub proof fn lemma_simplex_shape(d: nat)
    requires
        d >= 2,
    ensures
        vertex_total(ShapeKind::Simplex, d) == d + 1,
        2 * edge_list(ShapeKind::Simplex, d).len() == (d + 1) * d,
{
    lemma_simplex_edge_count(d + 1);
}

/// Every edge of every shape joins two distinct vertices of it: each pair
/// `(a, b)` has `a < b < vertex count`.
pub proof fn lemma_edges_in_range(kind: ShapeKind, d: nat)
    ensures
        forall|m: int|
            0 <= m < edge_list(kind, d).len() ==> (#[trigger] edge_list(kind, d)[m]).0 < edge_list(
                kind,
                d,
            )[m].1 < vertex_total(kind, d),
{
    match kind {
        ShapeKind::Cube => lemma_cube_edges_in_range(d),
        ShapeKind::Simplex => lemma_pairs_in_range(false, d + 1, d + 1),
        ShapeKind::Orthoplex => lemma_pairs_in_range(true, 2 * d, 2 * d),
    }
}

} // verus!
