use vstd::prelude::*;
use vstd::arithmetic::div_mod::{
    lemma_basic_div, lemma_div_plus_one, lemma_fundamental_div_mod, lemma_hoist_over_denominator,
    lemma_mod_pos_bound,
};
use vstd::arithmetic::mul::lemma_mul_is_associative;

verus! {

/// `2^n`.
pub open spec fn two_pow(n: nat) -> nat
    decreases n,
{
    if n == 0 {
        1
    } else {
        2 * two_pow((n - 1) as nat)
    }
}

/// Whether bit `b` of `i` is set.
pub open spec fn bit_set(i: nat, b: nat) -> bool {
    (i / two_pow(b)) % 2 == 1
}

/// Coordinate of hypercube vertex `i` on axis `b`: `+1` where bit `b` of `i` is set, else `-1`.
pub open spec fn cube_sign(i: nat, b: nat) -> int {
    if bit_set(i, b) {
        1
    } else {
        -1
    }
}

/// Coordinate of orthoplex vertex `v` on axis `k`: vertex `2a` is `+e_a`, vertex `2a+1` is `-e_a`.
pub open spec fn orthoplex_coord(v: nat, k: nat) -> int {
    if v / 2 == k {
        if v % 2 == 0 {
            1
        } else {
            -1
        }
    } else {
        0
    }
}

/// The hypercube edges that leave vertex `i` towards a higher index along an
/// axis below `b`, in order of the axis: `(i, i + 2^a)` for each axis `a` whose bit is clear in `i`.
pub open spec fn cube_edges_from(i: nat, b: nat) -> Seq<(nat, nat)>
    decreases b,
{
    if b == 0 {
        seq![]
    } else {
        let a = (b - 1) as nat;
        let rest = cube_edges_from(i, a);
        if bit_set(i, a) {
            rest
        } else {
            rest.push((i, i + two_pow(a)))
        }
    }
}

/// The hypercube edges of dimension `d` that leave the vertices below `n`, vertex by vertex.
pub open spec fn cube_edges_below(d: nat, n: nat) -> Seq<(nat, nat)>
    decreases n,
{
    if n == 0 {
        seq![]
    } else {
        cube_edges_below(d, (n - 1) as nat) + cube_edges_from((n - 1) as nat, d)
    }
}

/// All edges of the `d`-dimensional hypercube, each listed once from its lower endpoint.
pub open spec fn cube_edge_list(d: nat) -> Seq<(nat, nat)> {
    cube_edges_below(d, two_pow(d))
}

/// Whether two vertices are joined: always, or, with `skip_same_axis`, unless
/// they are the two ends of one axis (`a / 2 == b / 2`).
pub open spec fn joined(skip_same_axis: bool, a: nat, b: nat) -> bool {
    !skip_same_axis || a / 2 != b / 2
}

/// The pairs `(i, k)` with `i < k < j` that are joined, in increasing `k`.
pub open spec fn pairs_from(skip_same_axis: bool, i: nat, j: nat) -> Seq<(nat, nat)>
    decreases j,
{
    if j <= i + 1 {
        seq![]
    } else {
        let k = (j - 1) as nat;
        let rest = pairs_from(skip_same_axis, i, k);
        if joined(skip_same_axis, i, k) {
            rest.push((i, k))
        } else {
            rest
        }
    }
}

/// The joined pairs `(i, k)` with `i < m` and `i < k < n`, in lexicographic order.
pub open spec fn pairs_below(skip_same_axis: bool, n: nat, m: nat) -> Seq<(nat, nat)>
    decreases m,
{
    if m == 0 {
        seq![]
    } else {
        pairs_below(skip_same_axis, n, (m - 1) as nat) + pairs_from(skip_same_axis, (m - 1) as nat, n)
    }
}

/// Every unordered pair of `n` vertices: the edges of the simplex with `n` vertices.
pub open spec fn simplex_edge_list(n: nat) -> Seq<(nat, nat)> {
    pairs_below(false, n, n)
}

/// The edges of the orthoplex of dimension `d`: every pair of its `2d` vertices
/// but the two ends of one axis.
pub open spec fn orthoplex_edge_list(d: nat) -> Seq<(nat, nat)> {
    pairs_below(true, 2 * d, 2 * d)
}

/// `flat` lists the pairs of `pairs` one after the other, two entries per pair.
pub open spec fn flattens(flat: Seq<u32>, pairs: Seq<(nat, nat)>) -> bool {
    &&& flat.len() == 2 * pairs.len()
    &&& forall|k: int|
        0 <= k < pairs.len() ==> #[trigger] pairs[k] == (flat[2 * k] as nat, flat[2 * k + 1] as nat)
}

proof fn lemma_two_pow_monotone(a: nat, b: nat)
    requires
        a <= b,
    ensures
        1 <= two_pow(a) <= two_pow(b),
    decreases b,
{
    if b > 0 {
        if a < b {
            lemma_two_pow_monotone(a, (b - 1) as nat);
        } else {
            lemma_two_pow_monotone((a - 1) as nat, (b - 1) as nat);
        }
    }
}

proof fn lemma_two_pow_31()
    ensures
        two_pow(31) == 0x8000_0000,
{
    reveal_with_fuel(two_pow, 32);
}

proof fn lemma_push_pair(flat: Seq<u32>, pairs: Seq<(nat, nat)>, a: u32, b: u32)
    requires
        flattens(flat, pairs),
    ensures
        flattens(flat.push(a).push(b), pairs.push((a as nat, b as nat))),
{
    let f = flat.push(a).push(b);
    let p = pairs.push((a as nat, b as nat));
    assert forall|k: int| 0 <= k < p.len() implies #[trigger] p[k] == (f[2 * k] as nat, f[2 * k
        + 1] as nat) by {
        if k < pairs.len() {
            assert(pairs[k] == (flat[2 * k] as nat, flat[2 * k + 1] as nat));
        }
    }
}

/// `2^e`, for exponents whose power fits in 32 bits.
pub fn power_of_two(e: usize) -> (r: usize)
    requires
        e <= 31,
    ensures
        r == two_pow(e as nat),
        r <= 0x8000_0000,
{
    proof {
        lemma_two_pow_31();
    }
    let mut r: usize = 1;
    let mut i: usize = 0;
    while i < e
        invariant
            i <= e <= 31,
            r == two_pow(i as nat),
        decreases e - i,
    {
        proof {
            lemma_two_pow_monotone((i + 1) as nat, 31);
            lemma_two_pow_31();
        }
        r = r * 2;
        i += 1;
    }
    proof {
        lemma_two_pow_monotone(e as nat, 31);
    }
    r
}

/// Vertex coordinates of the `dimension`-cube, one row per vertex: vertex `i`
/// has `+1` on axis `b` where bit `b` of `i` is set and `-1` elsewhere.
pub fn cube_coordinates(dimension: usize) -> (rows: Vec<Vec<i8>>)
    requires
        dimension <= 31,
    ensures
        rows@.len() == two_pow(dimension as nat),
        forall|i: int| 0 <= i < rows@.len() ==> (#[trigger] rows@[i])@.len() == dimension,
        forall|i: int, b: int|
            0 <= i < rows@.len() && 0 <= b < dimension ==> (#[trigger] rows@[i]@[b]) as int
                == cube_sign(i as nat, b as nat),
{
    let count = power_of_two(dimension);
    let mut rows: Vec<Vec<i8>> = Vec::new();
    let mut i: usize = 0;
    while i < count
        invariant
            dimension <= 31,
            count == two_pow(dimension as nat),
            i <= count,
            rows@.len() == i,
            forall|k: int| 0 <= k < i ==> (#[trigger] rows@[k])@.len() == dimension,
            forall|k: int, b: int|
                0 <= k < i && 0 <= b < dimension ==> (#[trigger] rows@[k]@[b]) as int == cube_sign(
                    k as nat,
                    b as nat,
                ),
        decreases count - i,
    {
        let mut row: Vec<i8> = Vec::new();
        let mut bit: usize = 0;
        let mut p: usize = 1;
        while bit < dimension
            invariant
                dimension <= 31,
                bit <= dimension,
                p == two_pow(bit as nat),
                row@.len() == bit,
                forall|b: int| 0 <= b < bit ==> (#[trigger] row@[b]) as int == cube_sign(i as nat, b as nat),
            decreases dimension - bit,
        {
            proof {
                lemma_two_pow_monotone((bit + 1) as nat, 31);
                lemma_two_pow_31();
            }
            let value: i8 = if (i / p) % 2 == 1 {
                1
            } else {
                -1
            };
            row.push(value);
            bit += 1;
            p = p * 2;
        }
        rows.push(row);
        i += 1;
    }
    rows
}

/// Edge list of the `dimension`-cube, flattened: for each vertex `i` in turn
/// and each axis `b` whose bit is clear in `i`, the pair `(i, i + 2^b)`.
pub fn cube_edges(dimension: usize) -> (edges: Vec<u32>)
    requires
        dimension <= 31,
    ensures
        flattens(edges@, cube_edge_list(dimension as nat)),
{
    let count = power_of_two(dimension);
    let mut edges: Vec<u32> = Vec::new();
    let mut i: usize = 0;
    while i < count
        invariant
            dimension <= 31,
            count == two_pow(dimension as nat),
            count <= 0x8000_0000,
            i <= count,
            flattens(edges@, cube_edges_below(dimension as nat, i as nat)),
        decreases count - i,
    {
        let ghost before = cube_edges_below(dimension as nat, i as nat);
        let mut bit: usize = 0;
        let mut p: usize = 1;
        while bit < dimension
            invariant
                dimension <= 31,
                count <= 0x8000_0000,
                i < count,
                bit <= dimension,
                p == two_pow(bit as nat),
                flattens(edges@, before + cube_edges_from(i as nat, bit as nat)),
            decreases dimension - bit,
        {
            proof {
                lemma_two_pow_monotone((bit + 1) as nat, 31);
                lemma_two_pow_31();
            }
            if (i / p) % 2 == 0 {
                let ghost old_edges = edges@;
                edges.push(i as u32);
                edges.push((i + p) as u32);
                proof {
                    lemma_push_pair(old_edges, before + cube_edges_from(i as nat, bit as nat), i as u32, (i + p) as u32);
                    assert(before + cube_edges_from(i as nat, (bit + 1) as nat) =~= (before
                        + cube_edges_from(i as nat, bit as nat)).push((i as nat, (i + p) as nat)));
                }
            } else {
                assert(cube_edges_from(i as nat, (bit + 1) as nat) == cube_edges_from(i as nat, bit as nat));
            }
            bit += 1;
            p = p * 2;
        }
        i += 1;
    }
    edges
}

/// Flattened list of the pairs `(i, j)` with `i < j < count`, in
/// lexicographic order; with `skip_same_axis`, pairs with `i / 2 == j / 2` are left out.
fn joined_pairs(count: usize, skip_same_axis: bool) -> (edges: Vec<u32>)
    requires
        count <= 0x1_0000_0000,
    ensures
        flattens(edges@, pairs_below(skip_same_axis, count as nat, count as nat)),
{
    let mut edges: Vec<u32> = Vec::new();
    let mut i: usize = 0;
    while i < count
        invariant
            count <= 0x1_0000_0000,
            i <= count,
            flattens(edges@, pairs_below(skip_same_axis, count as nat, i as nat)),
        decreases count - i,
    {
        let ghost before = pairs_below(skip_same_axis, count as nat, i as nat);
        let mut j: usize = i + 1;
        assert(before + pairs_from(skip_same_axis, i as nat, j as nat) =~= before);
        while j < count
            invariant
                count <= 0x1_0000_0000,
                i < j <= count,
                flattens(edges@, before + pairs_from(skip_same_axis, i as nat, j as nat)),
            decreases count - j,
        {
            if !skip_same_axis || i / 2 != j / 2 {
                let ghost old_edges = edges@;
                edges.push(i as u32);
                edges.push(j as u32);
                proof {
                    lemma_push_pair(
                        old_edges,
                        before + pairs_from(skip_same_axis, i as nat, j as nat),
                        i as u32,
                        j as u32,
                    );
                    assert(before + pairs_from(skip_same_axis, i as nat, (j + 1) as nat) =~= (before
                        + pairs_from(skip_same_axis, i as nat, j as nat)).push((i as nat, j as nat)));
                }
            } else {
                assert(pairs_from(skip_same_axis, i as nat, (j + 1) as nat) == pairs_from(
                    skip_same_axis,
                    i as nat,
                    j as nat,
                ));
            }
            j += 1;
        }
        i += 1;
    }
    edges
}

/// Edge list of the simplex with `count` vertices, flattened: every pair
/// `(i, j)` with `i < j < count`, in lexicographic order.
pub fn simplex_edges(count: usize) -> (edges: Vec<u32>)
    requires
        count <= 0x1_0000_0000,
    ensures
        flattens(edges@, simplex_edge_list(count as nat)),
{
    joined_pairs(count, false)
}

/// Edge list of the `dimension`-orthoplex, flattened: every pair `(i, j)` of
/// its `2 * dimension` vertices with `i < j` and `i / 2 != j / 2`, in lexicographic order.
pub fn orthoplex_edges(dimension: usize) -> (edges: Vec<u32>)
    requires
        dimension <= 0x7FFF_FFFF,
    ensures
        flattens(edges@, orthoplex_edge_list(dimension as nat)),
{
    joined_pairs(2 * dimension, true)
}

/// Vertex coordinates of the `dimension`-orthoplex, one row per vertex:
/// row `2a` is the unit vector `+e_a`, row `2a + 1` is `-e_a`.
pub fn orthoplex_coordinates(dimension: usize) -> (rows: Vec<Vec<i8>>)
    requires
        dimension <= 0x7FFF_FFFF,
    ensures
        rows@.len() == 2 * dimension,
        forall|v: int| 0 <= v < rows@.len() ==> (#[trigger] rows@[v])@.len() == dimension,
        forall|v: int, k: int|
            0 <= v < rows@.len() && 0 <= k < dimension ==> (#[trigger] rows@[v]@[k]) as int
                == orthoplex_coord(v as nat, k as nat),
{
    let mut rows: Vec<Vec<i8>> = Vec::new();
    let mut axis: usize = 0;
    while axis < dimension
        invariant
            dimension <= 0x7FFF_FFFF,
            axis <= dimension,
            rows@.len() == 2 * axis,
            forall|v: int| 0 <= v < rows@.len() ==> (#[trigger] rows@[v])@.len() == dimension,
            forall|v: int, k: int|
                0 <= v < rows@.len() && 0 <= k < dimension ==> (#[trigger] rows@[v]@[k]) as int
                    == orthoplex_coord(v as nat, k as nat),
        decreases dimension - axis,
    {
        let mut pos: Vec<i8> = Vec::new();
        let mut neg: Vec<i8> = Vec::new();
        let mut d: usize = 0;
        while d < dimension
            invariant
                d <= dimension,
                pos@.len() == d,
                neg@.len() == d,
                forall|k: int|
                    0 <= k < d ==> (#[trigger] pos@[k]) as int == orthoplex_coord(
                        (2 * axis) as nat,
                        k as nat,
                    ) && neg@[k] as int == orthoplex_coord((2 * axis + 1) as nat, k as nat),
            decreases dimension - d,
        {
            let value: i8 = if d == axis {
                1
            } else {
                0
            };
            pos.push(value);
            neg.push(-value);
            d += 1;
        }
        let ghost old_rows = rows@;
        rows.push(pos);
        rows.push(neg);
        proof {
            assert forall|v: int, k: int|
                0 <= v < rows@.len() && 0 <= k < dimension implies (#[trigger] rows@[v]@[k]) as int
                == orthoplex_coord(v as nat, k as nat) by {
                if v < 2 * axis {
                    assert(rows@[v] == old_rows[v]);
                } else if v == 2 * axis {
                    assert(rows@[v] == pos);
                    assert(pos@[k] as int == orthoplex_coord(v as nat, k as nat));
                } else {
                    assert(rows@[v] == neg);
                    assert(pos@[k] as int == orthoplex_coord((v - 1) as nat, k as nat));
                }
            }
        }
        axis += 1;
    }
    rows
}

proof fn lemma_pairs_from_len(skip_same_axis: bool, i: nat, j: nat)
    ensures
        j <= i + 1 ==> pairs_from(skip_same_axis, i, j).len() == 0,
        j > i + 1 && !skip_same_axis ==> pairs_from(skip_same_axis, i, j).len() == j - i - 1,
        j > i + 1 && skip_same_axis && i % 2 == 0 ==> pairs_from(skip_same_axis, i, j).len() == j - i
            - 2,
        j > i + 1 && skip_same_axis && i % 2 == 1 ==> pairs_from(skip_same_axis, i, j).len() == j - i
            - 1,
    decreases j,
{
    if j > i + 1 {
        lemma_pairs_from_len(skip_same_axis, i, (j - 1) as nat);
    }
}

proof fn lemma_simplex_pairs_len(n: nat, m: nat)
    requires
        m <= n,
    ensures
        2 * pairs_below(false, n, m).len() == m * (2 * n - 1 - m),
    decreases m,
{
    if m > 0 {
        let i = (m - 1) as nat;
        lemma_simplex_pairs_len(n, i);
        lemma_pairs_from_len(false, i, n);
        let prev = pairs_below(false, n, i).len();
        assert(pairs_below(false, n, m) == pairs_below(false, n, i) + pairs_from(false, i, n));
        assert(2 * (prev + (n - i - 1)) == m * (2 * n - 1 - m)) by (nonlinear_arith)
            requires
                2 * prev == i * (2 * n - 1 - i),
                m == i + 1,
                m <= n,
        ;
    } else {
        assert(m * (2 * n - 1 - m) == 0) by (nonlinear_arith)
            requires
                m == 0,
        ;
    }
}

proof fn lemma_orthoplex_pairs_len(d: nat, t: nat)
    requires
        t <= d,
    ensures
        pairs_below(true, 2 * d, 2 * t).len() == 2 * t * (2 * d - t - 1),
    decreases t,
{
    if t > 0 {
        let u = (t - 1) as nat;
        lemma_orthoplex_pairs_len(d, u);
        lemma_pairs_from_len(true, 2 * u, 2 * d);
        lemma_pairs_from_len(true, 2 * u + 1, 2 * d);
        assert(pairs_below(true, 2 * d, 2 * t) == pairs_below(true, 2 * d, (2 * u + 1) as nat)
            + pairs_from(true, (2 * u + 1) as nat, 2 * d));
        assert(pairs_below(true, 2 * d, (2 * u + 1) as nat) == pairs_below(true, 2 * d, 2 * u)
            + pairs_from(true, 2 * u, 2 * d));
        let prev = pairs_below(true, 2 * d, 2 * u).len();
        assert(prev + 2 * (2 * d - 2 * u - 2) == 2 * t * (2 * d - t - 1)) by (nonlinear_arith)
            requires
                prev == 2 * u * (2 * d - u - 1),
                t == u + 1,
                t <= d,
        ;
    } else {
        assert(2 * t * (2 * d - t - 1) == 0) by (nonlinear_arith)
            requires
                t == 0,
        ;
    }
}

/// The simplex with `n` vertices has `n (n - 1) / 2` edges.
pub proof fn lemma_simplex_edge_count(n: nat)
    ensures
        2 * simplex_edge_list(n).len() == n * (n - 1),
{
    lemma_simplex_pairs_len(n, n);
    if n > 0 {
        assert(n * (2 * n - 1 - n) == n * (n - 1));
    }
}

/// The orthoplex of dimension `d` has `2 d (d - 1)` edges.
pub proof fn lemma_orthoplex_edge_count(d: nat)
    ensures
        orthoplex_edge_list(d).len() == 2 * d * (d - 1),
{
    lemma_orthoplex_pairs_len(d, d);
    if d > 0 {
        assert(2 * d * (2 * d - d - 1) == 2 * d * (d - 1));
    }
}

/// Total number of clear bits below `b` over the `m` consecutive numbers from `lo`.
spec fn clear_bits_sum(lo: nat, m: nat, b: nat) -> nat
    decreases m,
{
    if m == 0 {
        0
    } else {
        clear_bits_sum(lo, (m - 1) as nat, b) + cube_edges_from((lo + m - 1) as nat, b).len()
    }
}

proof fn lemma_two_pow_add(a: nat, c: nat)
    ensures
        two_pow(a + c) == two_pow(a) * two_pow(c),
    decreases c,
{
    if c > 0 {
        let e = (c - 1) as nat;
        lemma_two_pow_add(a, e);
        assert(two_pow(a + c) == 2 * two_pow(a + e));
        assert(2 * (two_pow(a) * two_pow(e)) == two_pow(a) * (2 * two_pow(e))) by (nonlinear_arith);
    } else {
        assert(two_pow(a) * 1 == two_pow(a)) by (nonlinear_arith);
    }
}

/// Adding `2^d` leaves the bits below `d` as they are.
proof fn lemma_bit_below_shift(i: nat, a: nat, d: nat)
    requires
        a < d,
    ensures
        bit_set(i + two_pow(d), a) == bit_set(i, a),
{
    let p = two_pow(a);
    let q = two_pow((d - a) as nat);
    lemma_two_pow_add(a, (d - a) as nat);
    lemma_two_pow_monotone(0, a);
    assert(q == 2 * two_pow((d - a - 1) as nat));
    lemma_hoist_over_denominator(i as int, q as int, p as nat);
    assert(two_pow(d) == q * p) by (nonlinear_arith)
        requires
            two_pow(d) == p * q,
    ;
    assert((i + two_pow(d)) / p == i / p + q);
}

proof fn lemma_cube_from_shift(i: nat, b: nat, d: nat)
    requires
        b <= d,
    ensures
        cube_edges_from(i + two_pow(d), b).len() == cube_edges_from(i, b).len(),
    decreases b,
{
    if b > 0 {
        lemma_cube_from_shift(i, (b - 1) as nat, d);
        lemma_bit_below_shift(i, (b - 1) as nat, d);
    }
}

proof fn lemma_top_bit(i: nat, d: nat)
    requires
        i < two_pow(d),
    ensures
        !bit_set(i, d),
        bit_set(i + two_pow(d), d),
{
    lemma_two_pow_monotone(0, d);
    lemma_basic_div(i as int, two_pow(d) as int);
    lemma_div_plus_one(i as int, two_pow(d) as int);
    assert((i + two_pow(d)) / two_pow(d) == 1);
}

proof fn lemma_low_half(m: nat, d: nat)
    requires
        m <= two_pow(d),
    ensures
        clear_bits_sum(0, m, d + 1) == clear_bits_sum(0, m, d) + m,
    decreases m,
{
    if m > 0 {
        lemma_low_half((m - 1) as nat, d);
        lemma_top_bit((m - 1) as nat, d);
    }
}

proof fn lemma_high_half(m: nat, d: nat)
    requires
        m <= two_pow(d),
    ensures
        clear_bits_sum(two_pow(d), m, d + 1) == clear_bits_sum(0, m, d),
    decreases m,
{
    if m > 0 {
        let i = (m - 1) as nat;
        lemma_high_half(i, d);
        lemma_top_bit(i, d);
        lemma_cube_from_shift(i, d, d);
    }
}

proof fn lemma_sum_split(a: nat, m: nat, b: nat)
    ensures
        clear_bits_sum(0, a + m, b) == clear_bits_sum(0, a, b) + clear_bits_sum(a, m, b),
    decreases m,
{
    if m > 0 {
        lemma_sum_split(a, (m - 1) as nat, b);
    }
}

proof fn lemma_edges_below_sum(d: nat, n: nat)
    ensures
        cube_edges_below(d, n).len() == clear_bits_sum(0, n, d),
    decreases n,
{
    if n > 0 {
        lemma_edges_below_sum(d, (n - 1) as nat);
    }
}

proof fn lemma_clear_bits_total(d: nat)
    ensures
        2 * clear_bits_sum(0, two_pow(d), d) == d * two_pow(d),
    decreases d,
{
    if d == 0 {
        assert(two_pow(0) == 1);
        assert(cube_edges_from(0, 0).len() == 0);
        assert(clear_bits_sum(0, 0, 0) == 0);
        assert(clear_bits_sum(0, 1, 0) == 0);
        assert(d * two_pow(d) == 0) by (nonlinear_arith)
            requires
                d == 0,
        ;
    } else {
        let e = (d - 1) as nat;
        let h = two_pow(e);
        lemma_clear_bits_total(e);
        lemma_sum_split(h, h, d);
        lemma_low_half(h, e);
        lemma_high_half(h, e);
        let z = clear_bits_sum(0, h, e);
        assert(two_pow(d) == 2 * h);
        assert(clear_bits_sum(0, two_pow(d), d) == clear_bits_sum(0, h, d) + clear_bits_sum(h, h, d));
        assert(clear_bits_sum(0, two_pow(d), d) == z + h + z);
        assert(2 * (z + h + z) == d * (2 * h)) by (nonlinear_arith)
            requires
                2 * z == e * h,
                d == e + 1,
        ;
    }
}

/// The hypercube of dimension `d >= 1` has `d * 2^(d - 1)` edges.
pub proof fn lemma_cube_edge_count(d: nat)
    requires
        d >= 1,
    ensures
        cube_edge_list(d).len() == d * two_pow((d - 1) as nat),
{
    lemma_edges_below_sum(d, two_pow(d));
    lemma_clear_bits_total(d);
    let h = two_pow((d - 1) as nat);
    assert(2 * cube_edge_list(d).len() == d * (2 * h));
    assert(cube_edge_list(d).len() == d * h) by (nonlinear_arith)
        requires
            2 * cube_edge_list(d).len() == d * (2 * h),
    ;
}

/// A clear bit `a` below `d` leaves room to add `2^a` within `2^d`.
proof fn lemma_clear_bit_room(i: nat, a: nat, d: nat)
    requires
        i < two_pow(d),
        a < d,
        !bit_set(i, a),
    ensures
        i + two_pow(a) < two_pow(d),
{
    let p = two_pow(a);
    let q = two_pow((d - a) as nat);
    lemma_two_pow_add(a, (d - a) as nat);
    lemma_two_pow_monotone(0, a);
    assert(q == 2 * two_pow((d - a - 1) as nat));
    lemma_fundamental_div_mod(i as int, p as int);
    lemma_mod_pos_bound(i as int, p as int);
    let k = i / p;
    let r = i % p;
    assert(k < q) by (nonlinear_arith)
        requires
            i == p * k + r,
            0 <= r,
            i < p * q,
            p > 0,
    ;
    assert(k % 2 == 0);
    assert(k + 2 <= q);
    assert(i + p < p * q) by (nonlinear_arith)
        requires
            i == p * k + r,
            r < p,
            k + 2 <= q,
            p > 0,
    ;
}

proof fn lemma_cube_edges_from_in_range(i: nat, b: nat, d: nat)
    requires
        i < two_pow(d),
        b <= d,
    ensures
        forall|m: int|
            0 <= m < cube_edges_from(i, b).len() ==> (#[trigger] cube_edges_from(i, b)[m]).0 == i
                && i < cube_edges_from(i, b)[m].1 < two_pow(d),
    decreases b,
{
    if b > 0 {
        let a = (b - 1) as nat;
        lemma_cube_edges_from_in_range(i, a, d);
        lemma_two_pow_monotone(0, a);
        let rest = cube_edges_from(i, a);
        if !bit_set(i, a) {
            lemma_clear_bit_room(i, a, d);
            assert forall|m: int| 0 <= m < cube_edges_from(i, b).len() implies (
            #[trigger] cube_edges_from(i, b)[m]).0 == i && i < cube_edges_from(i, b)[m].1 < two_pow(
                d,
            ) by {
                if m < rest.len() {
                    assert(cube_edges_from(i, b)[m] == rest[m]);
                }
            }
        }
    }
}

proof fn lemma_cube_edges_below_in_range(d: nat, n: nat)
    requires
        n <= two_pow(d),
    ensures
        forall|m: int|
            0 <= m < cube_edges_below(d, n).len() ==> (#[trigger] cube_edges_below(d, n)[m]).0
                < cube_edges_below(d, n)[m].1 < two_pow(d),
    decreases n,
{
    if n > 0 {
        let i = (n - 1) as nat;
        lemma_cube_edges_below_in_range(d, i);
        lemma_cube_edges_from_in_range(i, d, d);
        let before = cube_edges_below(d, i);
        let from = cube_edges_from(i, d);
        assert forall|m: int| 0 <= m < cube_edges_below(d, n).len() implies (
        #[trigger] cube_edges_below(d, n)[m]).0 < cube_edges_below(d, n)[m].1 < two_pow(d) by {
            if m < before.len() {
                assert(cube_edges_below(d, n)[m] == before[m]);
            } else {
                assert(cube_edges_below(d, n)[m] == from[m - before.len()]);
            }
        }
    }
}

/// Every hypercube edge `(a, b)` has `a < b < 2^d`.
pub proof fn lemma_cube_edges_in_range(d: nat)
    ensures
        forall|m: int|
            0 <= m < cube_edge_list(d).len() ==> (#[trigger] cube_edge_list(d)[m]).0
                < cube_edge_list(d)[m].1 < two_pow(d),
{
    lemma_cube_edges_below_in_range(d, two_pow(d));
}

proof fn lemma_pairs_from_in_range(skip_same_axis: bool, i: nat, j: nat)
    ensures
        forall|m: int|
            0 <= m < pairs_from(skip_same_axis, i, j).len() ==> (#[trigger] pairs_from(
                skip_same_axis,
                i,
                j,
            )[m]).0 == i && i < pairs_from(skip_same_axis, i, j)[m].1 < j,
    decreases j,
{
    if j > i + 1 {
        let k = (j - 1) as nat;
        lemma_pairs_from_in_range(skip_same_axis, i, k);
        let rest = pairs_from(skip_same_axis, i, k);
        assert forall|m: int| 0 <= m < pairs_from(skip_same_axis, i, j).len() implies (
        #[trigger] pairs_from(skip_same_axis, i, j)[m]).0 == i && i < pairs_from(
            skip_same_axis,
            i,
            j,
        )[m].1 < j by {
            if m < rest.len() {
                assert(pairs_from(skip_same_axis, i, j)[m] == rest[m]);
            }
        }
    }
}

/// Every listed pair `(a, b)` has `a < b < n`.
pub proof fn lemma_pairs_in_range(skip_same_axis: bool, n: nat, m: nat)
    ensures
        forall|k: int|
            0 <= k < pairs_below(skip_same_axis, n, m).len() ==> (#[trigger] pairs_below(
                skip_same_axis,
                n,
                m,
            )[k]).0 < pairs_below(skip_same_axis, n, m)[k].1 < n,
    decreases m,
{
    if m > 0 {
        let i = (m - 1) as nat;
        lemma_pairs_in_range(skip_same_axis, n, i);
        lemma_pairs_from_in_range(skip_same_axis, i, n);
        let before = pairs_below(skip_same_axis, n, i);
        let from = pairs_from(skip_same_axis, i, n);
        assert forall|k: int| 0 <= k < pairs_below(skip_same_axis, n, m).len() implies (
        #[trigger] pairs_below(skip_same_axis, n, m)[k]).0 < pairs_below(skip_same_axis, n, m)[k].1
            < n by {
            if k < before.len() {
                assert(pairs_below(skip_same_axis, n, m)[k] == before[k]);
            } else {
                assert(pairs_below(skip_same_axis, n, m)[k] == from[k - before.len()]);
            }
        }
    }
}

} // verus!
