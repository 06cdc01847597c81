use vstd::prelude::*;

verus! {

/// A rotation of one frame that applies: the index of its angle in the
/// frame's angle list, and the two axes of its plane.
#[derive(Clone, Copy, Debug, PartialEq, Eq, Structural)]
pub struct PlaneRotation {
    pub slot: usize,
    pub first: usize,
    pub second: usize,
}

/// Whether instruction `k` applies: its plane pair is complete, its angle is
/// present and nonzero (`turning[k]`), and both axes are below `dimension`.
pub open spec fn applies(planes: Seq<u32>, turning: Seq<bool>, dimension: nat, k: int) -> bool {
    &&& 0 <= k
    &&& 2 * k + 1 < planes.len()
    &&& k < turning.len()
    &&& turning[k]
    &&& planes[2 * k] < dimension
    &&& planes[2 * k + 1] < dimension
}

/// The instructions below `n` that apply, in their given order.
pub open spec fn planned(planes: Seq<u32>, turning: Seq<bool>, dimension: nat, n: nat) -> Seq<
    PlaneRotation,
>
    decreases n,
{
    if n == 0 {
        seq![]
    } else {
        let k = (n - 1) as nat;
        let rest = planned(planes, turning, dimension, k);
        if applies(planes, turning, dimension, k as int) {
            rest.push(
                PlaneRotation {
                    slot: k as usize,
                    first: planes[2 * k as int] as usize,
                    second: planes[2 * k as int + 1] as usize,
                },
            )
        } else {
            rest
        }
    }
}

/// Picks the rotations of a frame that apply. `planes` holds the axis pairs
/// flattened (a trailing lone entry is ignored); `turning[k]` says whether
/// angle `k` is present and nonzero. Pairs with an axis at or past
/// `dimension`, and pairs whose angle is zero or missing, are skipped; the
/// rest keep their order.
pub fn plan_rotations(planes: &Vec<u32>, turning: &Vec<bool>, dimension: usize) -> (r: Vec<
    PlaneRotation,
>)
    ensures
        r@ == planned(planes@, turning@, dimension as nat, planes@.len() / 2),
{
    let len = planes.len();
    let pairs = len / 2;
    let mut r: Vec<PlaneRotation> = Vec::new();
    let mut k: usize = 0;
    while k < pairs
        invariant
            len == planes@.len(),
            pairs == len / 2,
            k <= pairs,
            r@ == planned(planes@, turning@, dimension as nat, k as nat),
        decreases pairs - k,
    {
        assert(2 * k + 1 < planes@.len()) by (nonlinear_arith)
            requires
                k < pairs,
                pairs == planes@.len() / 2,
        ;
        let i = planes[2 * k];
        let j = planes[2 * k + 1];
        if k < turning.len() && turning[k] && (i as usize) < dimension && (j as usize) < dimension {
            r.push(PlaneRotation { slot: k, first: i as usize, second: j as usize });
        }
        k += 1;
    }
    r
}

/// Every planned rotation applies and names its own instruction's axes, and
/// an instruction that does not apply (an axis out of range, a zero or
/// missing angle) is absent from the plan; the plan keeps the given order.
pub proof fn lemma_plan_skips_inapplicable(
    planes: Seq<u32>,
    turning: Seq<bool>,
    dimension: nat,
    n: nat,
)
    requires
        2 * n <= planes.len(),
        planes.len() <= usize::MAX,
    ensures
        forall|m: int|
            0 <= m < planned(planes, turning, dimension, n).len() ==> {
                let p = #[trigger] planned(planes, turning, dimension, n)[m];
                &&& p.slot < n
                &&& applies(planes, turning, dimension, p.slot as int)
                &&& p.first == planes[2 * p.slot] && p.second == planes[2 * p.slot + 1]
                &&& p.first < dimension && p.second < dimension
            },
        forall|m1: int, m2: int|
            0 <= m1 < m2 < planned(planes, turning, dimension, n).len() ==> (#[trigger] planned(
                planes,
                turning,
                dimension,
                n,
            )[m1]).slot < (#[trigger] planned(planes, turning, dimension, n)[m2]).slot,
        forall|k: int|
            !#[trigger] applies(planes, turning, dimension, k) ==> forall|m: int|
                0 <= m < planned(planes, turning, dimension, n).len() ==> (#[trigger] planned(
                    planes,
                    turning,
                    dimension,
                    n,
                )[m]).slot != k,
    decreases n,
{
    if n > 0 {
        let k = (n - 1) as nat;
        lemma_plan_skips_inapplicable(planes, turning, dimension, k);
        let rest = planned(planes, turning, dimension, k);
        let cur = planned(planes, turning, dimension, n);
        assert forall|m: int| 0 <= m < rest.len() implies cur[m] == #[trigger] rest[m] by {
            if applies(planes, turning, dimension, k as int) {
                assert(cur == rest.push(cur[rest.len() as int]));
            }
        }
        if applies(planes, turning, dimension, k as int) {
            assert(cur.len() == rest.len() + 1);
            assert(cur[rest.len() as int].slot == k);
        } else {
            assert(cur == rest);
        }
    }
}

/// Number of whole vertices in a flat buffer of `len` scalars with
/// `dimension` scalars per vertex; a partial trailing vertex is dropped.
pub fn whole_vertices(len: usize, dimension: usize) -> (r: usize)
    requires
        dimension > 0,
    ensures
        r == len / dimension,
        r * dimension <= len,
{
    proof {
        vstd::arithmetic::div_mod::lemma_fundamental_div_mod(len as int, dimension as int);
        vstd::arithmetic::div_mod::lemma_mod_pos_bound(len as int, dimension as int);
        vstd::arithmetic::mul::lemma_mul_is_commutative(len as int / dimension as int, dimension as int);
    }
    len / dimension
}

/// Where a projected vertex's depth is read from.
#[derive(Clone, Copy, Debug, PartialEq, Eq, Structural)]
pub enum DepthSource {
    /// The single coordinate at this axis.
    Coordinate(usize),
    /// The mean of the coordinates on axes `start .. end`.
    Mean { start: usize, end: usize },
}

/// The depth rule for `dimension`: up to two dimensions, the last coordinate;
/// above, the mean of the coordinates from axis 2 to the last one.
pub fn depth_source(dimension: usize) -> (r: DepthSource)
    requires
        dimension >= 1,
    ensures
        dimension <= 2 ==> r == DepthSource::Coordinate((dimension - 1) as usize),
        dimension > 2 ==> r == (DepthSource::Mean { start: 2, end: dimension }),
{
    if dimension <= 2 {
        DepthSource::Coordinate(dimension - 1)
    } else {
        DepthSource::Mean { start: 2, end: dimension }
    }
}

} // verus!
