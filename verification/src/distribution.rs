use vstd::prelude::*;

verus! {

/// `(2 * radius + 1)` cubed: the number of points of a cubic grid of that radius.
pub open spec fn grid_points(radius: int) -> int {
    (2 * radius + 1) * (2 * radius + 1) * (2 * radius + 1)
}

/// Whether some cubic grid with at least `count` points has a point count that fits in `usize`.
pub open spec fn grid_fits(count: usize) -> bool {
    exists|r: int| 0 <= r && grid_points(r) >= count && grid_points(r) <= usize::MAX
}

/// Larger grids have more points.
pub proof fn lemma_grid_points_monotonic(a: int, b: int)
    requires
        0 <= a <= b,
    ensures
        grid_points(a) <= grid_points(b),
{
    let x = 2 * a + 1;
    let y = 2 * b + 1;
    assert(x * x * x <= y * y * y) by (nonlinear_arith)
        requires
            1 <= x <= y,
    ;
}

/// The smallest radius whose cubic grid of `(2 * radius + 1)^3` points holds at least `count`
/// points. Point counts are formed in `usize`.
pub fn grid_radius(count: usize) -> (radius: i32)
    requires
        grid_fits(count),
    ensures
        radius >= 0,
        grid_points(radius as int) >= count,
        radius == 0 || grid_points(radius - 1) < count,
{
    let ghost witness = choose|r: int| 0 <= r && grid_points(r) >= count && grid_points(r) <= usize::MAX;
    let mut radius: i32 = 0;
    loop
        invariant
            0 <= radius <= witness,
            0 <= witness,
            grid_points(witness) >= count,
            grid_points(witness) <= usize::MAX,
            radius == 0 || grid_points(radius - 1) < count,
        decreases witness - radius,
    {
        proof {
            lemma_grid_points_monotonic(radius as int, witness);
            if witness >= 0x20_0000 {
                lemma_grid_points_monotonic(0x20_0000, witness);
                let x: int = 0x40_0001;
                assert(x * x == 0x100_0008_0000_1);
                assert(x * x * x > 0xffff_ffff_ffff_ffff) by (nonlinear_arith)
                    requires
                        x == 0x40_0001,
                        x * x == 0x100_0008_0000_1,
                ;
            }
            let x = 2 * radius + 1;
            assert(x * x <= x * x * x) by (nonlinear_arith)
                requires
                    x >= 1,
            ;
        }
        let side = (2 * radius + 1) as usize;
        let points = side * side * side;
        if points >= count {
            return radius;
        }
        proof {
            if radius == witness {
                assert(false);
            }
        }
        radius = radius + 1;
    }
}

/// The smallest radius whose cubic grid holds at least `count` points, as `grid_radius`
/// gives it, or `None` when every such grid has more points than `usize` can count (where
/// `grid_radius` cannot be used).
pub fn grid_radius_checked(count: usize) -> (radius: Option<i32>)
    ensures
        match radius {
            Some(r) => grid_fits(count) && r >= 0 && grid_points(r as int) >= count && (r == 0
                || grid_points(r - 1) < count),
            None => !grid_fits(count),
        },
{
    let mut radius: i32 = 0;
    loop
        invariant
            0 <= radius <= 0x20_0000,
            radius == 0 || grid_points(radius - 1) < count,
        decreases 0x20_0000 - radius,
    {
        let side = (2 * radius + 1) as usize;
        let cube = match side.checked_mul(side) {
            Some(square) => square.checked_mul(side),
            None => None,
        };
        match cube {
            Some(points) => {
                if points >= count {
                    proof {
                        assert(grid_points(radius as int) == points);
                    }
                    return Some(radius);
                }
                proof {
                    assert(grid_points(radius as int) < count);
                    if radius == 0x20_0000 {
                        assert(side as int * side as int * side as int > 0xffff_ffff_ffff_ffff)
                            by (nonlinear_arith)
                            requires
                                side == 0x40_0001,
                        ;
                        assert(false);
                    }
                }
                radius = radius + 1;
            },
            None => {
                proof {
                    let x = 2 * radius + 1;
                    assert(x * x * x > usize::MAX) by (nonlinear_arith)
                        requires
                            x >= 1,
                            x == side,
                            side * side > usize::MAX || side * side * side > usize::MAX,
                    ;
                    assert forall|r: int|
                        0 <= r && grid_points(r) >= count implies grid_points(r) > usize::MAX by {
                        if r < radius {
                            lemma_grid_points_monotonic(r, radius - 1);
                        } else {
                            lemma_grid_points_monotonic(radius as int, r);
                        }
                    }
                }
                return None;
            },
        }
    }
}

/// The triangles of an icosahedron, as indices of its twelve vertices.
pub fn icosahedron_faces() -> (faces: [[usize; 3]; 20])
    ensures
        faces@ == seq![
            [0usize, 11, 5],
            [0usize, 5, 1],
            [0usize, 1, 7],
            [0usize, 7, 10],
            [0usize, 10, 11],
            [1usize, 5, 9],
            [5usize, 11, 4],
            [11usize, 10, 2],
            [10usize, 7, 6],
            [7usize, 1, 8],
            [3usize, 9, 4],
            [3usize, 4, 2],
            [3usize, 2, 6],
            [3usize, 6, 8],
            [3usize, 8, 9],
            [4usize, 9, 5],
            [2usize, 4, 11],
            [6usize, 2, 10],
            [8usize, 6, 7],
            [9usize, 8, 1],
        ],
        forall|f: int, k: int| 0 <= f < 20 && 0 <= k < 3 ==> #[trigger] faces@[f]@[k] < 12,
{
    [
        [0, 11, 5],
        [0, 5, 1],
        [0, 1, 7],
        [0, 7, 10],
        [0, 10, 11],
        [1, 5, 9],
        [5, 11, 4],
        [11, 10, 2],
        [10, 7, 6],
        [7, 1, 8],
        [3, 9, 4],
        [3, 4, 2],
        [3, 2, 6],
        [3, 6, 8],
        [3, 8, 9],
        [4, 9, 5],
        [2, 4, 11],
        [6, 2, 10],
        [8, 6, 7],
        [9, 8, 1],
    ]
}

/// The triangles of a tetrahedron, as indices of its four vertices.
pub fn tetrahedron_faces() -> (faces: [[usize; 3]; 4])
    ensures
        faces@ == seq![[0usize, 1, 2], [0usize, 3, 1], [0usize, 2, 3], [1usize, 3, 2]],
{
    [[0, 1, 2], [0, 3, 1], [0, 2, 3], [1, 3, 2]]
}

/// The sum of two distributions: each sample adds a sample of each.
pub struct Add<L, R> {
    pub left: L,
    pub right: R,
}

impl<L, R> Add<L, R> {
    /// The sum of `left` and `right`.
    pub fn new(left: L, right: R) -> (sum: Self)
        ensures
            sum.left == left,
            sum.right == right,
    {
        Self { left, right }
    }
}

/// The uniform distribution on the cube from -1 to 1 on each axis.
pub struct Uniform3;

impl Uniform3 {
    /// The uniform distribution on the cube.
    pub fn new() -> (distribution: Self) {
        Self
    }
}

} // verus!
