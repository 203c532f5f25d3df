use vstd::prelude::*;

use crate::coord::{Coord, Dim};

verus! {

/// The squares of the row `y` whose columns are `xs`, in the order of `xs`.
pub open spec fn along_row(xs: Seq<Dim>, y: Dim) -> Seq<Coord> {
    Seq::new(xs.len(), |k: int| Coord(xs[k], y))
}

/// The squares of the column `x` whose rows are `ys`, in the order of `ys`.
pub open spec fn along_column(x: Dim, ys: Seq<Dim>) -> Seq<Coord> {
    Seq::new(ys.len(), |k: int| Coord(x, ys[k]))
}

/// The squares obtained by pairing `xs` and `ys` position by position; the
/// pairing stops where the shorter of the two ends.
pub open spec fn diagonal(xs: Seq<Dim>, ys: Seq<Dim>) -> Seq<Coord> {
    Seq::new(
        if xs.len() <= ys.len() {
            xs.len()
        } else {
            ys.len()
        },
        |k: int| Coord(xs[k], ys[k]),
    )
}

/// The ray that leaves `c` in direction `dir`: the squares met when walking
/// outward to the edge of the board, nearest first.
///
/// The eight directions are numbered clockwise from the left: `0` left,
/// `1` up-left, `2` up, `3` up-right, `4` right, `5` down-right, `6` down,
/// `7` down-left, where "up" is towards higher rows.
pub open spec fn ray(c: Coord, dir: int) -> Seq<Coord> {
    if dir == 0 {
        along_row(c.0.below(), c.1)
    } else if dir == 1 {
        diagonal(c.0.below(), c.1.above())
    } else if dir == 2 {
        along_column(c.0, c.1.above())
    } else if dir == 3 {
        diagonal(c.0.above(), c.1.above())
    } else if dir == 4 {
        along_row(c.0.above(), c.1)
    } else if dir == 5 {
        diagonal(c.0.above(), c.1.below())
    } else if dir == 6 {
        along_column(c.0, c.1.below())
    } else {
        diagonal(c.0.below(), c.1.below())
    }
}

/// The change of column made by one step in direction `dir`.
pub open spec fn step_x(dir: int) -> int {
    if dir == 0 || dir == 1 || dir == 7 {
        -1
    } else if dir == 3 || dir == 4 || dir == 5 {
        1
    } else {
        0
    }
}

/// The change of row made by one step in direction `dir`.
pub open spec fn step_y(dir: int) -> int {
    if dir == 1 || dir == 2 || dir == 3 {
        1
    } else if dir == 5 || dir == 6 || dir == 7 {
        -1
    } else {
        0
    }
}

/// Whether column `x` and row `y` name a square of the board.
pub open spec fn on_board(x: int, y: int) -> bool {
    0 <= x < 10 && 0 <= y < 10
}

proof fn signed_step(n: int, s: int)
    requires
        -1 <= s <= 1,
    ensures
        n * s == if s == 1 {
            n
        } else if s == 0 {
            0
        } else {
            -n
        },
{
    assert(n * 1 == n && n * 0 == 0 && n * (-1) == -n) by (nonlinear_arith);
}

/// The `k`-th square of a ray lies `k + 1` steps from the origin in the
/// ray's direction, so it is on the board and differs from the origin.
#[verifier::rlimit(30)]
pub proof fn ray_walks_outward(c: Coord, dir: int, k: int)
    requires
        0 <= dir < 8,
        0 <= k < ray(c, dir).len(),
    ensures
        ray(c, dir)[k].0.ord() == c.0.ord() + (k + 1) * step_x(dir),
        ray(c, dir)[k].1.ord() == c.1.ord() + (k + 1) * step_y(dir),
        ray(c, dir)[k] != c,
{
    signed_step(k + 1, step_x(dir));
    signed_step(k + 1, step_y(dir));
}

/// A ray ends at the edge: one step past its last square leaves the board,
/// and no ray is longer than nine squares.
pub proof fn ray_stops_at_edge(c: Coord, dir: int)
    requires
        0 <= dir < 8,
    ensures
        ray(c, dir).len() <= 9,
        !on_board(
            c.0.ord() + (ray(c, dir).len() + 1) * step_x(dir),
            c.1.ord() + (ray(c, dir).len() + 1) * step_y(dir),
        ),
{
    signed_step(ray(c, dir).len() as int + 1, step_x(dir));
    signed_step(ray(c, dir).len() as int + 1, step_y(dir));
}

/// The precomputed movement geometry of the board: for every square and
/// every direction, the ray that leaves the square in that direction.
///
/// The table is built once by [`MoveTable::new`] and never changes; the
/// board queries and the search borrow it.
pub struct MoveTable {
    rays: Vec<Vec<Vec<Coord>>>,
}

/// The rays of the whole board: for the square with index `sq` and the
/// direction `dir`, `all_rays()[sq][dir]` is the ray that leaves the square
/// in that direction.
pub open spec fn all_rays() -> Seq<Seq<Seq<Coord>>> {
    Seq::new(100, |sq: int| Seq::new(8, |dir: int| ray(Coord::at(sq), dir)))
}

impl View for MoveTable {
    type V = Seq<Seq<Seq<Coord>>>;

    closed spec fn view(&self) -> Seq<Seq<Seq<Coord>>> {
        Seq::new(
            self.rays@.len(),
            |sq: int| Seq::new(self.rays@[sq]@.len(), |dir: int| self.rays@[sq]@[dir]@),
        )
    }
}

impl MoveTable {
    #[verifier::type_invariant]
    spec fn wf(&self) -> bool {
        &&& self.rays@.len() == 100
        &&& forall|sq: int|
            0 <= sq < 100 ==> (#[trigger] self.rays@[sq])@.len() == 8
        &&& forall|sq: int, dir: int|
            0 <= sq < 100 && 0 <= dir < 8 ==> (#[trigger] self.rays@[sq]@[dir])@ == ray(
                Coord::at(sq),
                dir,
            )
    }

    /// Builds the table from the geometry of the board: the rays along the
    /// rows and columns from the values below and above each dimension,
    /// the diagonal rays by pairing these.
    pub fn new() -> (table: MoveTable)
        ensures
            table@ == all_rays(),
    {
        let mut rays: Vec<Vec<Vec<Coord>>> = Vec::new();
        let mut sq: usize = 0;
        while sq < 100
            invariant
                sq <= 100,
                rays@.len() == sq,
                forall|s: int| 0 <= s < sq ==> (#[trigger] rays@[s])@.len() == 8,
                forall|s: int, dir: int|
                    0 <= s < sq && 0 <= dir < 8 ==> (#[trigger] rays@[s]@[dir])@ == ray(
                        Coord::at(s),
                        dir,
                    ),
            decreases 100 - sq,
        {
            let c: Coord = Coord::square(sq);
            let left: Vec<Dim> = c.0.less_than();
            let right: Vec<Dim> = c.0.greater_than();
            let down: Vec<Dim> = c.1.less_than();
            let up: Vec<Dim> = c.1.greater_than();
            let mut from_here: Vec<Vec<Coord>> = Vec::new();
            from_here.push(row_ray(&left, c.1));
            from_here.push(diagonal_ray(&left, &up));
            from_here.push(column_ray(c.0, &up));
            from_here.push(diagonal_ray(&right, &up));
            from_here.push(row_ray(&right, c.1));
            from_here.push(diagonal_ray(&right, &down));
            from_here.push(column_ray(c.0, &down));
            from_here.push(diagonal_ray(&left, &down));
            rays.push(from_here);
            sq += 1;
        }
        let table = MoveTable { rays };
        assert(table@ =~~= all_rays());
        table
    }

    /// The ray that leaves `origin` in direction `dir`.
    pub fn ray(&self, origin: &Coord, dir: usize) -> (r: &Vec<Coord>)
        requires
            dir < 8,
        ensures
            r@ == ray(*origin, dir as int),
    {
        proof {
            use_type_invariant(self);
            crate::coord::coord_round_trip(*origin);
        }
        let sq: usize = origin.index();
        &self.rays[sq][dir]
    }
}

fn row_ray(xs: &Vec<Dim>, y: Dim) -> (v: Vec<Coord>)
    ensures
        v@ == along_row(xs@, y),
{
    let mut v: Vec<Coord> = Vec::new();
    let mut k: usize = 0;
    while k < xs.len()
        invariant
            k <= xs@.len(),
            v@.len() == k,
            forall|j: int| 0 <= j < k ==> v@[j] == Coord(xs@[j], y),
        decreases xs@.len() - k,
    {
        v.push(Coord(xs[k], y));
        k += 1;
    }
    assert(v@ =~= along_row(xs@, y));
    v
}

fn column_ray(x: Dim, ys: &Vec<Dim>) -> (v: Vec<Coord>)
    ensures
        v@ == along_column(x, ys@),
{
    let mut v: Vec<Coord> = Vec::new();
    let mut k: usize = 0;
    while k < ys.len()
        invariant
            k <= ys@.len(),
            v@.len() == k,
            forall|j: int| 0 <= j < k ==> v@[j] == Coord(x, ys@[j]),
        decreases ys@.len() - k,
    {
        v.push(Coord(x, ys[k]));
        k += 1;
    }
    assert(v@ =~= along_column(x, ys@));
    v
}

fn diagonal_ray(xs: &Vec<Dim>, ys: &Vec<Dim>) -> (v: Vec<Coord>)
    ensures
        v@ == diagonal(xs@, ys@),
{
    let mut v: Vec<Coord> = Vec::new();
    let mut k: usize = 0;
    while k < xs.len() && k < ys.len()
        invariant
            k <= xs@.len(),
            k <= ys@.len(),
            v@.len() == k,
            forall|j: int| 0 <= j < k ==> v@[j] == Coord(xs@[j], ys@[j]),
        decreases xs@.len() - k,
    {
        v.push(Coord(xs[k], ys[k]));
        k += 1;
    }
    assert(v@ =~= diagonal(xs@, ys@));
    v
}

} // verus!
