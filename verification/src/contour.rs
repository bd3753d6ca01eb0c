//! Boundary tracing: walks around a foreground region and records the
//! pixels it passes as a closed polygon.
//!
//! The walk is an automaton over a position and a heading. Each step reads
//! two pixels relative to the heading, the one ahead and the one diagonally
//! ahead on the outer side, and either advances, turns towards the outer
//! side, or rotates in place. [`walk`] is that automaton as a function of the
//! raster's view; the executable tracer is proved to compute it.

use crate::raster::Raster;
use crate::raster::RasterView;
use vstd::prelude::*;

verus! {

/// The intensity of a foreground pixel.
pub const FOREGROUND: u8 = 255;

/// The intensity of a background pixel.
pub const BACKGROUND: u8 = 0;

/// The heading of the walk. `Right` travels towards larger `y` and `Down`
/// towards larger `x`; `Left` and `Up` are their opposites.
#[derive(Clone, Copy, Debug, PartialEq, Eq, Structural)]
pub enum Direction {
    Right,
    Down,
    Left,
    Up,
}

/// Why a trace produced no polygon.
#[derive(Clone, Copy, Debug, PartialEq, Eq, Structural)]
pub enum TraceError {
    /// A step had to read a pixel outside the raster.
    OutOfBounds,
    /// The raster holds no foreground pixel.
    NoForegroundPixel,
    /// The walk used up its steps without returning to its first point.
    TraceDidNotClose,
}

impl Direction {
    /// The offset from a position to the pixel ahead of it.
    pub open spec fn ahead_offset(self) -> (i64, i64) {
        match self {
            Direction::Right => (0i64, 1i64),
            Direction::Down => (1i64, 0i64),
            Direction::Left => (0i64, -1i64),
            Direction::Up => (-1i64, 0i64),
        }
    }

    /// The offset from a position to the pixel diagonally ahead of it, on the
    /// outer side of the boundary.
    pub open spec fn outer_offset(self) -> (i64, i64) {
        match self {
            Direction::Right => (-1i64, 1i64),
            Direction::Down => (1i64, 1i64),
            Direction::Left => (1i64, -1i64),
            Direction::Up => (-1i64, -1i64),
        }
    }

    /// The heading a quarter turn clockwise from this one.
    pub open spec fn clockwise_of(self) -> Direction {
        match self {
            Direction::Right => Direction::Down,
            Direction::Down => Direction::Left,
            Direction::Left => Direction::Up,
            Direction::Up => Direction::Right,
        }
    }

    /// The heading a quarter turn counter-clockwise from this one.
    pub open spec fn counter_clockwise_of(self) -> Direction {
        match self {
            Direction::Right => Direction::Up,
            Direction::Down => Direction::Right,
            Direction::Left => Direction::Down,
            Direction::Up => Direction::Left,
        }
    }

    /// The offset from a position to the pixel ahead of it.
    #[verifier::when_used_as_spec(ahead_offset)]
    pub fn ahead(self) -> (offset: (i64, i64))
        ensures
            offset == self.ahead_offset(),
    {
        match self {
            Direction::Right => (0, 1),
            Direction::Down => (1, 0),
            Direction::Left => (0, -1),
            Direction::Up => (-1, 0),
        }
    }

    /// The offset from a position to the pixel diagonally ahead of it, on the
    /// outer side of the boundary.
    #[verifier::when_used_as_spec(outer_offset)]
    pub fn outer(self) -> (offset: (i64, i64))
        ensures
            offset == self.outer_offset(),
    {
        match self {
            Direction::Right => (-1, 1),
            Direction::Down => (1, 1),
            Direction::Left => (1, -1),
            Direction::Up => (-1, -1),
        }
    }

    /// The heading a quarter turn clockwise from this one.
    #[verifier::when_used_as_spec(clockwise_of)]
    pub fn clockwise(self) -> (turned: Direction)
        ensures
            turned == self.clockwise_of(),
    {
        match self {
            Direction::Right => Direction::Down,
            Direction::Down => Direction::Left,
            Direction::Left => Direction::Up,
            Direction::Up => Direction::Right,
        }
    }

    /// The heading a quarter turn counter-clockwise from this one.
    #[verifier::when_used_as_spec(counter_clockwise_of)]
    pub fn counter_clockwise(self) -> (turned: Direction)
        ensures
            turned == self.counter_clockwise_of(),
    {
        match self {
            Direction::Right => Direction::Up,
            Direction::Down => Direction::Right,
            Direction::Left => Direction::Down,
            Direction::Up => Direction::Left,
        }
    }
}

/// The coordinates of a list of points.
pub open spec fn coords(points: Seq<(i64, i64)>) -> Seq<(int, int)> {
    points.map_values(|p: (i64, i64)| (p.0 as int, p.1 as int))
}

/// The position `offset` away from `pos`.
pub open spec fn shifted(pos: (int, int), offset: (i64, i64)) -> (int, int) {
    (pos.0 + offset.0, pos.1 + offset.1)
}

/// Both pixels that a step reads lie inside the raster.
pub open spec fn probes_inside(r: RasterView, pos: (int, int), heading: Direction) -> bool {
    r.contains(shifted(pos, heading.ahead())) && r.contains(shifted(pos, heading.outer()))
}

/// The pixel ahead is foreground and the outer pixel is background: the walk
/// records its position and moves ahead, keeping its heading.
pub open spec fn advances(r: RasterView, pos: (int, int), heading: Direction) -> bool {
    r.at(shifted(pos, heading.ahead())) == FOREGROUND && r.at(shifted(pos, heading.outer()))
        == BACKGROUND
}

/// The outer pixel is not background: the walk records its position, moves
/// onto the outer pixel and turns a quarter counter-clockwise.
pub open spec fn turns(r: RasterView, pos: (int, int), heading: Direction) -> bool {
    r.at(shifted(pos, heading.outer())) != BACKGROUND
}

/// Where one step takes the walk. When it neither advances nor turns it
/// stays where it is.
pub open spec fn next_position(r: RasterView, pos: (int, int), heading: Direction) -> (int, int) {
    if advances(r, pos, heading) {
        shifted(pos, heading.ahead())
    } else if turns(r, pos, heading) {
        shifted(pos, heading.outer())
    } else {
        pos
    }
}

/// The heading after one step. When the walk neither advances nor turns it
/// rotates a quarter clockwise.
pub open spec fn next_heading(r: RasterView, pos: (int, int), heading: Direction) -> Direction {
    if advances(r, pos, heading) {
        heading
    } else if turns(r, pos, heading) {
        heading.counter_clockwise()
    } else {
        heading.clockwise()
    }
}

/// The contour after one step: the position is recorded by every step that
/// moves.
pub open spec fn next_contour(
    r: RasterView,
    pos: (int, int),
    heading: Direction,
    contour: Seq<(int, int)>,
) -> Seq<(int, int)> {
    if advances(r, pos, heading) || turns(r, pos, heading) {
        contour.push(pos)
    } else {
        contour
    }
}

/// The walk from `pos` with at most `fuel` steps. It ends well when the
/// position is the first recorded point: that point is recorded once more
/// and closes the contour. It fails when the steps run out, or when a step
/// would read outside the raster.
pub open spec fn walk(
    r: RasterView,
    pos: (int, int),
    heading: Direction,
    contour: Seq<(int, int)>,
    fuel: nat,
) -> Result<Seq<(int, int)>, TraceError>
    decreases fuel,
{
    if contour.len() > 0 && contour[0] == pos {
        Ok(contour.push(pos))
    } else if fuel == 0 {
        Err(TraceError::TraceDidNotClose)
    } else if !probes_inside(r, pos, heading) {
        Err(TraceError::OutOfBounds)
    } else {
        walk(
            r,
            next_position(r, pos, heading),
            next_heading(r, pos, heading),
            next_contour(r, pos, heading, contour),
            (fuel - 1) as nat,
        )
    }
}

/// The number of steps a walk may take on a raster: twice its perimeter.
pub open spec fn step_budget(r: RasterView) -> nat {
    4 * (r.width + r.height)
}

/// `q` comes before `p` when the raster is read row by row from the top,
/// each row from the left.
pub open spec fn precedes(q: (int, int), p: (int, int)) -> bool {
    q.1 < p.1 || (q.1 == p.1 && q.0 < p.0)
}

/// `p` is the first foreground pixel of the raster in reading order.
pub open spec fn is_start(r: RasterView, p: (int, int)) -> bool {
    &&& r.contains(p)
    &&& r.at(p) == FOREGROUND
    &&& forall|q: (int, int)| r.contains(q) && #[trigger] precedes(q, p) ==> r.at(q) != FOREGROUND
}

/// The raster holds a foreground pixel.
pub open spec fn has_foreground(r: RasterView) -> bool {
    exists|p: (int, int)| r.contains(p) && #[trigger] r.at(p) == FOREGROUND
}

/// The contour of a raster: the walk from its first foreground pixel,
/// heading `Right`, with nothing recorded yet.
pub open spec fn trace(r: RasterView) -> Result<Seq<(int, int)>, TraceError> {
    if has_foreground(r) {
        walk(
            r,
            choose|p: (int, int)| is_start(r, p),
            Direction::Right,
            Seq::empty(),
            step_budget(r),
        )
    } else {
        Err(TraceError::NoForegroundPixel)
    }
}

/// What a tracer returned, with its points as coordinates.
pub open spec fn outcome(result: Result<Vec<(i64, i64)>, TraceError>) -> Result<
    Seq<(int, int)>,
    TraceError,
> {
    match result {
        Ok(points) => Ok(coords(points@)),
        Err(error) => Err(error),
    }
}

/// Two positions are neighbours: they differ by at most one along each axis
/// and are not the same.
pub open spec fn touches(p: (int, int), q: (int, int)) -> bool {
    &&& -1 <= p.0 - q.0 <= 1
    &&& -1 <= p.1 - q.1 <= 1
    &&& p != q
}

/// A polygon that ends where it begins, with at least one point between, and
/// whose every point is a pixel of the raster that is not background and a
/// neighbour of the point before it.
pub open spec fn is_boundary(r: RasterView, contour: Seq<(int, int)>) -> bool {
    &&& contour.len() >= 3
    &&& contour.last() == contour[0]
    &&& forall|i: int|
        0 <= i < contour.len() ==> r.contains(#[trigger] contour[i]) && r.at(contour[i])
            != BACKGROUND
    &&& forall|i: int| 0 <= i < contour.len() - 1 ==> #[trigger] follows(contour, i)
}

/// Point `i + 1` of the contour is a neighbour of point `i`.
pub open spec fn follows(contour: Seq<(int, int)>, i: int) -> bool {
    touches(contour[i], contour[i + 1])
}

/// The raster has one first foreground pixel at most.
pub proof fn lemma_start_unique(r: RasterView, p: (int, int), q: (int, int))
    requires
        is_start(r, p),
        is_start(r, q),
    ensures
        p == q,
{
    if p != q {
        assert(precedes(p, q) || precedes(q, p));
    }
}

/// A walk that ends well extends what was recorded before it began, and
/// ends on its first point.
pub proof fn lemma_walk_closes(
    r: RasterView,
    pos: (int, int),
    heading: Direction,
    contour: Seq<(int, int)>,
    fuel: nat,
)
    requires
        walk(r, pos, heading, contour, fuel) is Ok,
    ensures
        ({
            let closed = walk(r, pos, heading, contour, fuel)->Ok_0;
            &&& closed.len() > contour.len()
            &&& closed.subrange(0, contour.len() as int) == contour
            &&& closed.last() == closed[0]
        }),
    decreases fuel,
{
    if contour.len() > 0 && contour[0] == pos {
        assert(contour.push(pos).subrange(0, contour.len() as int) =~= contour);
    } else {
        let longer = next_contour(r, pos, heading, contour);
        lemma_walk_closes(
            r,
            next_position(r, pos, heading),
            next_heading(r, pos, heading),
            longer,
            (fuel - 1) as nat,
        );
        let closed = walk(r, pos, heading, contour, fuel)->Ok_0;
        assert(closed.subrange(0, contour.len() as int) =~= closed.subrange(
            0,
            longer.len() as int,
        ).subrange(0, contour.len() as int));
        assert(longer.subrange(0, contour.len() as int) =~= contour);
    }
}

/// A walk never reports that the raster has no foreground.
pub proof fn lemma_walk_has_a_start(
    r: RasterView,
    pos: (int, int),
    heading: Direction,
    contour: Seq<(int, int)>,
    fuel: nat,
)
    ensures
        walk(r, pos, heading, contour, fuel) != Err::<Seq<(int, int)>, TraceError>(
            TraceError::NoForegroundPixel,
        ),
    decreases fuel,
{
    if !(contour.len() > 0 && contour[0] == pos) && fuel != 0 && probes_inside(r, pos, heading) {
        lemma_walk_has_a_start(
            r,
            next_position(r, pos, heading),
            next_heading(r, pos, heading),
            next_contour(r, pos, heading, contour),
            (fuel - 1) as nat,
        );
    }
}

/// What holds of a walk between two steps when it began on a pixel that is
/// not background with nothing recorded: it stands on such a pixel, every
/// recorded point is one, each is a neighbour of the one before, and the
/// position is a neighbour of the last.
pub open spec fn on_track(r: RasterView, pos: (int, int), contour: Seq<(int, int)>) -> bool {
    &&& r.contains(pos)
    &&& r.at(pos) != BACKGROUND
    &&& forall|i: int|
        0 <= i < contour.len() ==> r.contains(#[trigger] contour[i]) && r.at(contour[i])
            != BACKGROUND
    &&& forall|i: int| 0 <= i < contour.len() - 1 ==> #[trigger] follows(contour, i)
    &&& contour.len() > 0 ==> touches(contour.last(), pos)
}

/// A walk that keeps to the track and ends well returns a boundary.
pub proof fn lemma_walk_is_boundary(
    r: RasterView,
    pos: (int, int),
    heading: Direction,
    contour: Seq<(int, int)>,
    fuel: nat,
)
    requires
        on_track(r, pos, contour),
        walk(r, pos, heading, contour, fuel) is Ok,
    ensures
        is_boundary(r, walk(r, pos, heading, contour, fuel)->Ok_0),
    decreases fuel,
{
    if contour.len() > 0 && contour[0] == pos {
        let closed = contour.push(pos);
        assert forall|i: int| 0 <= i < closed.len() - 1 implies #[trigger] follows(closed, i) by {
            if i < contour.len() - 1 {
                assert(follows(contour, i));
            }
        }
        assert(contour.len() >= 2);
    } else {
        let longer = next_contour(r, pos, heading, contour);
        let onward = next_position(r, pos, heading);
        assert forall|i: int| 0 <= i < longer.len() - 1 implies #[trigger] follows(longer, i) by {
            if i < contour.len() - 1 {
                assert(follows(contour, i));
            }
        }
        assert(on_track(r, onward, longer));
        lemma_walk_is_boundary(r, onward, next_heading(r, pos, heading), longer, (fuel - 1) as nat);
    }
}

/// The contour of a raster, when there is one, is a boundary.
pub proof fn lemma_trace_is_boundary(r: RasterView)
    requires
        trace(r) is Ok,
    ensures
        is_boundary(r, trace(r)->Ok_0),
{
    let witness = choose|p: (int, int)| r.contains(p) && #[trigger] r.at(p) == FOREGROUND;
    lemma_start_exists(r, witness, witness.1 * r.width + witness.0);
    let start = choose|p: (int, int)| is_start(r, p);
    lemma_walk_is_boundary(r, start, Direction::Right, Seq::empty(), step_budget(r));
}

/// A raster with a foreground pixel has a first one.
proof fn lemma_start_exists(r: RasterView, p: (int, int), rank: int)
    requires
        r.contains(p),
        r.at(p) == FOREGROUND,
        rank == p.1 * r.width + p.0,
    ensures
        exists|s: (int, int)| is_start(r, s),
    decreases rank,
{
    if exists|q: (int, int)| r.contains(q) && #[trigger] precedes(q, p) && r.at(q) == FOREGROUND {
        let q = choose|q: (int, int)|
            r.contains(q) && #[trigger] precedes(q, p) && r.at(q) == FOREGROUND;
        let lower = q.1 * r.width + q.0;
        assert(0 <= lower < rank) by (nonlinear_arith)
            requires
                lower == q.1 * r.width + q.0,
                rank == p.1 * r.width + p.0,
                0 <= q.0 < r.width,
                0 <= p.0 < r.width,
                0 <= q.1,
                q.1 < p.1 || (q.1 == p.1 && q.0 < p.0),
        ;
        lemma_start_exists(r, q, lower);
    } else {
        assert(is_start(r, p));
    }
}

/// The position `steps` pixels ahead of `pos`.
pub open spec fn along(pos: (int, int), heading: Direction, steps: int) -> (int, int) {
    match heading {
        Direction::Right => (pos.0, pos.1 + steps),
        Direction::Down => (pos.0 + steps, pos.1),
        Direction::Left => (pos.0, pos.1 - steps),
        Direction::Up => (pos.0 - steps, pos.1),
    }
}

/// The positions that a walk records while it advances `steps` times.
pub open spec fn run(pos: (int, int), heading: Direction, steps: nat) -> Seq<(int, int)> {
    Seq::new(steps, |i: int| along(pos, heading, i))
}

/// A walk that can advance `steps` times in a row does so, and records each
/// position that it leaves.
pub proof fn lemma_walk_runs(
    r: RasterView,
    pos: (int, int),
    heading: Direction,
    contour: Seq<(int, int)>,
    fuel: nat,
    steps: nat,
)
    requires
        steps <= fuel,
        forall|i: int|
            0 <= i < steps ==> probes_inside(r, #[trigger] along(pos, heading, i), heading)
                && advances(r, along(pos, heading, i), heading),
        forall|i: int|
            0 <= i < steps && contour.len() > 0 ==> contour[0] != #[trigger] along(
                pos,
                heading,
                i,
            ),
    ensures
        walk(r, pos, heading, contour, fuel) == walk(
            r,
            along(pos, heading, steps as int),
            heading,
            contour + run(pos, heading, steps),
            (fuel - steps) as nat,
        ),
    decreases steps,
{
    if steps == 0 {
        assert(contour + run(pos, heading, steps) =~= contour);
        assert(along(pos, heading, 0) == pos);
    } else {
        let onward = shifted(pos, heading.ahead());
        let longer = contour.push(pos);
        let fewer = (steps - 1) as nat;
        assert(along(pos, heading, 0) == pos);
        assert(onward == along(pos, heading, 1));
        assert forall|i: int| 0 <= i < fewer implies probes_inside(
            r,
            #[trigger] along(onward, heading, i),
            heading,
        ) && advances(r, along(onward, heading, i), heading) && longer[0] != along(
            onward,
            heading,
            i,
        ) by {
            assert(along(onward, heading, i) == along(pos, heading, i + 1));
        }
        lemma_walk_runs(r, onward, heading, longer, (fuel - 1) as nat, fewer);
        assert(along(onward, heading, fewer as int) == along(pos, heading, steps as int));
        assert(longer + run(onward, heading, fewer) =~= contour + run(pos, heading, steps)) by {
            assert forall|i: int| 0 <= i < fewer implies run(onward, heading, fewer)[i] == run(
                pos,
                heading,
                steps,
            )[i + 1] by {
                assert(along(onward, heading, i) == along(pos, heading, i + 1));
            }
        }
    }
}

/// `p` lies in the square of the given side whose first pixel is
/// `(left, top)`.
pub open spec fn in_square(p: (int, int), left: int, top: int, side: int) -> bool {
    left <= p.0 < left + side && top <= p.1 < top + side
}

/// The raster is background but for a filled square of foreground that
/// touches none of its four edges.
pub open spec fn holds_square(r: RasterView, left: int, top: int, side: int) -> bool {
    &&& 1 <= left
    &&& 1 <= top
    &&& left + side < r.width
    &&& top + side < r.height
    &&& forall|p: (int, int)|
        r.contains(p) ==> #[trigger] r.at(p) == if in_square(p, left, top, side) {
            FOREGROUND
        } else {
            BACKGROUND
        }
}

/// The outline of a square, pixel by pixel: along the side through its first
/// pixel first, then around the other three, and back onto the first pixel.
pub open spec fn square_outline(left: int, top: int, side: int) -> Seq<(int, int)> {
    let m = (side - 1) as nat;
    run((left, top), Direction::Right, m) + run((left, top + m), Direction::Down, m) + run(
        (left + m, top + m),
        Direction::Left,
        m,
    ) + run((left + m, top), Direction::Up, m) + seq![(left, top)]
}

/// The contour of a filled square of two pixels or more a side is its
/// outline: `4 * (side - 1)` pixels and the first of them once more.
pub proof fn lemma_square_is_traced(r: RasterView, left: int, top: int, side: int)
    requires
        side >= 2,
        holds_square(r, left, top, side),
    ensures
        trace(r) == Ok::<Seq<(int, int)>, TraceError>(square_outline(left, top, side)),
        square_outline(left, top, side).len() == 4 * (side - 1) + 1,
{
    let m = (side - 1) as nat;
    let first = (left, top);
    let second = (left, top + m);
    let third = (left + m, top + m);
    let fourth = (left + m, top);
    let budget = step_budget(r);
    assert(r.contains(first) && r.at(first) == FOREGROUND);
    assert(is_start(r, first)) by {
        assert forall|q: (int, int)| r.contains(q) && #[trigger] precedes(q, first) implies r.at(q)
            != FOREGROUND by {
            assert(!in_square(q, left, top, side));
        }
    }
    lemma_start_unique(r, first, choose|p: (int, int)| is_start(r, p));
    let none = Seq::<(int, int)>::empty();
    let one = none + run(first, Direction::Right, m);
    let two = one + run(second, Direction::Down, m);
    let three = two + run(third, Direction::Left, m);
    let four = three + run(fourth, Direction::Up, m);
    assert(one.len() == m && two.len() == 2 * m && three.len() == 3 * m && four.len() == 4 * m);
    assert(one[0] == along(first, Direction::Right, 0));
    assert(one[0] == first && two[0] == first && three[0] == first && four[0] == first);

    assert forall|i: int| 0 <= i < m implies probes_inside(
        r,
        #[trigger] along(first, Direction::Right, i),
        Direction::Right,
    ) && advances(r, along(first, Direction::Right, i), Direction::Right) by {
        let p = along(first, Direction::Right, i);
        assert(in_square(shifted(p, Direction::Right.ahead()), left, top, side));
        assert(!in_square(shifted(p, Direction::Right.outer()), left, top, side));
    }
    lemma_walk_runs(r, first, Direction::Right, none, budget, m);
    assert(along(first, Direction::Right, m as int) == second);
    lemma_corner(r, second, Direction::Right, one, (budget - m) as nat, left, top, side);

    assert forall|i: int| 0 <= i < m implies probes_inside(
        r,
        #[trigger] along(second, Direction::Down, i),
        Direction::Down,
    ) && advances(r, along(second, Direction::Down, i), Direction::Down) && one[0] != along(
        second,
        Direction::Down,
        i,
    ) by {
        let p = along(second, Direction::Down, i);
        assert(in_square(shifted(p, Direction::Down.ahead()), left, top, side));
        assert(!in_square(shifted(p, Direction::Down.outer()), left, top, side));
    }
    lemma_walk_runs(r, second, Direction::Down, one, (budget - m - 1) as nat, m);
    assert(along(second, Direction::Down, m as int) == third);
    lemma_corner(r, third, Direction::Down, two, (budget - 2 * m - 1) as nat, left, top, side);

    assert forall|i: int| 0 <= i < m implies probes_inside(
        r,
        #[trigger] along(third, Direction::Left, i),
        Direction::Left,
    ) && advances(r, along(third, Direction::Left, i), Direction::Left) && two[0] != along(
        third,
        Direction::Left,
        i,
    ) by {
        let p = along(third, Direction::Left, i);
        assert(in_square(shifted(p, Direction::Left.ahead()), left, top, side));
        assert(!in_square(shifted(p, Direction::Left.outer()), left, top, side));
    }
    lemma_walk_runs(r, third, Direction::Left, two, (budget - 2 * m - 2) as nat, m);
    assert(along(third, Direction::Left, m as int) == fourth);
    lemma_corner(r, fourth, Direction::Left, three, (budget - 3 * m - 2) as nat, left, top, side);

    assert forall|i: int| 0 <= i < m implies probes_inside(
        r,
        #[trigger] along(fourth, Direction::Up, i),
        Direction::Up,
    ) && advances(r, along(fourth, Direction::Up, i), Direction::Up) && three[0] != along(
        fourth,
        Direction::Up,
        i,
    ) by {
        let p = along(fourth, Direction::Up, i);
        assert(in_square(shifted(p, Direction::Up.ahead()), left, top, side));
        assert(!in_square(shifted(p, Direction::Up.outer()), left, top, side));
    }
    lemma_walk_runs(r, fourth, Direction::Up, three, (budget - 3 * m - 3) as nat, m);
    assert(along(fourth, Direction::Up, m as int) == first);
    assert(walk(r, first, Direction::Up, four, (budget - 4 * m - 3) as nat) == Ok::<
        Seq<(int, int)>,
        TraceError,
    >(four.push(first)));
    assert(four.push(first) =~= square_outline(left, top, side));
}

/// At the last pixel of a side of the square the walk rotates in place.
proof fn lemma_corner(
    r: RasterView,
    pos: (int, int),
    heading: Direction,
    contour: Seq<(int, int)>,
    fuel: nat,
    left: int,
    top: int,
    side: int,
)
    requires
        side >= 2,
        holds_square(r, left, top, side),
        fuel > 0,
        contour.len() > 0,
        contour[0] != pos,
        in_square(pos, left, top, side),
        !in_square(shifted(pos, heading.ahead()), left, top, side),
        !in_square(shifted(pos, heading.outer()), left, top, side),
    ensures
        walk(r, pos, heading, contour, fuel) == walk(
            r,
            pos,
            heading.clockwise(),
            contour,
            (fuel - 1) as nat,
        ),
{
    assert(r.contains(shifted(pos, heading.ahead())));
    assert(r.contains(shifted(pos, heading.outer())));
}

/// Follows the boundary from `(x, y)` with the given heading, adding to the
/// points already in `contour`, until the position is the first point of the
/// contour; that point then closes it. The walk may take twice the raster's
/// perimeter in steps.
pub fn follow_contour(
    img: &Raster,
    x: i64,
    y: i64,
    direction: Direction,
    contour: Vec<(i64, i64)>,
) -> (result: Result<Vec<(i64, i64)>, TraceError>)
    ensures
        outcome(result) == walk(
            img@,
            (x as int, y as int),
            direction,
            coords(contour@),
            step_budget(img@),
        ),
{
    let width = img.width();
    let height = img.height();
    let ghost r = img@;
    let ghost whole = walk(r, (x as int, y as int), direction, coords(contour@), step_budget(r));
    let mut fuel: u64 = 4 * (width as u64 + height as u64);
    let mut px = x;
    let mut py = y;
    let mut heading = direction;
    let mut points = contour;
    loop
        invariant
            r == img@,
            r.width == width,
            r.height == height,
            whole == walk(
                img@,
                (x as int, y as int),
                direction,
                coords(contour@),
                step_budget(img@),
            ),
            whole == walk(r, (px as int, py as int), heading, coords(points@), fuel as nat),
        decreases fuel,
    {
        let ghost pos = (px as int, py as int);
        let ghost facing = heading;
        let ghost recorded = coords(points@);
        if points.len() > 0 && points[0].0 == px && points[0].1 == py {
            points.push((px, py));
            proof {
                assert(recorded[0] == pos);
                assert(coords(points@) =~= recorded.push(pos));
            }
            return Ok(points);
        }
        proof {
            if recorded.len() > 0 {
                assert(recorded[0] != pos);
            }
        }
        if fuel == 0 {
            return Err(TraceError::TraceDidNotClose);
        }
        let ahead = heading.ahead();
        let outer = heading.outer();
        if px < -1 || px > u32::MAX as i64 || py < -1 || py > u32::MAX as i64 {
            assert(!r.contains(shifted(pos, heading.ahead())));
            return Err(TraceError::OutOfBounds);
        }
        let next = img.get(px + ahead.0, py + ahead.1);
        let beside = img.get(px + outer.0, py + outer.1);
        let (next, beside) = match (next, beside) {
            (Some(next), Some(beside)) => (next, beside),
            _ => {
                return Err(TraceError::OutOfBounds);
            },
        };
        if next == FOREGROUND && beside == BACKGROUND {
            points.push((px, py));
            px = px + ahead.0;
            py = py + ahead.1;
        } else if beside != BACKGROUND {
            points.push((px, py));
            px = px + outer.0;
            py = py + outer.1;
            heading = heading.counter_clockwise();
        } else {
            heading = heading.clockwise();
        }
        fuel = fuel - 1;
        proof {
            assert(coords(points@) =~= next_contour(r, pos, facing, recorded));
        }
    }
}

/// Traces the boundary of the first foreground region of the raster, read
/// row by row: the walk starts on its first foreground pixel, heading
/// `Right`. A polygon that comes back is closed and is a boundary of the
/// raster.
pub fn find_contour(image: &Raster) -> (result: Result<Vec<(i64, i64)>, TraceError>)
    ensures
        outcome(result) == trace(image@),
        result == Err::<Vec<(i64, i64)>, TraceError>(TraceError::NoForegroundPixel)
            <==> !has_foreground(image@),
        result matches Ok(points) ==> is_boundary(image@, coords(points@)),
{
    let ghost r = image@;
    let width = image.width();
    let height = image.height();
    let mut y: u32 = 0;
    while y < height
        invariant
            r == image@,
            width == r.width,
            height == r.height,
            y <= height,
            forall|q: (int, int)| r.contains(q) && q.1 < y ==> #[trigger] r.at(q) != FOREGROUND,
        decreases height - y,
    {
        let mut x: u32 = 0;
        while x < width
            invariant
                r == image@,
                width == r.width,
                height == r.height,
                y < height,
                x <= width,
                forall|q: (int, int)| r.contains(q) && q.1 < y ==> #[trigger] r.at(q) != FOREGROUND,
                forall|q: (int, int)|
                    r.contains(q) && q.1 == y && q.0 < x ==> #[trigger] r.at(q) != FOREGROUND,
            decreases width - x,
        {
            if image.get(x as i64, y as i64) == Some(FOREGROUND) {
                let ghost start = (x as int, y as int);
                proof {
                    assert(is_start(r, start));
                    assert(has_foreground(r));
                    lemma_start_unique(r, start, choose|p: (int, int)| is_start(r, p));
                }
                let result = follow_contour(image, x as i64, y as i64, Direction::Right, Vec::new());
                proof {
                    assert(coords(Seq::<(i64, i64)>::empty()) =~= Seq::<(int, int)>::empty());
                    lemma_walk_has_a_start(r, start, Direction::Right, Seq::empty(), step_budget(r));
                    if result is Ok {
                        lemma_trace_is_boundary(r);
                    }
                }
                return result;
            }
            x = x + 1;
        }
        y = y + 1;
    }
    Err(TraceError::NoForegroundPixel)
}

} // verus!
