//! Polygon simplification after Ramer, Douglas and Peucker.
//!
//! A path is reduced to the points that stray from the chord between their
//! neighbours by more than a tolerance. Points have integer coordinates and
//! every distance is an exact fraction, so no rounding enters a decision.
//! Distances are squared throughout: the tolerance bounds the square of the
//! perpendicular distance.

use vstd::prelude::*;

verus! {

/// A point `(x, y)`.
pub type Point = (i64, i64);

/// The largest magnitude of a coordinate that the simplifier accepts. Within
/// it every intermediate value of the distance arithmetic fits 128 bits.
pub const COORDINATE_LIMIT: i64 = 0x4000_0000;

/// Why a simplification produced no path.
#[derive(Clone, Copy, Debug, PartialEq, Eq, Structural)]
pub enum SimplifyError {
    /// The path has fewer points than a chord needs.
    DegeneratePath,
    /// A coordinate of the path is larger in magnitude than `COORDINATE_LIMIT`.
    CoordinateOutOfRange,
}

/// A tolerance: the non-negative fraction `numer / denom`.
#[derive(Clone, Copy, Debug, PartialEq, Eq)]
pub struct Tolerance {
    numer: u32,
    denom: u32,
}

impl Tolerance {
    /// The numerator of the fraction.
    pub closed spec fn numer(self) -> nat {
        self.numer as nat
    }

    /// The denominator of the fraction.
    pub closed spec fn denom(self) -> nat {
        self.denom as nat
    }

    #[verifier::type_invariant]
    closed spec fn positive_denominator(self) -> bool {
        self.denom > 0
    }

    /// The tolerance `numer / denom`, or `None` when `denom` is zero.
    pub fn new(numer: u32, denom: u32) -> (tolerance: Option<Tolerance>)
        ensures
            tolerance is Some <==> denom > 0,
            tolerance matches Some(t) ==> t.numer() == numer && t.denom() == denom,
    {
        if denom == 0 {
            None
        } else {
            Some(Tolerance { numer, denom })
        }
    }
}

/// Both coordinates of `p` are within `COORDINATE_LIMIT` of zero.
pub open spec fn in_range(p: Point) -> bool {
    &&& -COORDINATE_LIMIT <= p.0 <= COORDINATE_LIMIT
    &&& -COORDINATE_LIMIT <= p.1 <= COORDINATE_LIMIT
}

/// Every point of `path` is in range.
pub open spec fn all_in_range(path: Seq<Point>) -> bool {
    forall|i: int| 0 <= i < path.len() ==> in_range(#[trigger] path[i])
}

/// The square of the distance between two points.
pub open spec fn squared_distance(p: Point, q: Point) -> int {
    (q.0 - p.0) * (q.0 - p.0) + (q.1 - p.1) * (q.1 - p.1)
}

/// Twice the signed area of the triangle `a`, `b`, `p`: zero exactly when `p`
/// lies on the line through `a` and `b`.
pub open spec fn cross(p: Point, a: Point, b: Point) -> int {
    (b.1 - a.1) * p.0 - (b.0 - a.0) * p.1 + b.0 * a.1 - b.1 * a.0
}

/// The numerator of the squared perpendicular distance of `p` from the line
/// through `a` and `b`. Where `a` and `b` coincide there is no line, and the
/// distance is that from `p` to the one point.
pub open spec fn deviation_numer(p: Point, a: Point, b: Point) -> int {
    if a == b {
        squared_distance(p, a)
    } else {
        cross(p, a, b) * cross(p, a, b)
    }
}

/// The denominator that goes with `deviation_numer`: it depends on the line
/// alone.
pub open spec fn deviation_denom(a: Point, b: Point) -> int {
    if a == b {
        1
    } else {
        squared_distance(a, b)
    }
}

/// The fraction `numer / denom` is larger than the tolerance.
pub open spec fn exceeds(numer: int, denom: int, tolerance: Tolerance) -> bool {
    numer * tolerance.denom() > tolerance.numer() * denom
}

proof fn lemma_product_bound(a: int, b: int, m: int, n: int)
    by (nonlinear_arith)
    requires
        -m <= a <= m,
        -n <= b <= n,
    ensures
        -(m * n) <= a * b <= m * n,
{
}

/// The square of the distance between two points.
pub fn distance2(point: Point, other: Point) -> (d: u128)
    requires
        in_range(point),
        in_range(other),
    ensures
        d == squared_distance(point, other),
        d <= 0x8000_0000_0000_0000,
{
    let dx: i128 = other.0 as i128 - point.0 as i128;
    let dy: i128 = other.1 as i128 - point.1 as i128;
    proof {
        lemma_product_bound(dx as int, dx as int, 0x8000_0000, 0x8000_0000);
        lemma_product_bound(dy as int, dy as int, 0x8000_0000, 0x8000_0000);
        assert(dx * dx >= 0) by (nonlinear_arith);
        assert(dy * dy >= 0) by (nonlinear_arith);
    }
    (dx * dx + dy * dy) as u128
}

/// The squared perpendicular distance of `point` from the line through the
/// two points of `line`, as the fraction `d.0 / d.1`. Where the two points
/// coincide it is the squared distance from `point` to them.
pub fn perpendicular_distance(point: Point, line: (Point, Point)) -> (d: (u128, u128))
    requires
        in_range(point),
        in_range(line.0),
        in_range(line.1),
    ensures
        d.0 == deviation_numer(point, line.0, line.1),
        d.1 == deviation_denom(line.0, line.1),
        d.0 <= 0x4000_0000_0000_0000_0000_0000_0000_0000,
        0 < d.1 <= 0x8000_0000_0000_0000,
{
    let (a, b) = line;
    if a.0 == b.0 && a.1 == b.1 {
        (distance2(point, a), 1)
    } else {
        let dx: i128 = b.0 as i128 - a.0 as i128;
        let dy: i128 = b.1 as i128 - a.1 as i128;
        let px: i128 = point.0 as i128;
        let py: i128 = point.1 as i128;
        let ax: i128 = a.0 as i128;
        let ay: i128 = a.1 as i128;
        let bx: i128 = b.0 as i128;
        let by: i128 = b.1 as i128;
        proof {
            lemma_product_bound(dy as int, px as int, 0x8000_0000, 0x4000_0000);
            lemma_product_bound(dx as int, py as int, 0x8000_0000, 0x4000_0000);
            lemma_product_bound(bx as int, ay as int, 0x4000_0000, 0x4000_0000);
            lemma_product_bound(by as int, ax as int, 0x4000_0000, 0x4000_0000);
        }
        let area: i128 = dy * px - dx * py + bx * ay - by * ax;
        proof {
            lemma_product_bound(
                area as int,
                area as int,
                0x6000_0000_0000_0000,
                0x6000_0000_0000_0000,
            );
            assert(area * area >= 0) by (nonlinear_arith);
            assert(dx * dx + dy * dy > 0) by (nonlinear_arith)
                requires
                    dx != 0 || dy != 0,
            ;
        }
        ((area * area) as u128, distance2(a, b))
    }
}

/// Whether the fraction `numer / denom` is larger than the tolerance.
fn exceeds_tolerance(numer: u128, denom: u128, tolerance: Tolerance) -> (over: bool)
    requires
        denom <= 0x8000_0000_0000_0000,
    ensures
        over == exceeds(numer as int, denom as int, tolerance),
{
    proof {
        use_type_invariant(&tolerance);
        lemma_product_bound(
            tolerance.numer as int,
            denom as int,
            0xffff_ffff,
            0x8000_0000_0000_0000,
        );
    }
    if numer >= 0x8000_0000_0000_0000_0000_0000 {
        proof {
            assert(numer * tolerance.denom >= numer) by (nonlinear_arith)
                requires
                    tolerance.denom >= 1,
                    numer >= 0,
            ;
        }
        true
    } else {
        proof {
            lemma_product_bound(
                numer as int,
                tolerance.denom as int,
                0x8000_0000_0000_0000_0000_0000,
                0xffff_ffff,
            );
        }
        numer * (tolerance.denom as u128) > (tolerance.numer as u128) * denom
    }
}

/// The numerator of the squared perpendicular distance of point `j` of the
/// path from the chord between its points `lo` and `hi`.
pub open spec fn deviation(path: Seq<Point>, lo: int, hi: int, j: int) -> int {
    deviation_numer(path[j], path[lo], path[hi])
}

/// `k` is the point strictly between `lo` and `hi` that lies farthest from
/// their chord; among several at that distance, the first.
pub open spec fn is_farthest(path: Seq<Point>, lo: int, hi: int, k: int) -> bool {
    &&& lo < k < hi
    &&& forall|j: int| lo < j < hi ==> #[trigger] deviation(path, lo, hi, j) <= deviation(path, lo, hi, k)
    &&& forall|j: int| lo < j < k ==> #[trigger] deviation(path, lo, hi, j) < deviation(path, lo, hi, k)
}

/// The point that `is_farthest` describes.
pub open spec fn farthest(path: Seq<Point>, lo: int, hi: int) -> int {
    choose|k: int| is_farthest(path, lo, hi, k)
}

/// The span from `lo` to `hi` has a point between its ends whose distance
/// from the chord is larger than the tolerance: the span is split at its
/// farthest point.
pub open spec fn splits(path: Seq<Point>, tolerance: Tolerance, lo: int, hi: int) -> bool {
    &&& lo < farthest(path, lo, hi) < hi
    &&& exceeds(
        deviation(path, lo, hi, farthest(path, lo, hi)),
        deviation_denom(path[lo], path[hi]),
        tolerance,
    )
}

/// The indices that the simplification keeps of the span from `lo` to `hi`,
/// in order. A span that is not split keeps its two ends. A split span keeps
/// what its two halves keep, the farthest point once.
pub open spec fn kept(path: Seq<Point>, tolerance: Tolerance, lo: int, hi: int) -> Seq<int>
    decreases hi - lo,
{
    if splits(path, tolerance, lo, hi) {
        let k = farthest(path, lo, hi);
        kept(path, tolerance, lo, k).drop_last() + kept(path, tolerance, k, hi)
    } else {
        seq![lo, hi]
    }
}

/// The points of `path` at the given indices.
pub open spec fn select(path: Seq<Point>, indices: Seq<int>) -> Seq<Point> {
    indices.map_values(|i: int| path[i])
}

/// The simplification of a path of two points or more.
pub open spec fn simplified(path: Seq<Point>, tolerance: Tolerance) -> Seq<Point> {
    select(path, kept(path, tolerance, 0, path.len() - 1))
}

/// No two points are the farthest of one span.
pub proof fn lemma_farthest_unique(path: Seq<Point>, lo: int, hi: int, k: int)
    requires
        is_farthest(path, lo, hi, k),
    ensures
        farthest(path, lo, hi) == k,
{
    let other = farthest(path, lo, hi);
    assert(is_farthest(path, lo, hi, other));
    if other < k {
        assert(deviation(path, lo, hi, other) < deviation(path, lo, hi, k));
        assert(deviation(path, lo, hi, k) <= deviation(path, lo, hi, other));
    } else if k < other {
        assert(deviation(path, lo, hi, k) < deviation(path, lo, hi, other));
        assert(deviation(path, lo, hi, other) <= deviation(path, lo, hi, k));
    }
}

/// Finds the farthest point strictly between `lo` and `hi` and returns its
/// index with its squared distance from the chord, as a fraction.
fn farthest_between(path: &Vec<Point>, lo: usize, hi: usize) -> (found: (usize, (u128, u128)))
    requires
        lo + 2 <= hi < path@.len(),
        all_in_range(path@),
    ensures
        is_farthest(path@, lo as int, hi as int, found.0 as int),
        found.1.0 == deviation(path@, lo as int, hi as int, found.0 as int),
        found.1.1 == deviation_denom(path@[lo as int], path@[hi as int]),
        0 < found.1.1 <= 0x8000_0000_0000_0000,
{
    let line = (path[lo], path[hi]);
    let mut index: usize = lo + 1;
    let mut max_distance: (u128, u128) = perpendicular_distance(path[index], line);
    let mut i: usize = lo + 2;
    while i < hi
        invariant
            lo < index < i <= hi < path@.len(),
            all_in_range(path@),
            line == (path@[lo as int], path@[hi as int]),
            max_distance.0 == deviation(path@, lo as int, hi as int, index as int),
            max_distance.1 == deviation_denom(path@[lo as int], path@[hi as int]),
            0 < max_distance.1 <= 0x8000_0000_0000_0000,
            forall|j: int|
                lo < j < i ==> #[trigger] deviation(path@, lo as int, hi as int, j) <= max_distance.0,
            forall|j: int|
                lo < j < index ==> #[trigger] deviation(path@, lo as int, hi as int, j)
                    < max_distance.0,
        decreases hi - i,
    {
        let d = perpendicular_distance(path[i], line);
        if d.0 > max_distance.0 {
            index = i;
            max_distance = d;
        }
        i = i + 1;
    }
    (index, max_distance)
}

/// The indices that the spans still on the stack will keep, each span
/// without its last: the span above it on the stack, or the end of the
/// path, brings that one.
spec fn pending(path: Seq<Point>, tolerance: Tolerance, stack: Seq<(usize, usize)>) -> Seq<int>
    decreases stack.len(),
{
    if stack.len() == 0 {
        Seq::empty()
    } else {
        kept(path, tolerance, stack.last().0 as int, stack.last().1 as int).drop_last() + pending(
            path,
            tolerance,
            stack.drop_last(),
        )
    }
}

/// Where the next span to work on begins; the end of the path when none is
/// left.
spec fn front(stack: Seq<(usize, usize)>, last: int) -> int {
    if stack.len() == 0 {
        last
    } else {
        stack.last().0 as int
    }
}

/// The length of the next span to work on.
spec fn front_length(stack: Seq<(usize, usize)>) -> int {
    if stack.len() == 0 {
        0
    } else {
        stack.last().1 - stack.last().0
    }
}

/// Simplifies the path: keeps its two ends, and of the points between them
/// the farthest from the chord wherever that one strays by more than the
/// tolerance, splitting the path there and going on in both halves.
pub fn ramer_douglas_peucker(path: Vec<Point>, tolerance: Tolerance) -> (result: Result<
    Vec<Point>,
    SimplifyError,
>)
    ensures
        path@.len() < 2 ==> result == Err::<Vec<Point>, SimplifyError>(
            SimplifyError::DegeneratePath,
        ),
        path@.len() >= 2 && !all_in_range(path@) ==> result == Err::<Vec<Point>, SimplifyError>(
            SimplifyError::CoordinateOutOfRange,
        ),
        path@.len() >= 2 && all_in_range(path@) ==> (result matches Ok(points) && points@
            == simplified(path@, tolerance)),
        result matches Ok(points) ==> points@.len() >= 2 && points@[0] == path@[0]
            && points@.last() == path@.last(),
{
    if path.len() < 2 {
        return Err(SimplifyError::DegeneratePath);
    }
    if !within_limit(&path) {
        return Err(SimplifyError::CoordinateOutOfRange);
    }
    let last: usize = path.len() - 1;
    let ghost whole = kept(path@, tolerance, 0, last as int);
    let mut out: Vec<Point> = Vec::new();
    let ghost mut emitted: Seq<int> = Seq::empty();
    let mut stack: Vec<(usize, usize)> = Vec::new();
    stack.push((0, last));
    proof {
        assert(stack@.drop_last() =~= Seq::<(usize, usize)>::empty());
        assert(pending(path@, tolerance, stack@) =~= whole.drop_last()) by {
            reveal_with_fuel(pending, 2);
        }
        lemma_kept_ends(path@, tolerance, 0, last as int);
        assert(emitted + pending(path@, tolerance, stack@) + seq![last as int] =~= whole);
    }
    while stack.len() > 0
        invariant
            last == path@.len() - 1,
            all_in_range(path@),
            whole == kept(path@, tolerance, 0, last as int),
            emitted + pending(path@, tolerance, stack@) + seq![last as int] == whole,
            out@ == select(path@, emitted),
            forall|i: int|
                0 <= i < stack@.len() ==> (#[trigger] stack@[i]).0 < stack@[i].1 <= last,
            forall|i: int|
                0 <= i < stack@.len() - 1 ==> (#[trigger] stack@[i]).0 == stack@[i + 1].1,
        decreases last - front(stack@, last as int), front_length(stack@),
    {
        let ghost below = stack@.drop_last();
        let ghost before = stack@;
        let (lo, hi) = stack.pop().unwrap();
        let ghost span = kept(path@, tolerance, lo as int, hi as int);
        proof {
            assert(stack@ =~= below);
            assert(before.last() == (lo, hi));
            assert(pending(path@, tolerance, before) == span.drop_last() + pending(
                path@,
                tolerance,
                below,
            ));
        }
        let mut cut: Option<usize> = None;
        if hi - lo >= 2 {
            let (index, max_distance) = farthest_between(&path, lo, hi);
            proof {
                lemma_farthest_unique(path@, lo as int, hi as int, index as int);
            }
            if exceeds_tolerance(max_distance.0, max_distance.1, tolerance) {
                cut = Some(index);
            }
        }
        match cut {
            Some(index) => {
                stack.push((index, hi));
                stack.push((lo, index));
                proof {
                    let left = kept(path@, tolerance, lo as int, index as int);
                    let right = kept(path@, tolerance, index as int, hi as int);
                    let upper = below.push((index, hi));
                    lemma_kept_ends(path@, tolerance, index as int, hi as int);
                    assert(span == left.drop_last() + right);
                    assert(span.drop_last() =~= left.drop_last() + right.drop_last());
                    assert(upper.drop_last() =~= below);
                    assert(stack@.drop_last() =~= upper);
                    assert(pending(path@, tolerance, upper) == right.drop_last() + pending(
                        path@,
                        tolerance,
                        below,
                    ));
                    assert(pending(path@, tolerance, stack@) == left.drop_last() + pending(
                        path@,
                        tolerance,
                        upper,
                    ));
                    assert(emitted + pending(path@, tolerance, stack@) + seq![last as int]
                        =~= emitted + pending(path@, tolerance, before) + seq![last as int]);
                }
            },
            None => {
                out.push(path[lo]);
                proof {
                    assert(!splits(path@, tolerance, lo as int, hi as int));
                    assert(span =~= seq![lo as int, hi as int]);
                    assert(span.drop_last() =~= seq![lo as int]);
                    let longer = emitted.push(lo as int);
                    assert(longer + pending(path@, tolerance, stack@) + seq![last as int]
                        =~= emitted + pending(path@, tolerance, before) + seq![last as int]);
                    assert(out@ =~= select(path@, longer));
                    emitted = longer;
                }
            },
        }
    }
    out.push(path[last]);
    proof {
        assert(pending(path@, tolerance, stack@) =~= Seq::<int>::empty());
        assert(emitted.push(last as int) =~= whole);
        assert(out@ =~= select(path@, whole));
        lemma_kept_ends(path@, tolerance, 0, last as int);
    }
    Ok(out)
}

/// Whether every point of the path is in range.
pub fn within_limit(path: &Vec<Point>) -> (inside: bool)
    ensures
        inside == all_in_range(path@),
{
    let mut i: usize = 0;
    while i < path.len()
        invariant
            i <= path@.len(),
            forall|j: int| 0 <= j < i ==> in_range(#[trigger] path@[j]),
        decreases path@.len() - i,
    {
        let p = path[i];
        if p.0 < -COORDINATE_LIMIT || p.0 > COORDINATE_LIMIT || p.1 < -COORDINATE_LIMIT || p.1
            > COORDINATE_LIMIT {
            return false;
        }
        i = i + 1;
    }
    true
}

/// A span keeps its two ends: its first kept index is `lo`, its last `hi`.
pub proof fn lemma_kept_ends(path: Seq<Point>, tolerance: Tolerance, lo: int, hi: int)
    ensures
        kept(path, tolerance, lo, hi).len() >= 2,
        kept(path, tolerance, lo, hi)[0] == lo,
        kept(path, tolerance, lo, hi).last() == hi,
    decreases hi - lo,
{
    if splits(path, tolerance, lo, hi) {
        let k = farthest(path, lo, hi);
        lemma_kept_ends(path, tolerance, lo, k);
        lemma_kept_ends(path, tolerance, k, hi);
    }
}

/// The square of the distance between points `i` and `j` of the path.
pub open spec fn gap(path: Seq<Point>, i: int, j: int) -> int {
    squared_distance(path[i], path[j])
}

/// Points `s` and `t` lie as far apart as any two points of the path, and no
/// pair that begins before `s` lies that far apart.
pub open spec fn is_widest_pair(path: Seq<Point>, s: int, t: int) -> bool {
    &&& 0 <= s < t < path.len()
    &&& forall|i: int, j: int| 0 <= i < j < path.len() ==> #[trigger] gap(path, i, j) <= gap(path, s, t)
    &&& forall|i: int, j: int|
        0 <= i < s && i < j < path.len() ==> #[trigger] gap(path, i, j) < gap(path, s, t)
}

/// `s` is the index at which a closed path is opened: the first index of its
/// widest pair. A path of one point is opened at that point.
pub open spec fn is_rotation_start(path: Seq<Point>, s: int) -> bool {
    if path.len() < 2 {
        s == 0
    } else {
        exists|t: int| is_widest_pair(path, s, t)
    }
}

/// The index that `is_rotation_start` describes.
pub open spec fn rotation_start(path: Seq<Point>) -> int {
    choose|s: int| is_rotation_start(path, s)
}

/// The path turned to begin at index `s`: from there to its end, then from
/// its beginning back to `s`, which so stands at both ends.
pub open spec fn rotated(path: Seq<Point>, s: int) -> Seq<Point> {
    path.subrange(s, path.len() as int) + path.subrange(0, s + 1)
}

/// The simplification of a closed path: that of the path opened at its
/// rotation start.
pub open spec fn closed_simplified(path: Seq<Point>, tolerance: Tolerance) -> Seq<Point> {
    simplified(rotated(path, rotation_start(path)), tolerance)
}

/// No two indices are the rotation start of one path.
pub proof fn lemma_rotation_start_unique(path: Seq<Point>, s: int)
    requires
        is_rotation_start(path, s),
    ensures
        rotation_start(path) == s,
{
    let other = rotation_start(path);
    assert(is_rotation_start(path, other));
    if path.len() >= 2 {
        let t = choose|t: int| is_widest_pair(path, s, t);
        let u = choose|u: int| is_widest_pair(path, other, u);
        if s < other {
            assert(gap(path, s, t) < gap(path, other, u));
            assert(gap(path, other, u) <= gap(path, s, t));
        } else if other < s {
            assert(gap(path, other, u) < gap(path, s, t));
            assert(gap(path, s, t) <= gap(path, other, u));
        }
    }
}

/// Finds the rotation start of a path.
fn widest_start(path: &Vec<Point>) -> (start_index: usize)
    requires
        all_in_range(path@),
    ensures
        is_rotation_start(path@, start_index as int),
        path@.len() > 0 ==> start_index < path@.len(),
{
    let n = path.len();
    let mut widest: u128 = 0;
    let mut start_index: usize = 0;
    let ghost mut partner: int = 0;
    let mut i: usize = 0;
    while i < n
        invariant
            n == path@.len(),
            all_in_range(path@),
            i <= n,
            forall|a: int, b: int| 0 <= a < i && a < b < n ==> #[trigger] gap(path@, a, b) <= widest,
            forall|a: int, b: int|
                0 <= a < start_index && a < b < n ==> #[trigger] gap(path@, a, b) < widest,
            (widest == 0 && start_index == 0) || (start_index < i && start_index < partner < n
                && gap(path@, start_index as int, partner) == widest),
        decreases n - i,
    {
        let mut j: usize = i + 1;
        while j < n
            invariant
                n == path@.len(),
                all_in_range(path@),
                i < n,
                i < j <= n,
                forall|a: int, b: int|
                    0 <= a < i && a < b < n ==> #[trigger] gap(path@, a, b) <= widest,
                forall|b: int| i < b < j ==> #[trigger] gap(path@, i as int, b) <= widest,
                forall|a: int, b: int|
                    0 <= a < start_index && a < b < n ==> #[trigger] gap(path@, a, b) < widest,
                (widest == 0 && start_index == 0) || (start_index <= i && start_index < partner
                    < n && gap(path@, start_index as int, partner) == widest),
            decreases n - j,
        {
            let distance = distance2(path[i], path[j]);
            if distance > widest {
                start_index = i;
                widest = distance;
                proof {
                    partner = j as int;
                }
            }
            j = j + 1;
        }
        i = i + 1;
    }
    proof {
        if n >= 2 {
            if widest == 0 && start_index == 0 {
                assert(gap(path@, 0, 1) <= widest);
                assert(gap(path@, 0, 1) >= 0) by (nonlinear_arith)
                    requires
                        gap(path@, 0, 1) == (path@[1].0 - path@[0].0) * (path@[1].0 - path@[0].0) + (
                        path@[1].1 - path@[0].1) * (path@[1].1 - path@[0].1),
                ;
                assert(is_widest_pair(path@, 0, 1));
            } else {
                assert(is_widest_pair(path@, start_index as int, partner));
            }
        }
    }
    start_index
}

/// Simplifies a closed path. The path is first opened at its rotation
/// start, the first index of the pair of its points that lie farthest apart,
/// and read from there to its end and on from its beginning back to that
/// point, which so stands at both ends; the opened path is then simplified
/// as by `ramer_douglas_peucker`.
pub fn polygon_ramer_douglas_peucker(path: Vec<Point>, tolerance: Tolerance) -> (result: Result<
    Vec<Point>,
    SimplifyError,
>)
    ensures
        path@.len() == 0 ==> result == Err::<Vec<Point>, SimplifyError>(
            SimplifyError::DegeneratePath,
        ),
        path@.len() > 0 && !all_in_range(path@) ==> result == Err::<Vec<Point>, SimplifyError>(
            SimplifyError::CoordinateOutOfRange,
        ),
        path@.len() > 0 && all_in_range(path@) ==> (result matches Ok(points) && points@
            == closed_simplified(path@, tolerance)),
        result matches Ok(points) ==> points@.len() >= 2 && points@[0] == points@.last()
            && points@[0] == path@[rotation_start(path@)],
{
    let n = path.len();
    if n == 0 {
        return Err(SimplifyError::DegeneratePath);
    }
    if !within_limit(&path) {
        return Err(SimplifyError::CoordinateOutOfRange);
    }
    let start_index = widest_start(&path);
    proof {
        lemma_rotation_start_unique(path@, start_index as int);
    }
    let mut v: Vec<Point> = Vec::new();
    let mut k: usize = start_index;
    while k < n
        invariant
            n == path@.len(),
            start_index <= k <= n,
            v@ == path@.subrange(start_index as int, k as int),
        decreases n - k,
    {
        v.push(path[k]);
        k = k + 1;
        proof {
            assert(v@ =~= path@.subrange(start_index as int, k as int));
        }
    }
    let ghost tail = v@;
    let mut k: usize = 0;
    while k <= start_index
        invariant
            n == path@.len(),
            start_index < n,
            k <= start_index + 1,
            v@ == tail + path@.subrange(0, k as int),
        decreases start_index + 1 - k,
    {
        v.push(path[k]);
        k = k + 1;
        proof {
            assert(v@ =~= tail + path@.subrange(0, k as int));
        }
    }
    proof {
        assert(v@ == rotated(path@, start_index as int));
        assert forall|i: int| 0 <= i < v@.len() implies in_range(#[trigger] v@[i]) by {
            if i < n - start_index {
                assert(v@[i] == path@[start_index + i]);
            } else {
                assert(v@[i] == path@[i - (n - start_index)]);
            }
        }
    }
    ramer_douglas_peucker(v, tolerance)
}

/// A span of three points or more has a farthest point.
pub proof fn lemma_farthest_exists(path: Seq<Point>, lo: int, hi: int)
    requires
        lo + 2 <= hi,
    ensures
        is_farthest(path, lo, hi, farthest(path, lo, hi)),
{
    let k = lemma_farthest_among(path, lo, hi, hi);
    assert(is_farthest(path, lo, hi, k));
}

proof fn lemma_farthest_among(path: Seq<Point>, lo: int, hi: int, end: int) -> (k: int)
    requires
        lo + 2 <= end,
    ensures
        lo < k < end,
        forall|j: int| lo < j < end ==> #[trigger] deviation(path, lo, hi, j) <= deviation(path, lo, hi, k),
        forall|j: int| lo < j < k ==> #[trigger] deviation(path, lo, hi, j) < deviation(path, lo, hi, k),
    decreases end - lo,
{
    if end == lo + 2 {
        lo + 1
    } else {
        let before = lemma_farthest_among(path, lo, hi, end - 1);
        if deviation(path, lo, hi, end - 1) > deviation(path, lo, hi, before) {
            end - 1
        } else {
            before
        }
    }
}

/// The kept indices of a span ascend from `lo` to `hi`: the simplification
/// takes points of the path in their order and takes none twice.
pub proof fn lemma_kept_ascends(path: Seq<Point>, tolerance: Tolerance, lo: int, hi: int, i: int)
    requires
        lo < hi,
        0 <= i < kept(path, tolerance, lo, hi).len() - 1,
    ensures
        lo <= kept(path, tolerance, lo, hi)[i] < kept(path, tolerance, lo, hi)[i + 1] <= hi,
    decreases hi - lo,
{
    if splits(path, tolerance, lo, hi) {
        let k = farthest(path, lo, hi);
        let left = kept(path, tolerance, lo, k);
        let right = kept(path, tolerance, k, hi);
        lemma_kept_ends(path, tolerance, lo, k);
        lemma_kept_ends(path, tolerance, k, hi);
        if i < left.len() - 1 {
            lemma_kept_ascends(path, tolerance, lo, k, i);
        } else {
            lemma_kept_ascends(path, tolerance, k, hi, i - (left.len() - 1));
        }
    }
}

/// Raising the distance keeps it above a tolerance that it exceeded.
proof fn lemma_exceeds_grows(smaller: int, larger: int, denom: int, tolerance: Tolerance)
    by (nonlinear_arith)
    requires
        smaller <= larger,
        exceeds(smaller, denom, tolerance),
    ensures
        exceeds(larger, denom, tolerance),
{
}

/// Between two neighbours of the simplification no point of the path strays
/// from their chord by more than the tolerance. With a tolerance of zero
/// every dropped point lies on the chord of its neighbours, and a point that
/// does not is kept.
pub proof fn lemma_kept_within_tolerance(
    path: Seq<Point>,
    tolerance: Tolerance,
    lo: int,
    hi: int,
    i: int,
    j: int,
)
    requires
        lo < hi,
        0 <= i < kept(path, tolerance, lo, hi).len() - 1,
        kept(path, tolerance, lo, hi)[i] < j < kept(path, tolerance, lo, hi)[i + 1],
    ensures
        !exceeds(
            deviation(
                path,
                kept(path, tolerance, lo, hi)[i],
                kept(path, tolerance, lo, hi)[i + 1],
                j,
            ),
            deviation_denom(
                path[kept(path, tolerance, lo, hi)[i]],
                path[kept(path, tolerance, lo, hi)[i + 1]],
            ),
            tolerance,
        ),
    decreases hi - lo,
{
    if splits(path, tolerance, lo, hi) {
        let k = farthest(path, lo, hi);
        let left = kept(path, tolerance, lo, k);
        let right = kept(path, tolerance, k, hi);
        lemma_kept_ends(path, tolerance, lo, k);
        lemma_kept_ends(path, tolerance, k, hi);
        if i < left.len() - 1 {
            lemma_kept_within_tolerance(path, tolerance, lo, k, i, j);
        } else {
            lemma_kept_within_tolerance(path, tolerance, k, hi, i - (left.len() - 1), j);
        }
    } else {
        lemma_farthest_exists(path, lo, hi);
        let k = farthest(path, lo, hi);
        assert(deviation(path, lo, hi, j) <= deviation(path, lo, hi, k));
        if exceeds(deviation(path, lo, hi, j), deviation_denom(path[lo], path[hi]), tolerance) {
            lemma_exceeds_grows(
                deviation(path, lo, hi, j),
                deviation(path, lo, hi, k),
                deviation_denom(path[lo], path[hi]),
                tolerance,
            );
        }
    }
}

/// With a tolerance of zero the simplification drops only what lies on the
/// chord between the two points kept around it: every point that strays from
/// that chord is kept.
pub proof fn lemma_zero_tolerance_is_exact(
    path: Seq<Point>,
    tolerance: Tolerance,
    lo: int,
    hi: int,
    i: int,
    j: int,
)
    requires
        tolerance.numer() == 0,
        tolerance.denom() > 0,
        lo < hi,
        0 <= i < kept(path, tolerance, lo, hi).len() - 1,
        kept(path, tolerance, lo, hi)[i] < j < kept(path, tolerance, lo, hi)[i + 1],
    ensures
        deviation(path, kept(path, tolerance, lo, hi)[i], kept(path, tolerance, lo, hi)[i + 1], j)
            == 0,
{
    let a = kept(path, tolerance, lo, hi)[i];
    let b = kept(path, tolerance, lo, hi)[i + 1];
    lemma_kept_within_tolerance(path, tolerance, lo, hi, i, j);
    lemma_deviation_not_negative(path[j], path[a], path[b]);
    let d = deviation(path, a, b, j);
    let q = tolerance.denom() as int;
    assert(d == 0) by (nonlinear_arith)
        requires
            d >= 0,
            q > 0,
            !(d * q > 0),
    ;
}

/// A squared distance is not negative.
pub proof fn lemma_deviation_not_negative(p: Point, a: Point, b: Point)
    ensures
        deviation_numer(p, a, b) >= 0,
        deviation_denom(a, b) > 0,
{
    let c = cross(p, a, b);
    let dx = a.0 - p.0;
    let dy = a.1 - p.1;
    let ex = b.0 - a.0;
    let ey = b.1 - a.1;
    assert(c * c >= 0) by (nonlinear_arith);
    assert(dx * dx + dy * dy >= 0) by (nonlinear_arith);
    assert(ex * ex + ey * ey > 0 || (ex == 0 && ey == 0)) by (nonlinear_arith);
}

/// A span whose points all lie on its chord keeps its two ends and nothing
/// else, whatever the tolerance.
pub proof fn lemma_straight_span(path: Seq<Point>, tolerance: Tolerance, lo: int, hi: int)
    requires
        forall|j: int| lo < j < hi ==> #[trigger] deviation(path, lo, hi, j) == 0,
    ensures
        kept(path, tolerance, lo, hi) == seq![lo, hi],
{
    let k = farthest(path, lo, hi);
    if lo < k < hi {
        assert(deviation(path, lo, hi, k) == 0);
        assert(tolerance.numer() * deviation_denom(path[lo], path[hi]) >= 0) by (nonlinear_arith)
            requires
                tolerance.numer() >= 0,
                deviation_denom(path[lo], path[hi]) == if path[lo] == path[hi] {
                    1
                } else {
                    (path[hi].0 - path[lo].0) * (path[hi].0 - path[lo].0) + (path[hi].1
                        - path[lo].1) * (path[hi].1 - path[lo].1)
                },
        ;
    }
}

/// A path along a straight line, with its two ends apart, is simplified to
/// those two ends, whatever the tolerance.
pub proof fn lemma_straight_line(path: Seq<Point>, tolerance: Tolerance)
    requires
        path.len() >= 2,
        path[0] != path.last(),
        forall|j: int| 0 <= j < path.len() ==> #[trigger] cross(path[j], path[0], path.last()) == 0,
    ensures
        simplified(path, tolerance) == seq![path[0], path.last()],
{
    let last = path.len() - 1;
    assert forall|j: int| 0 < j < last implies #[trigger] deviation(path, 0, last, j) == 0 by {
        assert(cross(path[j], path[0], path.last()) == 0);
    }
    lemma_straight_span(path, tolerance, 0, last);
    assert(simplified(path, tolerance) =~= seq![path[0], path.last()]);
}

/// A path of two points is its own simplification, whatever the tolerance.
pub proof fn lemma_two_points(path: Seq<Point>, tolerance: Tolerance)
    requires
        path.len() == 2,
    ensures
        simplified(path, tolerance) == path,
{
    assert(simplified(path, tolerance) =~= path);
}

/// The simplification keeps the two ends of the path.
pub proof fn lemma_simplified_keeps_ends(path: Seq<Point>, tolerance: Tolerance)
    requires
        path.len() >= 2,
    ensures
        simplified(path, tolerance).len() >= 2,
        simplified(path, tolerance)[0] == path[0],
        simplified(path, tolerance).last() == path.last(),
{
    lemma_kept_ends(path, tolerance, 0, path.len() - 1);
}

} // verus!
