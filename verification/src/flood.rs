//! Flood fill: relabels the region around a seed pixel.
//!
//! The region is the set of pixels that a walk over edge-sharing neighbours
//! reaches from the seed without leaving the seed's intensity. The fill is a
//! function of the raster's view; the executable fill is proved to compute
//! exactly that function, in whatever order it visits the pixels.

use crate::raster::lemma_view_wf;
use crate::raster::Raster;
use crate::raster::RasterView;
use std::collections::VecDeque;
use vstd::prelude::*;
use vstd::set_lib::lemma_int_range;
use vstd::set_lib::lemma_set_subset_finite;
use vstd::set_lib::set_int_range;

verus! {

/// Two coordinates share an edge: they differ by one along exactly one axis.
pub open spec fn adjacent(p: (int, int), q: (int, int)) -> bool {
    ||| p.0 == q.0 && (p.1 == q.1 + 1 || p.1 + 1 == q.1)
    ||| p.1 == q.1 && (p.0 == q.0 + 1 || p.0 + 1 == q.0)
}

/// Step `i` of `path` goes to an edge-sharing neighbour.
pub open spec fn linked(path: Seq<(int, int)>, i: int) -> bool {
    adjacent(path[i], path[i + 1])
}

/// `path` leads from `from` to `to` by steps between edge-sharing neighbours,
/// over pixels of `r` that all hold `value`.
pub open spec fn is_path(
    r: RasterView,
    value: u8,
    path: Seq<(int, int)>,
    from: (int, int),
    to: (int, int),
) -> bool {
    &&& path.len() > 0
    &&& path[0] == from
    &&& path.last() == to
    &&& forall|i: int|
        0 <= i < path.len() ==> r.contains(#[trigger] path[i]) && r.at(path[i]) == value
    &&& forall|i: int| 0 <= i < path.len() - 1 ==> #[trigger] linked(path, i)
}

/// `p` belongs to the region of `seed`: a path over pixels of the seed's
/// intensity joins the two.
pub open spec fn connected(r: RasterView, seed: (int, int), p: (int, int)) -> bool {
    exists|path: Seq<(int, int)>| is_path(r, r.at(seed), path, seed, p)
}

/// The raster after a flood fill: every pixel of the seed's region holds
/// `replacement`, every other pixel holds what it held.
pub open spec fn flooded(r: RasterView, seed: (int, int), replacement: u8) -> RasterView {
    RasterView {
        width: r.width,
        height: r.height,
        pixels: Map::new(
            |p: (int, int)| r.contains(p),
            |p: (int, int)|
                if connected(r, seed, p) {
                    replacement
                } else {
                    r.at(p)
                },
        ),
    }
}

/// A seed inside the raster belongs to its own region.
pub proof fn lemma_seed_connected(r: RasterView, seed: (int, int))
    requires
        r.contains(seed),
    ensures
        connected(r, seed, seed),
{
    assert(is_path(r, r.at(seed), seq![seed], seed, seed));
}

/// Every pixel of the seed's region holds the seed's intensity.
pub proof fn lemma_region_holds_seed_value(r: RasterView, seed: (int, int), p: (int, int))
    requires
        connected(r, seed, p),
    ensures
        r.contains(p),
        r.at(p) == r.at(seed),
{
    let path = choose|path: Seq<(int, int)>| is_path(r, r.at(seed), path, seed, p);
    assert(r.contains(path[path.len() - 1]));
}

/// A region grows by any edge-sharing neighbour of the seed's intensity.
pub proof fn lemma_region_step(r: RasterView, seed: (int, int), p: (int, int), q: (int, int))
    requires
        connected(r, seed, p),
        adjacent(p, q),
        r.contains(q),
        r.at(q) == r.at(seed),
    ensures
        connected(r, seed, q),
{
    let path = choose|path: Seq<(int, int)>| is_path(r, r.at(seed), path, seed, p);
    let longer = path.push(q);
    assert forall|i: int| 0 <= i < longer.len() - 1 implies #[trigger] linked(longer, i) by {
        if i < path.len() - 1 {
            assert(linked(path, i));
        }
    }
    assert(is_path(r, r.at(seed), longer, seed, q));
}

/// Filling twice is filling once:
/// `flooded(flooded(r, s, c), s, c) == flooded(r, s, c)`.
pub proof fn lemma_flood_idempotent(r: RasterView, seed: (int, int), replacement: u8)
    requires
        r.wf(),
        r.contains(seed),
    ensures
        flooded(flooded(r, seed, replacement), seed, replacement) == flooded(
            r,
            seed,
            replacement,
        ),
{
    let once = flooded(r, seed, replacement);
    lemma_seed_connected(r, seed);
    assert(once.at(seed) == replacement);
    lemma_flood_same_value(once, seed);
}

/// Filling a region with the intensity it already holds changes nothing.
pub proof fn lemma_flood_same_value(r: RasterView, seed: (int, int))
    requires
        r.wf(),
    ensures
        flooded(r, seed, r.at(seed)) == r,
{
    let filled = flooded(r, seed, r.at(seed));
    assert forall|p: (int, int)| r.contains(p) implies #[trigger] filled.pixels[p]
        == r.pixels[p] by {
        if connected(r, seed, p) {
            lemma_region_holds_seed_value(r, seed, p);
        }
    }
    assert(filled.pixels =~= r.pixels);
}

/// A fill leaves every pixel outside the seed's region as it was, and keeps
/// the size of the raster.
pub proof fn lemma_flood_leaves_rest(
    r: RasterView,
    seed: (int, int),
    replacement: u8,
    p: (int, int),
)
    requires
        r.contains(p),
        !connected(r, seed, p),
    ensures
        flooded(r, seed, replacement).at(p) == r.at(p),
        flooded(r, seed, replacement).width == r.width,
        flooded(r, seed, replacement).height == r.height,
{
}

/// The coordinate that a worklist entry stands for.
spec fn coord(e: (i64, i64)) -> (int, int) {
    (e.0 as int, e.1 as int)
}

/// Some entry of the worklist stands for `q`.
spec fn queued(queue: Seq<(i64, i64)>, q: (int, int)) -> bool {
    exists|i: int| 0 <= i < queue.len() && coord(#[trigger] queue[i]) == q
}

/// The fill in progress has relabelled `p`.
spec fn relabelled(orig: RasterView, cur: RasterView, p: (int, int)) -> bool {
    cur.at(p) != orig.at(p)
}

/// The pixels that still hold `value`.
spec fn holding(cur: RasterView, value: u8) -> Set<(int, int)> {
    Set::new(|p: (int, int)| cur.contains(p) && cur.at(p) == value)
}

/// All coordinates of a raster of the given size.
spec fn grid(width: nat, height: nat) -> Set<(int, int)> {
    Set::new(|p: (int, int)| 0 <= p.0 < width && 0 <= p.1 < height)
}

proof fn lemma_grid_finite(width: nat, height: nat)
    ensures
        grid(width, height).finite(),
    decreases height,
{
    if height == 0 {
        assert(grid(width, height) =~= Set::empty());
    } else {
        let above = (height - 1) as nat;
        lemma_grid_finite(width, above);
        lemma_int_range(0, width as int);
        let columns = set_int_range(0, width as int);
        let row = columns.map_by(|x: int| (x, above as int), |p: (int, int)| p.0);
        columns.lemma_map_by_finite(|x: int| (x, above as int), |p: (int, int)| p.0);
        assert(grid(width, height) =~= grid(width, above).union(row)) by {
            assert forall|p: (int, int)| grid(width, height).contains(p) implies grid(
                width,
                above,
            ).union(row).contains(p) by {
                if p.1 == above {
                    assert(columns.contains(p.0));
                    assert(p == (p.0, above as int));
                }
            }
        }
    }
}

proof fn lemma_holding_finite(cur: RasterView, value: u8)
    ensures
        holding(cur, value).finite(),
{
    lemma_grid_finite(cur.width, cur.height);
    assert(holding(cur, value).subset_of(grid(cur.width, cur.height)));
    lemma_set_subset_finite(grid(cur.width, cur.height), holding(cur, value));
}

proof fn lemma_queue_front(queue: Seq<(i64, i64)>, q: (int, int))
    requires
        queue.len() > 0,
    ensures
        queued(queue, q) <==> coord(queue[0]) == q || queued(
            queue.subrange(1, queue.len() as int),
            q,
        ),
{
    let rest = queue.subrange(1, queue.len() as int);
    if queued(queue, q) {
        let i = choose|i: int| 0 <= i < queue.len() && coord(#[trigger] queue[i]) == q;
        if i > 0 {
            assert(coord(rest[i - 1]) == q);
        }
    }
    if queued(rest, q) {
        let i = choose|i: int| 0 <= i < rest.len() && coord(#[trigger] rest[i]) == q;
        assert(coord(queue[i + 1]) == q);
    }
}

proof fn lemma_queue_back(queue: Seq<(i64, i64)>, e: (i64, i64), q: (int, int))
    ensures
        queued(queue.push(e), q) <==> queued(queue, q) || coord(e) == q,
{
    let longer = queue.push(e);
    if queued(queue, q) {
        let i = choose|i: int| 0 <= i < queue.len() && coord(#[trigger] queue[i]) == q;
        assert(coord(longer[i]) == q);
    }
    if coord(e) == q {
        assert(coord(longer[queue.len() as int]) == q);
    }
    if queued(longer, q) {
        let i = choose|i: int| 0 <= i < longer.len() && coord(#[trigger] longer[i]) == q;
        if i < queue.len() {
            assert(coord(queue[i]) == q);
        }
    }
}

/// A relabelled set that holds the seed and is closed under edge-sharing
/// neighbours of the seed's intensity holds every pixel a path can reach.
proof fn lemma_closed_set_holds_path(
    orig: RasterView,
    cur: RasterView,
    value: u8,
    path: Seq<(int, int)>,
    seed: (int, int),
    p: (int, int),
)
    requires
        is_path(orig, value, path, seed, p),
        relabelled(orig, cur, seed),
        forall|a: (int, int), b: (int, int)|
            orig.contains(a) && #[trigger] relabelled(orig, cur, a) && #[trigger] adjacent(a, b)
                && orig.contains(b) && orig.at(b) == value ==> relabelled(orig, cur, b),
    ensures
        relabelled(orig, cur, p),
    decreases path.len(),
{
    if path.len() > 1 {
        let shorter = path.drop_last();
        let before = path[path.len() - 2];
        assert forall|i: int| 0 <= i < shorter.len() - 1 implies #[trigger] linked(
            shorter,
            i,
        ) by {
            assert(linked(path, i));
        }
        assert forall|i: int| 0 <= i < shorter.len() implies orig.contains(
            #[trigger] shorter[i],
        ) && orig.at(shorter[i]) == value by {
            assert(orig.contains(path[i]));
        }
        assert(is_path(orig, value, shorter, seed, before));
        lemma_closed_set_holds_path(orig, cur, value, shorter, seed, before);
        assert(linked(path, path.len() - 2));
        assert(orig.contains(path[path.len() - 2]));
        assert(orig.contains(path[path.len() - 1]));
    }
}

/// Relabels the region of the seed `(x, y)` with `replacement` and returns
/// the raster; pixels outside the region, and the size, stay as they were.
/// A fill with the intensity that the seed already holds returns the raster
/// unchanged. The seed must lie inside the raster.
pub fn flood_breadth_first(img: Raster, x: i64, y: i64, replacement: u8) -> (result: Raster)
    requires
        img@.contains((x as int, y as int)),
    ensures
        result@ == flooded(img@, (x as int, y as int), replacement),
        result@.width == img@.width,
        result@.height == img@.height,
        forall|p: (int, int)|
            img@.contains(p) && !connected(img@, (x as int, y as int), p) ==> #[trigger] result@.at(
                p,
            ) == img@.at(p),
        forall|p: (int, int)|
            connected(img@, (x as int, y as int), p) ==> #[trigger] result@.at(p) == replacement,
{
    let ghost orig = img@;
    let ghost seed = (x as int, y as int);
    proof {
        lemma_view_wf(img);
    }
    let width = img.width();
    let height = img.height();
    let target = match img.get(x, y) {
        Some(value) => value,
        None => replacement,
    };
    if target == replacement {
        proof {
            lemma_flood_same_value(orig, seed);
            assert forall|p: (int, int)| connected(orig, seed, p) implies orig.at(p)
                == replacement by {
                lemma_region_holds_seed_value(orig, seed, p);
            }
        }
        return img;
    }
    let mut raster = img;
    let mut queue: VecDeque<(i64, i64)> = VecDeque::new();
    queue.push_back((x, y));
    proof {
        lemma_holding_finite(orig, target);
        lemma_seed_connected(orig, seed);
        assert(coord(queue@[0]) == seed);
    }
    while queue.len() > 0
        invariant
            orig.contains(seed),
            orig.at(seed) == target,
            target != replacement,
            raster@.width == orig.width == width,
            raster@.height == orig.height == height,
            forall|p: (int, int)|
                orig.contains(p) ==> #[trigger] raster@.at(p) == orig.at(p) || (orig.at(p)
                    == target && raster@.at(p) == replacement),
            forall|p: (int, int)|
                orig.contains(p) && #[trigger] relabelled(orig, raster@, p) ==> connected(
                    orig,
                    seed,
                    p,
                ),
            forall|i: int|
                0 <= i < queue@.len() && orig.contains(coord(#[trigger] queue@[i])) && orig.at(
                    coord(queue@[i]),
                ) == target ==> connected(orig, seed, coord(queue@[i])),
            forall|a: (int, int), b: (int, int)|
                orig.contains(a) && #[trigger] relabelled(orig, raster@, a) && #[trigger] adjacent(
                    a,
                    b,
                ) && orig.contains(b) && orig.at(b) == target ==> relabelled(orig, raster@, b)
                    || queued(queue@, b),
            relabelled(orig, raster@, seed) || queued(queue@, seed),
            holding(raster@, target).finite(),
        decreases queue@.len() + 4 * holding(raster@, target).len(),
    {
        let ghost before = raster@;
        let ghost waiting = queue@;
        let (px, py) = queue.pop_front().unwrap();
        let ghost p = (px as int, py as int);
        let ghost rest = queue@;
        proof {
            assert(coord(waiting[0]) == p);
            assert forall|i: int| 0 <= i < rest.len() implies #[trigger] rest[i] == waiting[i
                + 1] by {}
        }
        if raster.get(px, py) == Some(target) {
            raster.put(px, py, replacement);
            queue.push_back((px + 1, py));
            queue.push_back((px - 1, py));
            queue.push_back((px, py + 1));
            queue.push_back((px, py - 1));
            proof {
                let after = raster@;
                let right = ((px + 1) as i64, py);
                let left = ((px - 1) as i64, py);
                let down = (px, (py + 1) as i64);
                let up = (px, (py - 1) as i64);
                let q1 = rest.push(right);
                let q2 = q1.push(left);
                let q3 = q2.push(down);
                assert(queue@ == q3.push(up));
                assert(connected(orig, seed, p)) by {
                    assert(coord(waiting[0]) == p);
                }
                assert(holding(after, target) =~= holding(before, target).remove(p));
                assert forall|q: (int, int)| orig.contains(q) implies #[trigger] after.at(q)
                    == orig.at(q) || (orig.at(q) == target && after.at(q) == replacement) by {
                    assert(before.at(q) == orig.at(q) || (orig.at(q) == target && before.at(q)
                        == replacement));
                }
                assert forall|q: (int, int)|
                    orig.contains(q) && #[trigger] relabelled(orig, after, q) implies connected(
                    orig,
                    seed,
                    q,
                ) by {
                    if q != p {
                        assert(relabelled(orig, before, q));
                    }
                }
                assert forall|i: int|
                    0 <= i < queue@.len() && orig.contains(coord(#[trigger] queue@[i]))
                        && orig.at(coord(queue@[i])) == target implies connected(
                    orig,
                    seed,
                    coord(queue@[i]),
                ) by {
                    if i < rest.len() {
                        assert(queue@[i] == waiting[i + 1]);
                    } else {
                        lemma_region_step(orig, seed, p, coord(queue@[i]));
                    }
                }
                assert forall|a: (int, int), b: (int, int)|
                    orig.contains(a) && #[trigger] relabelled(orig, after, a)
                        && #[trigger] adjacent(a, b) && orig.contains(b) && orig.at(b)
                        == target implies relabelled(orig, after, b) || queued(queue@, b) by {
                    lemma_queue_front(waiting, b);
                    lemma_queue_back(rest, right, b);
                    lemma_queue_back(q1, left, b);
                    lemma_queue_back(q2, down, b);
                    lemma_queue_back(q3, up, b);
                    if a != p {
                        assert(relabelled(orig, before, a));
                        if b != p {
                            assert(relabelled(orig, before, b) || queued(waiting, b));
                        }
                    }
                }
                assert(relabelled(orig, after, seed) || queued(queue@, seed)) by {
                    lemma_queue_front(waiting, seed);
                    lemma_queue_back(rest, right, seed);
                    lemma_queue_back(q1, left, seed);
                    lemma_queue_back(q2, down, seed);
                    lemma_queue_back(q3, up, seed);
                }
            }
        } else {
            proof {
                assert forall|i: int|
                    0 <= i < queue@.len() && orig.contains(coord(#[trigger] queue@[i]))
                        && orig.at(coord(queue@[i])) == target implies connected(
                    orig,
                    seed,
                    coord(queue@[i]),
                ) by {
                    assert(queue@[i] == waiting[i + 1]);
                }
                assert forall|a: (int, int), b: (int, int)|
                    orig.contains(a) && #[trigger] relabelled(orig, before, a)
                        && #[trigger] adjacent(a, b) && orig.contains(b) && orig.at(b)
                        == target implies relabelled(orig, before, b) || queued(queue@, b) by {
                    lemma_queue_front(waiting, b);
                }
                assert(relabelled(orig, before, seed) || queued(queue@, seed)) by {
                    lemma_queue_front(waiting, seed);
                }
            }
        }
    }
    proof {
        let done = raster@;
        lemma_view_wf(raster);
        assert(!queued(queue@, seed));
        assert forall|a: (int, int), b: (int, int)|
            orig.contains(a) && #[trigger] relabelled(orig, done, a) && #[trigger] adjacent(a, b)
                && orig.contains(b) && orig.at(b) == target implies relabelled(orig, done, b) by {
            assert(!queued(queue@, b));
        }
        assert forall|p: (int, int)| orig.contains(p) implies #[trigger] done.pixels[p]
            == flooded(orig, seed, replacement).pixels[p] by {
            if connected(orig, seed, p) {
                let path = choose|path: Seq<(int, int)>| is_path(orig, target, path, seed, p);
                lemma_closed_set_holds_path(orig, done, target, path, seed, p);
                lemma_region_holds_seed_value(orig, seed, p);
                assert(done.at(p) == orig.at(p) || (orig.at(p) == target && done.at(p)
                    == replacement));
            } else if done.at(p) != orig.at(p) {
                assert(relabelled(orig, done, p));
            }
        }
        assert(done.pixels =~= flooded(orig, seed, replacement).pixels);
        assert forall|p: (int, int)| connected(orig, seed, p) implies orig.contains(p) by {
            lemma_region_holds_seed_value(orig, seed, p);
        }
    }
    raster
}

} // verus!
