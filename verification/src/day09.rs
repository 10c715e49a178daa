//! Red tiles on a floor: the greatest rectangle that has two red tiles as
//! opposite corners, and the greatest such rectangle that lies within the
//! loop of red and green tiles.

use crate::text::{fields, lines, number_u64, parse_u64, split_fields, split_lines, views, Separator};
use itertools::Itertools;
use vstd::prelude::*;
use vstd::string::StringSliceAdditionalSpecFns;

verus! {

/// A tile, by its column and its row.
#[derive(Debug, Clone, Copy, PartialEq, Eq, Structural)]
pub struct Point {
    pub x: u32,
    pub y: u32,
}

/// A rectangle with sides along the axes, by the columns and rows of its sides.
#[derive(Debug, Clone, Copy, PartialEq, Eq, Structural)]
pub struct Rectangle {
    pub x_min: u32,
    pub x_max: u32,
    pub y_min: u32,
    pub y_max: u32,
}

/// The smaller of two numbers.
pub open spec fn min_of(a: u32, b: u32) -> u32 {
    if a <= b {
        a
    } else {
        b
    }
}

/// The greater of two numbers.
pub open spec fn max_of(a: u32, b: u32) -> u32 {
    if a >= b {
        a
    } else {
        b
    }
}

/// The rectangle that has `a` and `b` as opposite corners.
pub open spec fn rectangle_of(a: Point, b: Point) -> Rectangle {
    Rectangle {
        x_min: min_of(a.x, b.x),
        x_max: max_of(a.x, b.x),
        y_min: min_of(a.y, b.y),
        y_max: max_of(a.y, b.y),
    }
}

/// The number of tiles of the rectangle that has `a` and `b` as opposite corners.
pub open spec fn area(a: Point, b: Point) -> int {
    (max_of(a.x, b.x) - min_of(a.x, b.x) + 1) * (max_of(a.y, b.y) - min_of(a.y, b.y) + 1)
}

/// The edge from `a` to `b` runs along a row or along a column, and is no single point.
pub open spec fn is_straight(a: Point, b: Point) -> bool {
    (a.x == b.x) != (a.y == b.y)
}

/// What [`is_pt_on_edge`] tells of a straight edge: for an edge along a column, that the
/// point lies on it; for an edge along a row, that the point is in the column of the
/// edge's first end.
pub open spec fn on_edge(pt: Point, a: Point, b: Point) -> bool {
    if a.y == b.y {
        pt.x == a.x
    } else {
        pt.x == a.x && min_of(a.y, b.y) <= pt.y <= max_of(a.y, b.y)
    }
}

/// The edge from `a` to `b` passes through the inside of `r`: it runs along a row or a
/// column strictly between two sides of `r`, and reaches past the start of the other extent
/// of `r` while it starts before its end.
pub open spec fn edge_crosses(a: Point, b: Point, r: Rectangle) -> bool {
    if a.y == b.y {
        r.y_min < a.y && a.y < r.y_max && max_of(a.x, b.x) > r.x_min && r.x_max > min_of(a.x, b.x)
    } else {
        r.x_min < a.x && a.x < r.x_max && max_of(a.y, b.y) > r.y_min && r.y_max > min_of(a.y, b.y)
    }
}

/// A ray from `pt` to the right passes through the edge from `a` to `b`, an edge along a
/// column whose one end is above the row of `pt` and whose other end is not.
pub open spec fn ray_crosses(pt: Point, a: Point, b: Point) -> bool {
    (a.y > pt.y) != (b.y > pt.y) && a.y != b.y && pt.x < a.x
}

/// The corner that follows corner `i` on a loop of `n` corners.
pub open spec fn next_corner(i: int, n: int) -> int {
    if i + 1 == n {
        0
    } else {
        i + 1
    }
}

/// The corner at which edge `i` of the loop ends.
pub open spec fn edge_end(polygon: Seq<Point>, i: int) -> Point {
    polygon[next_corner(i, polygon.len() as int)]
}

/// Edge `i` of the loop is straight.
pub open spec fn straight_at(polygon: Seq<Point>, i: int) -> bool {
    is_straight(polygon[i], edge_end(polygon, i))
}

/// `pt` is on edge `i` of the loop, in the sense of [`on_edge`].
pub open spec fn on_edge_at(polygon: Seq<Point>, pt: Point, i: int) -> bool {
    on_edge(pt, polygon[i], edge_end(polygon, i))
}

/// Edge `i` of the loop passes through the inside of `r`.
pub open spec fn crosses_at(polygon: Seq<Point>, r: Rectangle, i: int) -> bool {
    edge_crosses(polygon[i], edge_end(polygon, i), r)
}

/// Every edge of the loop is straight.
pub open spec fn is_rectilinear(polygon: Seq<Point>) -> bool {
    forall|i: int| 0 <= i < polygon.len() ==> #[trigger] straight_at(polygon, i)
}

/// `pt` is on one of the first `upto` edges of the loop, in the sense of [`on_edge`].
pub open spec fn on_some_edge(polygon: Seq<Point>, pt: Point, upto: int) -> bool {
    exists|i: int| 0 <= i < upto && #[trigger] on_edge_at(polygon, pt, i)
}

/// A ray from `pt` to the right passes through an odd number of the first `upto` edges of
/// the loop.
pub open spec fn odd_crossings(polygon: Seq<Point>, pt: Point, upto: int) -> bool
    decreases upto,
{
    if upto <= 0 {
        false
    } else {
        odd_crossings(polygon, pt, upto - 1) != ray_crosses(
            pt,
            polygon[upto - 1],
            edge_end(polygon, upto - 1),
        )
    }
}

/// `pt` counts as within the loop: it is on an edge, or a ray from it to the right passes
/// through an odd number of edges.
pub open spec fn is_within(polygon: Seq<Point>, pt: Point) -> bool {
    on_some_edge(polygon, pt, polygon.len() as int) || odd_crossings(
        polygon,
        pt,
        polygon.len() as int,
    )
}

/// One of the first `upto` edges of the loop passes through the inside of `r`.
pub open spec fn some_edge_crosses(polygon: Seq<Point>, r: Rectangle, upto: int) -> bool {
    exists|i: int| 0 <= i < upto && #[trigger] crosses_at(polygon, r, i)
}

/// The rectangle with the opposite corners `pt1` and `pt2` is accepted: no edge of the loop
/// passes through its inside, and one of its two other corners counts as within the loop.
#[verifier::opaque]
pub open spec fn rectangle_valid(pt1: Point, pt2: Point, polygon: Seq<Point>) -> bool {
    &&& !some_edge_crosses(polygon, rectangle_of(pt1, pt2), polygon.len() as int)
    &&& (is_within(polygon, Point { x: pt1.x, y: pt2.y }) || is_within(
        polygon,
        Point { x: pt2.x, y: pt1.y },
    ))
}

/// The pairs `(i, j)` with `j` from `i + 1` up to `n - 1`, in ascending order of `j`.
pub open spec fn pairs_with_first(i: int, n: int) -> Seq<(usize, usize)> {
    Seq::new((n - 1 - i) as nat, |k: int| (i as usize, (i + 1 + k) as usize))
}

/// The pairs `(i, j)` with `first <= i < j < n`, in ascending order of `i` and then of `j`.
pub open spec fn pairs_from(first: int, n: int) -> Seq<(usize, usize)>
    decreases n - first,
{
    if first + 1 >= n {
        Seq::empty()
    } else {
        pairs_with_first(first, n) + pairs_from(first + 1, n)
    }
}

/// The windows of two neighbours on a loop of `n` items: `(i, i + 1)`, and `(n - 1, 0)` last.
pub open spec fn windows_of(n: int) -> Seq<(usize, usize)> {
    Seq::new(n as nat, |i: int| (i as usize, next_corner(i, n) as usize))
}

/// `pairs_from` holds nothing but pairs in ascending order.
pub proof fn lemma_pairs_ascend(first: int, n: int)
    requires
        0 <= first,
        n <= usize::MAX,
    ensures
        forall|k: int|
            0 <= k < pairs_from(first, n).len() ==> first <= (#[trigger] pairs_from(first, n)[k]).0
                < pairs_from(first, n)[k].1 < n,
    decreases n - first,
{
    if first + 1 < n {
        lemma_pairs_ascend(first + 1, n);
        let head = pairs_with_first(first, n);
        let tail = pairs_from(first + 1, n);
        let all = pairs_from(first, n);
        assert forall|k: int| 0 <= k < all.len() implies first <= (#[trigger] all[k]).0 < all[k].1
            < n by {
            if k < head.len() {
                assert(all[k] == head[k]);
            } else {
                assert(all[k] == tail[k - head.len()]);
            }
        }
    }
}

/// `pairs_from` holds every pair in ascending order.
pub proof fn lemma_pair_listed(first: int, n: int, i: int, j: int)
    requires
        0 <= first <= i < j < n,
        n <= usize::MAX,
    ensures
        pairs_from(first, n).contains((i as usize, j as usize)),
    decreases n - first,
{
    let head = pairs_with_first(first, n);
    let tail = pairs_from(first + 1, n);
    let all = pairs_from(first, n);
    if i == first {
        assert(head[j - i - 1] == (i as usize, j as usize));
        assert(all[j - i - 1] == head[j - i - 1]);
    } else {
        lemma_pair_listed(first + 1, n, i, j);
        let k = choose|k: int| 0 <= k < tail.len() && tail[k] == (i as usize, j as usize);
        assert(all[head.len() + k] == tail[k]);
    }
}

/// Calls `circular_tuple_windows` of `itertools` on the numbers below `n`. Its source takes
/// as many windows of two as there are items from the items repeated in a cycle: that is
/// what is claimed.
#[verifier::external_body]
fn circular_windows(n: usize) -> (r: Vec<(usize, usize)>)
    ensures
        r@ == windows_of(n as int),
{
    (0..n).circular_tuple_windows().collect()
}

/// Holds the iterator that `tuple_combinations` of `itertools` makes over the numbers below
/// a bound. Opaque: [`pairs_left`] names what it has yet to give. The type itself cannot be
/// declared, one of its bounds being a trait that `itertools` keeps to itself.
#[verifier::external_body]
pub struct PairWalk {
    inner: itertools::TupleCombinations<std::ops::Range<usize>, (usize, usize)>,
}

/// The pairs that the walk has yet to give, in the order in which it gives them.
pub uninterp spec fn pairs_left(walk: PairWalk) -> Seq<(usize, usize)>;

/// Calls `tuple_combinations` of `itertools` on the numbers below `n`. Its documentation
/// shows the pairs in ascending order of the first and then of the second item: those are
/// the pairs that the walk has to give.
#[verifier::external_body]
#[allow(deprecated)]
fn all_pairs(n: usize) -> (walk: PairWalk)
    ensures
        pairs_left(walk) == pairs_from(0, n as int),
{
    PairWalk { inner: (0..n).tuple_combinations() }
}

/// Calls `next` of the iterator: it gives the first of the pairs that are left, which then
/// is left no more, and nothing once none is left.
#[verifier::external_body]
fn next_pair(walk: &mut PairWalk) -> (r: Option<(usize, usize)>)
    ensures
        match r {
            Some(pair) => pairs_left(*old(walk)).len() > 0 && pair == pairs_left(*old(walk))[0]
                && pairs_left(*final(walk)) == pairs_left(*old(walk)).skip(1),
            None => pairs_left(*old(walk)).len() == 0 && pairs_left(*final(walk)) == pairs_left(
                *old(walk),
            ),
        },
{
    walk.inner.next()
}

impl Rectangle {
    /// The rectangle that has `a` and `b` as opposite corners.
    pub fn new(a: &Point, b: &Point) -> (r: Rectangle)
        ensures
            r == rectangle_of(*a, *b),
    {
        Rectangle {
            x_min: smaller(a.x, b.x),
            x_max: greater(a.x, b.x),
            y_min: smaller(a.y, b.y),
            y_max: greater(a.y, b.y),
        }
    }
}

/// The smaller of two numbers.
pub fn smaller(a: u32, b: u32) -> (r: u32)
    ensures
        r == min_of(a, b),
{
    if a <= b {
        a
    } else {
        b
    }
}

/// The greater of two numbers.
pub fn greater(a: u32, b: u32) -> (r: u32)
    ensures
        r == max_of(a, b),
{
    if a >= b {
        a
    } else {
        b
    }
}

/// Tells whether `pt` is on the straight edge from `edge_pt_a` to `edge_pt_b`, as
/// [`on_edge`] says: of an edge along a row only the column of its first end is compared.
pub fn is_pt_on_edge(pt: &Point, edge_pt_a: &Point, edge_pt_b: &Point) -> (r: bool)
    requires
        is_straight(*edge_pt_a, *edge_pt_b),
    ensures
        r == on_edge(*pt, *edge_pt_a, *edge_pt_b),
{
    let (a, b) = (edge_pt_a, edge_pt_b);
    if a.y == b.y {
        let (x_min, x_max) = (smaller(a.x, b.x), greater(a.x, b.x));
        pt.x == a.x && x_min <= pt.x && pt.x <= x_max
    } else {
        let (y_min, y_max) = (smaller(a.y, b.y), greater(a.y, b.y));
        pt.x == a.x && y_min <= pt.y && pt.y <= y_max
    }
}

/// Tells whether the edge from `a` to `b` passes through the inside of `r`.
pub fn edge_intersects_rect(a: &Point, b: &Point, r: &Rectangle) -> (hit: bool)
    ensures
        hit == edge_crosses(*a, *b, *r),
{
    if a.y == b.y {
        r.y_min < a.y && a.y < r.y_max && greater(a.x, b.x) > r.x_min && r.x_max > smaller(a.x, b.x)
    } else {
        r.x_min < a.x && a.x < r.x_max && greater(a.y, b.y) > r.y_min && r.y_max > smaller(a.y, b.y)
    }
}

/// Tells whether a ray from `pt` to the right passes through the straight edge from `a` to `b`.
pub fn ray_crosses_edge(pt: &Point, a: &Point, b: &Point) -> (r: bool)
    requires
        is_straight(*a, *b),
    ensures
        r == ray_crosses(*pt, *a, *b),
{
    let pt_in_vertical_span = (a.y > pt.y) != (b.y > pt.y);
    if pt_in_vertical_span && a.y != b.y {
        let (px, py, ax, ay, bx, by) = (
            pt.x as i64,
            pt.y as i64,
            a.x as i64,
            a.y as i64,
            b.x as i64,
            b.y as i64,
        );
        let run = ax - bx;
        let rise = py - ay;
        assert(run * rise == 0) by (nonlinear_arith)
            requires
                run == 0,
        ;
        px < run * rise / (by - ay) + ax
    } else {
        false
    }
}

/// Tells whether `pt` counts as within the loop.
pub fn corner_is_within(polygon: &Vec<Point>, pt: &Point) -> (r: bool)
    requires
        is_rectilinear(polygon@),
    ensures
        r == is_within(polygon@, *pt),
{
    let n = polygon.len();
    let edges = circular_windows(n);
    let mut inside = false;
    let mut check_pt = true;
    let mut k: usize = 0;
    while k < n
        invariant
            k <= n,
            n == polygon@.len(),
            edges@ == windows_of(n as int),
            is_rectilinear(polygon@),
            check_pt == !on_some_edge(polygon@, *pt, k as int),
            inside == (on_some_edge(polygon@, *pt, k as int) || odd_crossings(
                polygon@,
                *pt,
                k as int,
            )),
        decreases n - k,
    {
        let (i, j) = edges[k];
        assert(i == k && j == next_corner(k as int, n as int));
        let a = &polygon[i];
        let b = &polygon[j];
        proof {
            assert(straight_at(polygon@, k as int));
            lemma_on_some_edge_step(polygon@, *pt, k as int);
        }
        if check_pt && is_pt_on_edge(pt, a, b) {
            inside = true;
            check_pt = false;
        }
        if check_pt && ray_crosses_edge(pt, a, b) {
            inside = !inside;
        }
        k += 1;
    }
    inside
}

/// A point is on one of the edges up to edge `k` when it is on one before it or on edge `k`.
pub proof fn lemma_on_some_edge_step(polygon: Seq<Point>, pt: Point, k: int)
    requires
        0 <= k,
    ensures
        on_some_edge(polygon, pt, k + 1) == (on_some_edge(polygon, pt, k) || on_edge_at(
            polygon,
            pt,
            k,
        )),
{
    if on_some_edge(polygon, pt, k + 1) {
        let i = choose|i: int| 0 <= i < k + 1 && #[trigger] on_edge_at(polygon, pt, i);
        if i < k {
            assert(on_some_edge(polygon, pt, k));
        }
    }
    if on_some_edge(polygon, pt, k) {
        let i = choose|i: int| 0 <= i < k && #[trigger] on_edge_at(polygon, pt, i);
        assert(0 <= i < k + 1);
    }
}

/// Tells whether some edge of the loop passes through the inside of `rect`.
pub fn any_edge_crosses(polygon: &Vec<Point>, rect: &Rectangle) -> (r: bool)
    ensures
        r == some_edge_crosses(polygon@, *rect, polygon@.len() as int),
{
    let n = polygon.len();
    let edges = circular_windows(n);
    let mut k: usize = 0;
    while k < n
        invariant
            k <= n,
            n == polygon@.len(),
            edges@ == windows_of(n as int),
            !some_edge_crosses(polygon@, *rect, k as int),
        decreases n - k,
    {
        let (i, j) = edges[k];
        assert(i == k && j == next_corner(k as int, n as int));
        if edge_intersects_rect(&polygon[i], &polygon[j], rect) {
            assert(crosses_at(polygon@, *rect, k as int));
            return true;
        }
        k += 1;
    }
    false
}

/// Tells whether the rectangle with the opposite corners `pt1` and `pt2` is accepted for
/// the loop `polygon`, as [`rectangle_valid`] says.
pub fn is_rectangle_valid(pt1: &Point, pt2: &Point, polygon: &Vec<Point>) -> (r: bool)
    requires
        is_rectilinear(polygon@),
    ensures
        r == rectangle_valid(*pt1, *pt2, polygon@),
{
    reveal(rectangle_valid);
    let rect = Rectangle::new(pt1, pt2);
    if any_edge_crosses(polygon, &rect) {
        return false;
    }
    let first = Point { x: pt1.x, y: pt2.y };
    let second = Point { x: pt2.x, y: pt1.y };
    corner_is_within(polygon, &first) || corner_is_within(polygon, &second)
}

/// The number of tiles of the rectangle that has `a` and `b` as opposite corners.
pub fn rectangle_area(a: &Point, b: &Point) -> (r: u64)
    requires
        area(*a, *b) <= u64::MAX,
    ensures
        r == area(*a, *b),
{
    let width = (greater(a.x, b.x) - smaller(a.x, b.x)) as u64 + 1;
    let height = (greater(a.y, b.y) - smaller(a.y, b.y)) as u64 + 1;
    assert(width * height == area(*a, *b));
    width * height
}

/// Every rectangle between two corners of the loop has an area that fits a `u64`.
pub open spec fn areas_fit(polygon: Seq<Point>) -> bool {
    forall|i: int, j: int|
        0 <= i < j < polygon.len() ==> area(#[trigger] polygon[i], #[trigger] polygon[j]) <= u64::MAX
}

/// The greatest area of a rectangle that has two corners of the loop as opposite corners,
/// and zero for a loop of fewer than two corners.
pub fn solution_part1(polygon: &Vec<Point>) -> (r: u64)
    requires
        areas_fit(polygon@),
    ensures
        forall|i: int, j: int|
            0 <= i < j < polygon@.len() ==> area(#[trigger] polygon@[i], #[trigger] polygon@[j]) <= r,
        polygon@.len() < 2 ==> r == 0,
        polygon@.len() >= 2 ==> exists|i: int, j: int|
            0 <= i < j < polygon@.len() && area(#[trigger] polygon@[i], #[trigger] polygon@[j]) == r,
{
    let n = polygon.len();
    let mut walk = all_pairs(n);
    let ghost all = pairs_from(0, n as int);
    let ghost mut done: int = 0;
    proof {
        lemma_pairs_ascend(0, n as int);
        assert(all.skip(0) == all);
    }
    let mut max_area: u64 = 0;
    loop
        invariant
            n == polygon@.len(),
            areas_fit(polygon@),
            all == pairs_from(0, n as int),
            0 <= done <= all.len(),
            pairs_left(walk) == all.skip(done),
            forall|t: int| 0 <= t < all.len() ==> 0 <= (#[trigger] all[t]).0 < all[t].1 < n,
            forall|t: int|
                0 <= t < done ==> area(
                    polygon@[(#[trigger] all[t]).0 as int],
                    polygon@[all[t].1 as int],
                ) <= max_area,
            done == 0 ==> max_area == 0,
            done > 0 ==> exists|i: int, j: int|
                0 <= i < j < n && area(#[trigger] polygon@[i], #[trigger] polygon@[j]) == max_area,
        decreases all.len() - done,
    {
        match next_pair(&mut walk) {
            None => {
                proof {
                    assert forall|i: int, j: int| 0 <= i < j < n implies area(
                        #[trigger] polygon@[i],
                        #[trigger] polygon@[j],
                    ) <= max_area by {
                        lemma_pair_listed(0, n as int, i, j);
                        let t = choose|t: int|
                            0 <= t < all.len() && all[t] == (i as usize, j as usize);
                        assert(area(polygon@[all[t].0 as int], polygon@[all[t].1 as int])
                            <= max_area);
                    }
                    if n >= 2 {
                        lemma_pair_listed(0, n as int, 0, 1);
                    }
                }
                return max_area;
            },
            Some((i, j)) => {
                proof {
                    assert(all.skip(done)[0] == all[done]);
                    assert(all.skip(done).skip(1) == all.skip(done + 1));
                }
                let found = rectangle_area(&polygon[i], &polygon[j]);
                if found > max_area {
                    max_area = found;
                }
                assert(area(polygon@[i as int], polygon@[j as int]) <= max_area);
                proof {
                    done = done + 1;
                }
            },
        }
    }
}

/// The greatest area of an accepted rectangle that has two corners of the loop as opposite
/// corners, and zero where none is accepted.
pub fn solution_part2(polygon: &Vec<Point>) -> (r: u64)
    requires
        areas_fit(polygon@),
        is_rectilinear(polygon@),
    ensures
        forall|i: int, j: int|
            0 <= i < j < polygon@.len() && rectangle_valid(
                #[trigger] polygon@[i],
                #[trigger] polygon@[j],
                polygon@,
            ) ==> area(polygon@[i], polygon@[j]) <= r,
        r == 0 || exists|i: int, j: int|
            0 <= i < j < polygon@.len() && rectangle_valid(
                #[trigger] polygon@[i],
                #[trigger] polygon@[j],
                polygon@,
            ) && area(polygon@[i], polygon@[j]) == r,
{
    let n = polygon.len();
    let mut walk = all_pairs(n);
    let ghost all = pairs_from(0, n as int);
    let ghost mut done: int = 0;
    proof {
        lemma_pairs_ascend(0, n as int);
        assert(all.skip(0) == all);
    }
    let mut old_area: u64 = 0;
    loop
        invariant
            n == polygon@.len(),
            areas_fit(polygon@),
            is_rectilinear(polygon@),
            all == pairs_from(0, n as int),
            0 <= done <= all.len(),
            pairs_left(walk) == all.skip(done),
            forall|t: int| 0 <= t < all.len() ==> 0 <= (#[trigger] all[t]).0 < all[t].1 < n,
            forall|t: int|
                0 <= t < done && rectangle_valid(
                    polygon@[(#[trigger] all[t]).0 as int],
                    polygon@[all[t].1 as int],
                    polygon@,
                ) ==> area(polygon@[all[t].0 as int], polygon@[all[t].1 as int]) <= old_area,
            old_area == 0 || exists|i: int, j: int|
                0 <= i < j < n && rectangle_valid(
                    #[trigger] polygon@[i],
                    #[trigger] polygon@[j],
                    polygon@,
                ) && area(polygon@[i], polygon@[j]) == old_area,
        decreases all.len() - done,
    {
        match next_pair(&mut walk) {
            None => {
                proof {
                    assert forall|i: int, j: int|
                        0 <= i < j < n && rectangle_valid(
                            #[trigger] polygon@[i],
                            #[trigger] polygon@[j],
                            polygon@,
                        ) implies area(polygon@[i], polygon@[j]) <= old_area by {
                        lemma_pair_listed(0, n as int, i, j);
                        let t = choose|t: int|
                            0 <= t < all.len() && all[t] == (i as usize, j as usize);
                        assert(all[t].0 == i && all[t].1 == j);
                    }
                }
                return old_area;
            },
            Some((i, j)) => {
                proof {
                    assert(all.skip(done)[0] == all[done]);
                    assert(all.skip(done).skip(1) == all.skip(done + 1));
                }
                let new_area = rectangle_area(&polygon[i], &polygon[j]);
                if new_area > old_area && is_rectangle_valid(&polygon[i], &polygon[j], polygon) {
                    old_area = new_area;
                    assert(rectangle_valid(polygon@[i as int], polygon@[j as int], polygon@)
                        && area(polygon@[i as int], polygon@[j as int]) == old_area);
                }
                proof {
                    done = done + 1;
                }
            },
        }
    }
}

/// The tile that a line writes: its column and its row as decimal numbers that fit a `u32`,
/// with a comma between them. What follows a second comma is not read.
pub open spec fn point_of(line: Seq<u8>) -> Option<Point> {
    let parts = fields(line, Separator::Comma);
    if parts.len() >= 2 {
        match (number_u64(parts[0]), number_u64(parts[1])) {
            (Some(x), Some(y)) => if x <= u32::MAX && y <= u32::MAX {
                Some(Point { x: x as u32, y: y as u32 })
            } else {
                None
            },
            _ => None,
        }
    } else {
        None
    }
}

/// The tiles of the first `upto` lines, if each writes one.
pub open spec fn points_of(all: Seq<Seq<u8>>, upto: int) -> Option<Seq<Point>>
    decreases upto,
{
    if upto <= 0 {
        Some(Seq::empty())
    } else {
        match (points_of(all, upto - 1), point_of(all[upto - 1])) {
            (Some(before), Some(point)) => Some(before.push(point)),
            _ => None,
        }
    }
}

/// Once a line writes no tile, none come of the list.
pub proof fn lemma_points_fail(all: Seq<Seq<u8>>, upto: int)
    requires
        0 <= upto <= all.len(),
        points_of(all, upto) is None,
    ensures
        points_of(all, all.len() as int) is None,
    decreases all.len() - upto,
{
    if upto < all.len() {
        lemma_points_fail(all, upto + 1);
    }
}

/// Reads the corners of the loop, one per line.
pub fn read_polygon(input: &str) -> (r: Option<Vec<Point>>)
    ensures
        match r {
            Some(polygon) => points_of(
                lines(input.spec_bytes()),
                lines(input.spec_bytes()).len() as int,
            ) == Some(polygon@),
            None => points_of(lines(input.spec_bytes()), lines(input.spec_bytes()).len() as int)
                is None,
        },
{
    let rows = split_lines(input.as_bytes());
    let ghost all = lines(input.spec_bytes());
    let mut points: Vec<Point> = Vec::new();
    let mut i: usize = 0;
    while i < rows.len()
        invariant
            i <= rows.len(),
            all == views(rows@),
            all == lines(input.spec_bytes()),
            points_of(all, i as int) == Some(points@),
        decreases rows.len() - i,
    {
        assert(all[i as int] == rows@[i as int]@);
        let parts = split_fields(rows[i].as_slice(), Separator::Comma);
        let point = if parts.len() >= 2 {
            assert(views(parts@)[0] == parts@[0]@);
            assert(views(parts@)[1] == parts@[1]@);
            match parse_u64(parts[0].as_slice()) {
                Some(x) => match parse_u64(parts[1].as_slice()) {
                    Some(y) => if x <= 0xffff_ffff && y <= 0xffff_ffff {
                        Some(Point { x: x as u32, y: y as u32 })
                    } else {
                        None
                    },
                    None => None,
                },
                None => None,
            }
        } else {
            None
        };
        match point {
            Some(point) => points.push(point),
            None => {
                proof {
                    lemma_points_fail(all, i + 1);
                }
                return None;
            },
        }
        i += 1;
    }
    Some(points)
}

/// No coordinate is the greatest `u32`.
pub open spec fn below_max(polygon: Seq<Point>) -> bool {
    forall|i: int|
        0 <= i < polygon.len() ==> (#[trigger] polygon[i]).x < u32::MAX && polygon[i].y < u32::MAX
}

/// Where no coordinate is the greatest `u32`, every area fits a `u64`.
pub proof fn lemma_areas_fit(polygon: Seq<Point>)
    requires
        below_max(polygon),
    ensures
        areas_fit(polygon),
{
    assert forall|i: int, j: int| 0 <= i < j < polygon.len() implies area(
        #[trigger] polygon[i],
        #[trigger] polygon[j],
    ) <= u64::MAX by {
        let a = polygon[i];
        let b = polygon[j];
        let w = max_of(a.x, b.x) - min_of(a.x, b.x) + 1;
        let h = max_of(a.y, b.y) - min_of(a.y, b.y) + 1;
        assert(w * h <= u64::MAX) by (nonlinear_arith)
            requires
                0 <= w <= 0xffff_ffff,
                0 <= h <= 0xffff_ffff,
        ;
    }
}

/// Tells whether the loop can be handed to [`solution_part1`] and [`solution_part2`]: every
/// edge is straight and no coordinate is the greatest `u32`.
pub fn check_polygon(polygon: &Vec<Point>) -> (r: bool)
    ensures
        r == (is_rectilinear(polygon@) && below_max(polygon@)),
        r ==> areas_fit(polygon@),
{
    let n = polygon.len();
    let mut i: usize = 0;
    while i < n
        invariant
            i <= n,
            n == polygon@.len(),
            forall|k: int| 0 <= k < i ==> #[trigger] straight_at(polygon@, k),
            forall|k: int|
                0 <= k < i ==> (#[trigger] polygon@[k]).x < u32::MAX && polygon@[k].y < u32::MAX,
        decreases n - i,
    {
        let a = &polygon[i];
        let b = if i + 1 == n {
            &polygon[0]
        } else {
            &polygon[i + 1]
        };
        if (a.x == b.x) == (a.y == b.y) {
            assert(!straight_at(polygon@, i as int));
            return false;
        }
        if a.x == 0xffff_ffff || a.y == 0xffff_ffff {
            return false;
        }
        i += 1;
    }
    proof {
        lemma_areas_fit(polygon@);
    }
    true
}

} // verus!
