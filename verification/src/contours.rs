//! Connected regions of a binary image, traced by flood fill.

use crate::alignment::{scanned_before, AlignmentEngine};
use crate::image_processing::{edge_value, sobel_magnitudes, ImageProcessor};
use crate::raster::{lemma_index_in_range, lemma_index_join, GrayImage};
use crate::template::OmrTemplate;
use vstd::prelude::*;

verus! {

/// A contour with fewer pixels than this is discarded.
pub const MIN_CONTOUR_PIXELS: usize = 50;

/// `(x, y)` is a pixel of the image with the value 255.
pub open spec fn is_on(binary: &GrayImage, x: int, y: int) -> bool {
    binary.in_bounds(x, y) && binary.at(x, y) == 255
}

/// Two different places that touch by a side or a corner.
pub open spec fn adjacent(ax: int, ay: int, bx: int, by: int) -> bool {
    -1 <= ax - bx <= 1 && -1 <= ay - by <= 1 && !(ax == bx && ay == by)
}

/// `(x, y)` is on and not marked in `marks`, a row-major mask of the image.
pub open spec fn is_free(binary: &GrayImage, marks: Seq<bool>, x: int, y: int) -> bool {
    is_on(binary, x, y) && !marks[y * binary.spec_width() + x]
}

/// A walk over free pixels in which each step goes to an adjacent pixel.
pub open spec fn is_free_path(binary: &GrayImage, marks: Seq<bool>, path: Seq<(int, int)>) -> bool {
    &&& path.len() > 0
    &&& forall|i: int| 0 <= i < path.len() ==> is_free(binary, marks, (#[trigger] path[i]).0, path[i].1)
    &&& forall|i: int|
        0 <= i < path.len() - 1 ==> adjacent(
            (#[trigger] path[i]).0,
            path[i].1,
            path[i + 1].0,
            path[i + 1].1,
        )
}

/// Some walk over free pixels leads from `(sx, sy)` to `(x, y)`.
pub open spec fn reaches(binary: &GrayImage, marks: Seq<bool>, sx: int, sy: int, x: int, y: int) -> bool {
    exists|path: Seq<(int, int)>|
        #[trigger] is_free_path(binary, marks, path) && path[0] == (sx, sy) && path.last() == (
            x,
            y,
        )
}

/// The mask that marks no pixel of the image.
pub open spec fn no_marks(binary: &GrayImage) -> Seq<bool> {
    Seq::new(binary@.len(), |i: int| false)
}

/// Some walk over on pixels leads from `(sx, sy)` to `(x, y)`: the two lie
/// in the same 8-connected region.
pub open spec fn connected(binary: &GrayImage, sx: int, sy: int, x: int, y: int) -> bool {
    reaches(binary, no_marks(binary), sx, sy, x, y)
}

/// `(x, y)` is one of `points`.
pub open spec fn holds(points: Seq<(u32, u32)>, x: int, y: int) -> bool {
    exists|i: int| 0 <= i < points.len() && (#[trigger] points[i]).0 == x && points[i].1 == y
}

/// No point occurs twice.
pub open spec fn all_distinct(points: Seq<(u32, u32)>) -> bool {
    forall|i: int, j: int|
        0 <= i < j < points.len() ==> (#[trigger] points[i]) != (#[trigger] points[j])
}

/// `points` are exactly the free pixels that a walk from `(sx, sy)` reaches,
/// each once, `(sx, sy)` first.
pub open spec fn is_filled_region(
    binary: &GrayImage,
    marks: Seq<bool>,
    sx: int,
    sy: int,
    points: Seq<(u32, u32)>,
) -> bool {
    &&& points.len() > 0
    &&& points[0] == (sx as u32, sy as u32)
    &&& all_distinct(points)
    &&& forall|x: int, y: int|
        #![trigger holds(points, x, y)]
        #![trigger reaches(binary, marks, sx, sy, x, y)]
        holds(points, x, y) <==> reaches(binary, marks, sx, sy, x, y)
}

/// `points` are exactly the pixels of one 8-connected region of on pixels,
/// each once, in the order in which a flood fill from the region's first
/// pixel in scan order collects them.
pub open spec fn is_region(binary: &GrayImage, points: Seq<(u32, u32)>) -> bool {
    &&& points.len() > 0
    &&& points == flood_order(binary, no_marks(binary), seq![points[0]])
    &&& is_filled_region(
        binary,
        no_marks(binary),
        points[0].0 as int,
        points[0].1 as int,
        points,
    )
    &&& forall|i: int|
        0 <= i < points.len() ==> !scanned_before(
            (#[trigger] points[i]).0 as int,
            points[i].1 as int,
            points[0].0 as int,
            points[0].1 as int,
        )
}

/// The number of unmarked places in a mask.
pub open spec fn unmarked_count(marks: Seq<bool>) -> nat
    decreases marks.len(),
{
    if marks.len() == 0 {
        0
    } else if marks.last() {
        unmarked_count(marks.drop_last())
    } else {
        unmarked_count(marks.drop_last()) + 1
    }
}

/// Marking an unmarked place leaves one unmarked place fewer.
pub proof fn lemma_mark_one(marks: Seq<bool>, i: int)
    requires
        0 <= i < marks.len(),
        !marks[i],
    ensures
        unmarked_count(marks.update(i, true)) + 1 == unmarked_count(marks),
    decreases marks.len(),
{
    let updated = marks.update(i, true);
    if i == marks.len() - 1 {
        assert(updated.drop_last() =~= marks.drop_last());
    } else {
        lemma_mark_one(marks.drop_last(), i);
        assert(updated.drop_last() =~= marks.drop_last().update(i, true));
    }
}

/// The neighbour of `(x, y)` at offset `(dx, dy)` if it is on and not marked,
/// as a list of at most one place.
pub open spec fn free_neighbour(
    binary: &GrayImage,
    marks: Seq<bool>,
    x: int,
    y: int,
    dx: int,
    dy: int,
) -> Seq<(u32, u32)> {
    if is_free(binary, marks, x + dx, y + dy) {
        seq![((x + dx) as u32, (y + dy) as u32)]
    } else {
        Seq::empty()
    }
}

/// A stack with the neighbours of `(x, y)` that are on and not marked put
/// on top of it: the row above from left to right, then left and right,
/// then the row below.
pub open spec fn with_free_neighbours(
    binary: &GrayImage,
    marks: Seq<bool>,
    stack: Seq<(u32, u32)>,
    x: int,
    y: int,
) -> Seq<(u32, u32)> {
    stack + free_neighbour(binary, marks, x, y, -1, -1) + free_neighbour(binary, marks, x, y, 0, -1)
        + free_neighbour(binary, marks, x, y, 1, -1) + free_neighbour(binary, marks, x, y, -1, 0)
        + free_neighbour(binary, marks, x, y, 1, 0) + free_neighbour(binary, marks, x, y, -1, 1)
        + free_neighbour(binary, marks, x, y, 0, 1) + free_neighbour(binary, marks, x, y, 1, 1)
}

/// The order in which a flood fill collects pixels. The place on top of
/// the stack is taken off; unless it is marked already, it is marked and
/// collected, and its free neighbours are put on the stack, so that the
/// last of them is looked at next.
#[verifier::opaque]
pub open spec fn flood_order(binary: &GrayImage, marks: Seq<bool>, stack: Seq<(u32, u32)>) -> Seq<(u32, u32)>
    decreases unmarked_count(marks), stack.len(),
{
    if stack.len() == 0 {
        Seq::empty()
    } else {
        let top = stack.last();
        let idx = top.1 * binary.spec_width() + top.0;
        if !(0 <= idx < marks.len()) || marks[idx] {
            flood_order(binary, marks, stack.drop_last())
        } else {
            proof {
                lemma_mark_one(marks, idx);
            }
            let marked = marks.update(idx, true);
            seq![top] + flood_order(
                binary,
                marked,
                with_free_neighbours(binary, marked, stack.drop_last(), top.0 as int, top.1 as int),
            )
        }
    }
}

/// A flood fill with nothing on the stack collects nothing.
pub proof fn lemma_flood_done(binary: &GrayImage, marks: Seq<bool>)
    ensures
        flood_order(binary, marks, Seq::empty()) == Seq::<(u32, u32)>::empty(),
{
    reveal(flood_order);
}

/// A flood fill passes over a marked place on top of the stack.
pub proof fn lemma_flood_skip(binary: &GrayImage, marks: Seq<bool>, stack: Seq<(u32, u32)>)
    requires
        stack.len() > 0,
        0 <= stack.last().1 * binary.spec_width() + stack.last().0 < marks.len(),
        marks[stack.last().1 * binary.spec_width() + stack.last().0],
    ensures
        flood_order(binary, marks, stack) == flood_order(binary, marks, stack.drop_last()),
{
    reveal(flood_order);
}

/// A flood fill collects an unmarked place on top of the stack, marks it
/// and goes on with its free neighbours.
pub proof fn lemma_flood_take(binary: &GrayImage, marks: Seq<bool>, stack: Seq<(u32, u32)>)
    requires
        stack.len() > 0,
        0 <= stack.last().1 * binary.spec_width() + stack.last().0 < marks.len(),
        !marks[stack.last().1 * binary.spec_width() + stack.last().0],
    ensures
        flood_order(binary, marks, stack) == seq![stack.last()] + flood_order(
            binary,
            marks.update(stack.last().1 * binary.spec_width() + stack.last().0, true),
            with_free_neighbours(
                binary,
                marks.update(stack.last().1 * binary.spec_width() + stack.last().0, true),
                stack.drop_last(),
                stack.last().0 as int,
                stack.last().1 as int,
            ),
        ),
{
    reveal(flood_order);
}

/// A point of a list is still held after another is pushed.
pub proof fn lemma_holds_push(points: Seq<(u32, u32)>, p: (u32, u32), x: int, y: int)
    ensures
        holds(points, x, y) ==> holds(points.push(p), x, y),
        holds(points.push(p), p.0 as int, p.1 as int),
        holds(points.push(p), x, y) ==> holds(points, x, y) || (x == p.0 && y == p.1),
{
    let pushed = points.push(p);
    if holds(points, x, y) {
        let i = choose|i: int| 0 <= i < points.len() && (#[trigger] points[i]).0 == x && points[i].1
            == y;
        assert(pushed[i] == points[i]);
    }
    assert(pushed[points.len() as int] == p);
    if holds(pushed, x, y) {
        let i = choose|i: int| 0 <= i < pushed.len() && (#[trigger] pushed[i]).0 == x && pushed[i].1
            == y;
        if i < points.len() {
            assert(points[i] == pushed[i]);
        }
    }
}

/// A point of a list other than the last is still held once the last is
/// dropped.
pub proof fn lemma_holds_drop_last(points: Seq<(u32, u32)>, x: int, y: int)
    requires
        points.len() > 0,
        holds(points, x, y),
        !(points.last().0 == x && points.last().1 == y),
    ensures
        holds(points.drop_last(), x, y),
{
    let i = choose|i: int| 0 <= i < points.len() && (#[trigger] points[i]).0 == x && points[i].1 == y;
    assert(points.drop_last()[i] == points[i]);
}

/// A walk that reaches a pixel goes on to any free pixel adjacent to it.
pub proof fn lemma_reaches_step(
    binary: &GrayImage,
    marks: Seq<bool>,
    sx: int,
    sy: int,
    x: int,
    y: int,
    nx: int,
    ny: int,
)
    requires
        reaches(binary, marks, sx, sy, x, y),
        adjacent(x, y, nx, ny),
        is_free(binary, marks, nx, ny),
    ensures
        reaches(binary, marks, sx, sy, nx, ny),
{
    let path = choose|path: Seq<(int, int)>|
        #[trigger] is_free_path(binary, marks, path) && path[0] == (sx, sy) && path.last() == (
            x,
            y,
        );
    let longer = path.push((nx, ny));
    assert forall|i: int| 0 <= i < longer.len() implies is_free(
        binary,
        marks,
        (#[trigger] longer[i]).0,
        longer[i].1,
    ) by {
        if i < path.len() {
            assert(longer[i] == path[i]);
        }
    }
    assert forall|i: int| 0 <= i < longer.len() - 1 implies adjacent(
        (#[trigger] longer[i]).0,
        longer[i].1,
        longer[i + 1].0,
        longer[i + 1].1,
    ) by {
        assert(longer[i] == path[i]);
        if i < path.len() - 1 {
            assert(longer[i + 1] == path[i + 1]);
        }
    }
    assert(is_free_path(binary, marks, longer));
    assert(longer[0] == path[0]);
}

/// A free pixel reaches itself.
pub proof fn lemma_reaches_self(binary: &GrayImage, marks: Seq<bool>, x: int, y: int)
    requires
        is_free(binary, marks, x, y),
    ensures
        reaches(binary, marks, x, y, x, y),
{
    let path = seq![(x, y)];
    assert(is_free_path(binary, marks, path));
    assert(path[0] == (x, y) && path.last() == (x, y));
}

/// A set of points that holds the start of a walk and every free pixel
/// adjacent to one of its own holds every pixel of the walk.
pub proof fn lemma_closed_holds_path(
    binary: &GrayImage,
    marks: Seq<bool>,
    points: Seq<(u32, u32)>,
    path: Seq<(int, int)>,
    i: int,
)
    requires
        is_free_path(binary, marks, path),
        holds(points, path[0].0, path[0].1),
        forall|x: int, y: int, nx: int, ny: int|
            #![trigger holds(points, x, y), adjacent(x, y, nx, ny)]
            holds(points, x, y) && adjacent(x, y, nx, ny) && is_free(binary, marks, nx, ny)
                ==> holds(points, nx, ny),
        0 <= i < path.len(),
    ensures
        holds(points, path[i].0, path[i].1),
    decreases i,
{
    if i > 0 {
        lemma_closed_holds_path(binary, marks, points, path, i - 1);
        assert(adjacent(path[i - 1].0, path[i - 1].1, path[i].0, path[i].1));
        assert(is_free(binary, marks, path[i].0, path[i].1));
    }
}


/// What holds of the pixels waiting on the stack and of those already
/// collected, while the region of `(sx, sy)` is being filled.
pub open spec fn fill_invariant(
    binary: &GrayImage,
    marks: Seq<bool>,
    visited: Seq<bool>,
    sx: int,
    sy: int,
    contour: Seq<(u32, u32)>,
    stack: Seq<(u32, u32)>,
) -> bool {
    let w = binary.spec_width() as int;
    &&& visited.len() == marks.len()
    &&& marks.len() == binary@.len()
    &&& forall|x: int, y: int|
        #![trigger holds(contour, x, y)]
        #![trigger visited[y * w + x]]
        binary.in_bounds(x, y) ==> (visited[y * w + x] <==> (marks[y * w + x] || holds(
            contour,
            x,
            y,
        )))
    &&& all_distinct(contour)
    &&& forall|i: int|
        0 <= i < contour.len() ==> reaches(
            binary,
            marks,
            sx,
            sy,
            (#[trigger] contour[i]).0 as int,
            contour[i].1 as int,
        )
    &&& forall|i: int|
        0 <= i < stack.len() ==> reaches(
            binary,
            marks,
            sx,
            sy,
            (#[trigger] stack[i]).0 as int,
            stack[i].1 as int,
        )
    &&& forall|x: int, y: int, nx: int, ny: int|
        #![trigger holds(contour, x, y), adjacent(x, y, nx, ny)]
        holds(contour, x, y) && adjacent(x, y, nx, ny) && is_free(binary, marks, nx, ny)
            ==> holds(contour, nx, ny) || holds(stack, nx, ny)
    &&& holds(contour, sx, sy) || holds(stack, sx, sy)
    &&& contour.len() > 0 ==> contour[0] == (sx as u32, sy as u32)
    &&& contour.len() == 0 ==> stack =~= seq![(sx as u32, sy as u32)]
}

/// A walk only visits free pixels.
pub proof fn lemma_reached_is_free(binary: &GrayImage, marks: Seq<bool>, sx: int, sy: int, x: int, y: int)
    requires
        reaches(binary, marks, sx, sy, x, y),
    ensures
        is_free(binary, marks, x, y),
        is_free(binary, marks, sx, sy),
{
    let path = choose|path: Seq<(int, int)>|
        #[trigger] is_free_path(binary, marks, path) && path[0] == (sx, sy) && path.last() == (
            x,
            y,
        );
    assert(is_free(binary, marks, path[0].0, path[0].1));
    assert(is_free(binary, marks, path[path.len() - 1].0, path[path.len() - 1].1));
}

/// With nothing left on the stack, the collected pixels are the region.
pub proof fn lemma_fill_complete(
    binary: &GrayImage,
    marks: Seq<bool>,
    visited: Seq<bool>,
    sx: int,
    sy: int,
    contour: Seq<(u32, u32)>,
)
    requires
        fill_invariant(binary, marks, visited, sx, sy, contour, Seq::empty()),
    ensures
        is_filled_region(binary, marks, sx, sy, contour),
{
    let empty = Seq::<(u32, u32)>::empty();
    assert(forall|x: int, y: int| !holds(empty, x, y));
    assert(holds(contour, sx, sy));
    assert forall|x: int, y: int|
        #![trigger holds(contour, x, y)]
        #![trigger reaches(binary, marks, sx, sy, x, y)]
        holds(contour, x, y) <==> reaches(binary, marks, sx, sy, x, y) by {
        if holds(contour, x, y) {
            let i = choose|i: int|
                0 <= i < contour.len() && (#[trigger] contour[i]).0 == x && contour[i].1 == y;
            assert(reaches(binary, marks, sx, sy, contour[i].0 as int, contour[i].1 as int));
        }
        if reaches(binary, marks, sx, sy, x, y) {
            let path = choose|path: Seq<(int, int)>|
                #[trigger] is_free_path(binary, marks, path) && path[0] == (sx, sy) && path.last()
                    == (x, y);
            assert forall|px: int, py: int, nx: int, ny: int|
                #![trigger holds(contour, px, py), adjacent(px, py, nx, ny)]
                holds(contour, px, py) && adjacent(px, py, nx, ny) && is_free(
                    binary,
                    marks,
                    nx,
                    ny,
                ) implies holds(contour, nx, ny) by {
                assert(!holds(empty, nx, ny));
            }
            lemma_closed_holds_path(binary, marks, contour, path, path.len() - 1);
        }
    }
}

/// Puts the neighbour of `(x, y)` at offset `(dx, dy)` on the stack when it
/// is on and not yet visited.
fn push_if_free(
    binary: &GrayImage,
    visited: &Vec<bool>,
    stack: &mut Vec<(u32, u32)>,
    x: u32,
    y: u32,
    dx: i64,
    dy: i64,
    Ghost(marks): Ghost<Seq<bool>>,
    Ghost(sx): Ghost<int>,
    Ghost(sy): Ghost<int>,
)
    requires
        binary.wf(),
        visited@.len() == binary@.len(),
        marks.len() == binary@.len(),
        forall|i: int| 0 <= i < marks.len() ==> (marks[i] ==> visited@[i]),
        binary.in_bounds(x as int, y as int),
        -1 <= dx <= 1,
        -1 <= dy <= 1,
        !(dx == 0 && dy == 0),
        reaches(binary, marks, sx, sy, x as int, y as int),
        forall|i: int|
            0 <= i < old(stack)@.len() ==> reaches(
                binary,
                marks,
                sx,
                sy,
                (#[trigger] old(stack)@[i]).0 as int,
                old(stack)@[i].1 as int,
            ),
    ensures
        forall|i: int|
            0 <= i < final(stack)@.len() ==> reaches(
                binary,
                marks,
                sx,
                sy,
                (#[trigger] final(stack)@[i]).0 as int,
                final(stack)@[i].1 as int,
            ),
        is_free(binary, visited@, x + dx, y + dy) ==> holds(final(stack)@, x + dx, y + dy),
        forall|px: int, py: int|
            #![trigger holds(final(stack)@, px, py)]
            holds(old(stack)@, px, py) ==> holds(final(stack)@, px, py),
        final(stack)@ == old(stack)@ + free_neighbour(
            binary,
            visited@,
            x as int,
            y as int,
            dx as int,
            dy as int,
        ),
{
    let ghost entry = stack@;
    let nx: i64 = x as i64 + dx;
    let ny: i64 = y as i64 + dy;
    if nx >= 0 && nx < binary.width() as i64 && ny >= 0 && ny < binary.height() as i64 {
        let ux: u32 = nx as u32;
        let uy: u32 = ny as u32;
        proof {
            lemma_index_in_range(
                nx as int,
                ny as int,
                binary.spec_width() as int,
                binary.spec_height() as int,
            );
            binary.lemma_wf();
        }
        let idx: usize = (uy as usize) * (binary.width() as usize) + (ux as usize);
        if binary.get_pixel(ux, uy) == 255 && !visited[idx] {
            let ghost before = stack@;
            stack.push((ux, uy));
            proof {
                lemma_reaches_step(binary, marks, sx, sy, x as int, y as int, nx as int, ny as int);
                assert forall|px: int, py: int|
                    #![trigger holds(stack@, px, py)]
                    holds(before, px, py) implies holds(stack@, px, py) by {
                    lemma_holds_push(before, (ux, uy), px, py);
                }
                lemma_holds_push(before, (ux, uy), nx as int, ny as int);
                assert forall|i: int| 0 <= i < stack@.len() implies reaches(
                    binary,
                    marks,
                    sx,
                    sy,
                    (#[trigger] stack@[i]).0 as int,
                    stack@[i].1 as int,
                ) by {
                    if i < before.len() {
                        assert(stack@[i] == before[i]);
                    }
                }
            }
        }
    }
    proof {
        assert(stack@ =~= entry + free_neighbour(
            binary,
            visited@,
            x as int,
            y as int,
            dx as int,
            dy as int,
        ));
    }
}

impl AlignmentEngine {
    /// Collects, by flood fill from `(start_x, start_y)`, the on pixels not
    /// yet marked in `visited` that a walk from there reaches, and marks
    /// them. `visited` is a row-major mask of the image.
    pub fn trace_contour(
        &self,
        binary: &GrayImage,
        visited: &mut Vec<bool>,
        start_x: u32,
        start_y: u32,
    ) -> (contour: Vec<(u32, u32)>)
        requires
            binary.wf(),
            old(visited)@.len() == binary@.len(),
            is_free(binary, old(visited)@, start_x as int, start_y as int),
        ensures
            final(visited)@.len() == old(visited)@.len(),
            contour@ == flood_order(binary, old(visited)@, seq![(start_x, start_y)]),
            is_filled_region(
                binary,
                old(visited)@,
                start_x as int,
                start_y as int,
                contour@,
            ),
            forall|x: int, y: int|
                #![trigger holds(contour@, x, y)]
                #![trigger final(visited)@[y * binary.spec_width() + x]]
                binary.in_bounds(x, y) ==> (final(visited)@[y * binary.spec_width() + x] <==> (old(
                    visited,
                )@[y * binary.spec_width() + x] || holds(contour@, x, y))),
    {
        let ghost marks = visited@;
        let ghost sx = start_x as int;
        let ghost sy = start_y as int;
        let width: usize = binary.width() as usize;
        let mut contour: Vec<(u32, u32)> = Vec::new();
        let mut stack: Vec<(u32, u32)> = Vec::new();
        stack.push((start_x, start_y));
        proof {
            lemma_reaches_self(binary, marks, sx, sy);
            assert(stack@[0] == (start_x, start_y));
            assert(holds(stack@, sx, sy));
            assert(forall|x: int, y: int| !holds(contour@, x, y));
            assert(stack@ =~= seq![(start_x, start_y)]);
            assert(contour@ + flood_order(binary, visited@, stack@) =~= flood_order(
                binary,
                visited@,
                stack@,
            ));
        }
        while stack.len() > 0
            invariant
                binary.wf(),
                width == binary.spec_width(),
                sx == start_x,
                sy == start_y,
                fill_invariant(binary, marks, visited@, sx, sy, contour@, stack@),
                flood_order(binary, marks, seq![(start_x, start_y)]) == contour@ + flood_order(
                    binary,
                    visited@,
                    stack@,
                ),
            decreases unmarked_count(visited@), stack@.len(),
        {
            let ghost stack_before = stack@;
            let ghost contour_before = contour@;
            let ghost visited_before = visited@;
            let top: (u32, u32) = stack.pop().unwrap();
            let x: u32 = top.0;
            let y: u32 = top.1;
            proof {
                assert(stack_before[stack_before.len() - 1] == top);
                lemma_reached_is_free(binary, marks, sx, sy, x as int, y as int);
                lemma_index_in_range(
                    x as int,
                    y as int,
                    binary.spec_width() as int,
                    binary.spec_height() as int,
                );
                binary.lemma_wf();
                assert(stack@ =~= stack_before.drop_last());
            }
            let idx: usize = (y as usize) * width + (x as usize);
            if visited[idx] {
                proof {
                    lemma_flood_skip(binary, visited@, stack_before);
                    assert(holds(contour@, x as int, y as int));
                    assert forall|px: int, py: int, nx: int, ny: int|
                        #![trigger holds(contour@, px, py), adjacent(px, py, nx, ny)]
                        holds(contour@, px, py) && adjacent(px, py, nx, ny) && is_free(
                            binary,
                            marks,
                            nx,
                            ny,
                        ) implies holds(contour@, nx, ny) || holds(stack@, nx, ny) by {
                        if holds(stack_before, nx, ny) && !(nx == x && ny == y) {
                            lemma_holds_drop_last(stack_before, nx, ny);
                        }
                    }
                    if !holds(contour@, sx, sy) {
                        lemma_holds_drop_last(stack_before, sx, sy);
                    }
                    assert forall|i: int| 0 <= i < stack@.len() implies reaches(
                        binary,
                        marks,
                        sx,
                        sy,
                        (#[trigger] stack@[i]).0 as int,
                        stack@[i].1 as int,
                    ) by {
                        assert(stack@[i] == stack_before[i]);
                    }
                }
            } else {
                visited.set(idx, true);
                contour.push((x, y));
                proof {
                    lemma_mark_one(visited_before, idx as int);
                    assert(!holds(contour_before, x as int, y as int));
                    assert forall|i: int, j: int| 0 <= i < j < contour@.len() implies (
                    #[trigger] contour@[i]) != (#[trigger] contour@[j]) by {
                        if j == contour_before.len() {
                            assert(contour@[i] == contour_before[i]);
                            if contour@[i] == contour@[j] {
                                assert(contour_before[i].0 == x && contour_before[i].1 == y);
                            }
                        } else {
                            assert(contour@[i] == contour_before[i]);
                            assert(contour@[j] == contour_before[j]);
                        }
                    }
                    assert forall|i: int| 0 <= i < contour@.len() implies reaches(
                        binary,
                        marks,
                        sx,
                        sy,
                        (#[trigger] contour@[i]).0 as int,
                        contour@[i].1 as int,
                    ) by {
                        if i < contour_before.len() {
                            assert(contour@[i] == contour_before[i]);
                        }
                    }
                    assert forall|i: int| 0 <= i < stack@.len() implies reaches(
                        binary,
                        marks,
                        sx,
                        sy,
                        (#[trigger] stack@[i]).0 as int,
                        stack@[i].1 as int,
                    ) by {
                        assert(stack@[i] == stack_before[i]);
                    }
                    assert forall|px: int, py: int|
                        #![trigger holds(contour@, px, py)]
                        #![trigger visited@[py * (width as int) + px]]
                        binary.in_bounds(px, py) implies (visited@[py * (width as int) + px] <==> (
                        marks[py * (width as int) + px] || holds(contour@, px, py))) by {
                        lemma_holds_push(contour_before, (x, y), px, py);
                        lemma_index_in_range(
                            px,
                            py,
                            binary.spec_width() as int,
                            binary.spec_height() as int,
                        );
                        if py * (width as int) + px == idx as int {
                            lemma_index_join(px, py, width as int);
                            lemma_index_join(x as int, y as int, width as int);
                        }
                    }
                    assert forall|i: int| 0 <= i < marks.len() && marks[i] implies visited@[i] by {
                        lemma_index_split_here(i, binary);
                    }
                }
                let ghost stack_mid = stack@;
                push_if_free(binary, visited, &mut stack, x, y, -1, -1, Ghost(marks), Ghost(sx), Ghost(sy));
                push_if_free(binary, visited, &mut stack, x, y, 0, -1, Ghost(marks), Ghost(sx), Ghost(sy));
                push_if_free(binary, visited, &mut stack, x, y, 1, -1, Ghost(marks), Ghost(sx), Ghost(sy));
                push_if_free(binary, visited, &mut stack, x, y, -1, 0, Ghost(marks), Ghost(sx), Ghost(sy));
                push_if_free(binary, visited, &mut stack, x, y, 1, 0, Ghost(marks), Ghost(sx), Ghost(sy));
                push_if_free(binary, visited, &mut stack, x, y, -1, 1, Ghost(marks), Ghost(sx), Ghost(sy));
                push_if_free(binary, visited, &mut stack, x, y, 0, 1, Ghost(marks), Ghost(sx), Ghost(sy));
                push_if_free(binary, visited, &mut stack, x, y, 1, 1, Ghost(marks), Ghost(sx), Ghost(sy));
                proof {
                    assert(stack@ == with_free_neighbours(
                        binary,
                        visited@,
                        stack_mid,
                        x as int,
                        y as int,
                    ));
                    lemma_flood_take(binary, visited_before, stack_before);
                    lemma_order_grows(
                        contour_before,
                        top,
                        flood_order(binary, visited@, stack@),
                    );
                    assert forall|px: int, py: int, nx: int, ny: int|
                        #![trigger holds(contour@, px, py), adjacent(px, py, nx, ny)]
                        holds(contour@, px, py) && adjacent(px, py, nx, ny) && is_free(
                            binary,
                            marks,
                            nx,
                            ny,
                        ) implies holds(contour@, nx, ny) || holds(stack@, nx, ny) by {
                        lemma_holds_push(contour_before, (x, y), px, py);
                        lemma_holds_push(contour_before, (x, y), nx, ny);
                        if px == x && py == y {
                            if !holds(contour@, nx, ny) {
                                assert(is_free(binary, visited@, nx, ny));
                                assert(holds(stack@, nx, ny));
                            }
                        } else {
                            assert(holds(contour_before, px, py));
                            if holds(contour_before, nx, ny) {
                            } else {
                                assert(holds(stack_before, nx, ny));
                                if nx == x && ny == y {
                                } else {
                                    lemma_holds_drop_last(stack_before, nx, ny);
                                    assert(holds(stack_mid, nx, ny));
                                }
                            }
                        }
                    }
                    lemma_holds_push(contour_before, (x, y), sx, sy);
                    if !holds(contour@, sx, sy) {
                        lemma_holds_drop_last(stack_before, sx, sy);
                        assert(holds(stack_mid, sx, sy));
                    }
                    if contour_before.len() == 0 {
                        assert(stack_before[0] == (sx as u32, sy as u32));
                    } else {
                        assert(contour@[0] == contour_before[0]);
                    }
                }
            }
        }
        proof {
            assert(stack@ =~= Seq::<(u32, u32)>::empty());
            lemma_fill_complete(binary, marks, visited@, sx, sy, contour@);
            lemma_flood_done(binary, visited@);
            assert(contour@ + Seq::<(u32, u32)>::empty() =~= contour@);
        }
        contour
    }
}

/// A position in the buffer of a well-formed image is that of a pixel.
pub proof fn lemma_index_split_here(i: int, binary: &GrayImage)
    requires
        binary.wf(),
        0 <= i < binary@.len(),
    ensures
        binary.in_bounds(i % (binary.spec_width() as int), i / (binary.spec_width() as int)),
        i == (i / (binary.spec_width() as int)) * binary.spec_width() + i % (
        binary.spec_width() as int),
{
    let w = binary.spec_width() as int;
    let h = binary.spec_height() as int;
    binary.lemma_wf();
    assert(w > 0) by (nonlinear_arith)
        requires
            0 <= i < w * h,
            w >= 0,
    ;
    crate::raster::lemma_index_split(i, w);
    assert(i / w < h) by (nonlinear_arith)
        requires
            0 <= i < w * h,
            w > 0,
            i == (i / w) * w + i % w,
            0 <= i % w,
    ;
}


/// No unmarked on pixel touches a marked on pixel: the marked on pixels
/// are whole regions.
pub open spec fn marks_closed(binary: &GrayImage, marks: Seq<bool>) -> bool {
    forall|x: int, y: int, nx: int, ny: int|
        #![trigger is_on(binary, x, y), adjacent(x, y, nx, ny)]
        is_on(binary, x, y) && marks[y * binary.spec_width() + x] && adjacent(x, y, nx, ny)
            && is_on(binary, nx, ny) ==> marks[ny * binary.spec_width() + nx]
}

/// From a free pixel, and with whole regions marked, the walks over free
/// pixels reach what the walks over on pixels reach.
pub proof fn lemma_closed_marks_reach(
    binary: &GrayImage,
    marks: Seq<bool>,
    sx: int,
    sy: int,
    x: int,
    y: int,
)
    requires
        binary.wf(),
        marks.len() == binary@.len(),
        marks_closed(binary, marks),
        is_free(binary, marks, sx, sy),
    ensures
        reaches(binary, marks, sx, sy, x, y) <==> connected(binary, sx, sy, x, y),
{
    let none = no_marks(binary);
    if reaches(binary, marks, sx, sy, x, y) {
        let path = choose|path: Seq<(int, int)>|
            #[trigger] is_free_path(binary, marks, path) && path[0] == (sx, sy) && path.last() == (
                x,
                y,
            );
        assert forall|i: int| 0 <= i < path.len() implies is_free(
            binary,
            none,
            (#[trigger] path[i]).0,
            path[i].1,
        ) by {
            assert(is_free(binary, marks, path[i].0, path[i].1));
            lemma_index_in_range(
                path[i].0,
                path[i].1,
                binary.spec_width() as int,
                binary.spec_height() as int,
            );
            binary.lemma_wf();
        }
        assert(is_free_path(binary, none, path));
    }
    if connected(binary, sx, sy, x, y) {
        let path = choose|path: Seq<(int, int)>|
            #[trigger] is_free_path(binary, none, path) && path[0] == (sx, sy) && path.last() == (
                x,
                y,
            );
        lemma_on_path_stays_free(binary, marks, path, path.len() - 1);
        assert forall|i: int| 0 <= i < path.len() implies is_free(
            binary,
            marks,
            (#[trigger] path[i]).0,
            path[i].1,
        ) by {
            lemma_on_path_stays_free(binary, marks, path, i);
        }
        assert(is_free_path(binary, marks, path));
    }
}

/// A walk over on pixels that starts at a free pixel meets no marked pixel
/// when whole regions are marked.
proof fn lemma_on_path_stays_free(binary: &GrayImage, marks: Seq<bool>, path: Seq<(int, int)>, i: int)
    requires
        binary.wf(),
        marks.len() == binary@.len(),
        marks_closed(binary, marks),
        is_free_path(binary, no_marks(binary), path),
        is_free(binary, marks, path[0].0, path[0].1),
        0 <= i < path.len(),
    ensures
        is_free(binary, marks, path[i].0, path[i].1),
    decreases i,
{
    if i > 0 {
        lemma_on_path_stays_free(binary, marks, path, i - 1);
        let p = path[i - 1];
        let q = path[i];
        assert(adjacent(p.0, p.1, q.0, q.1));
        assert(is_free(binary, no_marks(binary), q.0, q.1));
        assert(is_on(binary, q.0, q.1));
        assert(adjacent(q.0, q.1, p.0, p.1));
        assert(is_on(binary, p.0, p.1));
    }
}

/// Collecting a place and then the rest is collecting one more place.
pub proof fn lemma_order_grows(collected: Seq<(u32, u32)>, top: (u32, u32), rest: Seq<(u32, u32)>)
    ensures
        collected + (seq![top] + rest) == collected.push(top) + rest,
{
    assert(collected + (seq![top] + rest) =~= collected.push(top) + rest);
}

/// Every place of `points` lies in the region of `(sx, sy)`.
pub open spec fn all_connected(binary: &GrayImage, sx: int, sy: int, points: Seq<(u32, u32)>) -> bool {
    forall|i: int|
        0 <= i < points.len() ==> connected(
            binary,
            sx,
            sy,
            (#[trigger] points[i]).0 as int,
            points[i].1 as int,
        )
}

/// Two masks agree on the region of `(sx, sy)`.
pub open spec fn agree_on_region(
    binary: &GrayImage,
    first: Seq<bool>,
    second: Seq<bool>,
    sx: int,
    sy: int,
) -> bool {
    forall|x: int, y: int|
        #![trigger connected(binary, sx, sy, x, y)]
        connected(binary, sx, sy, x, y) ==> first[y * binary.spec_width() + x] == second[y
            * binary.spec_width() + x]
}

/// Two lists of places of a region, one after the other, are places of the
/// region.
proof fn lemma_all_connected_join(
    binary: &GrayImage,
    sx: int,
    sy: int,
    a: Seq<(u32, u32)>,
    b: Seq<(u32, u32)>,
)
    requires
        all_connected(binary, sx, sy, a),
        all_connected(binary, sx, sy, b),
    ensures
        all_connected(binary, sx, sy, a + b),
{
    let joined = a + b;
    assert forall|i: int| 0 <= i < joined.len() implies connected(
        binary,
        sx,
        sy,
        (#[trigger] joined[i]).0 as int,
        joined[i].1 as int,
    ) by {
        if i < a.len() {
            assert(joined[i] == a[i]);
        } else {
            assert(joined[i] == b[i - a.len()]);
        }
    }
}

/// Under two masks that agree on a region, a pixel of the region has the
/// same free neighbour at each offset, and that neighbour lies in the
/// region.
proof fn lemma_neighbour_agrees(
    binary: &GrayImage,
    first: Seq<bool>,
    second: Seq<bool>,
    sx: int,
    sy: int,
    x: int,
    y: int,
    dx: int,
    dy: int,
)
    requires
        binary.wf(),
        first.len() == binary@.len(),
        second.len() == binary@.len(),
        agree_on_region(binary, first, second, sx, sy),
        connected(binary, sx, sy, x, y),
        -1 <= dx <= 1,
        -1 <= dy <= 1,
        !(dx == 0 && dy == 0),
    ensures
        free_neighbour(binary, first, x, y, dx, dy) == free_neighbour(binary, second, x, y, dx, dy),
        all_connected(binary, sx, sy, free_neighbour(binary, first, x, y, dx, dy)),
{
    let w = binary.spec_width() as int;
    let nx = x + dx;
    let ny = y + dy;
    binary.lemma_wf();
    if is_on(binary, nx, ny) {
        lemma_index_in_range(nx, ny, w, binary.spec_height() as int);
        assert(adjacent(x, y, nx, ny));
        assert(is_free(binary, no_marks(binary), nx, ny));
        lemma_reaches_step(binary, no_marks(binary), sx, sy, x, y, nx, ny);
        assert(connected(binary, sx, sy, nx, ny));
        assert(first[ny * w + nx] == second[ny * w + nx]);
    }
    let found = free_neighbour(binary, first, x, y, dx, dy);
    assert forall|i: int| 0 <= i < found.len() implies connected(
        binary,
        sx,
        sy,
        (#[trigger] found[i]).0 as int,
        found[i].1 as int,
    ) by {
        assert(found[i] == (nx as u32, ny as u32));
    }
}

/// Under two masks that agree on a region, putting the free neighbours of
/// a pixel of the region on a stack of places of the region gives the same
/// stack of places of the region.
proof fn lemma_neighbours_agree(
    binary: &GrayImage,
    first: Seq<bool>,
    second: Seq<bool>,
    stack: Seq<(u32, u32)>,
    sx: int,
    sy: int,
    x: int,
    y: int,
)
    requires
        binary.wf(),
        first.len() == binary@.len(),
        second.len() == binary@.len(),
        agree_on_region(binary, first, second, sx, sy),
        connected(binary, sx, sy, x, y),
        all_connected(binary, sx, sy, stack),
    ensures
        with_free_neighbours(binary, first, stack, x, y) == with_free_neighbours(
            binary,
            second,
            stack,
            x,
            y,
        ),
        all_connected(binary, sx, sy, with_free_neighbours(binary, first, stack, x, y)),
{
    lemma_neighbour_agrees(binary, first, second, sx, sy, x, y, -1, -1);
    lemma_neighbour_agrees(binary, first, second, sx, sy, x, y, 0, -1);
    lemma_neighbour_agrees(binary, first, second, sx, sy, x, y, 1, -1);
    lemma_neighbour_agrees(binary, first, second, sx, sy, x, y, -1, 0);
    lemma_neighbour_agrees(binary, first, second, sx, sy, x, y, 1, 0);
    lemma_neighbour_agrees(binary, first, second, sx, sy, x, y, -1, 1);
    lemma_neighbour_agrees(binary, first, second, sx, sy, x, y, 0, 1);
    lemma_neighbour_agrees(binary, first, second, sx, sy, x, y, 1, 1);
    let s1 = stack + free_neighbour(binary, first, x, y, -1, -1);
    lemma_all_connected_join(binary, sx, sy, stack, free_neighbour(binary, first, x, y, -1, -1));
    let s2 = s1 + free_neighbour(binary, first, x, y, 0, -1);
    lemma_all_connected_join(binary, sx, sy, s1, free_neighbour(binary, first, x, y, 0, -1));
    let s3 = s2 + free_neighbour(binary, first, x, y, 1, -1);
    lemma_all_connected_join(binary, sx, sy, s2, free_neighbour(binary, first, x, y, 1, -1));
    let s4 = s3 + free_neighbour(binary, first, x, y, -1, 0);
    lemma_all_connected_join(binary, sx, sy, s3, free_neighbour(binary, first, x, y, -1, 0));
    let s5 = s4 + free_neighbour(binary, first, x, y, 1, 0);
    lemma_all_connected_join(binary, sx, sy, s4, free_neighbour(binary, first, x, y, 1, 0));
    let s6 = s5 + free_neighbour(binary, first, x, y, -1, 1);
    lemma_all_connected_join(binary, sx, sy, s5, free_neighbour(binary, first, x, y, -1, 1));
    let s7 = s6 + free_neighbour(binary, first, x, y, 0, 1);
    lemma_all_connected_join(binary, sx, sy, s6, free_neighbour(binary, first, x, y, 0, 1));
    lemma_all_connected_join(binary, sx, sy, s7, free_neighbour(binary, first, x, y, 1, 1));
}

/// The order of a flood fill does not depend on the marks outside the
/// region that it fills: two masks that agree on the region of `(sx, sy)`
/// give the same order from a stack of places of the region.
pub proof fn lemma_flood_order_agrees(
    binary: &GrayImage,
    first: Seq<bool>,
    second: Seq<bool>,
    stack: Seq<(u32, u32)>,
    sx: int,
    sy: int,
)
    requires
        binary.wf(),
        first.len() == binary@.len(),
        second.len() == binary@.len(),
        all_connected(binary, sx, sy, stack),
        agree_on_region(binary, first, second, sx, sy),
    ensures
        flood_order(binary, first, stack) == flood_order(binary, second, stack),
    decreases unmarked_count(first), stack.len(),
{
    let w = binary.spec_width() as int;
    let none = no_marks(binary);
    if stack.len() == 0 {
        lemma_flood_done(binary, first);
        lemma_flood_done(binary, second);
        assert(stack =~= Seq::<(u32, u32)>::empty());
    } else {
        let top = stack.last();
        let x = top.0 as int;
        let y = top.1 as int;
        let idx = y * w + x;
        let rest = stack.drop_last();
        assert(connected(binary, sx, sy, x, y));
        lemma_reached_is_free(binary, none, sx, sy, x, y);
        lemma_index_in_range(x, y, w, binary.spec_height() as int);
        binary.lemma_wf();
        assert(first[idx] == second[idx]);
        assert forall|i: int| 0 <= i < rest.len() implies connected(
            binary,
            sx,
            sy,
            (#[trigger] rest[i]).0 as int,
            rest[i].1 as int,
        ) by {
            assert(rest[i] == stack[i]);
        }
        if first[idx] {
            lemma_flood_skip(binary, first, stack);
            lemma_flood_skip(binary, second, stack);
            lemma_flood_order_agrees(binary, first, second, rest, sx, sy);
        } else {
            lemma_flood_take(binary, first, stack);
            lemma_flood_take(binary, second, stack);
            lemma_mark_one(first, idx);
            let marked_first = first.update(idx, true);
            let marked_second = second.update(idx, true);
            assert forall|px: int, py: int|
                #![trigger connected(binary, sx, sy, px, py)]
                connected(binary, sx, sy, px, py) implies marked_first[py * w + px]
                == marked_second[py * w + px] by {
                lemma_reached_is_free(binary, none, sx, sy, px, py);
                lemma_index_in_range(px, py, w, binary.spec_height() as int);
            }
            lemma_neighbours_agree(binary, marked_first, marked_second, rest, sx, sy, x, y);
            lemma_flood_order_agrees(
                binary,
                marked_first,
                marked_second,
                with_free_neighbours(binary, marked_first, rest, x, y),
                sx,
                sy,
            );
        }
    }
}

/// The point lists of a list of contours.
pub open spec fn contour_views(contours: Seq<Vec<(u32, u32)>>) -> Seq<Seq<(u32, u32)>> {
    Seq::new(contours.len(), |k: int| contours[k]@)
}

/// `(x, y)` lies in a region of fewer than `MIN_CONTOUR_PIXELS` pixels.
pub open spec fn in_small_region(binary: &GrayImage, x: int, y: int) -> bool {
    exists|region: Seq<(u32, u32)>|
        #[trigger] is_region(binary, region) && holds(region, x, y) && region.len()
            < MIN_CONTOUR_PIXELS
}

/// `(x, y)` is a point of one of `contours`.
pub open spec fn in_some_contour(contours: Seq<Seq<(u32, u32)>>, x: int, y: int) -> bool {
    exists|k: int| 0 <= k < contours.len() && holds(#[trigger] contours[k], x, y)
}

/// `contours` are the regions of at least `MIN_CONTOUR_PIXELS` pixels among
/// the on pixels scanned before `(lx, ly)`, in the scan order of their
/// first pixels; `marks` marks the pixels of every region met so far.
pub open spec fn are_contours_upto(
    binary: &GrayImage,
    contours: Seq<Seq<(u32, u32)>>,
    marks: Seq<bool>,
    lx: int,
    ly: int,
) -> bool {
    let w = binary.spec_width() as int;
    &&& marks.len() == binary@.len()
    &&& marks_closed(binary, marks)
    &&& forall|k: int|
        0 <= k < contours.len() ==> {
            let c = #[trigger] contours[k];
            &&& is_region(binary, c)
            &&& c.len() >= MIN_CONTOUR_PIXELS
            &&& scanned_before(c[0].0 as int, c[0].1 as int, lx, ly)
        }
    &&& forall|k: int, l: int|
        0 <= k < l < contours.len() ==> scanned_before(
            (#[trigger] contours[k])[0].0 as int,
            contours[k][0].1 as int,
            (#[trigger] contours[l])[0].0 as int,
            contours[l][0].1 as int,
        )
    &&& forall|x: int, y: int|
        #![trigger is_on(binary, x, y)]
        is_on(binary, x, y) && scanned_before(x, y, lx, ly) ==> marks[y * w + x]
    &&& forall|x: int, y: int|
        #![trigger marks[y * w + x]]
        binary.in_bounds(x, y) && marks[y * w + x] ==> is_on(binary, x, y) && (in_some_contour(
            contours,
            x,
            y,
        ) || in_small_region(binary, x, y))
}

/// `contours` are the 8-connected regions of on pixels that hold at least
/// `MIN_CONTOUR_PIXELS` pixels, in the scan order of their first pixels.
pub open spec fn are_contours_of(binary: &GrayImage, contours: Seq<Seq<(u32, u32)>>) -> bool {
    &&& forall|k: int|
        0 <= k < contours.len() ==> is_region(binary, #[trigger] contours[k]) && contours[k].len()
            >= MIN_CONTOUR_PIXELS
    &&& forall|k: int, l: int|
        0 <= k < l < contours.len() ==> scanned_before(
            (#[trigger] contours[k])[0].0 as int,
            contours[k][0].1 as int,
            (#[trigger] contours[l])[0].0 as int,
            contours[l][0].1 as int,
        )
    &&& forall|x: int, y: int|
        #![trigger is_on(binary, x, y)]
        is_on(binary, x, y) ==> in_some_contour(contours, x, y) || in_small_region(binary, x, y)
}

/// Before the scan starts, with nothing marked, no contour is owed.
proof fn lemma_contours_start(binary: &GrayImage, marks: Seq<bool>)
    requires
        binary.wf(),
        marks.len() == binary@.len(),
        forall|i: int| 0 <= i < marks.len() ==> !marks[i],
    ensures
        are_contours_upto(binary, Seq::empty(), marks, 0, 0),
{
    let w = binary.spec_width() as int;
    let h = binary.spec_height() as int;
    binary.lemma_wf();
    assert forall|x: int, y: int, nx: int, ny: int|
        #![trigger is_on(binary, x, y), adjacent(x, y, nx, ny)]
        is_on(binary, x, y) && marks[y * w + x] && adjacent(x, y, nx, ny) && is_on(
            binary,
            nx,
            ny,
        ) implies marks[ny * w + nx] by {
        lemma_index_in_range(x, y, w, h);
    }
    assert forall|x: int, y: int|
        #![trigger marks[y * w + x]]
        binary.in_bounds(x, y) && marks[y * w + x] implies false by {
        lemma_index_in_range(x, y, w, h);
    }
}

/// The scan passes a pixel that is off or already marked.
proof fn lemma_contours_skip(
    binary: &GrayImage,
    contours: Seq<Seq<(u32, u32)>>,
    marks: Seq<bool>,
    x: int,
    y: int,
)
    requires
        binary.wf(),
        binary.in_bounds(x, y),
        are_contours_upto(binary, contours, marks, x, y),
        !is_free(binary, marks, x, y),
    ensures
        are_contours_upto(binary, contours, marks, x + 1, y),
{
    let w = binary.spec_width() as int;
    assert forall|px: int, py: int|
        #![trigger is_on(binary, px, py)]
        is_on(binary, px, py) && scanned_before(px, py, x + 1, y) implies marks[py * w + px] by {
        if px == x && py == y {
        } else {
            assert(scanned_before(px, py, x, y));
        }
    }
    assert forall|k: int| 0 <= k < contours.len() implies scanned_before(
        (#[trigger] contours[k])[0].0 as int,
        contours[k][0].1 as int,
        x + 1,
        y,
    ) by {
        assert(scanned_before(contours[k][0].0 as int, contours[k][0].1 as int, x, y));
    }
}

/// The scan moves from the end of a row to the start of the next.
proof fn lemma_contours_next_row(
    binary: &GrayImage,
    contours: Seq<Seq<(u32, u32)>>,
    marks: Seq<bool>,
    y: int,
)
    requires
        binary.wf(),
        are_contours_upto(binary, contours, marks, binary.spec_width() as int, y),
    ensures
        are_contours_upto(binary, contours, marks, 0, y + 1),
{
    let w = binary.spec_width() as int;
    assert forall|px: int, py: int|
        #![trigger is_on(binary, px, py)]
        is_on(binary, px, py) && scanned_before(px, py, 0, y + 1) implies marks[py * w + px] by {
        assert(scanned_before(px, py, w, y));
    }
    assert forall|k: int| 0 <= k < contours.len() implies scanned_before(
        (#[trigger] contours[k])[0].0 as int,
        contours[k][0].1 as int,
        0,
        y + 1,
    ) by {
        assert(scanned_before(contours[k][0].0 as int, contours[k][0].1 as int, w, y));
    }
}

/// The scan passes a free pixel whose region has just been traced.
proof fn lemma_contours_step(
    binary: &GrayImage,
    before: Seq<Seq<(u32, u32)>>,
    after: Seq<Seq<(u32, u32)>>,
    marks: Seq<bool>,
    visited: Seq<bool>,
    x: int,
    y: int,
    traced: Seq<(u32, u32)>,
)
    requires
        binary.wf(),
        binary.in_bounds(x, y),
        are_contours_upto(binary, before, marks, x, y),
        is_free(binary, marks, x, y),
        visited.len() == marks.len(),
        is_filled_region(binary, marks, x, y, traced),
        traced == flood_order(binary, marks, seq![(x as u32, y as u32)]),
        forall|px: int, py: int|
            #![trigger holds(traced, px, py)]
            #![trigger visited[py * binary.spec_width() + px]]
            binary.in_bounds(px, py) ==> (visited[py * binary.spec_width() + px] <==> (marks[py
                * binary.spec_width() + px] || holds(traced, px, py))),
        after == if traced.len() >= MIN_CONTOUR_PIXELS {
            before.push(traced)
        } else {
            before
        },
    ensures
        are_contours_upto(binary, after, visited, x + 1, y),
{
    let w = binary.spec_width() as int;
    let kept = traced.len() >= MIN_CONTOUR_PIXELS;
    lemma_traced_is_region(binary, marks, visited, x, y, traced);
    assert(traced[0] == (x as u32, y as u32));
    assert(holds(traced, x, y));
    if kept {
        assert(after[before.len() as int] == traced);
    }
    assert forall|k: int| 0 <= k < before.len() implies after[k] == before[k] by {}
    assert forall|k: int| 0 <= k < after.len() implies {
        let c = #[trigger] after[k];
        &&& is_region(binary, c)
        &&& c.len() >= MIN_CONTOUR_PIXELS
        &&& scanned_before(c[0].0 as int, c[0].1 as int, x + 1, y)
    } by {
        if k < before.len() {
            assert(after[k] == before[k]);
            assert(scanned_before(before[k][0].0 as int, before[k][0].1 as int, x, y));
        }
    }
    assert forall|k: int, l: int| 0 <= k < l < after.len() implies scanned_before(
        (#[trigger] after[k])[0].0 as int,
        after[k][0].1 as int,
        (#[trigger] after[l])[0].0 as int,
        after[l][0].1 as int,
    ) by {
        assert(after[k] == before[k]);
        assert(scanned_before(before[k][0].0 as int, before[k][0].1 as int, x, y));
        if l < before.len() {
            assert(after[l] == before[l]);
        }
    }
    assert forall|px: int, py: int|
        #![trigger is_on(binary, px, py)]
        is_on(binary, px, py) && scanned_before(px, py, x + 1, y) implies visited[py * w + px] by {
        if px == x && py == y {
        } else {
            assert(scanned_before(px, py, x, y));
            assert(marks[py * w + px]);
        }
    }
    assert forall|px: int, py: int|
        #![trigger visited[py * w + px]]
        binary.in_bounds(px, py) && visited[py * w + px] implies is_on(binary, px, py) && (
        in_some_contour(after, px, py) || in_small_region(binary, px, py)) by {
        if marks[py * w + px] {
            if in_some_contour(before, px, py) {
                let k = choose|k: int| 0 <= k < before.len() && holds(#[trigger] before[k], px, py);
                assert(holds(after[k], px, py));
            }
        } else {
            assert(holds(traced, px, py));
            assert(reaches(binary, marks, x, y, px, py));
            lemma_reached_is_free(binary, marks, x, y, px, py);
            if kept {
                assert(holds(after[before.len() as int], px, py));
            } else {
                assert(is_region(binary, traced) && holds(traced, px, py));
            }
        }
    }
}

impl AlignmentEngine {
    /// The 8-connected regions of pixels with the value 255 that hold at
    /// least `MIN_CONTOUR_PIXELS` pixels.
    pub fn find_contours(&self, binary: &GrayImage) -> (contours: Vec<Vec<(u32, u32)>>)
        requires
            binary.wf(),
        ensures
            are_contours_of(binary, contour_views(contours@)),
    {
        let width: u32 = binary.width();
        let height: u32 = binary.height();
        let total: usize = binary.pixel_count();
        let mut visited: Vec<bool> = Vec::new();
        let mut n: usize = 0;
        while n < total
            invariant
                n <= total,
                visited@.len() == n,
                forall|i: int| 0 <= i < n ==> !visited@[i],
            decreases total - n,
        {
            visited.push(false);
            n += 1;
        }
        let mut contours: Vec<Vec<(u32, u32)>> = Vec::new();
        let mut y: u32 = 0;
        proof {
            assert(contour_views(contours@) =~= Seq::empty());
            lemma_contours_start(binary, visited@);
        }
        while y < height
            invariant
                binary.wf(),
                width == binary.spec_width(),
                height == binary.spec_height(),
                y <= height,
                are_contours_upto(binary, contour_views(contours@), visited@, 0, y as int),
            decreases height - y,
        {
            let mut x: u32 = 0;
            while x < width
                invariant
                    binary.wf(),
                    width == binary.spec_width(),
                    height == binary.spec_height(),
                    y < height,
                    x <= width,
                    are_contours_upto(
                        binary,
                        contour_views(contours@),
                        visited@,
                        x as int,
                        y as int,
                    ),
                decreases width - x,
            {
                proof {
                    lemma_index_in_range(x as int, y as int, width as int, height as int);
                    binary.lemma_wf();
                }
                let idx: usize = (y as usize) * (width as usize) + (x as usize);
                if binary.get_pixel(x, y) == 255 && !visited[idx] {
                    let ghost marks = visited@;
                    let ghost before = contour_views(contours@);
                    let contour: Vec<(u32, u32)> = self.trace_contour(binary, &mut visited, x, y);
                    let ghost traced = contour@;
                    if contour.len() >= MIN_CONTOUR_PIXELS {
                        contours.push(contour);
                        proof {
                            assert(contour_views(contours@) =~= before.push(traced));
                        }
                    }
                    proof {
                        lemma_contours_step(
                            binary,
                            before,
                            contour_views(contours@),
                            marks,
                            visited@,
                            x as int,
                            y as int,
                            traced,
                        );
                    }
                } else {
                    proof {
                        lemma_contours_skip(
                            binary,
                            contour_views(contours@),
                            visited@,
                            x as int,
                            y as int,
                        );
                    }
                }
                x += 1;
            }
            proof {
                lemma_contours_next_row(binary, contour_views(contours@), visited@, y as int);
            }
            y += 1;
        }
        proof {
            let views = contour_views(contours@);
            let w = width as int;
            assert forall|px: int, py: int|
                #![trigger is_on(binary, px, py)]
                is_on(binary, px, py) implies in_some_contour(views, px, py) || in_small_region(
                binary,
                px,
                py,
            ) by {
                assert(scanned_before(px, py, 0, height as int));
                lemma_index_in_range(px, py, w, height as int);
                assert(visited@[py * w + px]);
            }
        }
        contours
    }
}

/// What a fill from the scan's current pixel yields is a whole region, the
/// pixel its first in scan order, and the marks stay whole regions.
proof fn lemma_traced_is_region(
    binary: &GrayImage,
    marks: Seq<bool>,
    visited: Seq<bool>,
    sx: int,
    sy: int,
    traced: Seq<(u32, u32)>,
)
    requires
        binary.wf(),
        marks.len() == binary@.len(),
        visited.len() == marks.len(),
        marks_closed(binary, marks),
        is_free(binary, marks, sx, sy),
        is_filled_region(binary, marks, sx, sy, traced),
        traced == flood_order(binary, marks, seq![(sx as u32, sy as u32)]),
        forall|x: int, y: int|
            #![trigger is_on(binary, x, y)]
            is_on(binary, x, y) && scanned_before(x, y, sx, sy) ==> marks[y * binary.spec_width()
                + x],
        forall|x: int, y: int|
            #![trigger holds(traced, x, y)]
            #![trigger visited[y * binary.spec_width() + x]]
            binary.in_bounds(x, y) ==> (visited[y * binary.spec_width() + x] <==> (marks[y
                * binary.spec_width() + x] || holds(traced, x, y))),
    ensures
        is_region(binary, traced),
        marks_closed(binary, visited),
{
    let w = binary.spec_width() as int;
    let none = no_marks(binary);
    assert forall|x: int, y: int|
        #![trigger holds(traced, x, y)]
        #![trigger reaches(binary, no_marks(binary), sx, sy, x, y)]
        holds(traced, x, y) <==> reaches(binary, no_marks(binary), sx, sy, x, y) by {
        lemma_closed_marks_reach(binary, marks, sx, sy, x, y);
    }
    let start = seq![(sx as u32, sy as u32)];
    assert forall|x: int, y: int|
        #![trigger connected(binary, sx, sy, x, y)]
        connected(binary, sx, sy, x, y) implies marks[y * w + x] == none[y * w + x] by {
        lemma_closed_marks_reach(binary, marks, sx, sy, x, y);
        lemma_reached_is_free(binary, marks, sx, sy, x, y);
        lemma_index_in_range(x, y, w, binary.spec_height() as int);
        binary.lemma_wf();
    }
    assert(connected(binary, sx, sy, sx, sy)) by {
        lemma_closed_marks_reach(binary, marks, sx, sy, sx, sy);
        lemma_reaches_self(binary, marks, sx, sy);
    }
    assert(start[0] == (sx as u32, sy as u32));
    lemma_flood_order_agrees(binary, marks, none, start, sx, sy);
    assert(traced[0].0 as int == sx && traced[0].1 as int == sy);
    assert forall|i: int| 0 <= i < traced.len() implies !scanned_before(
        (#[trigger] traced[i]).0 as int,
        traced[i].1 as int,
        sx,
        sy,
    ) by {
        let px = traced[i].0 as int;
        let py = traced[i].1 as int;
        assert(holds(traced, px, py));
        assert(reaches(binary, marks, sx, sy, px, py));
        lemma_reached_is_free(binary, marks, sx, sy, px, py);
    }
    assert forall|x: int, y: int, nx: int, ny: int|
        #![trigger is_on(binary, x, y), adjacent(x, y, nx, ny)]
        is_on(binary, x, y) && visited[y * w + x] && adjacent(x, y, nx, ny) && is_on(
            binary,
            nx,
            ny,
        ) implies visited[ny * w + nx] by {
        if marks[y * w + x] {
            assert(marks[ny * w + nx]);
        } else {
            assert(holds(traced, x, y));
            assert(reaches(binary, marks, sx, sy, x, y));
            if !marks[ny * w + nx] {
                lemma_reaches_step(binary, marks, sx, sy, x, y, nx, ny);
                assert(holds(traced, nx, ny));
            }
        }
    }
}


/// The least first coordinate of `points`, and `u32::MAX` when there is no
/// point.
pub open spec fn min_x(points: Seq<(u32, u32)>) -> u32
    decreases points.len(),
{
    if points.len() == 0 {
        0xffff_ffff
    } else if points.last().0 < min_x(points.drop_last()) {
        points.last().0
    } else {
        min_x(points.drop_last())
    }
}

/// The least second coordinate of `points`, and `u32::MAX` when there is
/// no point.
pub open spec fn min_y(points: Seq<(u32, u32)>) -> u32
    decreases points.len(),
{
    if points.len() == 0 {
        0xffff_ffff
    } else if points.last().1 < min_y(points.drop_last()) {
        points.last().1
    } else {
        min_y(points.drop_last())
    }
}

/// The greatest first coordinate of `points`, and 0 when there is no point.
pub open spec fn max_x(points: Seq<(u32, u32)>) -> u32
    decreases points.len(),
{
    if points.len() == 0 {
        0
    } else if points.last().0 > max_x(points.drop_last()) {
        points.last().0
    } else {
        max_x(points.drop_last())
    }
}

/// The greatest second coordinate of `points`, and 0 when there is no
/// point.
pub open spec fn max_y(points: Seq<(u32, u32)>) -> u32
    decreases points.len(),
{
    if points.len() == 0 {
        0
    } else if points.last().1 > max_y(points.drop_last()) {
        points.last().1
    } else {
        max_y(points.drop_last())
    }
}

/// The corners of the bounding box of `points`: top left, top right,
/// bottom right, bottom left.
pub open spec fn bounding_rectangle(points: Seq<(u32, u32)>) -> Seq<(u32, u32)> {
    seq![
        (min_x(points), min_y(points)),
        (max_x(points), min_y(points)),
        (max_x(points), max_y(points)),
        (min_x(points), max_y(points)),
    ]
}

/// The sum of the shoelace formula over four corners.
pub open spec fn shoelace(c: Seq<(u32, u32)>) -> int {
    (c[0].0 * c[1].1 - c[1].0 * c[0].1) + (c[1].0 * c[2].1 - c[2].0 * c[1].1) + (c[2].0 * c[3].1
        - c[3].0 * c[2].1) + (c[3].0 * c[0].1 - c[0].0 * c[3].1)
}

/// Twice the area of the quadrilateral with the corners `c`; zero unless
/// there are four corners.
pub open spec fn doubled_area(c: Seq<(u32, u32)>) -> int {
    if c.len() != 4 {
        0
    } else if shoelace(c) >= 0 {
        shoelace(c)
    } else {
        -shoelace(c)
    }
}

/// Twice the area of the bounding box of a contour, and zero for a contour
/// of fewer than four points, which has no rectangle.
pub open spec fn rectangle_area(points: Seq<(u32, u32)>) -> int {
    if points.len() >= 4 {
        doubled_area(bounding_rectangle(points))
    } else {
        0
    }
}

/// `r` is the rectangle of the contour whose rectangle has the largest
/// area, the first of them when several do; nothing when no contour has a
/// rectangle of positive area.
pub open spec fn is_largest_rectangle(contours: Seq<Seq<(u32, u32)>>, r: Option<Seq<(u32, u32)>>) -> bool {
    match r {
        None => forall|k: int| 0 <= k < contours.len() ==> rectangle_area(#[trigger] contours[k]) == 0,
        Some(corners) => exists|k: int|
            {
                &&& 0 <= k < contours.len()
                &&& corners == bounding_rectangle(#[trigger] contours[k])
                &&& rectangle_area(contours[k]) > 0
                &&& forall|j: int|
                    0 <= j < contours.len() ==> rectangle_area(#[trigger] contours[j])
                        <= rectangle_area(contours[k])
                &&& forall|j: int|
                    0 <= j < k ==> rectangle_area(#[trigger] contours[j]) < rectangle_area(
                        contours[k],
                    )
            },
    }
}

/// The four corners of an image of `width` by `height`.
pub open spec fn image_corners(width: u32, height: u32) -> Seq<(u32, u32)> {
    seq![(0u32, 0u32), (width, 0u32), (width, height), (0u32, height)]
}

/// `corners` are the page corners read from `contours`: the largest
/// rectangle, or the corners of the image when there is none.
pub open spec fn are_page_corners(
    contours: Seq<Seq<(u32, u32)>>,
    width: u32,
    height: u32,
    corners: Seq<(u32, u32)>,
) -> bool {
    ||| is_largest_rectangle(contours, Some(corners))
    ||| (is_largest_rectangle(contours, None) && corners == image_corners(width, height))
}

/// `mask` is the edge mask of `image` under `threshold`.
pub open spec fn is_edge_mask(image: &GrayImage, mask: &GrayImage, threshold: u32) -> bool {
    &&& mask.wf()
    &&& mask.spec_width() == image.spec_width()
    &&& mask.spec_height() == image.spec_height()
    &&& forall|i: int|
        0 <= i < image@.len() ==> #[trigger] mask@[i] == edge_value(
            sobel_magnitudes(image.spec_width(), image.spec_height(), image@)[i],
            threshold,
        )
}

/// The gradient magnitude above which a pixel belongs to the page's edge.
pub const PAGE_EDGE_THRESHOLD: u32 = 50;

impl AlignmentEngine {
    /// The corners of the bounding box of a contour of at least four
    /// points: top left, top right, bottom right, bottom left.
    pub fn approximate_rectangle(&self, contour: &Vec<(u32, u32)>) -> (r: Option<Vec<(u32, u32)>>)
        ensures
            r is Some <==> contour@.len() >= 4,
            r matches Some(corners) ==> corners@ == bounding_rectangle(contour@),
    {
        if contour.len() < 4 {
            return None;
        }
        let mut lo_x: u32 = 0xffff_ffff;
        let mut lo_y: u32 = 0xffff_ffff;
        let mut hi_x: u32 = 0;
        let mut hi_y: u32 = 0;
        let mut i: usize = 0;
        assert(contour@.take(0) =~= Seq::<(u32, u32)>::empty());
        while i < contour.len()
            invariant
                i <= contour@.len(),
                lo_x == min_x(contour@.take(i as int)),
                lo_y == min_y(contour@.take(i as int)),
                hi_x == max_x(contour@.take(i as int)),
                hi_y == max_y(contour@.take(i as int)),
            decreases contour.len() - i,
        {
            let p: (u32, u32) = contour[i];
            proof {
                assert(contour@.take(i as int + 1).drop_last() =~= contour@.take(i as int));
                assert(contour@.take(i as int + 1).last() == p);
            }
            if p.0 < lo_x {
                lo_x = p.0;
            }
            if p.0 > hi_x {
                hi_x = p.0;
            }
            if p.1 < lo_y {
                lo_y = p.1;
            }
            if p.1 > hi_y {
                hi_y = p.1;
            }
            i += 1;
        }
        assert(contour@.take(i as int) =~= contour@);
        let mut corners: Vec<(u32, u32)> = Vec::new();
        corners.push((lo_x, lo_y));
        corners.push((hi_x, lo_y));
        corners.push((hi_x, hi_y));
        corners.push((lo_x, hi_y));
        assert(corners@ =~= bounding_rectangle(contour@));
        Some(corners)
    }

    /// Twice the area of the quadrilateral with the given corners, by the
    /// shoelace formula; zero unless there are four corners.
    pub fn calculate_quadrilateral_area(&self, corners: &Vec<(u32, u32)>) -> (area: u128)
        ensures
            area == doubled_area(corners@),
    {
        if corners.len() != 4 {
            return 0;
        }
        let mut sum: i128 = 0;
        let mut i: usize = 0;
        let ghost c = corners@;
        while i < 4
            invariant
                corners@ == c,
                c.len() == 4,
                i <= 4,
                -0x1_0000_0000_0000_0000 * i <= sum <= 0x1_0000_0000_0000_0000 * i,
                i == 0 ==> sum == 0,
                i == 1 ==> sum == (c[0].0 * c[1].1 - c[1].0 * c[0].1),
                i == 2 ==> sum == (c[0].0 * c[1].1 - c[1].0 * c[0].1) + (c[1].0 * c[2].1 - c[2].0
                    * c[1].1),
                i == 3 ==> sum == (c[0].0 * c[1].1 - c[1].0 * c[0].1) + (c[1].0 * c[2].1 - c[2].0
                    * c[1].1) + (c[2].0 * c[3].1 - c[3].0 * c[2].1),
                i == 4 ==> sum == shoelace(c),
            decreases 4 - i,
        {
            let j: usize = (i + 1) % 4;
            let a: (u32, u32) = corners[i];
            let b: (u32, u32) = corners[j];
            proof {
                let ax = a.0 as int;
                let ay = a.1 as int;
                let bx = b.0 as int;
                let by = b.1 as int;
                assert(0 <= ax * by <= 0xffff_ffff * 0xffff_ffff && 0 <= bx * ay <= 0xffff_ffff
                    * 0xffff_ffff) by (nonlinear_arith)
                    requires
                        0 <= ax <= 0xffff_ffff,
                        0 <= ay <= 0xffff_ffff,
                        0 <= bx <= 0xffff_ffff,
                        0 <= by <= 0xffff_ffff,
                ;
            }
            sum = sum + ((a.0 as i128) * (b.1 as i128) - (b.0 as i128) * (a.1 as i128));
            i += 1;
        }
        if sum >= 0 {
            sum as u128
        } else {
            (-sum) as u128
        }
    }

    /// The rectangle of the contour whose bounding box has the largest
    /// area, if any has a positive one.
    pub fn find_largest_rectangular_contour(&self, contours: &Vec<Vec<(u32, u32)>>) -> (r: Option<
        Vec<(u32, u32)>,
    >)
        ensures
            is_largest_rectangle(
                contour_views(contours@),
                match r {
                    Some(corners) => Some(corners@),
                    None => None,
                },
            ),
    {
        let ghost views = contour_views(contours@);
        let mut best: Option<Vec<(u32, u32)>> = None;
        let mut best_area: u128 = 0;
        let ghost mut best_k: int = 0;
        let mut i: usize = 0;
        while i < contours.len()
            invariant
                i <= contours@.len(),
                views == contour_views(contours@),
                best is None ==> best_area == 0,
                forall|j: int| 0 <= j < i ==> rectangle_area(#[trigger] views[j]) <= best_area,
                best matches Some(corners) ==> {
                    &&& 0 <= best_k < i
                    &&& corners@ == bounding_rectangle(views[best_k])
                    &&& rectangle_area(views[best_k]) == best_area
                    &&& best_area > 0
                    &&& forall|j: int|
                        0 <= j < best_k ==> rectangle_area(#[trigger] views[j]) < best_area
                },
            decreases contours.len() - i,
        {
            assert(views[i as int] == contours@[i as int]@);
            match self.approximate_rectangle(&contours[i]) {
                Some(corners) => {
                    let area: u128 = self.calculate_quadrilateral_area(&corners);
                    if area > best_area {
                        best_area = area;
                        best = Some(corners);
                        proof {
                            best_k = i as int;
                        }
                    }
                },
                None => {},
            }
            i += 1;
        }
        proof {
            if best is Some {
                assert(0 <= best_k < views.len() && best->Some_0@ == bounding_rectangle(
                    views[best_k],
                ));
            }
        }
        best
    }

    /// The edge mask of a blurred page: 255 where the Sobel gradient
    /// magnitude exceeds `PAGE_EDGE_THRESHOLD`.
    pub fn detect_page_edges(&self, blurred: &GrayImage) -> (mask: GrayImage)
        requires
            blurred.wf(),
        ensures
            is_edge_mask(blurred, &mask, PAGE_EDGE_THRESHOLD),
    {
        ImageProcessor::detect_edges(blurred, PAGE_EDGE_THRESHOLD)
    }

    /// The four corners of the page in a blurred image: those of the
    /// largest rectangle among the contours of its edge mask, or those of
    /// the image when no contour gives a rectangle.
    pub fn detect_page_corners(&self, blurred: &GrayImage) -> (corners: Vec<(u32, u32)>)
        requires
            blurred.wf(),
        ensures
            corners@.len() == 4,
            exists|mask: GrayImage, contours: Seq<Seq<(u32, u32)>>|
                #![trigger are_contours_of(&mask, contours)]
                is_edge_mask(blurred, &mask, PAGE_EDGE_THRESHOLD) && are_contours_of(
                    &mask,
                    contours,
                ) && are_page_corners(
                    contours,
                    blurred.spec_width(),
                    blurred.spec_height(),
                    corners@,
                ),
    {
        let mask: GrayImage = self.detect_page_edges(blurred);
        let contours: Vec<Vec<(u32, u32)>> = self.find_contours(&mask);
        let ghost views = contour_views(contours@);
        match self.find_largest_rectangular_contour(&contours) {
            Some(corners) => {
                proof {
                    assert(is_largest_rectangle(views, Some(corners@)));
                    assert(are_contours_of(&mask, views));
                    let k = choose|k: int|
                        0 <= k < views.len() && corners@ == bounding_rectangle(#[trigger] views[k]);
                    assert(corners@.len() == 4);
                }
                corners
            },
            None => {
                let mut corners: Vec<(u32, u32)> = Vec::new();
                corners.push((0, 0));
                corners.push((blurred.width(), 0));
                corners.push((blurred.width(), blurred.height()));
                corners.push((0, blurred.height()));
                proof {
                    assert(corners@ =~= image_corners(blurred.spec_width(), blurred.spec_height()));
                    assert(are_contours_of(&mask, views));
                }
                corners
            },
        }
    }

    /// Warps an image so that the given page corners fall on its own
    /// corners. Projective warping is not part of this library: the image
    /// is copied as it is, whatever the corners.
    pub fn correct_perspective(&self, image: &GrayImage, corners: &Vec<(u32, u32)>) -> (out: GrayImage)
        ensures
            out.same_as(image),
            image.wf() ==> out.wf(),
    {
        image.duplicate()
    }

    /// Aligns an image by the page corners found in its blurred copy.
    /// The image keeps its dimensions and, as warping is not part of this
    /// library, its pixels.
    pub fn auto_align_using_edges(&self, image: &GrayImage, blurred: &GrayImage) -> (out: GrayImage)
        requires
            image.wf(),
            blurred.wf(),
        ensures
            out.wf(),
            out.same_as(image),
    {
        let corners: Vec<(u32, u32)> = self.detect_page_corners(blurred);
        if corners.len() == 4 {
            self.correct_perspective(image, &corners)
        } else {
            image.duplicate()
        }
    }

    /// Aligns an image to a template. Alignment by matched features is not
    /// part of this library: the image is copied as it is.
    pub fn align_image_to_template(&self, image: &GrayImage, template: &OmrTemplate) -> (out:
        GrayImage)
        ensures
            out.same_as(image),
            image.wf() ==> out.wf(),
    {
        image.duplicate()
    }
}

} // verus!
