//! The buffer compositor: executes a sequence of blits into one canvas.
//!
//! Overlapping blits are permitted by design: the later blit in input order
//! overwrites the earlier one pixel by pixel, which supports arbitrary
//! caller-specified placements. Uncovered canvas area stays black.

use vstd::prelude::*;

use crate::img::black;
use crate::img::Image;
use crate::img::Rgb;
use crate::layout::ImageBlit;
use crate::ConcatError;

verus! {

/// Whether blit `b`'s destination rectangle contains canvas point (x, y).
pub open spec fn covers<'a>(b: ImageBlit<'a>, x: int, y: int) -> bool {
    b.x <= x < b.x + (*b.img).width && b.y <= y < b.y + (*b.img).height
}

/// The colour a sequence of blits leaves at canvas point (x, y): the last
/// blit whose rectangle contains the point wins; uncovered points are black.
pub open spec fn composite_pixel<'a>(blits: Seq<ImageBlit<'a>>, x: int, y: int) -> Rgb
    decreases blits.len(),
{
    if blits.len() == 0 {
        black()
    } else if covers(blits.last(), x, y) {
        (*blits.last().img).pixel(x - blits.last().x, y - blits.last().y)
    } else {
        composite_pixel(blits.drop_last(), x, y)
    }
}

/// Whether some blit in the sequence covers canvas point (x, y).
pub open spec fn covered_by_any<'a>(blits: Seq<ImageBlit<'a>>, x: int, y: int) -> bool {
    exists|k: int| 0 <= k < blits.len() && covers(#[trigger] blits[k], x, y)
}

/// Blit `b` fits inside a `w` by `h` canvas.
pub open spec fn blit_in_bounds<'a>(b: ImageBlit<'a>, w: int, h: int) -> bool {
    b.x + (*b.img).width <= w && b.y + (*b.img).height <= h
}

/// Right edge of the rightmost blit rectangle (0 when there are none).
pub open spec fn max_right<'a>(blits: Seq<ImageBlit<'a>>) -> int
    decreases blits.len(),
{
    if blits.len() == 0 {
        0
    } else {
        let rest: int = max_right(blits.drop_last());
        let edge: int = blits.last().x + (*blits.last().img).width;
        if edge >= rest {
            edge
        } else {
            rest
        }
    }
}

/// Bottom edge of the lowest blit rectangle (0 when there are none).
pub open spec fn max_bottom<'a>(blits: Seq<ImageBlit<'a>>) -> int
    decreases blits.len(),
{
    if blits.len() == 0 {
        0
    } else {
        let rest: int = max_bottom(blits.drop_last());
        let edge: int = blits.last().y + (*blits.last().img).height;
        if edge >= rest {
            edge
        } else {
            rest
        }
    }
}

pub proof fn lemma_max_right_nonneg<'a>(blits: Seq<ImageBlit<'a>>)
    ensures
        0 <= max_right(blits),
    decreases blits.len(),
{
    if blits.len() > 0 {
        lemma_max_right_nonneg(blits.drop_last());
    }
}

pub proof fn lemma_max_bottom_nonneg<'a>(blits: Seq<ImageBlit<'a>>)
    ensures
        0 <= max_bottom(blits),
    decreases blits.len(),
{
    if blits.len() > 0 {
        lemma_max_bottom_nonneg(blits.drop_last());
    }
}

/// Extending a prefix by one blit extends the canvas edge to that blit's
/// edge when it sticks out.
pub proof fn lemma_max_right_step<'a>(blits: Seq<ImageBlit<'a>>, i: int)
    requires
        0 <= i < blits.len(),
    ensures
        max_right(blits.take(i + 1)) == if blits[i].x + (*blits[i].img).width >= max_right(
            blits.take(i),
        ) {
            blits[i].x + (*blits[i].img).width
        } else {
            max_right(blits.take(i))
        },
{
    assert(blits.take(i + 1).drop_last() =~= blits.take(i));
    assert(blits.take(i + 1).last() == blits[i]);
}

pub proof fn lemma_max_bottom_step<'a>(blits: Seq<ImageBlit<'a>>, i: int)
    requires
        0 <= i < blits.len(),
    ensures
        max_bottom(blits.take(i + 1)) == if blits[i].y + (*blits[i].img).height >= max_bottom(
            blits.take(i),
        ) {
            blits[i].y + (*blits[i].img).height
        } else {
            max_bottom(blits.take(i))
        },
{
    assert(blits.take(i + 1).drop_last() =~= blits.take(i));
    assert(blits.take(i + 1).last() == blits[i]);
}

/// Every blit rectangle stays inside the canvas sized by the edge maxima.
pub proof fn lemma_max_edges_bound<'a>(blits: Seq<ImageBlit<'a>>, i: int)
    requires
        0 <= i < blits.len(),
    ensures
        blits[i].x + (*blits[i].img).width <= max_right(blits),
        blits[i].y + (*blits[i].img).height <= max_bottom(blits),
    decreases blits.len(),
{
    lemma_max_right_nonneg(blits.drop_last());
    lemma_max_bottom_nonneg(blits.drop_last());
    if i < blits.len() - 1 {
        lemma_max_edges_bound(blits.drop_last(), i);
    }
}

/// The colour of the canvas midway through executing blit `k`: the first
/// `k` blits are fully applied, and of blit `k` itself the rows above `dy`
/// plus the first `dx` pixels of row `dy`.
spec fn partial_pixel<'a>(
    blits: Seq<ImageBlit<'a>>,
    k: int,
    dy: int,
    dx: int,
    x: int,
    y: int,
) -> Rgb
    recommends
        0 <= k < blits.len(),
{
    let b = blits[k];
    if covers(b, x, y) && (y - b.y < dy || (y - b.y == dy && x - b.x < dx)) {
        (*b.img).pixel(x - b.x, y - b.y)
    } else {
        composite_pixel(blits.take(k), x, y)
    }
}

/// Allocates a black `canvas_width` by `canvas_height` canvas and copies
/// every blit's source image into it, in input order, so that the last
/// blit covering a point wins.
///
/// Fails with `OutOfBounds` exactly when some blit's rectangle does not fit
/// inside the given canvas dimensions.
pub fn composite<'a>(canvas_width: u32, canvas_height: u32, blits: &[ImageBlit<'a>]) -> (r: Result<
    Image,
    ConcatError,
>)
    requires
        forall|k: int| #![trigger blits@[k]] 0 <= k < blits@.len() ==> (*blits@[k].img).wf(),
        3 * (canvas_width * canvas_height) <= usize::MAX,
    ensures
        match r {
            Ok(c) => {
                &&& c.wf()
                &&& c.width == canvas_width
                &&& c.height == canvas_height
                &&& forall|k: int|
                    #![trigger blits@[k]]
                    0 <= k < blits@.len() ==> blit_in_bounds(
                        blits@[k],
                        canvas_width as int,
                        canvas_height as int,
                    )
                &&& forall|x: int, y: int|
                    0 <= x < canvas_width && 0 <= y < canvas_height ==> c.pixel(x, y)
                        == composite_pixel(blits@, x, y)
            },
            Err(e) => {
                &&& e == ConcatError::OutOfBounds
                &&& exists|k: int|
                    0 <= k < blits@.len() && !blit_in_bounds(
                        #[trigger] blits@[k],
                        canvas_width as int,
                        canvas_height as int,
                    )
            },
        },
{
    let n: usize = blits.len();
    let mut k: usize = 0;
    while k < n
        invariant
            n == blits@.len(),
            k <= n,
            forall|j: int|
                #![trigger blits@[j]]
                0 <= j < k ==> blit_in_bounds(blits@[j], canvas_width as int, canvas_height as int),
        decreases n - k,
    {
        let b: &ImageBlit<'a> = &blits[k];
        let right: u64 = b.x as u64 + b.img.width() as u64;
        let bottom: u64 = b.y as u64 + b.img.height() as u64;
        if right > canvas_width as u64 || bottom > canvas_height as u64 {
            proof {
                assert(!blit_in_bounds(blits@[k as int], canvas_width as int, canvas_height as int));
            }
            return Err(ConcatError::OutOfBounds);
        }
        k = k + 1;
    }
    let mut canvas: Image = Image::new(canvas_width, canvas_height);
    proof {
        assert(blits@.take(0).len() == 0);
    }
    let mut k: usize = 0;
    while k < n
        invariant
            n == blits@.len(),
            k <= n,
            forall|j: int| #![trigger blits@[j]] 0 <= j < n ==> (*blits@[j].img).wf(),
            forall|j: int|
                #![trigger blits@[j]]
                0 <= j < n ==> blit_in_bounds(blits@[j], canvas_width as int, canvas_height as int),
            canvas.wf(),
            canvas.width == canvas_width,
            canvas.height == canvas_height,
            forall|x: int, y: int|
                0 <= x < canvas_width && 0 <= y < canvas_height ==> canvas.pixel(x, y)
                    == composite_pixel(blits@.take(k as int), x, y),
        decreases n - k,
    {
        let b: &ImageBlit<'a> = &blits[k];
        let bw: u32 = b.img.width();
        let bh: u32 = b.img.height();
        let mut dy: u32 = 0;
        while dy < bh
            invariant
                n == blits@.len(),
                k < n,
                *b == blits@[k as int],
                bw == (*b.img).width,
                bh == (*b.img).height,
                (*b.img).wf(),
                blit_in_bounds(blits@[k as int], canvas_width as int, canvas_height as int),
                dy <= bh,
                canvas.wf(),
                canvas.width == canvas_width,
                canvas.height == canvas_height,
                forall|x: int, y: int|
                    0 <= x < canvas_width && 0 <= y < canvas_height ==> canvas.pixel(x, y)
                        == partial_pixel(blits@, k as int, dy as int, 0, x, y),
            decreases bh - dy,
        {
            let mut dx: u32 = 0;
            while dx < bw
                invariant
                    n == blits@.len(),
                    k < n,
                    *b == blits@[k as int],
                    bw == (*b.img).width,
                    bh == (*b.img).height,
                    (*b.img).wf(),
                    blit_in_bounds(blits@[k as int], canvas_width as int, canvas_height as int),
                    dy < bh,
                    dx <= bw,
                    canvas.wf(),
                    canvas.width == canvas_width,
                    canvas.height == canvas_height,
                    forall|x: int, y: int|
                        0 <= x < canvas_width && 0 <= y < canvas_height ==> canvas.pixel(x, y)
                            == partial_pixel(blits@, k as int, dy as int, dx as int, x, y),
                decreases bw - dx,
            {
                let p: Rgb = b.img.get_pixel(dx, dy);
                canvas.set_pixel(b.x + dx, b.y + dy, p);
                proof {
                    assert forall|x: int, y: int|
                        0 <= x < canvas_width && 0 <= y < canvas_height implies canvas.pixel(x, y)
                        == partial_pixel(blits@, k as int, dy as int, dx as int + 1, x, y) by {
                        if x == b.x + dx && y == b.y + dy {
                            assert(canvas.pixel(x, y) == p);
                        }
                    }
                }
                dx = dx + 1;
            }
            dy = dy + 1;
        }
        proof {
            assert(blits@.take(k as int + 1).drop_last() =~= blits@.take(k as int));
            assert(blits@.take(k as int + 1).last() == blits@[k as int]);
            assert forall|x: int, y: int|
                0 <= x < canvas_width && 0 <= y < canvas_height implies canvas.pixel(x, y)
                == composite_pixel(blits@.take(k as int + 1), x, y) by {
                assert(canvas.pixel(x, y) == partial_pixel(
                    blits@,
                    k as int,
                    bh as int,
                    0,
                    x,
                    y,
                ));
            }
        }
        k = k + 1;
    }
    proof {
        assert(blits@.take(n as int) =~= blits@);
    }
    Ok(canvas)
}

/// Scans the blits for the canvas size that exactly bounds them, allocates
/// it, and copies every image in: direction-agnostic concatenation with as
/// few copies as possible.
///
/// Because the canvas is sized as the maximum over all blit rectangles,
/// every blit fits by construction and the call always succeeds.
pub fn place_images_in_buffer<'a>(blits: &[ImageBlit<'a>]) -> (r: Result<Image, ConcatError>)
    requires
        forall|k: int| #![trigger blits@[k]] 0 <= k < blits@.len() ==> (*blits@[k].img).wf(),
        max_right(blits@) <= u32::MAX,
        max_bottom(blits@) <= u32::MAX,
        3 * (max_right(blits@) * max_bottom(blits@)) <= usize::MAX,
    ensures
        r is Ok,
        r matches Ok(c) ==> {
            &&& c.wf()
            &&& c.width == max_right(blits@)
            &&& c.height == max_bottom(blits@)
            &&& forall|x: int, y: int|
                0 <= x < c.width && 0 <= y < c.height ==> c.pixel(x, y) == composite_pixel(
                    blits@,
                    x,
                    y,
                )
        },
{
    let n: usize = blits.len();
    let mut total_width: u64 = 0;
    let mut total_height: u64 = 0;
    let mut i: usize = 0;
    proof {
        assert(blits@.take(0).len() == 0);
    }
    while i < n
        invariant
            n == blits@.len(),
            i <= n,
            total_width == max_right(blits@.take(i as int)),
            total_height == max_bottom(blits@.take(i as int)),
            max_right(blits@) <= u32::MAX,
            max_bottom(blits@) <= u32::MAX,
        decreases n - i,
    {
        let b: &ImageBlit<'a> = &blits[i];
        proof {
            lemma_max_right_step(blits@, i as int);
            lemma_max_bottom_step(blits@, i as int);
        }
        let right: u64 = b.x as u64 + b.img.width() as u64;
        let bottom: u64 = b.y as u64 + b.img.height() as u64;
        if right > total_width {
            total_width = right;
        }
        if bottom > total_height {
            total_height = bottom;
        }
        i = i + 1;
    }
    proof {
        assert(blits@.take(n as int) =~= blits@);
        lemma_max_right_nonneg(blits@);
        lemma_max_bottom_nonneg(blits@);
    }
    let w: u32 = total_width as u32;
    let h: u32 = total_height as u32;
    let result: Result<Image, ConcatError> = composite(w, h, blits);
    match result {
        Ok(c) => Ok(c),
        Err(e) => {
            proof {
                let k: int = choose|k: int|
                    0 <= k < blits@.len() && !blit_in_bounds(
                        #[trigger] blits@[k],
                        w as int,
                        h as int,
                    );
                lemma_max_edges_bound(blits@, k);
                assert(false);
            }
            Err(e)
        },
    }
}

/// Where nothing covers a point, the canvas keeps its black fill.
pub proof fn lemma_composite_uncovered<'a>(blits: Seq<ImageBlit<'a>>, x: int, y: int)
    requires
        !covered_by_any(blits, x, y),
    ensures
        composite_pixel(blits, x, y) == black(),
    decreases blits.len(),
{
    if blits.len() > 0 {
        assert(!covers(blits[blits.len() - 1], x, y));
        assert forall|k: int|
            0 <= k < blits.drop_last().len() implies !covers(
            #[trigger] blits.drop_last()[k],
            x,
            y,
        ) by {
            assert(blits.drop_last()[k] == blits[k]);
        }
        lemma_composite_uncovered(blits.drop_last(), x, y);
    }
}

/// Splitting a blit sequence in two: the later half wins wherever it
/// covers, and elsewhere the earlier half alone decides.
pub proof fn lemma_composite_append<'a>(a: Seq<ImageBlit<'a>>, b: Seq<ImageBlit<'a>>, x: int, y: int)
    ensures
        composite_pixel(a + b, x, y) == if covered_by_any(b, x, y) {
            composite_pixel(b, x, y)
        } else {
            composite_pixel(a, x, y)
        },
    decreases b.len(),
{
    if b.len() == 0 {
        assert(a + b =~= a);
        assert(!covered_by_any(b, x, y));
    } else {
        assert((a + b).last() == b.last());
        assert((a + b).drop_last() =~= a + b.drop_last());
        lemma_composite_append(a, b.drop_last(), x, y);
        if covers(b.last(), x, y) {
            assert(covers(b[b.len() - 1], x, y));
            assert(covered_by_any(b, x, y));
        } else {
            if covered_by_any(b.drop_last(), x, y) {
                let j: int = choose|j: int|
                    0 <= j < b.drop_last().len() && covers(#[trigger] b.drop_last()[j], x, y);
                assert(covers(b[j], x, y));
                assert(covered_by_any(b, x, y));
            } else {
                assert forall|k: int| 0 <= k < b.len() implies !covers(#[trigger] b[k], x, y) by {
                    if k < b.len() - 1 {
                        assert(b.drop_last()[k] == b[k]);
                    }
                }
                assert(!covered_by_any(b, x, y));
            }
        }
    }
}

/// The canvas edges of a split blit sequence are the larger of the halves'.
pub proof fn lemma_max_edges_append<'a>(a: Seq<ImageBlit<'a>>, b: Seq<ImageBlit<'a>>)
    ensures
        max_right(a + b) == if max_right(a) >= max_right(b) {
            max_right(a)
        } else {
            max_right(b)
        },
        max_bottom(a + b) == if max_bottom(a) >= max_bottom(b) {
            max_bottom(a)
        } else {
            max_bottom(b)
        },
    decreases b.len(),
{
    lemma_max_right_nonneg(a);
    lemma_max_bottom_nonneg(a);
    if b.len() == 0 {
        assert(a + b =~= a);
    } else {
        assert((a + b).last() == b.last());
        assert((a + b).drop_last() =~= a + b.drop_last());
        lemma_max_edges_append(a, b.drop_last());
        lemma_max_right_nonneg(b.drop_last());
        lemma_max_bottom_nonneg(b.drop_last());
    }
}

/// Blits `a` and `b` aim at destination rectangles that do not overlap.
pub open spec fn rects_disjoint<'a>(a: ImageBlit<'a>, b: ImageBlit<'a>) -> bool {
    ||| a.x + (*a.img).width <= b.x
    ||| b.x + (*b.img).width <= a.x
    ||| a.y + (*a.img).height <= b.y
    ||| b.y + (*b.img).height <= a.y
}

/// No two blits in the sequence overlap.
pub open spec fn blits_disjoint<'a>(blits: Seq<ImageBlit<'a>>) -> bool {
    forall|i: int, j: int|
        0 <= i < j < blits.len() ==> #[trigger] rects_disjoint(blits[i], blits[j])
}

/// Round trip: when no two blits overlap, compositing and then reading any
/// point of blit `k`'s destination rectangle back from the canvas yields
/// exactly the corresponding source pixel of blit `k`.
pub proof fn lemma_composite_round_trip<'a>(blits: Seq<ImageBlit<'a>>, k: int, dx: int, dy: int)
    requires
        blits_disjoint(blits),
        0 <= k < blits.len(),
        0 <= dx < (*blits[k].img).width,
        0 <= dy < (*blits[k].img).height,
    ensures
        composite_pixel(blits, blits[k].x + dx, blits[k].y + dy) == (*blits[k].img).pixel(dx, dy),
    decreases blits.len(),
{
    let x: int = blits[k].x + dx;
    let y: int = blits[k].y + dy;
    assert(covers(blits[k], x, y));
    if k == blits.len() - 1 {
    } else {
        assert(rects_disjoint(blits[k], blits.last()));
        assert(!covers(blits.last(), x, y));
        assert forall|i: int, j: int|
            0 <= i < j < blits.drop_last().len() implies #[trigger] rects_disjoint(
            blits.drop_last()[i],
            blits.drop_last()[j],
        ) by {
            assert(rects_disjoint(blits[i], blits[j]));
        }
        lemma_composite_round_trip(blits.drop_last(), k, dx, dy);
    }
}

} // verus!
