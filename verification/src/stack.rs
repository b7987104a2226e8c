//! Stacking entry points over already-decoded images, proved against
//! direct recursive descriptions of the stacked canvases.

use vstd::prelude::*;

use crate::compose::blits_disjoint;
use crate::compose::composite_pixel;
use crate::compose::covers;
use crate::compose::rects_disjoint;
use crate::compose::max_bottom;
use crate::compose::max_right;
use crate::compose::place_images_in_buffer;
use crate::img::black;
use crate::img::lemma_pixels_determine_data;
use crate::img::Image;
use crate::img::Rgb;
use crate::layout::get_concat_blits;
use crate::layout::max_height;
use crate::layout::max_width;
use crate::layout::sum_heights;
use crate::layout::sum_widths;
use crate::layout::ConcatDirection;
use crate::layout::ImageBlit;
use crate::layout::lemma_max_height_fits;
use crate::layout::lemma_max_height_nonneg;
use crate::layout::lemma_max_width_fits;
use crate::layout::lemma_max_width_nonneg;
use crate::layout::lemma_sum_heights_nonneg;
use crate::layout::lemma_sum_heights_step;
use crate::layout::lemma_sum_heights_take_le;
use crate::layout::lemma_sum_widths_nonneg;
use crate::layout::lemma_sum_widths_step;
use crate::layout::lemma_sum_widths_take_le;
use crate::ConcatError;

verus! {

/// The colour of a vertical stack of `imgs` at point (x, y): the first
/// image occupies rows 0 up to its height at x offset 0, the next one the
/// rows below it, and so on; points beside or below every image are black.
pub open spec fn vstack_pixel(imgs: Seq<Image>, x: int, y: int) -> Rgb
    recommends
        0 <= x,
        0 <= y,
    decreases imgs.len(),
{
    if imgs.len() == 0 {
        black()
    } else if y < imgs[0].height {
        if x < imgs[0].width {
            imgs[0].pixel(x, y)
        } else {
            black()
        }
    } else {
        vstack_pixel(imgs.drop_first(), x, y - imgs[0].height)
    }
}

/// The colour of a horizontal strip of `imgs` at point (x, y), the mirror
/// image of `vstack_pixel`.
pub open spec fn hstack_pixel(imgs: Seq<Image>, x: int, y: int) -> Rgb
    recommends
        0 <= x,
        0 <= y,
    decreases imgs.len(),
{
    if imgs.len() == 0 {
        black()
    } else if x < imgs[0].width {
        if y < imgs[0].height {
            imgs[0].pixel(x, y)
        } else {
            black()
        }
    } else {
        hstack_pixel(imgs.drop_first(), x - imgs[0].width, y)
    }
}

/// Peeling the first image off the front of a height sum.
pub proof fn lemma_sum_heights_first(s: Seq<Image>)
    requires
        s.len() > 0,
    ensures
        sum_heights(s) == s[0].height + sum_heights(s.drop_first()),
    decreases s.len(),
{
    if s.len() == 1 {
        assert(s.drop_first() =~= Seq::<Image>::empty());
        assert(s.drop_last() =~= Seq::<Image>::empty());
    } else {
        lemma_sum_heights_first(s.drop_last());
        assert(s.drop_first().drop_last() =~= s.drop_last().drop_first());
        assert(s.drop_first().last() == s.last());
        assert(sum_heights(s.drop_first()) == sum_heights(s.drop_first().drop_last())
            + s.drop_first().last().height);
    }
}

pub proof fn lemma_sum_widths_first(s: Seq<Image>)
    requires
        s.len() > 0,
    ensures
        sum_widths(s) == s[0].width + sum_widths(s.drop_first()),
    decreases s.len(),
{
    if s.len() == 1 {
        assert(s.drop_first() =~= Seq::<Image>::empty());
        assert(s.drop_last() =~= Seq::<Image>::empty());
    } else {
        lemma_sum_widths_first(s.drop_last());
        assert(s.drop_first().drop_last() =~= s.drop_last().drop_first());
        assert(s.drop_first().last() == s.last());
        assert(sum_widths(s.drop_first()) == sum_widths(s.drop_first().drop_last())
            + s.drop_first().last().width);
    }
}

/// Peeling the first image off the front of a width maximum.
pub proof fn lemma_max_width_first(s: Seq<Image>)
    requires
        s.len() > 0,
    ensures
        max_width(s) == if s[0].width >= max_width(s.drop_first()) {
            s[0].width as int
        } else {
            max_width(s.drop_first())
        },
    decreases s.len(),
{
    if s.len() == 1 {
        assert(s.drop_first() =~= Seq::<Image>::empty());
        assert(s.drop_last() =~= Seq::<Image>::empty());
    } else {
        lemma_max_width_first(s.drop_last());
        assert(s.drop_first().drop_last() =~= s.drop_last().drop_first());
        assert(s.drop_first().last() == s.last());
        assert(max_width(s.drop_first()) == if s.drop_first().last().width >= max_width(
            s.drop_first().drop_last(),
        ) {
            s.drop_first().last().width as int
        } else {
            max_width(s.drop_first().drop_last())
        });
    }
}

pub proof fn lemma_max_height_first(s: Seq<Image>)
    requires
        s.len() > 0,
    ensures
        max_height(s) == if s[0].height >= max_height(s.drop_first()) {
            s[0].height as int
        } else {
            max_height(s.drop_first())
        },
    decreases s.len(),
{
    if s.len() == 1 {
        assert(s.drop_first() =~= Seq::<Image>::empty());
        assert(s.drop_last() =~= Seq::<Image>::empty());
    } else {
        lemma_max_height_first(s.drop_last());
        assert(s.drop_first().drop_last() =~= s.drop_last().drop_first());
        assert(s.drop_first().last() == s.last());
        assert(max_height(s.drop_first()) == if s.drop_first().last().height >= max_height(
            s.drop_first().drop_last(),
        ) {
            s.drop_first().last().height as int
        } else {
            max_height(s.drop_first().drop_last())
        });
    }
}

/// Beside or below every image of a vertical stack the canvas is black.
pub proof fn lemma_vstack_black(imgs: Seq<Image>, x: int, y: int)
    requires
        x >= max_width(imgs) || y >= sum_heights(imgs),
    ensures
        vstack_pixel(imgs, x, y) == black(),
    decreases imgs.len(),
{
    if imgs.len() > 0 {
        lemma_sum_heights_first(imgs);
        lemma_max_width_first(imgs);
        lemma_sum_heights_nonneg(imgs.drop_first());
        lemma_max_width_nonneg(imgs.drop_first());
        if y < imgs[0].height {
            assert(x >= imgs[0].width);
        } else {
            lemma_vstack_black(imgs.drop_first(), x, y - imgs[0].height);
        }
    }
}

pub proof fn lemma_hstack_black(imgs: Seq<Image>, x: int, y: int)
    requires
        y >= max_height(imgs) || x >= sum_widths(imgs),
    ensures
        hstack_pixel(imgs, x, y) == black(),
    decreases imgs.len(),
{
    if imgs.len() > 0 {
        lemma_sum_widths_first(imgs);
        lemma_max_height_first(imgs);
        lemma_sum_widths_nonneg(imgs.drop_first());
        lemma_max_height_nonneg(imgs.drop_first());
        if x < imgs[0].width {
            assert(y >= imgs[0].height);
        } else {
            lemma_hstack_black(imgs.drop_first(), x - imgs[0].width, y);
        }
    }
}

/// Appending one image at the bottom of a vertical stack only changes the
/// rows at and below the previous total height.
pub proof fn lemma_vstack_push(imgs: Seq<Image>, a: Image, x: int, y: int)
    requires
        0 <= x,
        0 <= y,
    ensures
        vstack_pixel(imgs.push(a), x, y) == if y < sum_heights(imgs) {
            vstack_pixel(imgs, x, y)
        } else if y - sum_heights(imgs) < a.height && x < a.width {
            a.pixel(x, y - sum_heights(imgs))
        } else {
            black()
        },
    decreases imgs.len(),
{
    if imgs.len() == 0 {
        assert(imgs.push(a).drop_first() =~= Seq::<Image>::empty());
        assert(vstack_pixel(imgs.push(a).drop_first(), x, y - a.height) == black());
        assert(imgs.push(a)[0] == a);
        assert(sum_heights(imgs) == 0);
    } else {
        lemma_sum_heights_first(imgs);
        lemma_sum_heights_nonneg(imgs.drop_first());
        assert(imgs.push(a)[0] == imgs[0]);
        if y < imgs[0].height {
            assert(vstack_pixel(imgs, x, y) == if x < imgs[0].width {
                imgs[0].pixel(x, y)
            } else {
                black()
            });
        } else {
            assert(imgs.push(a).drop_first() =~= imgs.drop_first().push(a));
            lemma_vstack_push(imgs.drop_first(), a, x, y - imgs[0].height);
            assert(vstack_pixel(imgs, x, y) == vstack_pixel(
                imgs.drop_first(),
                x,
                y - imgs[0].height,
            ));
        }
    }
}

pub proof fn lemma_hstack_push(imgs: Seq<Image>, a: Image, x: int, y: int)
    requires
        0 <= x,
        0 <= y,
    ensures
        hstack_pixel(imgs.push(a), x, y) == if x < sum_widths(imgs) {
            hstack_pixel(imgs, x, y)
        } else if x - sum_widths(imgs) < a.width && y < a.height {
            a.pixel(x - sum_widths(imgs), y)
        } else {
            black()
        },
    decreases imgs.len(),
{
    if imgs.len() == 0 {
        assert(imgs.push(a).drop_first() =~= Seq::<Image>::empty());
        assert(hstack_pixel(imgs.push(a).drop_first(), x - a.width, y) == black());
        assert(imgs.push(a)[0] == a);
        assert(sum_widths(imgs) == 0);
    } else {
        lemma_sum_widths_first(imgs);
        lemma_sum_widths_nonneg(imgs.drop_first());
        assert(imgs.push(a)[0] == imgs[0]);
        if x < imgs[0].width {
            assert(hstack_pixel(imgs, x, y) == if y < imgs[0].height {
                imgs[0].pixel(x, y)
            } else {
                black()
            });
        } else {
            assert(imgs.push(a).drop_first() =~= imgs.drop_first().push(a));
            lemma_hstack_push(imgs.drop_first(), a, x - imgs[0].width, y);
            assert(hstack_pixel(imgs, x, y) == hstack_pixel(
                imgs.drop_first(),
                x - imgs[0].width,
                y,
            ));
        }
    }
}

/// The blits place `images` as a vertical stack at horizontal offset `x0`:
/// one blit per image, in order, each directly below the previous one.
pub open spec fn vblits_match<'a>(
    blits: Seq<ImageBlit<'a>>,
    images: Seq<Image>,
    x0: int,
) -> bool {
    &&& blits.len() == images.len()
    &&& forall|i: int|
        #![trigger blits[i]]
        0 <= i < blits.len() ==> *blits[i].img == images[i] && blits[i].x == x0 && blits[i].y
            == sum_heights(images.take(i))
}

/// The blits place `images` as a horizontal strip at vertical offset `y0`.
pub open spec fn hblits_match<'a>(
    blits: Seq<ImageBlit<'a>>,
    images: Seq<Image>,
    y0: int,
) -> bool {
    &&& blits.len() == images.len()
    &&& forall|i: int|
        #![trigger blits[i]]
        0 <= i < blits.len() ==> *blits[i].img == images[i] && blits[i].y == y0 && blits[i].x
            == sum_widths(images.take(i))
}

/// Dropping the last blit of a vertical stack leaves a vertical stack.
proof fn lemma_vblits_match_drop_last<'a>(
    blits: Seq<ImageBlit<'a>>,
    images: Seq<Image>,
    x0: int,
)
    requires
        vblits_match(blits, images, x0),
        blits.len() > 0,
    ensures
        vblits_match(blits.drop_last(), images.drop_last(), x0),
{
    assert forall|i: int|
        #![trigger blits.drop_last()[i]]
        0 <= i < blits.drop_last().len() implies *blits.drop_last()[i].img == images.drop_last()[i]
        && blits.drop_last()[i].x == x0 && blits.drop_last()[i].y == sum_heights(
        images.drop_last().take(i),
    ) by {
        assert(blits.drop_last()[i] == blits[i]);
        assert(images.drop_last().take(i) =~= images.take(i));
    }
}

proof fn lemma_hblits_match_drop_last<'a>(
    blits: Seq<ImageBlit<'a>>,
    images: Seq<Image>,
    y0: int,
)
    requires
        hblits_match(blits, images, y0),
        blits.len() > 0,
    ensures
        hblits_match(blits.drop_last(), images.drop_last(), y0),
{
    assert forall|i: int|
        #![trigger blits.drop_last()[i]]
        0 <= i < blits.drop_last().len() implies *blits.drop_last()[i].img == images.drop_last()[i]
        && blits.drop_last()[i].y == y0 && blits.drop_last()[i].x == sum_widths(
        images.drop_last().take(i),
    ) by {
        assert(blits.drop_last()[i] == blits[i]);
        assert(images.drop_last().take(i) =~= images.take(i));
    }
}

/// Compositing a vertical stack of blits paints exactly the stacked image:
/// at or right of the stack's x offset the vertical-stack colour, left of
/// it untouched black.
pub proof fn lemma_vstack_composite<'a>(
    blits: Seq<ImageBlit<'a>>,
    images: Seq<Image>,
    x0: int,
    x: int,
    y: int,
)
    requires
        vblits_match(blits, images, x0),
        0 <= y,
    ensures
        composite_pixel(blits, x, y) == if x0 <= x {
            vstack_pixel(images, x - x0, y)
        } else {
            black()
        },
    decreases blits.len(),
{
    if blits.len() == 0 {
    } else {
        let m: int = blits.len() - 1;
        let b = blits.last();
        let a = images.last();
        assert(blits[m] == b);
        assert(*b.img == a);
        assert(images.take(m) =~= images.drop_last());
        assert(b.y == sum_heights(images.drop_last()));
        lemma_vblits_match_drop_last(blits, images, x0);
        lemma_vstack_composite(blits.drop_last(), images.drop_last(), x0, x, y);
        assert(images.drop_last().push(a) =~= images);
        if x0 <= x {
            lemma_vstack_push(images.drop_last(), a, x - x0, y);
            if covers(b, x, y) {
            } else {
                if y >= sum_heights(images.drop_last()) {
                    lemma_vstack_black(images.drop_last(), x - x0, y);
                }
            }
        } else {
            assert(!covers(b, x, y));
        }
    }
}

pub proof fn lemma_hstack_composite<'a>(
    blits: Seq<ImageBlit<'a>>,
    images: Seq<Image>,
    y0: int,
    x: int,
    y: int,
)
    requires
        hblits_match(blits, images, y0),
        0 <= x,
    ensures
        composite_pixel(blits, x, y) == if y0 <= y {
            hstack_pixel(images, x, y - y0)
        } else {
            black()
        },
    decreases blits.len(),
{
    if blits.len() == 0 {
    } else {
        let m: int = blits.len() - 1;
        let b = blits.last();
        let a = images.last();
        assert(blits[m] == b);
        assert(*b.img == a);
        assert(images.take(m) =~= images.drop_last());
        assert(b.x == sum_widths(images.drop_last()));
        lemma_hblits_match_drop_last(blits, images, y0);
        lemma_hstack_composite(blits.drop_last(), images.drop_last(), y0, x, y);
        assert(images.drop_last().push(a) =~= images);
        if y0 <= y {
            lemma_hstack_push(images.drop_last(), a, x, y - y0);
            if covers(b, x, y) {
            } else {
                if x >= sum_widths(images.drop_last()) {
                    lemma_hstack_black(images.drop_last(), x, y - y0);
                }
            }
        } else {
            assert(!covers(b, x, y));
        }
    }
}

/// The canvas that exactly bounds a vertical stack of blits: total height,
/// and the stack's x offset plus its widest width (0 with no images).
pub proof fn lemma_vblits_dims<'a>(blits: Seq<ImageBlit<'a>>, images: Seq<Image>, x0: int)
    requires
        vblits_match(blits, images, x0),
        0 <= x0,
    ensures
        max_bottom(blits) == sum_heights(images),
        images.len() == 0 ==> max_right(blits) == 0,
        images.len() > 0 ==> max_right(blits) == x0 + max_width(images),
    decreases blits.len(),
{
    if blits.len() > 0 {
        let m: int = blits.len() - 1;
        assert(blits[m] == blits.last());
        assert(images.take(m) =~= images.drop_last());
        lemma_vblits_match_drop_last(blits, images, x0);
        lemma_vblits_dims(blits.drop_last(), images.drop_last(), x0);
        lemma_sum_heights_nonneg(images.drop_last());
        lemma_max_width_nonneg(images.drop_last());
    }
}

pub proof fn lemma_hblits_dims<'a>(blits: Seq<ImageBlit<'a>>, images: Seq<Image>, y0: int)
    requires
        hblits_match(blits, images, y0),
        0 <= y0,
    ensures
        max_right(blits) == sum_widths(images),
        images.len() == 0 ==> max_bottom(blits) == 0,
        images.len() > 0 ==> max_bottom(blits) == y0 + max_height(images),
    decreases blits.len(),
{
    if blits.len() > 0 {
        let m: int = blits.len() - 1;
        assert(blits[m] == blits.last());
        assert(images.take(m) =~= images.drop_last());
        lemma_hblits_match_drop_last(blits, images, y0);
        lemma_hblits_dims(blits.drop_last(), images.drop_last(), y0);
        lemma_sum_widths_nonneg(images.drop_last());
        lemma_max_height_nonneg(images.drop_last());
    }
}

/// The blits of a vertical stack aim at pairwise disjoint rectangles:
/// each image ends exactly where the next one starts. Together with the
/// compositor's round-trip lemma this guarantees that every source image
/// can be read back intact from the stacked canvas.
pub proof fn lemma_vblits_disjoint<'a>(blits: Seq<ImageBlit<'a>>, images: Seq<Image>, x0: int)
    requires
        vblits_match(blits, images, x0),
    ensures
        blits_disjoint(blits),
{
    assert forall|i: int, j: int|
        0 <= i < j < blits.len() implies #[trigger] rects_disjoint(
        blits[i],
        blits[j],
    ) by {
        lemma_sum_heights_step(images, i);
        assert(images.take(j).take(i + 1) =~= images.take(i + 1));
        lemma_sum_heights_take_le(images.take(j), i + 1);
        assert(blits[i].y + (*blits[i].img).height <= blits[j].y);
    }
}

/// The mirror image for a horizontal strip.
pub proof fn lemma_hblits_disjoint<'a>(blits: Seq<ImageBlit<'a>>, images: Seq<Image>, y0: int)
    requires
        hblits_match(blits, images, y0),
    ensures
        blits_disjoint(blits),
{
    assert forall|i: int, j: int|
        0 <= i < j < blits.len() implies #[trigger] rects_disjoint(
        blits[i],
        blits[j],
    ) by {
        lemma_sum_widths_step(images, i);
        assert(images.take(j).take(i + 1) =~= images.take(i + 1));
        lemma_sum_widths_take_le(images.take(j), i + 1);
        assert(blits[i].x + (*blits[i].img).width <= blits[j].x);
    }
}

/// A canvas that satisfies the vertical-stack contract of `concat_images`
/// for the given images.
pub open spec fn is_vertical_stack_of(c: Image, images: Seq<Image>) -> bool {
    &&& c.wf()
    &&& c.width == max_width(images)
    &&& c.height == sum_heights(images)
    &&& forall|x: int, y: int|
        0 <= x < c.width && 0 <= y < c.height ==> c.pixel(x, y) == vstack_pixel(images, x, y)
}

/// Idempotence: stacking the same immutable inputs twice yields
/// bit-identical canvases. The vertical-stack contract pins down the
/// dimensions and every pixel, and the pixels determine every byte of the
/// backing buffer, so any two canvases satisfying it are equal.
pub proof fn lemma_stack_idempotent(images: Seq<Image>, c1: Image, c2: Image)
    requires
        is_vertical_stack_of(c1, images),
        is_vertical_stack_of(c2, images),
    ensures
        c1.width == c2.width,
        c1.height == c2.height,
        c1.data@ == c2.data@,
{
    assert forall|x: int, y: int|
        0 <= x < c1.width && 0 <= y < c1.height implies c1.pixel(x, y) == c2.pixel(x, y) by {
        assert(c1.pixel(x, y) == vstack_pixel(images, x, y));
        assert(c2.pixel(x, y) == vstack_pixel(images, x, y));
    }
    lemma_pixels_determine_data(c1, c2);
}

/// Concatenates images vertically or horizontally into one canvas.
///
/// The canvas exactly bounds the union of the placed rectangles: stacking
/// vertically it is as wide as the widest image and as tall as all images
/// together, and mirrored for horizontal concatenation. Every pixel of the
/// result is pinned down: each image's rectangle holds that image's pixels,
/// and any slack (under narrower images) is black. An empty input yields an
/// empty canvas.
pub fn concat_images<'a>(images: &'a [Image], direction: ConcatDirection) -> (r: Result<
    Image,
    ConcatError,
>)
    requires
        forall|i: int| #![trigger images@[i]] 0 <= i < images@.len() ==> images@[i].wf(),
        direction is Vertical ==> sum_heights(images@) <= u32::MAX && 3 * (max_width(images@)
            * sum_heights(images@)) <= usize::MAX,
        direction is Horizontal ==> sum_widths(images@) <= u32::MAX && 3 * (sum_widths(images@)
            * max_height(images@)) <= usize::MAX,
    ensures
        r is Ok,
        r matches Ok(c) ==> {
            &&& c.wf()
            &&& direction is Vertical ==> {
                &&& c.width == max_width(images@)
                &&& c.height == sum_heights(images@)
                &&& forall|x: int, y: int|
                    0 <= x < c.width && 0 <= y < c.height ==> c.pixel(x, y) == vstack_pixel(
                        images@,
                        x,
                        y,
                    )
            }
            &&& direction is Horizontal ==> {
                &&& c.width == sum_widths(images@)
                &&& c.height == max_height(images@)
                &&& forall|x: int, y: int|
                    0 <= x < c.width && 0 <= y < c.height ==> c.pixel(x, y) == hstack_pixel(
                        images@,
                        x,
                        y,
                    )
            }
        },
{
    proof {
        lemma_sum_heights_nonneg(images@);
        lemma_sum_widths_nonneg(images@);
        lemma_max_width_nonneg(images@);
        lemma_max_height_nonneg(images@);
        lemma_max_width_fits(images@);
        lemma_max_height_fits(images@);
    }
    let is_vertical: bool = match direction {
        ConcatDirection::Vertical => true,
        ConcatDirection::Horizontal => false,
    };
    let blits: Vec<ImageBlit<'a>> = get_concat_blits(images, direction, 0, 0);
    proof {
        if is_vertical {
            assert(vblits_match(blits@, images@, 0));
            lemma_vblits_dims(blits@, images@, 0);
            if images@.len() == 0 {
                assert(max_width(images@) == 0);
                assert(sum_heights(images@) == 0);
            }
        } else {
            assert(hblits_match(blits@, images@, 0));
            lemma_hblits_dims(blits@, images@, 0);
            if images@.len() == 0 {
                assert(max_height(images@) == 0);
                assert(sum_widths(images@) == 0);
            }
        }
    }
    let result: Result<Image, ConcatError> = place_images_in_buffer(blits.as_slice());
    match result {
        Ok(c) => {
            proof {
                if is_vertical {
                    assert forall|x: int, y: int|
                        0 <= x < c.width && 0 <= y < c.height implies c.pixel(x, y)
                        == vstack_pixel(images@, x, y) by {
                        lemma_vstack_composite(blits@, images@, 0, x, y);
                    }
                } else {
                    assert forall|x: int, y: int|
                        0 <= x < c.width && 0 <= y < c.height implies c.pixel(x, y)
                        == hstack_pixel(images@, x, y) by {
                        lemma_hstack_composite(blits@, images@, 0, x, y);
                    }
                }
            }
            Ok(c)
        },
        Err(e) => {
            proof {
                assert(false);
            }
            Err(e)
        },
    }
}

} // verus!
