//! Column concatenation: images are split over vertical columns, read
//! top-to-bottom then left-to-right, and every placement is executed in a
//! single compositing pass — no intermediate column canvas is materialized.

use vstd::prelude::*;

use crate::compose::composite_pixel;
use crate::compose::covered_by_any;
use crate::compose::covers;
use crate::compose::lemma_composite_append;
use crate::compose::lemma_composite_uncovered;
use crate::compose::lemma_max_edges_append;
use crate::compose::max_bottom;
use crate::compose::max_right;
use crate::compose::place_images_in_buffer;
use crate::img::black;
use crate::img::Image;
use crate::img::Rgb;
use crate::layout::column_plan;
use crate::layout::get_concat_blits;
use crate::layout::lemma_max_width_nonneg;
use crate::layout::lemma_sum_heights_nonneg;
use crate::layout::max_width_of;
use crate::layout::lemma_sum_sizes_first;
use crate::layout::lemma_sum_sizes_nonneg;
use crate::layout::lemma_sum_sizes_step;
use crate::layout::lemma_sum_sizes_take_le;
use crate::layout::max_width;
use crate::layout::plan_columns;
use crate::layout::sum_heights;
use crate::layout::sum_sizes;
use crate::layout::ConcatDirection;
use crate::layout::ImageBlit;
use crate::stack::hstack_pixel;
use crate::stack::is_vertical_stack_of;
use crate::stack::lemma_vblits_dims;
use crate::stack::lemma_vstack_black;
use crate::stack::lemma_vstack_composite;
use crate::stack::vblits_match;
use crate::stack::vstack_pixel;
use crate::ConcatError;

verus! {

/// Width of a column arrangement: each column is as wide as its widest
/// image, and the columns sit side by side, so a size-0 column contributes
/// no width and no gap.
pub open spec fn cols_width(images: Seq<Image>, sizes: Seq<usize>) -> int
    decreases sizes.len(),
{
    if sizes.len() == 0 {
        0
    } else {
        let k: int = sizes[0] as int;
        max_width(images.take(k)) + cols_width(images.skip(k), sizes.drop_first())
    }
}

/// Height of a column arrangement: the tallest column's total height.
pub open spec fn cols_height(images: Seq<Image>, sizes: Seq<usize>) -> int
    decreases sizes.len(),
{
    if sizes.len() == 0 {
        0
    } else {
        let k: int = sizes[0] as int;
        let first: int = sum_heights(images.take(k));
        let rest: int = cols_height(images.skip(k), sizes.drop_first());
        if first >= rest {
            first
        } else {
            rest
        }
    }
}

/// The colour of a column arrangement at point (x, y): the first column's
/// stripe spans that column's maximum width, and the next column starts
/// right after it.
pub open spec fn colstack_pixel(images: Seq<Image>, sizes: Seq<usize>, x: int, y: int) -> Rgb
    recommends
        0 <= x,
        0 <= y,
    decreases sizes.len(),
{
    if sizes.len() == 0 {
        black()
    } else {
        let k: int = sizes[0] as int;
        let w: int = max_width(images.take(k));
        if x < w {
            vstack_pixel(images.take(k), x, y)
        } else {
            colstack_pixel(images.skip(k), sizes.drop_first(), x - w, y)
        }
    }
}

pub proof fn lemma_cols_width_nonneg(images: Seq<Image>, sizes: Seq<usize>)
    ensures
        0 <= cols_width(images, sizes),
    decreases sizes.len(),
{
    if sizes.len() > 0 {
        let k: int = sizes[0] as int;
        lemma_max_width_nonneg(images.take(k));
        lemma_cols_width_nonneg(images.skip(k), sizes.drop_first());
    }
}

/// The blits place `images` as columns of the given sizes, the first
/// column starting at horizontal offset `x0`.
pub open spec fn column_blits_match<'a>(
    blits: Seq<ImageBlit<'a>>,
    images: Seq<Image>,
    sizes: Seq<usize>,
    x0: int,
) -> bool
    decreases sizes.len(),
{
    if sizes.len() == 0 {
        blits.len() == 0 && images.len() == 0
    } else {
        let k: int = sizes[0] as int;
        &&& k <= images.len()
        &&& k <= blits.len()
        &&& vblits_match(blits.take(k), images.take(k), x0)
        &&& column_blits_match(
            blits.skip(k),
            images.skip(k),
            sizes.drop_first(),
            x0 + max_width(images.take(k)),
        )
    }
}

/// Appending one more column on the right keeps the arrangement matched.
proof fn lemma_column_match_snoc<'a>(
    b1: Seq<ImageBlit<'a>>,
    i1: Seq<Image>,
    s1: Seq<usize>,
    x0: int,
    b2: Seq<ImageBlit<'a>>,
    i2: Seq<Image>,
    n: usize,
)
    requires
        column_blits_match(b1, i1, s1, x0),
        vblits_match(b2, i2, x0 + cols_width(i1, s1)),
        n as int == i2.len(),
    ensures
        column_blits_match(b1 + b2, i1 + i2, s1.push(n), x0),
        cols_width(i1 + i2, s1.push(n)) == cols_width(i1, s1) + max_width(i2),
    decreases s1.len(),
{
    if s1.len() == 0 {
        assert(b1 + b2 =~= b2);
        assert(i1 + i2 =~= i2);
        assert(cols_width(i1, s1) == 0);
        let s: Seq<usize> = s1.push(n);
        assert(s[0] == n);
        assert(b2.len() == i2.len());
        assert(b2.take(n as int) =~= b2);
        assert(i2.take(n as int) =~= i2);
        assert(b2.skip(n as int) =~= Seq::<ImageBlit<'a>>::empty());
        assert(i2.skip(n as int) =~= Seq::<Image>::empty());
        assert(s.drop_first() =~= Seq::<usize>::empty());
        assert(column_blits_match(
            b2.skip(n as int),
            i2.skip(n as int),
            s.drop_first(),
            x0 + max_width(i2.take(n as int)),
        ));
        assert(cols_width(i2.skip(n as int), s.drop_first()) == 0);
        assert(cols_width(i1 + i2, s) == max_width(i2.take(n as int)) + cols_width(
            i2.skip(n as int),
            s.drop_first(),
        ));
    } else {
        let k: int = s1[0] as int;
        let w: int = max_width(i1.take(k));
        lemma_column_match_snoc(b1.skip(k), i1.skip(k), s1.drop_first(), x0 + w, b2, i2, n);
        let bb = b1 + b2;
        let ii = i1 + i2;
        let s: Seq<usize> = s1.push(n);
        assert(s[0] == s1[0]);
        assert(bb.take(k) =~= b1.take(k));
        assert(ii.take(k) =~= i1.take(k));
        assert(bb.skip(k) =~= b1.skip(k) + b2);
        assert(ii.skip(k) =~= i1.skip(k) + i2);
        assert(s.drop_first() =~= s1.drop_first().push(n));
        assert(vblits_match(bb.take(k), ii.take(k), x0));
        assert(column_blits_match(bb.skip(k), ii.skip(k), s.drop_first(), x0 + w));
        assert(max_width(ii.take(k)) == w);
        assert(cols_width(ii, s) == max_width(ii.take(k)) + cols_width(ii.skip(k), s.drop_first()));
        assert(cols_width(i1, s1) == w + cols_width(i1.skip(k), s1.drop_first()));
    }
}

/// Every blit of a matched column arrangement sits at or right of the
/// arrangement's starting offset.
proof fn lemma_column_match_x_bound<'a>(
    blits: Seq<ImageBlit<'a>>,
    images: Seq<Image>,
    sizes: Seq<usize>,
    x0: int,
)
    requires
        column_blits_match(blits, images, sizes, x0),
    ensures
        forall|i: int| 0 <= i < blits.len() ==> (#[trigger] blits[i]).x >= x0,
    decreases sizes.len(),
{
    if sizes.len() > 0 {
        let k: int = sizes[0] as int;
        lemma_max_width_nonneg(images.take(k));
        lemma_column_match_x_bound(
            blits.skip(k),
            images.skip(k),
            sizes.drop_first(),
            x0 + max_width(images.take(k)),
        );
        assert forall|i: int| 0 <= i < blits.len() implies (#[trigger] blits[i]).x >= x0 by {
            if i < k {
                assert(blits.take(k)[i] == blits[i]);
            } else {
                assert(blits.skip(k)[i - k] == blits[i]);
            }
        }
    }
}

/// A matched column arrangement over well-formed images only references
/// well-formed images.
proof fn lemma_column_match_wf<'a>(
    blits: Seq<ImageBlit<'a>>,
    images: Seq<Image>,
    sizes: Seq<usize>,
    x0: int,
)
    requires
        column_blits_match(blits, images, sizes, x0),
        forall|j: int| #![trigger images[j]] 0 <= j < images.len() ==> images[j].wf(),
    ensures
        forall|i: int| #![trigger blits[i]] 0 <= i < blits.len() ==> (*blits[i].img).wf(),
    decreases sizes.len(),
{
    if sizes.len() > 0 {
        let k: int = sizes[0] as int;
        assert forall|j: int|
            #![trigger images.skip(k)[j]]
            0 <= j < images.skip(k).len() implies images.skip(k)[j].wf() by {
            assert(images.skip(k)[j] == images[j + k]);
        }
        lemma_column_match_wf(
            blits.skip(k),
            images.skip(k),
            sizes.drop_first(),
            x0 + max_width(images.take(k)),
        );
        assert forall|i: int| #![trigger blits[i]] 0 <= i < blits.len() implies (*blits[i].img).wf()
            by {
            if i < k {
                assert(blits.take(k)[i] == blits[i]);
                assert(images.take(k)[i] == images[i]);
            } else {
                assert(blits.skip(k)[i - k] == blits[i]);
            }
        }
    }
}

/// The canvas that exactly bounds a matched column arrangement: the
/// tallest column's height, and the starting offset plus the total width.
proof fn lemma_column_dims<'a>(
    blits: Seq<ImageBlit<'a>>,
    images: Seq<Image>,
    sizes: Seq<usize>,
    x0: int,
)
    requires
        column_blits_match(blits, images, sizes, x0),
        0 <= x0,
    ensures
        max_bottom(blits) == cols_height(images, sizes),
        images.len() == 0 ==> max_right(blits) == 0 && cols_width(images, sizes) == 0,
        images.len() > 0 ==> max_right(blits) == x0 + cols_width(images, sizes),
    decreases sizes.len(),
{
    if sizes.len() == 0 {
    } else {
        let k: int = sizes[0] as int;
        let w: int = max_width(images.take(k));
        let c0 = blits.take(k);
        let rest = blits.skip(k);
        assert(blits =~= c0 + rest);
        lemma_max_edges_append(c0, rest);
        lemma_vblits_dims(c0, images.take(k), x0);
        lemma_max_width_nonneg(images.take(k));
        lemma_column_dims(rest, images.skip(k), sizes.drop_first(), x0 + w);
        lemma_cols_width_nonneg(images.skip(k), sizes.drop_first());
        lemma_sum_heights_nonneg(images.take(k));
        if images.len() == 0 {
            assert(images.take(k) =~= images);
            assert(images.skip(k) =~= images);
        }
    }
}

/// Compositing a matched column arrangement paints exactly the column
/// stack: at or right of the starting offset the column-stack colour, left
/// of it untouched black.
proof fn lemma_colstack_composite<'a>(
    blits: Seq<ImageBlit<'a>>,
    images: Seq<Image>,
    sizes: Seq<usize>,
    x0: int,
    x: int,
    y: int,
)
    requires
        column_blits_match(blits, images, sizes, x0),
        0 <= x0,
        0 <= y,
    ensures
        composite_pixel(blits, x, y) == if x0 <= x {
            colstack_pixel(images, sizes, x - x0, y)
        } else {
            black()
        },
    decreases sizes.len(),
{
    if sizes.len() == 0 {
    } else {
        let k: int = sizes[0] as int;
        let w: int = max_width(images.take(k));
        lemma_max_width_nonneg(images.take(k));
        let c0 = blits.take(k);
        let rest = blits.skip(k);
        assert(blits =~= c0 + rest);
        lemma_composite_append(c0, rest, x, y);
        lemma_colstack_composite(rest, images.skip(k), sizes.drop_first(), x0 + w, x, y);
        lemma_vstack_composite(c0, images.take(k), x0, x, y);
        if covered_by_any(rest, x, y) {
            lemma_column_match_x_bound(rest, images.skip(k), sizes.drop_first(), x0 + w);
            let j: int = choose|j: int| 0 <= j < rest.len() && covers(#[trigger] rest[j], x, y);
            assert(rest[j].x >= x0 + w);
            assert(x >= x0 + w);
        } else {
            lemma_composite_uncovered(rest, x, y);
            if x0 <= x && x - x0 >= w {
                lemma_vstack_black(images.take(k), x - x0, y);
            }
        }
    }
}

/// Position of column `k`'s first image in the flat input order: the
/// columns take contiguous runs of the input, with no interleaving.
pub open spec fn col_start(sizes: Seq<usize>, k: int) -> int {
    sum_sizes(sizes.take(k))
}

/// The images that fall into column `k`.
pub open spec fn column_images(images: Seq<Image>, sizes: Seq<usize>, k: int) -> Seq<Image> {
    images.subrange(col_start(sizes, k), col_start(sizes, k) + sizes[k])
}

/// The column arrangement equals stacking each column vertically and then
/// joining the column canvases side by side: given one canvas per column
/// that satisfies the vertical-stack contract for that column's images,
/// the horizontal strip of those canvases is pixel-identical to the
/// column arrangement — which the column driver paints without ever
/// materializing the intermediate canvases.
pub proof fn lemma_colstack_equals_hstack_of_columns(
    images: Seq<Image>,
    sizes: Seq<usize>,
    cs: Seq<Image>,
    x: int,
    y: int,
)
    requires
        cs.len() == sizes.len(),
        sum_sizes(sizes) == images.len(),
        forall|k: int|
            0 <= k < cs.len() ==> is_vertical_stack_of(
                #[trigger] cs[k],
                column_images(images, sizes, k),
            ),
        0 <= x,
        0 <= y,
    ensures
        hstack_pixel(cs, x, y) == colstack_pixel(images, sizes, x, y),
    decreases sizes.len(),
{
    if sizes.len() > 0 {
        let k0: int = sizes[0] as int;
        assert(sizes.take(0) =~= Seq::<usize>::empty());
        lemma_sum_sizes_step(sizes, 0);
        lemma_sum_sizes_take_le(sizes, 1);
        assert(col_start(sizes, 0) == 0);
        let col0 = column_images(images, sizes, 0);
        assert(col0 =~= images.take(k0));
        assert(is_vertical_stack_of(cs[0], col0));
        let w0: int = max_width(images.take(k0));
        lemma_max_width_nonneg(images.take(k0));
        if x < w0 {
            if y < sum_heights(images.take(k0)) {
                assert(cs[0].pixel(x, y) == vstack_pixel(col0, x, y));
            } else {
                lemma_vstack_black(images.take(k0), x, y);
            }
        } else {
            let images2 = images.skip(k0);
            let sizes2 = sizes.drop_first();
            let cs2 = cs.drop_first();
            lemma_sum_sizes_first(sizes);
            assert forall|k: int|
                0 <= k < cs2.len() implies is_vertical_stack_of(
                #[trigger] cs2[k],
                column_images(images2, sizes2, k),
            ) by {
                assert(cs2[k] == cs[k + 1]);
                assert(is_vertical_stack_of(cs[k + 1], column_images(images, sizes, k + 1)));
                assert(sizes.take(k + 1).drop_first() =~= sizes2.take(k));
                lemma_sum_sizes_first(sizes.take(k + 1));
                assert(sizes.take(k + 1)[0] == sizes[0]);
                assert(col_start(sizes, k + 1) == k0 + col_start(sizes2, k));
                lemma_sum_sizes_nonneg(sizes2.take(k));
                lemma_sum_sizes_step(sizes, k + 1);
                lemma_sum_sizes_take_le(sizes, k + 2);
                assert(col_start(sizes, k + 1) + sizes[k + 1] <= images.len());
                assert(column_images(images2, sizes2, k) =~= column_images(images, sizes, k + 1));
            }
            lemma_colstack_equals_hstack_of_columns(images2, sizes2, cs2, x - w0, y);
        }
    }
}

/// One step of walking the column layout: consuming the next column's
/// images peels one stripe off the remaining width and height.
proof fn lemma_column_layout_unfold(images: Seq<Image>, sizes: Seq<usize>, idx: int, start: int)
    requires
        0 <= idx < sizes.len(),
        0 <= start,
        start == sum_sizes(sizes.take(idx)),
        sum_sizes(sizes) == images.len(),
    ensures
        start + sizes[idx] == sum_sizes(sizes.take(idx + 1)),
        start + sizes[idx] <= images.len(),
        cols_width(images.skip(start), sizes.skip(idx)) == max_width(
            images.subrange(start, start + sizes[idx]),
        ) + cols_width(images.skip(start + sizes[idx]), sizes.skip(idx + 1)),
        sum_heights(images.subrange(start, start + sizes[idx])) <= cols_height(
            images.skip(start),
            sizes.skip(idx),
        ),
        cols_height(images.skip(start + sizes[idx]), sizes.skip(idx + 1)) <= cols_height(
            images.skip(start),
            sizes.skip(idx),
        ),
        0 <= max_width(images.subrange(start, start + sizes[idx])),
        0 <= cols_width(images.skip(start + sizes[idx]), sizes.skip(idx + 1)),
        0 <= sum_heights(images.subrange(start, start + sizes[idx])),
{
    lemma_sum_sizes_step(sizes, idx);
    lemma_sum_sizes_take_le(sizes, idx + 1);
    let end: int = start + sizes[idx];
    assert(images.skip(start).take(sizes[idx] as int) =~= images.subrange(start, end));
    assert(images.skip(start).skip(sizes[idx] as int) =~= images.skip(end));
    assert(sizes.skip(idx)[0] == sizes[idx]);
    assert(sizes.skip(idx).drop_first() =~= sizes.skip(idx + 1));
    lemma_max_width_nonneg(images.subrange(start, end));
    lemma_cols_width_nonneg(images.skip(end), sizes.skip(idx + 1));
    lemma_sum_heights_nonneg(images.subrange(start, end));
}

/// One step of building the column blits: appending the blits of the next
/// column extends the matched prefix by that column.
proof fn lemma_column_extend<'a>(
    blits: Seq<ImageBlit<'a>>,
    col_blits: Seq<ImageBlit<'a>>,
    images: Seq<Image>,
    sizes: Seq<usize>,
    idx: int,
    start: int,
    x: int,
)
    requires
        0 <= idx < sizes.len(),
        0 <= start,
        start + sizes[idx] <= images.len(),
        column_blits_match(blits, images.take(start), sizes.take(idx), 0),
        x == cols_width(images.take(start), sizes.take(idx)),
        vblits_match(col_blits, images.subrange(start, start + sizes[idx]), x),
    ensures
        column_blits_match(
            blits + col_blits,
            images.take(start + sizes[idx]),
            sizes.take(idx + 1),
            0,
        ),
        x + max_width(images.subrange(start, start + sizes[idx])) == cols_width(
            images.take(start + sizes[idx]),
            sizes.take(idx + 1),
        ),
{
    let end: int = start + sizes[idx];
    lemma_column_match_snoc(
        blits,
        images.take(start),
        sizes.take(idx),
        0,
        col_blits,
        images.subrange(start, end),
        sizes[idx],
    );
    assert(images.take(start) + images.subrange(start, end) =~= images.take(end));
    assert(sizes.take(idx).push(sizes[idx]) =~= sizes.take(idx + 1));
}

/// Concatenates images into `columns` vertical columns, filled in order:
/// column 0 gets the first images, reading top to bottom, then column 1,
/// and so on, with the remainder of an uneven split spread over the
/// leading columns.
///
/// The canvas is as wide as the non-empty columns side by side (each as
/// wide as its widest image) and as tall as the tallest column; every
/// pixel is pinned down by the column-stack description. Fails with
/// `InvalidArgument` exactly when `columns` is 0.
#[verifier::rlimit(100)]
pub fn column_concat_images<'a>(images: &'a [Image], columns: usize) -> (r: Result<
    Image,
    ConcatError,
>)
    requires
        forall|i: int| #![trigger images@[i]] 0 <= i < images@.len() ==> images@[i].wf(),
        columns > 0 ==> ({
            let sizes = column_plan(images@.len() as int, columns as int);
            &&& cols_width(images@, sizes) <= u32::MAX
            &&& cols_height(images@, sizes) <= u32::MAX
            &&& 3 * (cols_width(images@, sizes) * cols_height(images@, sizes)) <= usize::MAX
        }),
    ensures
        match r {
            Ok(c) => ({
                let sizes = column_plan(images@.len() as int, columns as int);
                &&& columns > 0
                &&& c.wf()
                &&& c.width == cols_width(images@, sizes)
                &&& c.height == cols_height(images@, sizes)
                &&& forall|x: int, y: int|
                    0 <= x < c.width && 0 <= y < c.height ==> c.pixel(x, y) == colstack_pixel(
                        images@,
                        sizes,
                        x,
                        y,
                    )
            }),
            Err(e) => e == ConcatError::InvalidArgument && columns == 0,
        },
{
    let total: usize = images.len();
    let sizes: Vec<usize> = match plan_columns(total, columns) {
        Ok(s) => s,
        Err(e) => {
            return Err(e);
        },
    };
    let mut blits: Vec<ImageBlit<'a>> = Vec::new();
    let mut start: usize = 0;
    let mut x: u32 = 0;
    let mut idx: usize = 0;
    proof {
        assert(images@.skip(0) =~= images@);
        assert(sizes@.skip(0) =~= sizes@);
        assert(images@.take(0) =~= Seq::<Image>::empty());
        assert(sizes@.take(0) =~= Seq::<usize>::empty());
    }
    while idx < columns
        invariant
            total == images@.len(),
            forall|i: int| #![trigger images@[i]] 0 <= i < images@.len() ==> images@[i].wf(),
            sizes@.len() == columns,
            sizes@ == column_plan(total as int, columns as int),
            sum_sizes(sizes@) == total,
            cols_width(images@, sizes@) <= u32::MAX,
            cols_height(images@, sizes@) <= u32::MAX,
            idx <= columns,
            start == sum_sizes(sizes@.take(idx as int)),
            start <= total,
            column_blits_match(blits@, images@.take(start as int), sizes@.take(idx as int), 0),
            x == cols_width(images@.take(start as int), sizes@.take(idx as int)),
            x + cols_width(images@.skip(start as int), sizes@.skip(idx as int)) == cols_width(
                images@,
                sizes@,
            ),
            cols_height(images@.skip(start as int), sizes@.skip(idx as int)) <= cols_height(
                images@,
                sizes@,
            ),
        decreases columns - idx,
    {
        let size: usize = sizes[idx];
        proof {
            lemma_column_layout_unfold(images@, sizes@, idx as int, start as int);
        }
        let end: usize = start + size;
        let col: &'a [Image] = &images[start..end];
        let wmax: u32 = max_width_of(col);
        let mut col_blits: Vec<ImageBlit<'a>> = get_concat_blits(
            col,
            ConcatDirection::Vertical,
            x,
            0,
        );
        proof {
            lemma_column_extend(
                blits@,
                col_blits@,
                images@,
                sizes@,
                idx as int,
                start as int,
                x as int,
            );
        }
        blits.append(&mut col_blits);
        x = x + wmax;
        start = end;
        idx = idx + 1;
    }
    proof {
        assert(sizes@.take(columns as int) =~= sizes@);
        assert(images@.take(start as int) =~= images@);
        assert(images@.skip(start as int) =~= Seq::<Image>::empty());
        assert(sizes@.skip(idx as int) =~= Seq::<usize>::empty());
        lemma_column_match_wf(blits@, images@, sizes@, 0);
        lemma_column_dims(blits@, images@, sizes@, 0);
        lemma_cols_width_nonneg(images@, sizes@);
        if images@.len() == 0 {
            assert(3 * (max_right(blits@) * max_bottom(blits@)) == 0) by (nonlinear_arith)
                requires
                    max_right(blits@) == 0,
            ;
        }
    }
    let result: Result<Image, ConcatError> = place_images_in_buffer(blits.as_slice());
    match result {
        Ok(c) => {
            proof {
                assert forall|px: int, py: int|
                    0 <= px < c.width && 0 <= py < c.height implies c.pixel(px, py)
                    == colstack_pixel(images@, sizes@, px, py) by {
                    lemma_colstack_composite(blits@, images@, sizes@, 0, px, py);
                }
            }
            Ok(c)
        },
        Err(e) => {
            proof {
                assert(false);
            }
            Err(e)
        },
    }
}

} // verus!
