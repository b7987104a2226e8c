//! Layout planning: where each image goes.
//!
//! The planner turns an ordered sequence of images into a sequence of
//! [`ImageBlit`] placements (top-left offsets into a shared canvas) for a
//! vertical stack, a horizontal strip, or a remainder-first column split.

use vstd::prelude::*;

use crate::img::Image;
use crate::ConcatError;
use vstd::arithmetic::div_mod::lemma_div_nonincreasing;
use vstd::arithmetic::div_mod::lemma_div_pos_is_pos;
use vstd::arithmetic::div_mod::lemma_fundamental_div_mod;
use vstd::arithmetic::div_mod::lemma_mod_division_less_than_divisor;

verus! {

/// Which way a stack of images grows.
#[derive(Clone, Copy, Debug, PartialEq, Eq, Structural)]
pub enum ConcatDirection {
    Vertical,
    Horizontal,
}

/// An instruction to copy one source image into a canvas with its top-left
/// corner at `(x, y)`. The source is borrowed: the canvas never outlives its
/// sources during a single compositing call.
pub struct ImageBlit<'a> {
    pub img: &'a Image,
    pub x: u32,
    pub y: u32,
}

/// Total height of a sequence of images.
pub open spec fn sum_heights(s: Seq<Image>) -> int
    decreases s.len(),
{
    if s.len() == 0 {
        0
    } else {
        sum_heights(s.drop_last()) + s.last().height
    }
}

/// Total width of a sequence of images.
pub open spec fn sum_widths(s: Seq<Image>) -> int
    decreases s.len(),
{
    if s.len() == 0 {
        0
    } else {
        sum_widths(s.drop_last()) + s.last().width
    }
}

/// Widest width among a sequence of images; 0 when the sequence is empty.
pub open spec fn max_width(s: Seq<Image>) -> int
    decreases s.len(),
{
    if s.len() == 0 {
        0
    } else {
        let rest: int = max_width(s.drop_last());
        if s.last().width >= rest {
            s.last().width as int
        } else {
            rest
        }
    }
}

/// Tallest height among a sequence of images; 0 when the sequence is empty.
pub open spec fn max_height(s: Seq<Image>) -> int
    decreases s.len(),
{
    if s.len() == 0 {
        0
    } else {
        let rest: int = max_height(s.drop_last());
        if s.last().height >= rest {
            s.last().height as int
        } else {
            rest
        }
    }
}

pub proof fn lemma_sum_heights_nonneg(s: Seq<Image>)
    ensures
        0 <= sum_heights(s),
    decreases s.len(),
{
    if s.len() > 0 {
        lemma_sum_heights_nonneg(s.drop_last());
    }
}

pub proof fn lemma_sum_widths_nonneg(s: Seq<Image>)
    ensures
        0 <= sum_widths(s),
    decreases s.len(),
{
    if s.len() > 0 {
        lemma_sum_widths_nonneg(s.drop_last());
    }
}

pub proof fn lemma_max_width_nonneg(s: Seq<Image>)
    ensures
        0 <= max_width(s),
    decreases s.len(),
{
    if s.len() > 0 {
        lemma_max_width_nonneg(s.drop_last());
    }
}

pub proof fn lemma_max_height_nonneg(s: Seq<Image>)
    ensures
        0 <= max_height(s),
    decreases s.len(),
{
    if s.len() > 0 {
        lemma_max_height_nonneg(s.drop_last());
    }
}

/// Extending a prefix by one image adds that image's height to the sum.
pub proof fn lemma_sum_heights_step(s: Seq<Image>, i: int)
    requires
        0 <= i < s.len(),
    ensures
        sum_heights(s.take(i + 1)) == sum_heights(s.take(i)) + s[i].height,
{
    assert(s.take(i + 1).drop_last() =~= s.take(i));
    assert(s.take(i + 1).last() == s[i]);
}

pub proof fn lemma_sum_widths_step(s: Seq<Image>, i: int)
    requires
        0 <= i < s.len(),
    ensures
        sum_widths(s.take(i + 1)) == sum_widths(s.take(i)) + s[i].width,
{
    assert(s.take(i + 1).drop_last() =~= s.take(i));
    assert(s.take(i + 1).last() == s[i]);
}

/// A prefix never sums to more than the whole sequence.
pub proof fn lemma_sum_heights_take_le(s: Seq<Image>, i: int)
    requires
        0 <= i <= s.len(),
    ensures
        sum_heights(s.take(i)) <= sum_heights(s),
    decreases s.len() - i,
{
    if i == s.len() {
        assert(s.take(i) =~= s);
    } else {
        lemma_sum_heights_step(s, i);
        lemma_sum_heights_take_le(s, i + 1);
    }
}

pub proof fn lemma_sum_widths_take_le(s: Seq<Image>, i: int)
    requires
        0 <= i <= s.len(),
    ensures
        sum_widths(s.take(i)) <= sum_widths(s),
    decreases s.len() - i,
{
    if i == s.len() {
        assert(s.take(i) =~= s);
    } else {
        lemma_sum_widths_step(s, i);
        lemma_sum_widths_take_le(s, i + 1);
    }
}

/// Extending a prefix by one image raises the width maximum to that
/// image's width when it is wider.
pub proof fn lemma_max_width_step(s: Seq<Image>, i: int)
    requires
        0 <= i < s.len(),
    ensures
        max_width(s.take(i + 1)) == if s[i].width >= max_width(s.take(i)) {
            s[i].width as int
        } else {
            max_width(s.take(i))
        },
{
    assert(s.take(i + 1).drop_last() =~= s.take(i));
    assert(s.take(i + 1).last() == s[i]);
}

/// The maximum width is the width of some image (or 0), so it fits in `u32`.
pub proof fn lemma_max_width_fits(s: Seq<Image>)
    ensures
        max_width(s) <= u32::MAX,
    decreases s.len(),
{
    if s.len() > 0 {
        lemma_max_width_fits(s.drop_last());
    }
}

pub proof fn lemma_max_height_fits(s: Seq<Image>)
    ensures
        max_height(s) <= u32::MAX,
    decreases s.len(),
{
    if s.len() > 0 {
        lemma_max_height_fits(s.drop_last());
    }
}

/// Creates one blit per image, placing the images one after another in the
/// given direction, starting from `(start_x, start_y)`.
///
/// The offsets preserve input order: in a vertical stack image `i` sits at
/// `(start_x, start_y + heights of images 0..i)`, and symmetrically for a
/// horizontal strip, so no two destination rectangles overlap.
pub fn get_concat_blits<'a>(
    images: &'a [Image],
    concat_direction: ConcatDirection,
    start_x: u32,
    start_y: u32,
) -> (blits: Vec<ImageBlit<'a>>)
    requires
        concat_direction is Vertical ==> start_y + sum_heights(images@) <= u32::MAX,
        concat_direction is Horizontal ==> start_x + sum_widths(images@) <= u32::MAX,
    ensures
        blits@.len() == images@.len(),
        forall|i: int| 0 <= i < blits@.len() ==> *blits@[i].img == images@[i],
        concat_direction is Vertical ==> forall|i: int|
            0 <= i < blits@.len() ==> blits@[i].x == start_x && blits@[i].y == start_y
                + sum_heights(images@.take(i)),
        concat_direction is Horizontal ==> forall|i: int|
            0 <= i < blits@.len() ==> blits@[i].y == start_y && blits@[i].x == start_x
                + sum_widths(images@.take(i)),
{
    let mut blits: Vec<ImageBlit<'a>> = Vec::new();
    let mut x: u32 = start_x;
    let mut y: u32 = start_y;
    let mut i: usize = 0;
    while i < images.len()
        invariant
            i <= images@.len(),
            blits@.len() == i,
            forall|k: int| 0 <= k < i ==> *blits@[k].img == images@[k],
            concat_direction is Vertical ==> {
                &&& start_y + sum_heights(images@) <= u32::MAX
                &&& x == start_x
                &&& y == start_y + sum_heights(images@.take(i as int))
                &&& forall|k: int|
                    0 <= k < i ==> blits@[k].x == start_x && blits@[k].y == start_y + sum_heights(
                        images@.take(k),
                    )
            },
            concat_direction is Horizontal ==> {
                &&& start_x + sum_widths(images@) <= u32::MAX
                &&& y == start_y
                &&& x == start_x + sum_widths(images@.take(i as int))
                &&& forall|k: int|
                    0 <= k < i ==> blits@[k].y == start_y && blits@[k].x == start_x + sum_widths(
                        images@.take(k),
                    )
            },
        decreases images@.len() - i,
    {
        let im: &'a Image = &images[i];
        proof {
            lemma_sum_heights_step(images@, i as int);
            lemma_sum_heights_take_le(images@, i as int + 1);
            lemma_sum_heights_nonneg(images@.take(i as int));
            lemma_sum_widths_step(images@, i as int);
            lemma_sum_widths_take_le(images@, i as int + 1);
            lemma_sum_widths_nonneg(images@.take(i as int));
        }
        blits.push(ImageBlit { img: im, x, y });
        match concat_direction {
            ConcatDirection::Vertical => {
                y = y + im.height();
            },
            ConcatDirection::Horizontal => {
                x = x + im.width();
            },
        }
        i = i + 1;
    }
    blits
}

/// Scans a sequence of images for the widest width.
pub fn max_width_of(images: &[Image]) -> (w: u32)
    ensures
        w as int == max_width(images@),
{
    proof {
        assert(images@.take(0) =~= Seq::<Image>::empty());
    }
    let mut wmax: u32 = 0;
    let mut j: usize = 0;
    while j < images.len()
        invariant
            j <= images@.len(),
            wmax == max_width(images@.take(j as int)),
        decreases images@.len() - j,
    {
        proof {
            lemma_max_width_step(images@, j as int);
            lemma_max_width_fits(images@.take(j as int + 1));
        }
        let w: u32 = images[j].width();
        if w > wmax {
            wmax = w;
        }
        j = j + 1;
    }
    proof {
        assert(images@.take(images@.len() as int) =~= images@);
    }
    wmax
}

/// Number of images assigned to column `i` when `n` images are split over
/// `c` columns: the first `n % c` columns get one extra image.
pub open spec fn col_size(n: int, c: int, i: int) -> int
    recommends
        c > 0,
{
    if i < n % c {
        n / c + 1
    } else {
        n / c
    }
}

/// The whole column plan as a sequence of sizes, one per column.
pub open spec fn column_plan(n: int, c: int) -> Seq<usize>
    recommends
        0 <= n,
        c > 0,
{
    Seq::new(c as nat, |i: int| col_size(n, c, i) as usize)
}

/// Total of a sequence of column sizes.
pub open spec fn sum_sizes(s: Seq<usize>) -> int
    decreases s.len(),
{
    if s.len() == 0 {
        0
    } else {
        sum_sizes(s.drop_last()) + s.last()
    }
}

pub proof fn lemma_sum_sizes_nonneg(s: Seq<usize>)
    ensures
        0 <= sum_sizes(s),
    decreases s.len(),
{
    if s.len() > 0 {
        lemma_sum_sizes_nonneg(s.drop_last());
    }
}

/// Peeling the first column size off the front of the total.
pub proof fn lemma_sum_sizes_first(s: Seq<usize>)
    requires
        s.len() > 0,
    ensures
        sum_sizes(s) == s[0] + sum_sizes(s.drop_first()),
    decreases s.len(),
{
    if s.len() == 1 {
        assert(s.drop_first() =~= Seq::<usize>::empty());
        assert(s.drop_last() =~= Seq::<usize>::empty());
    } else {
        lemma_sum_sizes_first(s.drop_last());
        assert(s.drop_first().drop_last() =~= s.drop_last().drop_first());
        assert(s.drop_first().last() == s.last());
        assert(sum_sizes(s.drop_first()) == sum_sizes(s.drop_first().drop_last())
            + s.drop_first().last());
    }
}

/// Extending a prefix by one column size adds that size to the total.
pub proof fn lemma_sum_sizes_step(s: Seq<usize>, i: int)
    requires
        0 <= i < s.len(),
    ensures
        sum_sizes(s.take(i + 1)) == sum_sizes(s.take(i)) + s[i],
{
    assert(s.take(i + 1).drop_last() =~= s.take(i));
    assert(s.take(i + 1).last() == s[i]);
}

/// A prefix of column sizes never sums to more than the whole plan.
pub proof fn lemma_sum_sizes_take_le(s: Seq<usize>, i: int)
    requires
        0 <= i <= s.len(),
    ensures
        sum_sizes(s.take(i)) <= sum_sizes(s),
    decreases s.len() - i,
{
    if i == s.len() {
        assert(s.take(i) =~= s);
    } else {
        lemma_sum_sizes_step(s, i);
        lemma_sum_sizes_take_le(s, i + 1);
    }
}

/// Sum of the first `k` column sizes of the plan for `n` images in `c`
/// columns.
pub open spec fn sum_first(n: int, c: int, k: int) -> int
    decreases k,
{
    if k <= 0 {
        0
    } else {
        sum_first(n, c, k - 1) + col_size(n, c, k - 1)
    }
}

/// Closed form for a prefix of the column plan: `k` quotients plus one for
/// each remainder column seen so far.
proof fn lemma_sum_first_closed(n: int, c: int, k: int)
    requires
        0 <= n,
        0 < c,
        0 <= k <= c,
    ensures
        sum_first(n, c, k) == k * (n / c) + (if k <= n % c {
            k
        } else {
            n % c
        }),
    decreases k,
{
    lemma_mod_division_less_than_divisor(n, c);
    lemma_div_pos_is_pos(n, c);
    if k > 0 {
        lemma_sum_first_closed(n, c, k - 1);
        let q: int = n / c;
        assert((k - 1) * q + q == k * q) by (nonlinear_arith);
    } else {
        assert(k * (n / c) == 0) by (nonlinear_arith)
            requires
                k == 0,
        ;
    }
}

/// The full column plan accounts for every image exactly once.
proof fn lemma_column_plan_total(n: int, c: int)
    requires
        0 <= n,
        0 < c,
    ensures
        sum_first(n, c, c) == n,
{
    lemma_sum_first_closed(n, c, c);
    lemma_fundamental_div_mod(n, c);
    lemma_mod_division_less_than_divisor(n, c);
}

/// Splits `image_count` images over `columns` columns, base size `n / c`
/// with the remainder spread over the leading columns.
///
/// Fails with `InvalidArgument` exactly when `columns` is 0; trailing
/// columns may get size 0 when there are more columns than images.
pub fn plan_columns(image_count: usize, columns: usize) -> (r: Result<Vec<usize>, ConcatError>)
    ensures
        match r {
            Ok(sizes) => {
                &&& columns > 0
                &&& sizes@ == column_plan(image_count as int, columns as int)
                &&& sizes@.len() == columns
                &&& forall|i: int|
                    0 <= i < columns ==> sizes@[i] == col_size(
                        image_count as int,
                        columns as int,
                        i,
                    )
                &&& sum_sizes(sizes@) == image_count
                &&& forall|i: int, j: int| 0 <= i <= j < columns ==> sizes@[i] >= sizes@[j]
                &&& forall|i: int, j: int|
                    0 <= i < columns && 0 <= j < columns ==> sizes@[i] <= sizes@[j] + 1
            },
            Err(e) => e == ConcatError::InvalidArgument && columns == 0,
        },
{
    if columns == 0 {
        return Err(ConcatError::InvalidArgument);
    }
    let base: usize = image_count / columns;
    let rem: usize = image_count % columns;
    proof {
        lemma_mod_division_less_than_divisor(image_count as int, columns as int);
        lemma_div_pos_is_pos(image_count as int, columns as int);
        lemma_div_nonincreasing(image_count as int, columns as int);
    }
    let mut sizes: Vec<usize> = Vec::new();
    let mut idx: usize = 0;
    while idx < columns
        invariant
            idx <= columns,
            0 < columns,
            base == image_count as int / columns as int,
            rem == image_count as int % columns as int,
            base <= image_count,
            sizes@.len() == idx,
            forall|i: int|
                0 <= i < idx ==> sizes@[i] == col_size(image_count as int, columns as int, i),
            sum_sizes(sizes@) == sum_first(image_count as int, columns as int, idx as int),
        decreases columns - idx,
    {
        let ghost old_sizes: Seq<usize> = sizes@;
        if idx < rem {
            proof {
                lemma_fundamental_div_mod(image_count as int, columns as int);
                assert(base < usize::MAX) by (nonlinear_arith)
                    requires
                        image_count as int == columns as int * base + rem,
                        1 <= rem,
                        0 <= base,
                        1 <= columns,
                        base <= image_count <= usize::MAX,
                ;
            }
            sizes.push(base + 1);
        } else {
            sizes.push(base);
        }
        proof {
            assert(sizes@.drop_last() =~= old_sizes);
        }
        idx = idx + 1;
    }
    proof {
        lemma_column_plan_total(image_count as int, columns as int);
        assert(sizes@ =~= column_plan(image_count as int, columns as int));
        lemma_mod_division_less_than_divisor(image_count as int, columns as int);
    }
    Ok(sizes)
}

/// Total height of a sequence of (width, height) pairs.
pub open spec fn dims_sum_heights(s: Seq<(u32, u32)>) -> int
    decreases s.len(),
{
    if s.len() == 0 {
        0
    } else {
        dims_sum_heights(s.drop_last()) + s.last().1
    }
}

/// Widest width among a sequence of (width, height) pairs.
pub open spec fn dims_max_width(s: Seq<(u32, u32)>) -> int
    decreases s.len(),
{
    if s.len() == 0 {
        0
    } else {
        let rest: int = dims_max_width(s.drop_last());
        if s.last().0 >= rest {
            s.last().0 as int
        } else {
            rest
        }
    }
}

pub proof fn lemma_dims_sum_heights_nonneg(s: Seq<(u32, u32)>)
    ensures
        0 <= dims_sum_heights(s),
    decreases s.len(),
{
    if s.len() > 0 {
        lemma_dims_sum_heights_nonneg(s.drop_last());
    }
}

pub proof fn lemma_dims_max_width_nonneg(s: Seq<(u32, u32)>)
    ensures
        0 <= dims_max_width(s),
    decreases s.len(),
{
    if s.len() > 0 {
        lemma_dims_max_width_nonneg(s.drop_last());
    }
}

pub proof fn lemma_dims_sum_heights_step(s: Seq<(u32, u32)>, i: int)
    requires
        0 <= i < s.len(),
    ensures
        dims_sum_heights(s.take(i + 1)) == dims_sum_heights(s.take(i)) + s[i].1,
{
    assert(s.take(i + 1).drop_last() =~= s.take(i));
    assert(s.take(i + 1).last() == s[i]);
}

pub proof fn lemma_dims_max_width_step(s: Seq<(u32, u32)>, i: int)
    requires
        0 <= i < s.len(),
    ensures
        dims_max_width(s.take(i + 1)) == if s[i].0 >= dims_max_width(s.take(i)) {
            s[i].0 as int
        } else {
            dims_max_width(s.take(i))
        },
{
    assert(s.take(i + 1).drop_last() =~= s.take(i));
    assert(s.take(i + 1).last() == s[i]);
}

pub proof fn lemma_dims_sum_heights_take_le(s: Seq<(u32, u32)>, i: int)
    requires
        0 <= i <= s.len(),
    ensures
        dims_sum_heights(s.take(i)) <= dims_sum_heights(s),
    decreases s.len() - i,
{
    if i == s.len() {
        assert(s.take(i) =~= s);
    } else {
        lemma_dims_sum_heights_step(s, i);
        lemma_dims_sum_heights_take_le(s, i + 1);
    }
}

/// A decode plan for the fast vertical path over pre-read dimensions: the
/// canvas size, and — only when every image is exactly as wide as the
/// canvas — one contiguous byte range per image inside the canvas buffer.
pub struct VerticalDecodePlan {
    pub width: u32,
    pub height: u32,
    /// `Some` holds one half-open byte range per image, in input order;
    /// `None` means some image is narrower than the canvas, in which case
    /// raw contiguous decoding would misalign rows and the row-copy path
    /// must be taken instead.
    pub ranges: Option<Vec<(usize, usize)>>,
}

/// Sizes the canvas of a vertical stack from pre-read image dimensions
/// (widest width by summed height) and, when every width equals the
/// canvas width, lays out the contiguous byte range that each image's
/// row-major pixels occupy in the canvas buffer.
///
/// Decoding raw bytes into those ranges is valid only for that uniform
/// case; the plan withholds the ranges otherwise.
pub fn plan_vertical_decode(dims: &[(u32, u32)]) -> (plan: VerticalDecodePlan)
    requires
        dims_sum_heights(dims@) <= u32::MAX,
        3 * (dims_max_width(dims@) * dims_sum_heights(dims@)) <= usize::MAX,
    ensures
        plan.width == dims_max_width(dims@),
        plan.height == dims_sum_heights(dims@),
        (plan.ranges is Some) <==> (forall|i: int|
            0 <= i < dims@.len() ==> (#[trigger] dims@[i]).0 == dims_max_width(dims@)),
        plan.ranges matches Some(rs) ==> {
            &&& rs@.len() == dims@.len()
            &&& forall|i: int|
                0 <= i < rs@.len() ==> (#[trigger] rs@[i]).0 == 3 * (dims_max_width(dims@)
                    * dims_sum_heights(dims@.take(i))) && rs@[i].1 == 3 * (dims_max_width(dims@)
                    * dims_sum_heights(dims@.take(i + 1)))
        },
{
    let n: usize = dims.len();
    let mut mw: u32 = 0;
    let mut th: u32 = 0;
    let mut i: usize = 0;
    proof {
        assert(dims@.take(0) =~= Seq::<(u32, u32)>::empty());
    }
    while i < n
        invariant
            n == dims@.len(),
            i <= n,
            mw == dims_max_width(dims@.take(i as int)),
            th == dims_sum_heights(dims@.take(i as int)),
            dims_sum_heights(dims@) <= u32::MAX,
        decreases n - i,
    {
        proof {
            lemma_dims_max_width_step(dims@, i as int);
            lemma_dims_sum_heights_step(dims@, i as int);
            lemma_dims_sum_heights_take_le(dims@, i as int + 1);
            lemma_dims_sum_heights_nonneg(dims@.take(i as int));
        }
        let d: (u32, u32) = dims[i];
        if d.0 > mw {
            mw = d.0;
        }
        th = th + d.1;
        i = i + 1;
    }
    proof {
        assert(dims@.take(n as int) =~= dims@);
    }
    let mut ranges: Vec<(usize, usize)> = Vec::new();
    let mut off: usize = 0;
    let mut i: usize = 0;
    proof {
        assert(dims@.take(0) =~= Seq::<(u32, u32)>::empty());
    }
    while i < n
        invariant
            n == dims@.len(),
            i <= n,
            mw == dims_max_width(dims@),
            th == dims_sum_heights(dims@),
            dims_sum_heights(dims@) <= u32::MAX,
            3 * (dims_max_width(dims@) * dims_sum_heights(dims@)) <= usize::MAX,
            ranges@.len() == i,
            off == 3 * (dims_max_width(dims@) * dims_sum_heights(dims@.take(i as int))),
            forall|j: int| 0 <= j < i ==> (#[trigger] dims@[j]).0 == mw,
            forall|j: int|
                0 <= j < i ==> (#[trigger] ranges@[j]).0 == 3 * (dims_max_width(dims@)
                    * dims_sum_heights(dims@.take(j))) && ranges@[j].1 == 3 * (dims_max_width(
                    dims@,
                ) * dims_sum_heights(dims@.take(j + 1))),
        decreases n - i,
    {
        let d: (u32, u32) = dims[i];
        if d.0 != mw {
            proof {
                assert(dims@[i as int].0 != dims_max_width(dims@));
            }
            return VerticalDecodePlan { width: mw, height: th, ranges: None };
        }
        proof {
            lemma_dims_sum_heights_step(dims@, i as int);
            lemma_dims_sum_heights_take_le(dims@, i as int + 1);
            lemma_dims_sum_heights_nonneg(dims@.take(i as int));
            lemma_dims_max_width_nonneg(dims@);
            assert((mw as int) * (d.1 as int) <= usize::MAX && 3 * ((mw as int) * (d.1 as int))
                + off <= usize::MAX) by (nonlinear_arith)
                requires
                    0 <= mw as int,
                    0 <= d.1 as int,
                    0 <= dims_sum_heights(dims@.take(i as int)),
                    dims_sum_heights(dims@.take(i as int)) + d.1 as int == dims_sum_heights(
                        dims@.take(i as int + 1),
                    ),
                    dims_sum_heights(dims@.take(i as int + 1)) <= dims_sum_heights(dims@),
                    off == 3 * ((mw as int) * dims_sum_heights(dims@.take(i as int))),
                    3 * ((mw as int) * dims_sum_heights(dims@)) <= usize::MAX,
            ;
        }
        let seg: usize = (mw as usize) * (d.1 as usize);
        let row_bytes: usize = 3 * seg;
        let end: usize = off + row_bytes;
        proof {
            assert(end as int == 3 * ((mw as int) * dims_sum_heights(dims@.take(i as int + 1))))
                by (nonlinear_arith)
                requires
                    end as int == 3 * ((mw as int) * dims_sum_heights(dims@.take(i as int))) + 3 * (
                    (mw as int) * (d.1 as int)),
                    dims_sum_heights(dims@.take(i as int)) + d.1 as int == dims_sum_heights(
                        dims@.take(i as int + 1),
                    ),
            ;
        }
        ranges.push((off, end));
        off = end;
        i = i + 1;
    }
    proof {
        assert(dims@.take(n as int) =~= dims@);
    }
    VerticalDecodePlan { width: mw, height: th, ranges: Some(ranges) }
}

} // verus!
