use vstd::prelude::*;

use crate::geometry::PhysicalRect;

verus! {

/// The sum of `count` samples of a line of bytes: sample `k` is at `base + k * stride`,
/// and the samples summed are `lo..=hi`.
pub open spec fn line_sum(src: Seq<u8>, base: int, stride: int, lo: int, hi: int) -> int
    decreases (if hi < lo {
        0
    } else {
        hi - lo + 1
    }),
{
    if hi < lo {
        0
    } else {
        line_sum(src, base, stride, lo, hi - 1) + src[base + hi * stride]
    }
}

/// The first sample of the window around `k`.
pub open spec fn window_lo(k: int, radius: int) -> int {
    if k >= radius {
        k - radius
    } else {
        0
    }
}

/// The last sample of the window around `k` on a line of `n` samples.
pub open spec fn window_hi(k: int, radius: int, n: int) -> int {
    if k + radius < n - 1 {
        k + radius
    } else {
        n - 1
    }
}

/// Sample `k` of a line after a box blur: the mean, rounded down, of the samples within
/// `radius` of it that lie on the line.
pub open spec fn line_blur(src: Seq<u8>, base: int, stride: int, n: int, radius: int, k: int) -> u8 {
    let lo = window_lo(k, radius);
    let hi = window_hi(k, radius, n);
    (line_sum(src, base, stride, lo, hi) / (hi - lo + 1)) as u8
}

/// The byte of channel `c` of pixel `(x, y)` in a BGRA buffer with `row` bytes per row.
pub open spec fn at(row: int, y: int, x: int, c: int) -> int {
    y * row + x * 4 + c
}

/// The largest window a blur of `radius` takes on a line of `n` samples.
pub open spec fn window_cap(n: int, radius: int) -> int {
    if 2 * radius + 1 < n {
        2 * radius + 1
    } else {
        n
    }
}

proof fn lemma_line_sum_bounds(src: Seq<u8>, base: int, stride: int, lo: int, hi: int)
    ensures
        0 <= line_sum(src, base, stride, lo, hi),
        line_sum(src, base, stride, lo, hi) <= 255 * (if hi < lo {
            0
        } else {
            hi - lo + 1
        }),
    decreases (if hi < lo {
        0
    } else {
        hi - lo + 1
    }),
{
    if hi >= lo {
        lemma_line_sum_bounds(src, base, stride, lo, hi - 1);
    }
}

proof fn lemma_line_sum_front(src: Seq<u8>, base: int, stride: int, lo: int, hi: int)
    requires
        lo <= hi,
    ensures
        line_sum(src, base, stride, lo, hi) == src[base + lo * stride] + line_sum(src, base, stride, lo + 1, hi),
    decreases hi - lo,
{
    if lo < hi {
        lemma_line_sum_front(src, base, stride, lo, hi - 1);
        assert(line_sum(src, base, stride, lo + 1, hi) == line_sum(src, base, stride, lo + 1, hi - 1)
            + src[base + hi * stride]);
    } else {
        assert(line_sum(src, base, stride, lo, lo - 1) == 0);
        assert(line_sum(src, base, stride, lo + 1, hi) == 0);
    }
}

proof fn lemma_at_distinct(w: int, y1: int, x1: int, c1: int, y2: int, x2: int, c2: int)
    requires
        w > 0,
        0 <= y1,
        0 <= y2,
        0 <= x1 < w,
        0 <= x2 < w,
        0 <= c1 < 4,
        0 <= c2 < 4,
        !(y1 == y2 && x1 == x2 && c1 == c2),
    ensures
        at(4 * w, y1, x1, c1) != at(4 * w, y2, x2, c2),
{
    let row = 4 * w;
    if y1 < y2 {
        assert((y1 + 1) * row <= y2 * row) by (nonlinear_arith)
            requires
                y1 + 1 <= y2,
                row >= 0,
        ;
        assert((y1 + 1) * row == y1 * row + row) by (nonlinear_arith);
    } else if y2 < y1 {
        assert((y2 + 1) * row <= y1 * row) by (nonlinear_arith)
            requires
                y2 + 1 <= y1,
                row >= 0,
        ;
        assert((y2 + 1) * row == y2 * row + row) by (nonlinear_arith);
    }
}

proof fn lemma_at_bounds(w: int, h: int, y: int, x: int, c: int)
    requires
        w > 0,
        0 <= y < h,
        0 <= x < w,
        0 <= c < 4,
    ensures
        0 <= at(4 * w, y, x, c) < h * (4 * w),
        y * (4 * w) <= at(4 * w, y, x, c),
{
    let row = 4 * w;
    assert((y + 1) * row <= h * row) by (nonlinear_arith)
        requires
            y + 1 <= h,
            row >= 0,
    ;
    assert((y + 1) * row == y * row + row) by (nonlinear_arith);
    assert(y * row >= 0) by (nonlinear_arith)
        requires
            y >= 0,
            row >= 0,
    ;
}

/// Adds the four channels of the pixel at `index` to `sum`.
fn add_pixel(sum: &mut [u32; 4], src: &[u8], index: usize)
    requires
        index + 4 <= src@.len(),
        forall|c: int| 0 <= c < 4 ==> old(sum)@[c] + src@[index + c] <= u32::MAX,
    ensures
        forall|c: int| 0 <= c < 4 ==> #[trigger] final(sum)@[c] == old(sum)@[c] + src@[index + c],
{
    sum[0] = sum[0] + src[index] as u32;
    sum[1] = sum[1] + src[index + 1] as u32;
    sum[2] = sum[2] + src[index + 2] as u32;
    sum[3] = sum[3] + src[index + 3] as u32;
}

/// Takes the four channels of the pixel at `index` off `sum`.
fn sub_pixel(sum: &mut [u32; 4], src: &[u8], index: usize)
    requires
        index + 4 <= src@.len(),
        forall|c: int| 0 <= c < 4 ==> old(sum)@[c] >= src@[index + c],
    ensures
        forall|c: int| 0 <= c < 4 ==> #[trigger] final(sum)@[c] == old(sum)@[c] - src@[index + c],
{
    sum[0] = sum[0] - src[index] as u32;
    sum[1] = sum[1] - src[index + 1] as u32;
    sum[2] = sum[2] - src[index + 2] as u32;
    sum[3] = sum[3] - src[index + 3] as u32;
}

fn mean_byte(total: u32, count: u32) -> (r: u8)
    requires
        count > 0,
        total <= 255 * count,
    ensures
        r == (total / count) as u8,
{
    assert(total / count <= 255) by (nonlinear_arith)
        requires
            count > 0,
            total <= 255 * count,
    ;
    (total / count) as u8
}

proof fn lemma_window_size(k: int, radius: int, n: int)
    requires
        0 <= k < n,
        radius >= 0,
    ensures
        window_lo(k, radius) <= k <= window_hi(k, radius, n),
        0 <= window_lo(k, radius),
        window_hi(k, radius, n) < n,
        window_hi(k, radius, n) - window_lo(k, radius) + 1 <= window_cap(n, radius),
{
}

/// Writes the mean of each channel of the window, `sum` over the window around `k`,
/// to the four bytes of sample `k` of the line at `base` with `stride` bytes per sample.
fn write_mean_pixel(
    target: &mut [u8],
    source: &[u8],
    base: usize,
    stride: usize,
    k: usize,
    n: usize,
    radius: usize,
    sum: &[u32; 4],
)
    requires
        k < n,
        base + k * stride + 4 <= old(target)@.len(),
        forall|c: int|
            0 <= c < 4 ==> #[trigger] sum@[c] == line_sum(
                source@,
                base + c,
                stride as int,
                window_lo(k as int, radius as int),
                window_hi(k as int, radius as int, n as int),
            ),
        window_cap(n as int, radius as int) * 255 <= u32::MAX,
    ensures
        final(target)@.len() == old(target)@.len(),
        forall|c: int|
            0 <= c < 4 ==> #[trigger] final(target)@[base + k * stride + c] == line_blur(
                source@,
                base + c,
                stride as int,
                n as int,
                radius as int,
                k as int,
            ),
        forall|j: int|
            0 <= j < old(target)@.len() && !(base + k * stride <= j < base + k * stride + 4)
                ==> #[trigger] final(target)@[j] == old(target)@[j],
{
    let target_len = target.len();
    assert(old(target)@.len() <= usize::MAX);
    let left = if k >= radius {
        k - radius
    } else {
        0
    };
    let right = if radius < n - 1 - k {
        k + radius
    } else {
        n - 1
    };
    proof {
        lemma_window_size(k as int, radius as int, n as int);
    }
    let count = (right - left + 1) as u32;
    proof {
        assert forall|c: int| 0 <= c < 4 implies sum@[c] <= 255 * count by {
            lemma_line_sum_bounds(source@, base + c, stride as int, left as int, right as int);
        }
    }
    let index = base + k * stride;
    let b0 = mean_byte(sum[0], count);
    let b1 = mean_byte(sum[1], count);
    let b2 = mean_byte(sum[2], count);
    let b3 = mean_byte(sum[3], count);
    target[index] = b0;
    target[index + 1] = b1;
    target[index + 2] = b2;
    target[index + 3] = b3;
}

/// Moves the window sums from sample `k` to sample `k + 1` of a line: the sample that
/// leaves the window is taken off and the one that enters is added.
fn slide_window(
    sum: &mut [u32; 4],
    source: &[u8],
    base: usize,
    stride: usize,
    k: usize,
    n: usize,
    radius: usize,
)
    requires
        k + 1 < n,
        base + (n - 1) * stride + 4 <= source@.len(),
        window_cap(n as int, radius as int) * 255 <= u32::MAX,
        forall|c: int|
            0 <= c < 4 ==> #[trigger] old(sum)@[c] == line_sum(
                source@,
                base + c,
                stride as int,
                window_lo(k as int, radius as int),
                window_hi(k as int, radius as int, n as int),
            ),
    ensures
        forall|c: int|
            0 <= c < 4 ==> #[trigger] final(sum)@[c] == line_sum(
                source@,
                base + c,
                stride as int,
                window_lo(k + 1, radius as int),
                window_hi(k + 1, radius as int, n as int),
            ),
{
    proof {
        lemma_window_size(k as int, radius as int, n as int);
        lemma_window_size(k + 1, radius as int, n as int);
    }
    let source_len = source.len();
    assert(source@.len() <= usize::MAX);
    let ghost lo = window_lo(k as int, radius as int);
    let ghost hi = window_hi(k as int, radius as int, n as int);
    let next = k + 1;
    if next > radius {
        let remove = next - radius - 1;
        assert(remove * stride <= (n - 1) * stride) by (nonlinear_arith)
            requires
                remove <= n - 1,
                stride >= 0,
        ;
        proof {
            assert forall|c: int| 0 <= c < 4 implies sum@[c] >= source@[base + remove * stride + c] by {
                lemma_line_sum_front(source@, base + c, stride as int, lo, hi);
                lemma_line_sum_bounds(source@, base + c, stride as int, lo + 1, hi);
                assert(base + c + lo * stride == base + remove * stride + c);
            }
        }
        let ghost before = sum@;
        sub_pixel(sum, source, base + remove * stride);
        assert forall|c: int| 0 <= c < 4 implies #[trigger] sum@[c] == line_sum(
            source@,
            base + c,
            stride as int,
            lo + 1,
            hi,
        ) by {
            lemma_line_sum_front(source@, base + c, stride as int, lo, hi);
            assert(base + c + lo * stride == base + remove * stride + c);
            assert(sum@[c] == before[c] - source@[base + remove * stride + c]);
        }
    }
    let ghost lo2 = window_lo(next as int, radius as int);
    assert(forall|c: int|
        0 <= c < 4 ==> #[trigger] sum@[c] == line_sum(source@, base + c, stride as int, lo2, hi));
    if radius < n - next {
        let add = next + radius;
        assert(add * stride <= (n - 1) * stride) by (nonlinear_arith)
            requires
                add <= n - 1,
                stride >= 0,
        ;
        proof {
            assert forall|c: int| 0 <= c < 4 implies sum@[c] + source@[base + add * stride + c] <= u32::MAX by {
                lemma_line_sum_bounds(source@, base + c, stride as int, lo2, hi);
            }
        }
        let ghost before = sum@;
        add_pixel(sum, source, base + add * stride);
        assert forall|c: int| 0 <= c < 4 implies #[trigger] sum@[c] == line_sum(
            source@,
            base + c,
            stride as int,
            lo2,
            hi + 1,
        ) by {
            assert(base + c + (hi + 1) * stride == base + add * stride + c);
            assert(sum@[c] == before[c] + source@[base + add * stride + c]);
        }
    }
}

/// Blurs one row of `width` pixels starting at byte `row_start`.
fn blur_row(source: &[u8], target: &mut [u8], row_start: usize, width: usize, radius: usize)
    requires
        width > 0,
        row_start + 4 * width <= source@.len(),
        old(target)@.len() == source@.len(),
        window_cap(width as int, radius as int) * 255 <= u32::MAX,
    ensures
        final(target)@.len() == old(target)@.len(),
        forall|x: int, c: int|
            0 <= x < width && 0 <= c < 4 ==> #[trigger] final(target)@[row_start + x * 4 + c]
                == line_blur(source@, row_start + c, 4, width as int, radius as int, x),
        forall|j: int|
            0 <= j < old(target)@.len() && !(row_start <= j < row_start + 4 * width)
                ==> #[trigger] final(target)@[j] == old(target)@[j],
{
    let len = source.len();
    assert(source@.len() <= usize::MAX);
    let mut sum: [u32; 4] = [0, 0, 0, 0];
    let initial_right = if radius < width - 1 {
        radius
    } else {
        width - 1
    };
    let mut k: usize = 0;
    assert forall|c: int| 0 <= c < 4 implies #[trigger] sum@[c] == line_sum(source@, row_start + c, 4, 0, -1) by {}
    while k <= initial_right
        invariant
            initial_right < width,
            initial_right == window_hi(0, radius as int, width as int),
            k <= initial_right + 1,
            row_start + 4 * width <= source@.len(),
            source@.len() <= usize::MAX,
            window_cap(width as int, radius as int) * 255 <= u32::MAX,
            forall|c: int| 0 <= c < 4 ==> #[trigger] sum@[c] == line_sum(source@, row_start + c, 4, 0, k - 1),
        decreases initial_right + 1 - k,
    {
        proof {
            lemma_window_size(0, radius as int, width as int);
            assert forall|c: int| 0 <= c < 4 implies sum@[c] + source@[row_start + k * 4 + c] <= u32::MAX by {
                lemma_line_sum_bounds(source@, row_start + c, 4, 0, k - 1);
            }
        }
        let ghost before = sum@;
        add_pixel(&mut sum, source, row_start + k * 4);
        assert forall|c: int| 0 <= c < 4 implies #[trigger] sum@[c] == line_sum(source@, row_start + c, 4, 0, k as int) by {
            assert(sum@[c] == before[c] + source@[row_start + k * 4 + c]);
        }
        k = k + 1;
    }
    let mut x: usize = 0;
    while x < width
        invariant
            x <= width,
            width > 0,
            row_start + 4 * width <= source@.len(),
            source@.len() <= usize::MAX,
            target@.len() == source@.len(),
            old(target)@.len() == source@.len(),
            window_cap(width as int, radius as int) * 255 <= u32::MAX,
            forall|xx: int, c: int|
                0 <= xx < x && 0 <= c < 4 ==> #[trigger] target@[row_start + xx * 4 + c] == line_blur(
                    source@,
                    row_start + c,
                    4,
                    width as int,
                    radius as int,
                    xx,
                ),
            forall|j: int|
                0 <= j < target@.len() && !(row_start <= j < row_start + 4 * x) ==> #[trigger] target@[j]
                    == old(target)@[j],
            x < width ==> forall|c: int|
                0 <= c < 4 ==> #[trigger] sum@[c] == line_sum(
                    source@,
                    row_start + c,
                    4,
                    window_lo(x as int, radius as int),
                    window_hi(x as int, radius as int, width as int),
                ),
        decreases width - x,
    {
        let ghost before = target@;
        write_mean_pixel(target, source, row_start, 4, x, width, radius, &sum);
        assert forall|j: int|
            0 <= j < target@.len() && !(row_start <= j < row_start + 4 * (x + 1)) implies #[trigger] target@[j]
                == old(target)@[j] by {
            assert(target@[j] == before[j]);
        }
        assert forall|xx: int, c: int|
            0 <= xx < x + 1 && 0 <= c < 4 implies #[trigger] target@[row_start + xx * 4 + c] == line_blur(
                source@,
                row_start + c,
                4,
                width as int,
                radius as int,
                xx,
            ) by {
            if xx < x {
                assert(target@[row_start + xx * 4 + c] == before[row_start + xx * 4 + c]);
            }
        }
        if x + 1 < width {
            slide_window(&mut sum, source, row_start, 4, x, width, radius);
        }
        x = x + 1;
    }
}

/// The horizontal pass of a box blur: each pixel becomes the mean of the pixels of its
/// row within `radius` of it.
fn blur_horizontal_bgra(source: &[u8], target: &mut [u8], width: usize, height: usize, radius: usize)
    requires
        width > 0,
        height > 0,
        height * (4 * width) <= source@.len(),
        old(target)@.len() == source@.len(),
        window_cap(width as int, radius as int) * 255 <= u32::MAX,
    ensures
        final(target)@.len() == old(target)@.len(),
        forall|y: int, x: int, c: int|
            0 <= y < height && 0 <= x < width && 0 <= c < 4 ==> #[trigger] final(target)@[at(
                4 * width,
                y,
                x,
                c,
            )] == line_blur(source@, y * (4 * width) + c, 4, width as int, radius as int, x),
        forall|j: int|
            height * (4 * width) <= j < old(target)@.len() ==> #[trigger] final(target)@[j] == old(
                target,
            )@[j],
{
    let len = source.len();
    assert(source@.len() <= usize::MAX);
    assert(4 * width <= height * (4 * width)) by (nonlinear_arith)
        requires
            height >= 1,
            width >= 0,
    ;
    let row = 4 * width;
    let mut y: usize = 0;
    while y < height
        invariant
            0 < width,
            0 < height,
            y <= height,
            row == 4 * width,
            height * row <= source@.len(),
            source@.len() <= usize::MAX,
            target@.len() == source@.len(),
            old(target)@.len() == source@.len(),
            window_cap(width as int, radius as int) * 255 <= u32::MAX,
            forall|yy: int, x: int, c: int|
                0 <= yy < y && 0 <= x < width && 0 <= c < 4 ==> #[trigger] target@[at(row as int, yy, x, c)]
                    == line_blur(source@, yy * row + c, 4, width as int, radius as int, x),
            forall|j: int| height * row <= j < target@.len() ==> #[trigger] target@[j] == old(target)@[j],
        decreases height - y,
    {
        assert((y + 1) * row <= height * row) by (nonlinear_arith)
            requires
                y + 1 <= height,
                row >= 0,
        ;
        assert((y + 1) * row == y * row + row) by (nonlinear_arith);
        let row_start = y * row;
        let ghost before = target@;
        blur_row(source, target, row_start, width, radius);
        assert forall|yy: int, x: int, c: int|
            0 <= yy <= y && 0 <= x < width && 0 <= c < 4 implies #[trigger] target@[at(row as int, yy, x, c)]
                == line_blur(source@, yy * row + c, 4, width as int, radius as int, x) by {
            if yy < y {
                lemma_at_bounds(width as int, y as int, yy, x, c);
                assert(target@[at(row as int, yy, x, c)] == before[at(row as int, yy, x, c)]);
            } else {
                assert(at(row as int, yy, x, c) == row_start + x * 4 + c);
            }
        }
        y = y + 1;
    }
}

/// The window sums around the first sample of a line.
fn initial_window(source: &[u8], base: usize, stride: usize, n: usize, radius: usize) -> (sum: [u32; 4])
    requires
        n > 0,
        base + (n - 1) * stride + 4 <= source@.len(),
        window_cap(n as int, radius as int) * 255 <= u32::MAX,
    ensures
        forall|c: int|
            0 <= c < 4 ==> #[trigger] sum@[c] == line_sum(
                source@,
                base + c,
                stride as int,
                window_lo(0, radius as int),
                window_hi(0, radius as int, n as int),
            ),
{
    let source_len = source.len();
    assert(source@.len() <= usize::MAX);
    let mut sum: [u32; 4] = [0, 0, 0, 0];
    let last = if radius < n - 1 {
        radius
    } else {
        n - 1
    };
    proof {
        lemma_window_size(0, radius as int, n as int);
    }
    let mut k: usize = 0;
    assert forall|c: int| 0 <= c < 4 implies #[trigger] sum@[c] == line_sum(
        source@,
        base + c,
        stride as int,
        0,
        -1,
    ) by {}
    while k <= last
        invariant
            last < n,
            last == window_hi(0, radius as int, n as int),
            k <= last + 1,
            base + (n - 1) * stride + 4 <= source@.len(),
            source@.len() <= usize::MAX,
            window_cap(n as int, radius as int) * 255 <= u32::MAX,
            last + 1 <= window_cap(n as int, radius as int),
            forall|c: int|
                0 <= c < 4 ==> #[trigger] sum@[c] == line_sum(source@, base + c, stride as int, 0, k - 1),
        decreases last + 1 - k,
    {
        assert(k * stride <= (n - 1) * stride) by (nonlinear_arith)
            requires
                k <= n - 1,
                stride >= 0,
        ;
        proof {
            assert forall|c: int| 0 <= c < 4 implies sum@[c] + source@[base + k * stride + c] <= u32::MAX by {
                lemma_line_sum_bounds(source@, base + c, stride as int, 0, k - 1);
            }
        }
        let ghost before = sum@;
        add_pixel(&mut sum, source, base + k * stride);
        assert forall|c: int| 0 <= c < 4 implies #[trigger] sum@[c] == line_sum(
            source@,
            base + c,
            stride as int,
            0,
            k as int,
        ) by {
            assert(base + c + k * stride == base + k * stride + c);
            assert(sum@[c] == before[c] + source@[base + k * stride + c]);
        }
        k = k + 1;
    }
    sum
}

proof fn lemma_outside_pixel(w: int, y1: int, x1: int, c1: int, y2: int, x2: int, j: int)
    requires
        w > 0,
        0 <= y1,
        0 <= y2,
        0 <= x1 < w,
        0 <= x2 < w,
        0 <= c1 < 4,
        !(y1 == y2 && x1 == x2),
        j == at(4 * w, y1, x1, c1),
    ensures
        !(at(4 * w, y2, x2, 0) <= j < at(4 * w, y2, x2, 0) + 4),
{
    if at(4 * w, y2, x2, 0) <= j < at(4 * w, y2, x2, 0) + 4 {
        let c2 = j - at(4 * w, y2, x2, 0);
        lemma_at_distinct(w, y1, x1, c1, y2, x2, c2);
    }
}

/// Blurs column `x` of a `width` x `height` image vertically.
fn blur_column(source: &[u8], target: &mut [u8], x: usize, width: usize, height: usize, radius: usize)
    requires
        x < width,
        height > 0,
        height * (4 * width) <= source@.len(),
        old(target)@.len() == source@.len(),
        window_cap(height as int, radius as int) * 255 <= u32::MAX,
    ensures
        final(target)@.len() == old(target)@.len(),
        forall|y: int, c: int|
            0 <= y < height && 0 <= c < 4 ==> #[trigger] final(target)@[at(4 * width, y, x as int, c)]
                == line_blur(source@, x * 4 + c, 4 * width, height as int, radius as int, y),
        forall|y: int, xx: int, c: int|
            0 <= y < height && 0 <= xx < width && xx != x && 0 <= c < 4 ==> #[trigger] final(target)@[at(
                4 * width,
                y,
                xx,
                c,
            )] == old(target)@[at(4 * width, y, xx, c)],
        forall|j: int|
            height * (4 * width) <= j < old(target)@.len() ==> #[trigger] final(target)@[j] == old(
                target,
            )@[j],
{
    let source_len = source.len();
    assert(source@.len() <= usize::MAX);
    assert(4 * width <= height * (4 * width)) by (nonlinear_arith)
        requires
            height >= 1,
            width >= 0,
    ;
    let row = 4 * width;
    assert((height - 1) * row + row == height * row) by (nonlinear_arith);
    let base = x * 4;
    let mut sum = initial_window(source, base, row, height, radius);
    let mut y: usize = 0;
    while y < height
        invariant
            x < width,
            row == 4 * width,
            base == x * 4,
            height > 0,
            y <= height,
            height * row <= source@.len(),
            base + (height - 1) * row + 4 <= source@.len(),
            source@.len() <= usize::MAX,
            target@.len() == source@.len(),
            old(target)@.len() == source@.len(),
            window_cap(height as int, radius as int) * 255 <= u32::MAX,
            forall|yy: int, c: int|
                0 <= yy < y && 0 <= c < 4 ==> #[trigger] target@[at(row as int, yy, x as int, c)]
                    == line_blur(source@, base + c, row as int, height as int, radius as int, yy),
            forall|yy: int, xx: int, c: int|
                0 <= yy < height && 0 <= xx < width && xx != x && 0 <= c < 4 ==> #[trigger] target@[at(
                    row as int,
                    yy,
                    xx,
                    c,
                )] == old(target)@[at(row as int, yy, xx, c)],
            forall|j: int| height * row <= j < target@.len() ==> #[trigger] target@[j] == old(target)@[j],
            y < height ==> forall|c: int|
                0 <= c < 4 ==> #[trigger] sum@[c] == line_sum(
                    source@,
                    base + c,
                    row as int,
                    window_lo(y as int, radius as int),
                    window_hi(y as int, radius as int, height as int),
                ),
        decreases height - y,
    {
        assert(y * row <= (height - 1) * row) by (nonlinear_arith)
            requires
                y <= height - 1,
                row >= 0,
        ;
        let ghost before = target@;
        write_mean_pixel(target, source, base, row, y, height, radius, &sum);
        proof {
            assert(at(row as int, y as int, x as int, 0) == base + y * row);
            assert forall|yy: int, c: int|
                0 <= yy < y + 1 && 0 <= c < 4 implies #[trigger] target@[at(row as int, yy, x as int, c)]
                    == line_blur(source@, base + c, row as int, height as int, radius as int, yy) by {
                if yy < y {
                    lemma_outside_pixel(width as int, yy, x as int, c, y as int, x as int, at(row as int, yy, x as int, c));
                    lemma_at_bounds(width as int, height as int, yy, x as int, c);
                    assert(target@[at(row as int, yy, x as int, c)] == before[at(row as int, yy, x as int, c)]);
                } else {
                    assert(at(row as int, yy, x as int, c) == base + y * row + c);
                }
            }
            assert forall|yy: int, xx: int, c: int|
                0 <= yy < height && 0 <= xx < width && xx != x && 0 <= c < 4 implies #[trigger] target@[at(
                    row as int,
                    yy,
                    xx,
                    c,
                )] == old(target)@[at(row as int, yy, xx, c)] by {
                lemma_outside_pixel(width as int, yy, xx, c, y as int, x as int, at(row as int, yy, xx, c));
                lemma_at_bounds(width as int, height as int, yy, xx, c);
                assert(target@[at(row as int, yy, xx, c)] == before[at(row as int, yy, xx, c)]);
            }
            assert forall|j: int| height * row <= j < target@.len() implies #[trigger] target@[j] == old(
                target,
            )@[j] by {
                lemma_at_bounds(width as int, height as int, y as int, x as int, 3);
                assert(target@[j] == before[j]);
            }
        }
        if y + 1 < height {
            slide_window(&mut sum, source, base, row, y, height, radius);
        }
        y = y + 1;
    }
}

/// The vertical pass of a box blur: each pixel becomes the mean of the pixels of its
/// column within `radius` of it.
fn blur_vertical_bgra(source: &[u8], target: &mut [u8], width: usize, height: usize, radius: usize)
    requires
        width > 0,
        height > 0,
        height * (4 * width) <= source@.len(),
        old(target)@.len() == source@.len(),
        window_cap(height as int, radius as int) * 255 <= u32::MAX,
    ensures
        final(target)@.len() == old(target)@.len(),
        forall|y: int, x: int, c: int|
            0 <= y < height && 0 <= x < width && 0 <= c < 4 ==> #[trigger] final(target)@[at(
                4 * width,
                y,
                x,
                c,
            )] == line_blur(source@, x * 4 + c, 4 * width, height as int, radius as int, y),
        forall|j: int|
            height * (4 * width) <= j < old(target)@.len() ==> #[trigger] final(target)@[j] == old(
                target,
            )@[j],
{
    let mut x: usize = 0;
    while x < width
        invariant
            0 < width,
            0 < height,
            x <= width,
            height * (4 * width) <= source@.len(),
            target@.len() == source@.len(),
            old(target)@.len() == source@.len(),
            window_cap(height as int, radius as int) * 255 <= u32::MAX,
            forall|y: int, xx: int, c: int|
                0 <= y < height && 0 <= xx < x && 0 <= c < 4 ==> #[trigger] target@[at(4 * width, y, xx, c)]
                    == line_blur(source@, xx * 4 + c, 4 * width, height as int, radius as int, y),
            forall|j: int|
                height * (4 * width) <= j < target@.len() ==> #[trigger] target@[j] == old(target)@[j],
        decreases width - x,
    {
        let ghost before = target@;
        blur_column(source, target, x, width, height, radius);
        assert forall|y: int, xx: int, c: int|
            0 <= y < height && 0 <= xx < x + 1 && 0 <= c < 4 implies #[trigger] target@[at(
                4 * width,
                y,
                xx,
                c,
            )] == line_blur(source@, xx * 4 + c, 4 * width, height as int, radius as int, y) by {
            if xx < x {
                assert(target@[at(4 * width, y, xx, c)] == before[at(4 * width, y, xx, c)]);
            }
        }
        x = x + 1;
    }
}

/// Channel `c` of pixel `(x, y)` after the horizontal pass.
pub open spec fn horizontal_at(src: Seq<u8>, width: int, radius: int, y: int, x: int, c: int) -> u8 {
    line_blur(src, y * (4 * width) + c, 4, width, radius, x)
}

/// The sum over rows `lo..=hi` of channel `c` of column `x` after the horizontal pass.
pub open spec fn column_sum(src: Seq<u8>, width: int, radius: int, x: int, c: int, lo: int, hi: int) -> int
    decreases (if hi < lo {
        0
    } else {
        hi - lo + 1
    }),
{
    if hi < lo {
        0
    } else {
        column_sum(src, width, radius, x, c, lo, hi - 1) + horizontal_at(src, width, radius, hi, x, c)
    }
}

/// Channel `c` of pixel `(x, y)` after a box blur of `radius`: the horizontal means,
/// averaged again over the rows within `radius`.
pub open spec fn box_blur_at(src: Seq<u8>, width: int, height: int, radius: int, y: int, x: int, c: int) -> u8 {
    let lo = window_lo(y, radius);
    let hi = window_hi(y, radius, height);
    (column_sum(src, width, radius, x, c, lo, hi) / (hi - lo + 1)) as u8
}

proof fn lemma_column_sum(src: Seq<u8>, temp: Seq<u8>, width: int, height: int, radius: int, x: int, c: int, lo: int, hi: int)
    requires
        width > 0,
        0 <= x < width,
        0 <= c < 4,
        0 <= lo,
        hi < height,
        forall|y: int|
            0 <= y < height ==> #[trigger] temp[at(4 * width, y, x, c)] == horizontal_at(src, width, radius, y, x, c),
    ensures
        line_sum(temp, x * 4 + c, 4 * width, lo, hi) == column_sum(src, width, radius, x, c, lo, hi),
    decreases (if hi < lo {
        0
    } else {
        hi - lo + 1
    }),
{
    if hi >= lo {
        lemma_column_sum(src, temp, width, height, radius, x, c, lo, hi - 1);
        assert(x * 4 + c + hi * (4 * width) == at(4 * width, hi, x, c));
    }
}

/// Blurs premultiplied BGRA pixels with a box of `radius` pixels, first along rows, then
/// along columns; a zero radius or an empty image leaves the pixels as they are.
pub fn box_blur_bgra(pixels: &mut [u8], width: usize, height: usize, radius: usize)
    requires
        height * (4 * width) <= old(pixels)@.len(),
        window_cap(width as int, radius as int) * 255 <= u32::MAX,
        window_cap(height as int, radius as int) * 255 <= u32::MAX,
    ensures
        final(pixels)@.len() == old(pixels)@.len(),
        radius == 0 || width == 0 || height == 0 ==> final(pixels)@ == old(pixels)@,
        radius > 0 && width > 0 && height > 0 ==> forall|y: int, x: int, c: int|
            0 <= y < height && 0 <= x < width && 0 <= c < 4 ==> #[trigger] final(pixels)@[at(
                4 * width,
                y,
                x,
                c,
            )] == box_blur_at(old(pixels)@, width as int, height as int, radius as int, y, x, c),
        forall|j: int|
            height * (4 * width) <= j < old(pixels)@.len() ==> #[trigger] final(pixels)@[j] == old(
                pixels,
            )@[j],
{
    if radius == 0 || width == 0 || height == 0 {
        return;
    }
    let ghost initial = pixels@;
    let mut temp = vec![0u8; pixels.len()];
    blur_horizontal_bgra(pixels, temp.as_mut_slice(), width, height, radius);
    let ghost horizontal = temp@;
    blur_vertical_bgra(temp.as_slice(), pixels, width, height, radius);
    proof {
        assert forall|y: int, x: int, c: int|
            0 <= y < height && 0 <= x < width && 0 <= c < 4 implies #[trigger] pixels@[at(
                4 * width,
                y,
                x,
                c,
            )] == box_blur_at(initial, width as int, height as int, radius as int, y, x, c) by {
            lemma_window_size(y, radius as int, height as int);
            lemma_column_sum(
                initial,
                horizontal,
                width as int,
                height as int,
                radius as int,
                x,
                c,
                window_lo(y, radius as int),
                window_hi(y, radius as int, height as int),
            );
        }
    }
}


pub open spec fn clamp_int(v: int, lo: int, hi: int) -> int {
    if v < lo {
        lo
    } else if v > hi {
        hi
    } else {
        v
    }
}

/// Whether a crop rectangle lies inside a `sw` x `sh` source.
pub open spec fn crop_inside(sw: int, sh: int, rect: PhysicalRect) -> bool {
    rect.left >= 0 && rect.top >= 0 && rect.right <= sw && rect.bottom <= sh
}

/// The source pixel (as `row * sw + column`) that pixel `(x, y)` of a crop shows. A crop
/// inside the source reads rows of the source as they lie; any other crop repeats the
/// source's edge pixels where the rectangle reaches past them.
pub open spec fn crop_source_pixel(sw: int, sh: int, rect: PhysicalRect, x: int, y: int) -> int {
    if crop_inside(sw, sh, rect) {
        (rect.top + y) * sw + rect.left + x
    } else {
        let sy = clamp_int(rect.top + y, 0, sh - 1);
        let copy_left = clamp_int(rect.left as int, 0, sw);
        let copy_right = clamp_int(rect.right as int, 0, sw);
        let sx = if copy_left < copy_right {
            clamp_int(rect.left + x, copy_left, copy_right - 1)
        } else {
            clamp_int(rect.left as int, 0, sw - 1)
        };
        sy * sw + sx
    }
}

/// A `width` x `height` BGRA crop of a `sw` x `sh` source.
pub open spec fn cropped_bgra(
    source: Seq<u8>,
    sw: int,
    sh: int,
    rect: PhysicalRect,
    width: int,
    height: int,
) -> Seq<u8> {
    Seq::new(
        (width * height * 4) as nat,
        |i: int| source[crop_source_pixel(sw, sh, rect, (i / 4) % width, (i / 4) / width) * 4 + i % 4],
    )
}

/// Whether a crop request is well formed: positive sizes and a source of exactly
/// `sw * sh` BGRA pixels.
pub open spec fn crop_valid(len: int, sw: int, sh: int, width: int, height: int) -> bool {
    sw > 0 && sh > 0 && width > 0 && height > 0 && len == sw * sh * 4
}

/// The crops whose arithmetic stays within `i32` and whose rows stay within the buffers.
pub open spec fn crop_in_range(
    len: int,
    sw: int,
    sh: int,
    rect: PhysicalRect,
    width: int,
    height: int,
) -> bool {
    &&& (sw > 0 && sh > 0 && width > 0 && height > 0 ==> sw * sh * 4 <= i32::MAX)
    &&& crop_valid(len, sw, sh, width, height) ==> {
        &&& width * height * 4 <= i32::MAX
        &&& crop_inside(sw, sh, rect) ==> (rect.top + height - 1) * sw + rect.left + width <= sw * sh
        &&& !crop_inside(sw, sh, rect) ==> {
            &&& rect.top + height - 1 <= i32::MAX
            &&& clamp_int(rect.left as int, 0, sw) < clamp_int(rect.right as int, 0, sw) ==> clamp_int(
                rect.right as int,
                0,
                sw,
            ) - rect.left <= width
        }
    }
}

proof fn lemma_product_bound(a: int, b: int)
    requires
        -0x8000_0000 <= a <= 0x8000_0000,
        -0x8000_0000 <= b <= 0x8000_0000,
    ensures
        -0x4000_0000_0000_0000 <= a * b <= 0x4000_0000_0000_0000,
{
    assert(-0x4000_0000_0000_0000 <= a * b <= 0x4000_0000_0000_0000) by (nonlinear_arith)
        requires
            -0x8000_0000 <= a <= 0x8000_0000,
            -0x8000_0000 <= b <= 0x8000_0000,
    ;
}

proof fn lemma_row_in_source(row: int, col: int, sw: int, sh: int)
    requires
        0 <= row < sh,
        0 <= col < sw,
    ensures
        0 <= row * sw + col < sw * sh,
{
    assert(0 <= row * sw + col < sw * sh) by (nonlinear_arith)
        requires
            0 <= row < sh,
            0 <= col < sw,
    ;
}

/// The source pixel of crop pixel `(x, y)`.
fn crop_pixel_index(
    source_width: i32,
    source_height: i32,
    rect: PhysicalRect,
    inside: bool,
    x: i32,
    y: i32,
    width: i32,
    height: i32,
) -> (r: usize)
    requires
        source_width > 0,
        source_height > 0,
        0 <= x < width,
        0 <= y < height,
        inside == crop_inside(source_width as int, source_height as int, rect),
        crop_in_range(
            source_width * source_height * 4,
            source_width as int,
            source_height as int,
            rect,
            width as int,
            height as int,
        ),
    ensures
        r == crop_source_pixel(source_width as int, source_height as int, rect, x as int, y as int),
        r < source_width * source_height,
{
    let sw = source_width as i64;
    let sh = source_height as i64;
    if inside {
        let row = rect.top as i64 + y as i64;
        proof {
            assert(row * sw <= (rect.top + height - 1) * sw) by (nonlinear_arith)
                requires
                    row <= rect.top + height - 1,
                    sw > 0,
            ;
            assert(0 <= row * sw) by (nonlinear_arith)
                requires
                    row >= 0,
                    sw > 0,
            ;
        }
        (row * sw + rect.left as i64 + x as i64) as usize
    } else {
        let row_unclamped = rect.top as i64 + y as i64;
        let row = if row_unclamped < 0 {
            0
        } else if row_unclamped > sh - 1 {
            sh - 1
        } else {
            row_unclamped
        };
        let copy_left = if rect.left < 0 {
            0
        } else if rect.left > source_width {
            sw
        } else {
            rect.left as i64
        };
        let copy_right = if rect.right < 0 {
            0
        } else if rect.right > source_width {
            sw
        } else {
            rect.right as i64
        };
        let column = if copy_left < copy_right {
            let wanted = rect.left as i64 + x as i64;
            if wanted < copy_left {
                copy_left
            } else if wanted > copy_right - 1 {
                copy_right - 1
            } else {
                wanted
            }
        } else if rect.left < 0 {
            0
        } else if rect.left > source_width - 1 {
            sw - 1
        } else {
            rect.left as i64
        };
        proof {
            lemma_row_in_source(row as int, column as int, sw as int, sh as int);
        }
        (row * sw + column) as usize
    }
}

/// A `width` x `height` BGRA crop of `rect` from a `source_width` x `source_height`
/// BGRA source, repeating the source's edge pixels where the rectangle reaches past them;
/// `None` for empty sizes or a source of the wrong length.
pub fn crop_bgra(
    source: &[u8],
    source_width: i32,
    source_height: i32,
    rect: PhysicalRect,
    width: i32,
    height: i32,
) -> (r: Option<Vec<u8>>)
    requires
        crop_in_range(
            source@.len() as int,
            source_width as int,
            source_height as int,
            rect,
            width as int,
            height as int,
        ),
    ensures
        r is Some <==> crop_valid(
            source@.len() as int,
            source_width as int,
            source_height as int,
            width as int,
            height as int,
        ),
        r matches Some(out) ==> out@ == cropped_bgra(
            source@,
            source_width as int,
            source_height as int,
            rect,
            width as int,
            height as int,
        ),
{
    if source_width <= 0 || source_height <= 0 || width <= 0 || height <= 0 {
        return None;
    }
    proof {
        lemma_product_bound(source_width as int, source_height as int);
        lemma_product_bound(width as int, height as int);
    }
    let expected = (source_width as i64) * (source_height as i64) * 4;
    if source.len() != expected as usize {
        return None;
    }
    let inside = rect.left >= 0 && rect.top >= 0 && rect.right <= source_width && rect.bottom
        <= source_height;
    let ghost spec_out = cropped_bgra(
        source@,
        source_width as int,
        source_height as int,
        rect,
        width as int,
        height as int,
    );
    let mut out: Vec<u8> = Vec::new();
    let mut y: i32 = 0;
    while y < height
        invariant
            0 <= y <= height,
            source_width > 0,
            source_height > 0,
            width > 0,
            source@.len() == source_width * source_height * 4,
            inside == crop_inside(source_width as int, source_height as int, rect),
            crop_in_range(
                source@.len() as int,
                source_width as int,
                source_height as int,
                rect,
                width as int,
                height as int,
            ),
            spec_out == cropped_bgra(
                source@,
                source_width as int,
                source_height as int,
                rect,
                width as int,
                height as int,
            ),
            spec_out.len() == width * height * 4,
            out@.len() == y * width * 4,
            forall|i: int| 0 <= i < out@.len() ==> #[trigger] out@[i] == spec_out[i],
        decreases height - y,
    {
        let mut x: i32 = 0;
        while x < width
            invariant
                0 <= x <= width,
                0 <= y < height,
                source_width > 0,
                source_height > 0,
                source@.len() == source_width * source_height * 4,
                inside == crop_inside(source_width as int, source_height as int, rect),
                crop_in_range(
                    source@.len() as int,
                    source_width as int,
                    source_height as int,
                    rect,
                    width as int,
                    height as int,
                ),
                spec_out == cropped_bgra(
                    source@,
                    source_width as int,
                    source_height as int,
                    rect,
                    width as int,
                    height as int,
                ),
                spec_out.len() == width * height * 4,
                out@.len() == (y * width + x) * 4,
                forall|i: int| 0 <= i < out@.len() ==> #[trigger] out@[i] == spec_out[i],
            decreases width - x,
        {
            let pixel = crop_pixel_index(
                source_width,
                source_height,
                rect,
                inside,
                x,
                y,
                width,
                height,
            );
            let base = pixel * 4;
            let ghost start = out@.len() as int;
            proof {
                assert((y * width + x) * 4 + 4 <= width * height * 4) by (nonlinear_arith)
                    requires
                        0 <= y < height,
                        0 <= x < width,
                ;
                vstd::arithmetic::div_mod::lemma_fundamental_div_mod_converse(
                    y * width + x,
                    width as int,
                    y as int,
                    x as int,
                );
            }
            out.push(source[base]);
            out.push(source[base + 1]);
            out.push(source[base + 2]);
            out.push(source[base + 3]);
            proof {
                assert forall|i: int| 0 <= i < out@.len() implies #[trigger] out@[i] == spec_out[i] by {
                    if i >= start {
                        assert(i / 4 == y * width + x);
                        assert(i % 4 == i - start);
                    }
                }
            }
            x = x + 1;
        }
        proof {
            assert((y * width + width) * 4 == (y + 1) * width * 4) by (nonlinear_arith);
        }
        y = y + 1;
    }
    proof {
        assert(y == height);
        assert(y * width * 4 == width * height * 4) by (nonlinear_arith)
            requires
                y == height,
        ;
        assert(out@ =~= spec_out);
    }
    Some(out)
}

} // verus!
