use vstd::prelude::*;

verus! {

/// Sample `j` of a line, reading zero outside it.
pub open spec fn padded(line: Seq<u8>, j: int) -> u8 {
    if 0 <= j < line.len() {
        line[j]
    } else {
        0
    }
}

/// Whether `a` is at least as extreme as `b`: at least as large when dilating, at most as
/// large when eroding.
pub open spec fn stronger(dilate: bool, a: u8, b: u8) -> bool {
    if dilate {
        a >= b
    } else {
        a <= b
    }
}

/// Whether `a` is strictly more extreme than `b`.
pub open spec fn strictly_stronger(dilate: bool, a: u8, b: u8) -> bool {
    if dilate {
        a > b
    } else {
        a < b
    }
}

/// The most extreme sample of a line (zero outside it) at positions `lo..=hi`.
pub open spec fn extremum_of(line: Seq<u8>, dilate: bool, lo: int, hi: int) -> u8
    decreases hi - lo,
{
    if hi <= lo {
        padded(line, lo)
    } else {
        let rest = extremum_of(line, dilate, lo, hi - 1);
        let last = padded(line, hi);
        if stronger(dilate, rest, last) {
            rest
        } else {
            last
        }
    }
}

/// The radius a line of `len` samples is filtered with: the radius, capped at the length.
pub open spec fn line_radius(len: int, radius: int) -> int {
    if radius < len {
        radius
    } else {
        len
    }
}

/// A line after the extremum filter: each sample becomes the most extreme sample within
/// `radius` of it, reading zero beyond the line's ends.
pub open spec fn extrema_of(line: Seq<u8>, radius: int, dilate: bool) -> Seq<u8> {
    let r = line_radius(line.len() as int, radius);
    Seq::new(line.len(), |i: int| extremum_of(line, dilate, i - r, i + r))
}

proof fn lemma_extremum(line: Seq<u8>, dilate: bool, lo: int, hi: int)
    requires
        lo <= hi,
    ensures
        forall|j: int|
            lo <= j <= hi ==> stronger(dilate, extremum_of(line, dilate, lo, hi), #[trigger] padded(line, j)),
        exists|j: int| lo <= j <= hi && extremum_of(line, dilate, lo, hi) == #[trigger] padded(line, j),
    decreases hi - lo,
{
    if hi > lo {
        lemma_extremum(line, dilate, lo, hi - 1);
        let w = choose|j: int| lo <= j <= hi - 1 && extremum_of(line, dilate, lo, hi - 1) == #[trigger] padded(line, j);
        if stronger(dilate, extremum_of(line, dilate, lo, hi - 1), padded(line, hi)) {
            assert(extremum_of(line, dilate, lo, hi) == padded(line, w));
        } else {
            assert(extremum_of(line, dilate, lo, hi) == padded(line, hi));
        }
    } else {
        assert(extremum_of(line, dilate, lo, hi) == padded(line, lo));
    }
}

/// A sample of the window that is at least as extreme as every sample of it is the
/// window's extremum.
proof fn lemma_extremum_unique(line: Seq<u8>, dilate: bool, lo: int, hi: int, j0: int)
    requires
        lo <= j0 <= hi,
        forall|j: int| lo <= j <= hi ==> stronger(dilate, padded(line, j0), #[trigger] padded(line, j)),
    ensures
        padded(line, j0) == extremum_of(line, dilate, lo, hi),
{
    lemma_extremum(line, dilate, lo, hi);
    let w = choose|j: int| lo <= j <= hi && extremum_of(line, dilate, lo, hi) == #[trigger] padded(line, j);
    assert(stronger(dilate, padded(line, j0), padded(line, w)));
    assert(stronger(dilate, extremum_of(line, dilate, lo, hi), padded(line, j0)));
}

/// Whether some entry of the window queue from `front` on, at padded position `p` or
/// later, is at least as extreme as the sample at padded position `p`.
pub open spec fn witnessed(
    queue: Seq<(usize, u8)>,
    front: int,
    line: Seq<u8>,
    r: int,
    dilate: bool,
    p: int,
) -> bool {
    exists|k: int|
        front <= k < queue.len() && #[trigger] queue[k].0 >= p && stronger(
            dilate,
            queue[k].1,
            padded(line, p - r),
        )
}

fn yields_to(dilate: bool, previous: u8, value: u8) -> (r: bool)
    ensures
        r == stronger(dilate, value, previous),
{
    if dilate {
        previous <= value
    } else {
        previous >= value
    }
}

/// The extremum filter of one line: each sample becomes the largest (`dilate`) or
/// smallest sample within `radius` of it, reading zero beyond the line's ends. A queue of
/// candidates keeps the work linear in the line's length whatever the radius.
pub fn extrema_line(line: &[u8], radius: usize, dilate: bool) -> (out: Vec<u8>)
    requires
        5 * line@.len() <= usize::MAX,
    ensures
        out@ == extrema_of(line@, radius as int, dilate),
{
    let length = line.len();
    let r = if radius < length {
        radius
    } else {
        length
    };
    let span = r * 2;
    let mut queue: Vec<(usize, u8)> = Vec::new();
    let mut front: usize = 0;
    let mut out: Vec<u8> = Vec::new();
    let mut index: usize = 0;
    while index < length + span
        invariant
            length == line@.len(),
            5 * length <= usize::MAX,
            r == line_radius(length as int, radius as int),
            span == 2 * r,
            index <= length + span,
            front <= queue@.len(),
            forall|k: int|
                front <= k < queue@.len() ==> {
                    &&& #[trigger] queue@[k].0 < index
                    &&& queue@[k].1 == padded(line@, queue@[k].0 - r)
                    &&& queue@[k].0 + span + 1 >= index
                },
            forall|k1: int, k2: int|
                front <= k1 < k2 < queue@.len() ==> #[trigger] queue@[k1].0 < #[trigger] queue@[k2].0
                    && strictly_stronger(dilate, queue@[k1].1, queue@[k2].1),
            forall|p: int|
                index - 1 - span <= p < index && p >= 0 ==> #[trigger] witnessed(
                    queue@,
                    front as int,
                    line@,
                    r as int,
                    dilate,
                    p,
                ),
            index >= span ==> out@.len() == index - span,
            index < span ==> out@.len() == 0,
            forall|i: int|
                0 <= i < out@.len() ==> #[trigger] out@[i] == extremum_of(line@, dilate, i - r, i + r),
        decreases length + span - index,
    {
        let value = if index >= r && index - r < length {
            line[index - r]
        } else {
            0
        };
        assert(value == padded(line@, index - r));
        let ghost before = queue@;
        while queue.len() > front && yields_to(dilate, queue[queue.len() - 1].1, value)
            invariant
                front <= queue@.len() <= before.len(),
                queue@ == before.subrange(0, queue@.len() as int),
                forall|k: int|
                    front <= k < before.len() ==> {
                        &&& #[trigger] before[k].0 < index
                        &&& before[k].1 == padded(line@, before[k].0 - r)
                        &&& before[k].0 + span + 1 >= index
                    },
                forall|k1: int, k2: int|
                    front <= k1 < k2 < before.len() ==> #[trigger] before[k1].0 < #[trigger] before[k2].0
                        && strictly_stronger(dilate, before[k1].1, before[k2].1),
                forall|p: int|
                    index - 1 - span <= p < index && p >= 0 ==> #[trigger] witnessed(
                        queue@,
                        front as int,
                        line@,
                        r as int,
                        dilate,
                        p,
                    ) || stronger(dilate, value, padded(line@, p - r)),
            decreases queue@.len(),
        {
            let ghost old_queue = queue@;
            let last = queue.len() - 1;
            assert(stronger(dilate, value, old_queue[last as int].1));
            queue.pop();
            assert forall|p: int|
                index - 1 - span <= p < index && p >= 0 implies #[trigger] witnessed(
                    queue@,
                    front as int,
                    line@,
                    r as int,
                    dilate,
                    p,
                ) || stronger(dilate, value, padded(line@, p - r)) by {
                if witnessed(old_queue, front as int, line@, r as int, dilate, p) {
                    let k = choose|k: int|
                        front <= k < old_queue.len() && #[trigger] old_queue[k].0 >= p && stronger(
                            dilate,
                            old_queue[k].1,
                            padded(line@, p - r),
                        );
                    if k < last {
                        assert(queue@[k] == old_queue[k]);
                        assert(queue@[k].0 >= p);
                    }
                }
            }
        }
        let ghost popped = queue@;
        queue.push((index, value));
        let ghost pushed = queue@;
        let top = queue.len() - 1;
        assert(pushed[top as int] == (index, value));
        assert forall|k: int| front <= k < popped.len() implies pushed[k] == popped[k] by {}
        assert forall|k1: int, k2: int|
            front <= k1 < k2 < pushed.len() implies #[trigger] pushed[k1].0 < #[trigger] pushed[k2].0
                && strictly_stronger(dilate, pushed[k1].1, pushed[k2].1) by {
            assert(pushed[k1] == popped[k1]);
            assert(before[k1] == popped[k1]);
            assert(before[k1].0 < index);
            if k2 == top {
                let last = popped.len() - 1;
                assert(popped.len() > front);
                assert(!stronger(dilate, value, popped[last].1));
                assert(strictly_stronger(dilate, popped[last].1, value));
                if k1 < last {
                    assert(before[last] == popped[last]);
                    assert(before[k1].0 < before[last].0);
                    assert(strictly_stronger(dilate, before[k1].1, before[last].1));
                }
                assert(strictly_stronger(dilate, pushed[k1].1, pushed[k2].1));
                assert(pushed[k1].0 < pushed[k2].0);
            } else {
                assert(before[k2] == popped[k2]);
                assert(pushed[k2] == popped[k2]);
            }
        }
        assert forall|p: int|
            index - span <= p <= index && p >= 0 implies #[trigger] witnessed(
                pushed,
                front as int,
                line@,
                r as int,
                dilate,
                p,
            ) by {
            if p == index {
                assert(pushed[top as int].0 >= p);
            } else if witnessed(popped, front as int, line@, r as int, dilate, p) {
                let k = choose|k: int|
                    front <= k < popped.len() && #[trigger] popped[k].0 >= p && stronger(
                        dilate,
                        popped[k].1,
                        padded(line@, p - r),
                    );
                assert(pushed[k] == popped[k]);
                assert(pushed[k].0 >= p);
            } else {
                assert(pushed[top as int].0 >= p);
            }
        }
        while queue[front].0 + span < index
            invariant
                front < queue@.len(),
                queue@.len() == pushed.len(),
                queue@ == pushed,
                pushed[pushed.len() - 1].0 == index,
                forall|k: int|
                    front <= k < pushed.len() ==> {
                        &&& #[trigger] pushed[k].0 <= index
                        &&& pushed[k].1 == padded(line@, pushed[k].0 - r)
                    },
                index < length + span,
                5 * length <= usize::MAX,
                span == 2 * r,
                r <= length,
                forall|k1: int, k2: int|
                    front <= k1 < k2 < pushed.len() ==> #[trigger] pushed[k1].0 < #[trigger] pushed[k2].0
                        && strictly_stronger(dilate, pushed[k1].1, pushed[k2].1),
                forall|p: int|
                    index - span <= p <= index && p >= 0 ==> #[trigger] witnessed(
                        pushed,
                        front as int,
                        line@,
                        r as int,
                        dilate,
                        p,
                    ),
            decreases pushed.len() - front,
        {
            let ghost old_front = front as int;
            let n = queue.len();
            assert(front < pushed.len() - 1) by {
                if front == pushed.len() - 1 {
                    assert(pushed[old_front].0 == index);
                }
            }
            front = front + 1;
            assert forall|p: int|
                index - span <= p <= index && p >= 0 implies #[trigger] witnessed(
                    pushed,
                    front as int,
                    line@,
                    r as int,
                    dilate,
                    p,
                ) by {
                assert(witnessed(pushed, old_front, line@, r as int, dilate, p));
                let k = choose|k: int|
                    old_front <= k < pushed.len() && #[trigger] pushed[k].0 >= p && stronger(
                        dilate,
                        pushed[k].1,
                        padded(line@, p - r),
                    );
                assert(k != old_front);
                assert(pushed[k].0 >= p);
            }
        }
        assert forall|k: int| front <= k < pushed.len() implies pushed[k].0 + span >= index by {
            if k > front {
                assert(pushed[front as int].0 < pushed[k].0);
            }
        }
        if index >= span {
            let best = queue[front].1;
            let ghost i = index - span;
            proof {
                let j0 = pushed[front as int].0 - r;
                assert forall|j: int| i - r <= j <= i + r implies stronger(
                    dilate,
                    padded(line@, j0),
                    #[trigger] padded(line@, j),
                ) by {
                    let p = j + r;
                    assert(witnessed(pushed, front as int, line@, r as int, dilate, p));
                    let k = choose|k: int|
                        front <= k < pushed.len() && #[trigger] pushed[k].0 >= p && stronger(
                            dilate,
                            pushed[k].1,
                            padded(line@, p - r),
                        );
                    if k > front {
                        assert(pushed[front as int].0 < pushed[k].0);
                    }
                }
                lemma_extremum_unique(line@, dilate, i - r, i + r, j0);
            }
            out.push(best);
        }
        index = index + 1;
    }
    assert(out@ =~= extrema_of(line@, radius as int, dilate));
    out
}


/// Dilating never lowers a sample of a line, and eroding never raises one.
pub proof fn law_extrema_bound_each_sample(line: Seq<u8>, radius: int, dilate: bool)
    requires
        radius >= 0,
    ensures
        forall|i: int|
            0 <= i < line.len() ==> stronger(dilate, #[trigger] extrema_of(line, radius, dilate)[i], line[i]),
{
    let r = line_radius(line.len() as int, radius);
    assert forall|i: int| 0 <= i < line.len() implies stronger(
        dilate,
        #[trigger] extrema_of(line, radius, dilate)[i],
        line[i],
    ) by {
        lemma_extremum(line, dilate, i - r, i + r);
        assert(padded(line, i) == line[i]);
    }
}

/// Whether `value` is a sample of `line` (zero beyond its ends) at a position in `lo..=hi`.
pub open spec fn sampled_in(line: Seq<u8>, value: u8, lo: int, hi: int) -> bool {
    exists|j: int| lo <= j <= hi && value == #[trigger] padded(line, j)
}

/// Each filtered sample is the extremum of its window: at least as extreme as every sample
/// (zero beyond the line's ends) within the radius of it, capped at the line's length, and
/// equal to one of them.
pub proof fn law_extrema_are_window_extrema(line: Seq<u8>, radius: int, dilate: bool)
    requires
        radius >= 0,
    ensures
        extrema_of(line, radius, dilate).len() == line.len(),
        forall|i: int, j: int|
            0 <= i < line.len() && i - line_radius(line.len() as int, radius) <= j <= i + line_radius(
                line.len() as int,
                radius,
            ) ==> stronger(dilate, #[trigger] extrema_of(line, radius, dilate)[i], #[trigger] padded(line, j)),
        forall|i: int|
            0 <= i < line.len() ==> #[trigger] sampled_in(
                line,
                extrema_of(line, radius, dilate)[i],
                i - line_radius(line.len() as int, radius),
                i + line_radius(line.len() as int, radius),
            ),
{
    let r = line_radius(line.len() as int, radius);
    let out = extrema_of(line, radius, dilate);
    assert forall|i: int, j: int| 0 <= i < line.len() && i - r <= j <= i + r implies stronger(
        dilate,
        #[trigger] out[i],
        #[trigger] padded(line, j),
    ) by {
        lemma_extremum(line, dilate, i - r, i + r);
    }
    assert forall|i: int| 0 <= i < line.len() implies #[trigger] sampled_in(line, out[i], i - r, i + r) by {
        lemma_extremum(line, dilate, i - r, i + r);
    }
}

/// A radius of zero leaves a line as it is.
pub proof fn law_zero_radius_keeps_the_line(line: Seq<u8>, dilate: bool)
    ensures
        extrema_of(line, 0, dilate) == line,
{
    assert(extrema_of(line, 0, dilate) =~= line);
}

/// Row `y` of a mask `width` samples wide.
pub open spec fn mask_row(mask: Seq<u8>, width: int, y: int) -> Seq<u8> {
    mask.subrange(y * width, y * width + width)
}

/// Column `x` of a `width` x `height` mask.
pub open spec fn mask_column(mask: Seq<u8>, width: int, height: int, x: int) -> Seq<u8> {
    Seq::new(height as nat, |y: int| mask[y * width + x])
}

/// A `width` x `height` mask after the extremum filter along each row.
pub open spec fn spread_rows(mask: Seq<u8>, width: int, height: int, radius: int, dilate: bool) -> Seq<
    u8,
> {
    Seq::new(
        (width * height) as nat,
        |k: int| extrema_of(mask_row(mask, width, k / width), radius, dilate)[k % width],
    )
}

/// A `width` x `height` mask spread by `radius`: the extremum filter along each row, then
/// along each column of the result. Dilating grows the mask's shapes, eroding shrinks them.
pub open spec fn spread_of(mask: Seq<u8>, width: int, height: int, radius: int, dilate: bool) -> Seq<
    u8,
> {
    let rows = spread_rows(mask, width, height, radius, dilate);
    Seq::new(
        (width * height) as nat,
        |k: int| extrema_of(mask_column(rows, width, height, k % width), radius, dilate)[k / width],
    )
}

proof fn lemma_cell(width: int, height: int, x: int, y: int)
    requires
        0 <= x < width,
        0 <= y < height,
    ensures
        0 <= y * width + x < width * height,
        (y * width + x) / width == y,
        (y * width + x) % width == x,
{
    assert(0 <= y * width + x < width * height) by (nonlinear_arith)
        requires
            0 <= x < width,
            0 <= y < height,
    ;
    vstd::arithmetic::div_mod::lemma_fundamental_div_mod_converse(y * width + x, width, y, x);
}

proof fn lemma_cell_of(width: int, height: int, k: int)
    requires
        0 <= k < width * height,
        width >= 0,
        height >= 0,
    ensures
        width > 0,
        0 <= k % width < width,
        0 <= k / width < height,
        k == (k / width) * width + k % width,
{
    assert(width > 0) by (nonlinear_arith)
        requires
            0 <= k < width * height,
            width >= 0,
            height >= 0,
    ;
    vstd::arithmetic::div_mod::lemma_fundamental_div_mod(k, width);
    let q = k / width;
    let m = k % width;
    assert(q * width == width * q) by (nonlinear_arith);
    assert(q >= 0) by {
        vstd::arithmetic::div_mod::lemma_div_pos_is_pos(k, width);
    }
    assert(q < height) by {
        if q >= height {
            assert(q * width >= height * width) by (nonlinear_arith)
                requires
                    q >= height,
                    width > 0,
            ;
            assert(height * width == width * height) by (nonlinear_arith);
        }
    }
}

/// Spreads a `width` x `height` alpha mask by `radius` samples: the extremum filter along
/// each row and then each column, growing the mask's shapes (`dilate`) or shrinking them.
/// Samples past `width * height` come out zero.
pub fn spread_mask(mask: &[u8], width: usize, height: usize, radius: usize, dilate: bool) -> (out: Vec<
    u8,
>)
    requires
        width * height <= mask@.len(),
        5 * width <= usize::MAX,
        5 * height <= usize::MAX,
    ensures
        out@.len() == mask@.len(),
        forall|k: int|
            0 <= k < width * height ==> #[trigger] out@[k] == spread_of(
                mask@,
                width as int,
                height as int,
                radius as int,
                dilate,
            )[k],
        forall|k: int| width * height <= k < mask@.len() ==> #[trigger] out@[k] == 0,
{
    let len = mask.len();
    let ghost rows_spec = spread_rows(mask@, width as int, height as int, radius as int, dilate);
    let mut horizontal: Vec<u8> = vec![0u8; len];
    let mut y: usize = 0;
    while y < height
        invariant
            y <= height,
            len == mask@.len(),
            width * height <= len,
            5 * width <= usize::MAX,
            rows_spec == spread_rows(mask@, width as int, height as int, radius as int, dilate),
            horizontal@.len() == len,
            forall|k: int| 0 <= k < y * width ==> #[trigger] horizontal@[k] == rows_spec[k],
            forall|k: int| y * width <= k < len ==> #[trigger] horizontal@[k] == 0,
        decreases height - y,
    {
        proof {
            assert((y + 1) * width <= width * height) by (nonlinear_arith)
                requires
                    y < height,
            ;
            assert((y + 1) * width == y * width + width) by (nonlinear_arith);
        }
        let start = y * width;
        let mut row: Vec<u8> = Vec::new();
        let mut x: usize = 0;
        while x < width
            invariant
                x <= width,
                start + width <= len,
                len == mask@.len(),
                row@ == mask@.subrange(start as int, start + x),
            decreases width - x,
        {
            row.push(mask[start + x]);
            x = x + 1;
            proof {
                assert(row@ =~= mask@.subrange(start as int, start + x));
            }
        }
        let filtered = extrema_line(row.as_slice(), radius, dilate);
        assert(row@ == mask_row(mask@, width as int, y as int));
        let mut x: usize = 0;
        while x < width
            invariant
                x <= width,
                y < height,
                start == y * width,
                start + width <= len,
                horizontal@.len() == len,
                filtered@ == extrema_of(mask_row(mask@, width as int, y as int), radius as int, dilate),
                filtered@.len() == width,
                rows_spec == spread_rows(mask@, width as int, height as int, radius as int, dilate),
                forall|k: int| 0 <= k < start + x ==> #[trigger] horizontal@[k] == rows_spec[k],
                forall|k: int| start + x <= k < len ==> #[trigger] horizontal@[k] == 0,
            decreases width - x,
        {
            proof {
                lemma_cell(width as int, height as int, x as int, y as int);
            }
            horizontal.set(start + x, filtered[x]);
            x = x + 1;
        }
        y = y + 1;
    }
    let ghost spread_spec = spread_of(mask@, width as int, height as int, radius as int, dilate);
    proof {
        assert(y * width == width * height) by (nonlinear_arith)
            requires
                y == height,
        ;
    }
    let mut out: Vec<u8> = vec![0u8; len];
    assert forall|k: int|
        0 <= k < width * height implies #[trigger] out@[k] == (if k % (width as int) < 0 {
            spread_spec[k]
        } else {
            0
        }) by {
        lemma_cell_of(width as int, height as int, k);
        assert(out@[k] == 0);
    }
    let mut x: usize = 0;
    while x < width
        invariant
            x <= width,
            y == height,
            len == mask@.len(),
            width * height <= len,
            5 * height <= usize::MAX,
            horizontal@.len() == len,
            forall|k: int| 0 <= k < width * height ==> #[trigger] horizontal@[k] == rows_spec[k],
            spread_spec == spread_of(mask@, width as int, height as int, radius as int, dilate),
            rows_spec == spread_rows(mask@, width as int, height as int, radius as int, dilate),
            out@.len() == len,
            forall|k: int|
                0 <= k < width * height ==> #[trigger] out@[k] == (if k % (width as int) < x {
                    spread_spec[k]
                } else {
                    0
                }),
            forall|k: int| width * height <= k < len ==> #[trigger] out@[k] == 0,
        decreases width - x,
    {
        let mut column: Vec<u8> = Vec::new();
        let mut row: usize = 0;
        while row < height
            invariant
                row <= height,
                x < width,
                width * height <= len,
                horizontal@.len() == len,
                forall|k: int| 0 <= k < width * height ==> #[trigger] horizontal@[k] == rows_spec[k],
                column@.len() == row,
                forall|j: int| 0 <= j < row ==> #[trigger] column@[j] == rows_spec[j * width + x],
            decreases height - row,
        {
            proof {
                lemma_cell(width as int, height as int, x as int, row as int);
            }
            column.push(horizontal[row * width + x]);
            row = row + 1;
        }
        assert(column@ =~= mask_column(rows_spec, width as int, height as int, x as int));
        let filtered = extrema_line(column.as_slice(), radius, dilate);
        let mut row: usize = 0;
        while row < height
            invariant
                row <= height,
                x < width,
                width * height <= len,
                out@.len() == len,
                filtered@ == extrema_of(
                    mask_column(rows_spec, width as int, height as int, x as int),
                    radius as int,
                    dilate,
                ),
                filtered@.len() == height,
                spread_spec == spread_of(mask@, width as int, height as int, radius as int, dilate),
                rows_spec == spread_rows(mask@, width as int, height as int, radius as int, dilate),
                forall|k: int|
                    0 <= k < width * height ==> #[trigger] out@[k] == (if k % (width as int) < x || (k
                        % (width as int) == x && k / (width as int) < row) {
                        spread_spec[k]
                    } else {
                        0
                    }),
                forall|k: int| width * height <= k < len ==> #[trigger] out@[k] == 0,
            decreases height - row,
        {
            proof {
                lemma_cell(width as int, height as int, x as int, row as int);
            }
            out.set(row * width + x, filtered[row]);
            proof {
                assert forall|k: int|
                    0 <= k < width * height implies #[trigger] out@[k] == (if k % (width as int) < x
                        || (k % (width as int) == x && k / (width as int) < row + 1) {
                        spread_spec[k]
                    } else {
                        0
                    }) by {
                    lemma_cell_of(width as int, height as int, k);
                    if k == row * width + x {
                        assert(spread_spec[k] == filtered@[row as int]);
                    } else {
                        assert(k % (width as int) != x || k / (width as int) != row);
                    }
                }
            }
            row = row + 1;
        }
        proof {
            assert forall|k: int|
                0 <= k < width * height implies #[trigger] out@[k] == (if k % (width as int) < x + 1 {
                    spread_spec[k]
                } else {
                    0
                }) by {
                lemma_cell_of(width as int, height as int, k);
            }
        }
        x = x + 1;
    }
    proof {
        assert forall|k: int| 0 <= k < width * height implies #[trigger] out@[k] == spread_spec[k] by {
            lemma_cell_of(width as int, height as int, k);
        }
    }
    out
}

} // verus!
