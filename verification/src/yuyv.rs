//! Conversion of YUYV 4:2:2 frames to packed RGB.
//!
//! A YUYV frame stores two pixels in four bytes `Y1 Cb Y2 Cr`: each pixel has
//! its own luma and the two share their chroma. Each group becomes two RGB
//! pixels, whose colours the caller's `ycbcr_to_rgb` computes from
//! `(luma, cb, cr)`.

use vstd::prelude::*;

verus! {

/// Number of complete 4-byte groups of `input` that fit, as complete pixel
/// pairs of `stride` bytes, into `output`.
pub open spec fn pair_count(input_len: nat, output_len: nat, stride: nat) -> nat {
    if input_len / 4 <= output_len / stride {
        input_len / 4
    } else {
        output_len / stride
    }
}

/// Group `k` of `input` was written to `output` as two 3-byte RGB pixels.
pub open spec fn rgb24_pair_written<F: Fn(u8, u8, u8) -> (u8, u8, u8)>(
    input: Seq<u8>,
    output: Seq<u8>,
    k: int,
    ycbcr_to_rgb: F,
) -> bool {
    &&& call_ensures(
        ycbcr_to_rgb,
        (input[4 * k], input[4 * k + 1], input[4 * k + 3]),
        (output[6 * k], output[6 * k + 1], output[6 * k + 2]),
    )
    &&& call_ensures(
        ycbcr_to_rgb,
        (input[4 * k + 2], input[4 * k + 1], input[4 * k + 3]),
        (output[6 * k + 3], output[6 * k + 4], output[6 * k + 5]),
    )
}

/// Group `k` of `input` was written to `output` as two 4-byte pixels in blue,
/// green, red order; the fourth byte of each pixel is the one `before` had.
pub open spec fn rgb32_pair_written<F: Fn(u8, u8, u8) -> (u8, u8, u8)>(
    input: Seq<u8>,
    before: Seq<u8>,
    output: Seq<u8>,
    k: int,
    ycbcr_to_rgb: F,
) -> bool {
    &&& call_ensures(
        ycbcr_to_rgb,
        (input[4 * k], input[4 * k + 1], input[4 * k + 3]),
        (output[8 * k + 2], output[8 * k + 1], output[8 * k]),
    )
    &&& output[8 * k + 3] == before[8 * k + 3]
    &&& call_ensures(
        ycbcr_to_rgb,
        (input[4 * k + 2], input[4 * k + 1], input[4 * k + 3]),
        (output[8 * k + 6], output[8 * k + 5], output[8 * k + 4]),
    )
    &&& output[8 * k + 7] == before[8 * k + 7]
}

/// `after` is what converting the YUYV frame `input` to RGB24 leaves in an
/// output buffer that held `before`: the same length, every group that fits
/// whole on both sides written as two pixels, and the rest unchanged.
pub open spec fn rgb24_converted<F: Fn(u8, u8, u8) -> (u8, u8, u8)>(
    input: Seq<u8>,
    before: Seq<u8>,
    after: Seq<u8>,
    ycbcr_to_rgb: F,
) -> bool {
    &&& after.len() == before.len()
    &&& forall|k: int|
        0 <= k < pair_count(input.len(), before.len(), 6) ==> rgb24_pair_written(
            input,
            after,
            k,
            ycbcr_to_rgb,
        )
    &&& forall|i: int|
        6 * pair_count(input.len(), before.len(), 6) <= i < before.len() ==> after[i] == before[i]
}

/// `after` is what converting the YUYV frame `input` to 32-bit pixels leaves
/// in an output buffer that held `before`: the same length, every group that
/// fits whole on both sides written as two pixels, and the rest unchanged.
pub open spec fn rgb32_converted<F: Fn(u8, u8, u8) -> (u8, u8, u8)>(
    input: Seq<u8>,
    before: Seq<u8>,
    after: Seq<u8>,
    ycbcr_to_rgb: F,
) -> bool {
    &&& after.len() == before.len()
    &&& forall|k: int|
        0 <= k < pair_count(input.len(), before.len(), 8) ==> rgb32_pair_written(
            input,
            before,
            after,
            k,
            ycbcr_to_rgb,
        )
    &&& forall|i: int|
        8 * pair_count(input.len(), before.len(), 8) <= i < before.len() ==> after[i] == before[i]
}

/// Whether the colour conversion gives one result for each `(luma, cb, cr)`.
pub open spec fn one_colour_per_input<F: Fn(u8, u8, u8) -> (u8, u8, u8)>(ycbcr_to_rgb: F) -> bool {
    forall|y: u8, cb: u8, cr: u8, c1: (u8, u8, u8), c2: (u8, u8, u8)|
        #![trigger call_ensures(ycbcr_to_rgb, (y, cb, cr), c1), call_ensures(ycbcr_to_rgb, (y, cb, cr), c2)]
        call_ensures(ycbcr_to_rgb, (y, cb, cr), c1) && call_ensures(ycbcr_to_rgb, (y, cb, cr), c2)
            ==> c1 == c2
}

/// Whether an RGB24 buffer of `out_len` bytes is the size of a YUYV frame of
/// `in_len` bytes: one and a half times as long.
pub fn rgb24_sizes_match(in_len: usize, out_len: usize) -> (matches: bool)
    ensures
        matches == (out_len * 2 == in_len * 3),
{
    (out_len as u128) * 2 == (in_len as u128) * 3
}

/// Whether a 32-bit pixel buffer of `out_len` bytes is the size of a YUYV frame
/// of `in_len` bytes: twice as long.
pub fn rgb32_sizes_match(in_len: usize, out_len: usize) -> (matches: bool)
    ensures
        matches == (out_len == in_len * 2),
{
    (out_len as u128) == (in_len as u128) * 2
}

/// When the sizes match, every whole group of the frame is converted.
pub proof fn lemma_matching_sizes_convert_every_group(in_len: nat, out_len: nat)
    ensures
        out_len * 2 == in_len * 3 ==> pair_count(in_len, out_len, 6) == in_len / 4,
        out_len == in_len * 2 ==> pair_count(in_len, out_len, 8) == in_len / 4,
{
    if out_len * 2 == in_len * 3 {
        assert(out_len / 6 == in_len / 4) by (nonlinear_arith)
            requires
                out_len * 2 == in_len * 3,
        ;
    }
    if out_len == in_len * 2 {
        assert(out_len / 8 == in_len / 4) by (nonlinear_arith)
            requires
                out_len == in_len * 2,
        ;
    }
}

/// Copies the YUYV 4:2:2 frame `in_buf` into `out_buf` as RGB24: group `k`
/// (bytes `4k..4k+4`) becomes bytes `6k..6k+6`. Only as many groups are
/// converted as fit whole on both sides; the rest of `out_buf` is left alone.
pub fn yuv422_to_rgb24<F: Fn(u8, u8, u8) -> (u8, u8, u8)>(
    in_buf: &[u8],
    out_buf: &mut [u8],
    ycbcr_to_rgb: F,
)
    requires
        forall|y: u8, cb: u8, cr: u8| call_requires(ycbcr_to_rgb, (y, cb, cr)),
    ensures
        rgb24_converted(in_buf@, old(out_buf)@, final(out_buf)@, ycbcr_to_rgb),
{
    let ghost before = out_buf@;
    let in_len = in_buf.len();
    let out_len = out_buf.len();
    let groups = in_len / 4;
    let slots = out_len / 6;
    let pairs = if groups <= slots {
        groups
    } else {
        slots
    };
    let mut k: usize = 0;
    while k < pairs
        invariant
            pairs == pair_count(in_buf@.len(), before.len(), 6),
            in_len == in_buf@.len(),
            out_len == before.len(),
            k <= pairs,
            out_buf@.len() == before.len(),
            forall|y: u8, cb: u8, cr: u8| call_requires(ycbcr_to_rgb, (y, cb, cr)),
            forall|j: int| 0 <= j < k ==> rgb24_pair_written(in_buf@, out_buf@, j, ycbcr_to_rgb),
            forall|i: int| 6 * k <= i < before.len() ==> out_buf@[i] == before[i],
        decreases pairs - k,
    {
        assert(4 * k + 3 < in_buf@.len() && 6 * k + 5 < out_buf@.len()) by (nonlinear_arith)
            requires
                k < pairs,
                pairs <= in_buf@.len() / 4,
                pairs <= out_buf@.len() / 6,
        ;
        let y1 = in_buf[4 * k];
        let cb = in_buf[4 * k + 1];
        let y2 = in_buf[4 * k + 2];
        let cr = in_buf[4 * k + 3];
        let ghost prev = out_buf@;

        let (r, g, b) = ycbcr_to_rgb(y1, cb, cr);
        out_buf[6 * k] = r;
        out_buf[6 * k + 1] = g;
        out_buf[6 * k + 2] = b;

        let (r, g, b) = ycbcr_to_rgb(y2, cb, cr);
        out_buf[6 * k + 3] = r;
        out_buf[6 * k + 4] = g;
        out_buf[6 * k + 5] = b;

        assert forall|j: int| 0 <= j < k + 1 implies rgb24_pair_written(
            in_buf@,
            out_buf@,
            j,
            ycbcr_to_rgb,
        ) by {
            if j < k {
                assert(rgb24_pair_written(in_buf@, prev, j, ycbcr_to_rgb));
                assert(out_buf@[6 * j] == prev[6 * j]);
                assert(out_buf@[6 * j + 1] == prev[6 * j + 1]);
                assert(out_buf@[6 * j + 2] == prev[6 * j + 2]);
                assert(out_buf@[6 * j + 3] == prev[6 * j + 3]);
                assert(out_buf@[6 * j + 4] == prev[6 * j + 4]);
                assert(out_buf@[6 * j + 5] == prev[6 * j + 5]);
            }
        }
        k = k + 1;
    }
}

/// Copies the YUYV 4:2:2 frame `in_buf` into `out_buf` as 32-bit pixels in
/// blue, green, red order: group `k` (bytes `4k..4k+4`) becomes bytes
/// `8k..8k+8`, and the fourth byte of each pixel keeps its value. Only as many
/// groups are converted as fit whole on both sides; the rest of `out_buf` is
/// left alone.
pub fn yuv422_to_rgb32<F: Fn(u8, u8, u8) -> (u8, u8, u8)>(
    in_buf: &[u8],
    out_buf: &mut [u8],
    ycbcr_to_rgb: F,
)
    requires
        forall|y: u8, cb: u8, cr: u8| call_requires(ycbcr_to_rgb, (y, cb, cr)),
    ensures
        rgb32_converted(in_buf@, old(out_buf)@, final(out_buf)@, ycbcr_to_rgb),
{
    let ghost before = out_buf@;
    let in_len = in_buf.len();
    let out_len = out_buf.len();
    let groups = in_len / 4;
    let slots = out_len / 8;
    let pairs = if groups <= slots {
        groups
    } else {
        slots
    };
    let mut k: usize = 0;
    while k < pairs
        invariant
            pairs == pair_count(in_buf@.len(), before.len(), 8),
            in_len == in_buf@.len(),
            out_len == before.len(),
            k <= pairs,
            out_buf@.len() == before.len(),
            forall|y: u8, cb: u8, cr: u8| call_requires(ycbcr_to_rgb, (y, cb, cr)),
            forall|j: int|
                0 <= j < k ==> rgb32_pair_written(in_buf@, before, out_buf@, j, ycbcr_to_rgb),
            forall|i: int| 8 * k <= i < before.len() ==> out_buf@[i] == before[i],
        decreases pairs - k,
    {
        assert(4 * k + 3 < in_buf@.len() && 8 * k + 7 < out_buf@.len()) by (nonlinear_arith)
            requires
                k < pairs,
                pairs <= in_buf@.len() / 4,
                pairs <= out_buf@.len() / 8,
        ;
        let y1 = in_buf[4 * k];
        let cb = in_buf[4 * k + 1];
        let y2 = in_buf[4 * k + 2];
        let cr = in_buf[4 * k + 3];
        let ghost prev = out_buf@;

        let (r, g, b) = ycbcr_to_rgb(y1, cb, cr);
        out_buf[8 * k] = b;
        out_buf[8 * k + 1] = g;
        out_buf[8 * k + 2] = r;

        let (r, g, b) = ycbcr_to_rgb(y2, cb, cr);
        out_buf[8 * k + 4] = b;
        out_buf[8 * k + 5] = g;
        out_buf[8 * k + 6] = r;

        assert forall|j: int| 0 <= j < k + 1 implies rgb32_pair_written(
            in_buf@,
            before,
            out_buf@,
            j,
            ycbcr_to_rgb,
        ) by {
            if j < k {
                assert(rgb32_pair_written(in_buf@, before, prev, j, ycbcr_to_rgb));
                assert(out_buf@[8 * j] == prev[8 * j]);
                assert(out_buf@[8 * j + 1] == prev[8 * j + 1]);
                assert(out_buf@[8 * j + 2] == prev[8 * j + 2]);
                assert(out_buf@[8 * j + 3] == prev[8 * j + 3]);
                assert(out_buf@[8 * j + 4] == prev[8 * j + 4]);
                assert(out_buf@[8 * j + 5] == prev[8 * j + 5]);
                assert(out_buf@[8 * j + 6] == prev[8 * j + 6]);
                assert(out_buf@[8 * j + 7] == prev[8 * j + 7]);
            }
        }
        k = k + 1;
    }
}

/// Converting two whole YUYV frames one after the other gives, side by side,
/// what converting them joined gives: each group converts on its own, so the
/// work may be cut at group boundaries and shared out.
pub proof fn lemma_rgb24_frames_join<F: Fn(u8, u8, u8) -> (u8, u8, u8)>(
    a: Seq<u8>,
    b: Seq<u8>,
    a_before: Seq<u8>,
    a_after: Seq<u8>,
    b_before: Seq<u8>,
    b_after: Seq<u8>,
    joined_before: Seq<u8>,
    joined_after: Seq<u8>,
    ycbcr_to_rgb: F,
)
    requires
        one_colour_per_input(ycbcr_to_rgb),
        a.len() % 4 == 0,
        b.len() % 4 == 0,
        a_before.len() * 2 == a.len() * 3,
        b_before.len() * 2 == b.len() * 3,
        joined_before.len() == a_before.len() + b_before.len(),
        rgb24_converted(a, a_before, a_after, ycbcr_to_rgb),
        rgb24_converted(b, b_before, b_after, ycbcr_to_rgb),
        rgb24_converted(a + b, joined_before, joined_after, ycbcr_to_rgb),
    ensures
        joined_after == a_after + b_after,
{
    let ab = a + b;
    let na = a.len() / 4;
    let nb = b.len() / 4;
    lemma_matching_sizes_convert_every_group(a.len(), a_before.len());
    lemma_matching_sizes_convert_every_group(b.len(), b_before.len());
    lemma_matching_sizes_convert_every_group(ab.len(), joined_before.len());
    assert(a_before.len() == 6 * na);
    assert(b_before.len() == 6 * nb);
    assert(ab.len() / 4 == na + nb);
    assert forall|i: int| 0 <= i < joined_after.len() implies joined_after[i] == (a_after
        + b_after)[i] by {
        if i < a_after.len() {
            let k = i / 6;
            let r = i % 6;
            assert(i == 6 * k + r && 0 <= r < 6 && 0 <= k < na);
            assert(rgb24_pair_written(ab, joined_after, k, ycbcr_to_rgb));
            assert(rgb24_pair_written(a, a_after, k, ycbcr_to_rgb));
            assert(ab[4 * k] == a[4 * k] && ab[4 * k + 1] == a[4 * k + 1] && ab[4 * k + 2] == a[4
                * k + 2] && ab[4 * k + 3] == a[4 * k + 3]);
        } else {
            let j = i - a_after.len();
            let k = j / 6;
            let r = j % 6;
            assert(j == 6 * k + r && 0 <= r < 6 && 0 <= k < nb);
            assert(i == 6 * (k + na) + r);
            assert(rgb24_pair_written(ab, joined_after, k + na, ycbcr_to_rgb));
            assert(rgb24_pair_written(b, b_after, k, ycbcr_to_rgb));
            assert(4 * (k + na) == 4 * k + a.len());
            assert(ab[4 * (k + na)] == b[4 * k] && ab[4 * (k + na) + 1] == b[4 * k + 1] && ab[4 * (k
                + na) + 2] == b[4 * k + 2] && ab[4 * (k + na) + 3] == b[4 * k + 3]);
        }
    }
    assert(joined_after =~= a_after + b_after);
}

/// Pixel `p` of the 32-bit buffer `rgb32` holds the channels of pixel `p` of
/// the RGB24 buffer `rgb24` in reverse order.
pub open spec fn same_pixel_reversed(rgb24: Seq<u8>, rgb32: Seq<u8>, p: int) -> bool {
    &&& rgb32[4 * p] == rgb24[3 * p + 2]
    &&& rgb32[4 * p + 1] == rgb24[3 * p + 1]
    &&& rgb32[4 * p + 2] == rgb24[3 * p]
}

/// The 32-bit conversion of a whole YUYV frame carries the same pixels as its
/// RGB24 conversion, with the channels in reverse order.
pub proof fn lemma_rgb32_reverses_rgb24<F: Fn(u8, u8, u8) -> (u8, u8, u8)>(
    input: Seq<u8>,
    rgb24_before: Seq<u8>,
    rgb24: Seq<u8>,
    rgb32_before: Seq<u8>,
    rgb32: Seq<u8>,
    ycbcr_to_rgb: F,
)
    requires
        one_colour_per_input(ycbcr_to_rgb),
        input.len() % 4 == 0,
        rgb24_before.len() * 2 == input.len() * 3,
        rgb32_before.len() == input.len() * 2,
        rgb24_converted(input, rgb24_before, rgb24, ycbcr_to_rgb),
        rgb32_converted(input, rgb32_before, rgb32, ycbcr_to_rgb),
    ensures
        forall|p: int| 0 <= p < input.len() / 2 ==> #[trigger] same_pixel_reversed(rgb24, rgb32, p),
{
    lemma_matching_sizes_convert_every_group(input.len(), rgb24_before.len());
    lemma_matching_sizes_convert_every_group(input.len(), rgb32_before.len());
    assert forall|p: int| 0 <= p < input.len() / 2 implies #[trigger] same_pixel_reversed(
        rgb24,
        rgb32,
        p,
    ) by {
        let k = p / 2;
        let half = p % 2;
        assert(p == 2 * k + half && 0 <= half < 2 && 0 <= k < input.len() / 4);
        assert(rgb24_pair_written(input, rgb24, k, ycbcr_to_rgb));
        assert(rgb32_pair_written(input, rgb32_before, rgb32, k, ycbcr_to_rgb));
        if half == 0 {
            assert(4 * p == 8 * k && 3 * p == 6 * k);
        } else {
            assert(4 * p == 8 * k + 4 && 3 * p == 6 * k + 3);
        }
    }
}

/// In an RGB24 conversion, pixel `p` of the output (bytes `3p..3p+3`) is the
/// colour of luma byte `2p` of the input together with the chroma of its group:
/// byte `4⌊p/2⌋+1` as Cb and byte `4⌊p/2⌋+3` as Cr. This holds for every pixel
/// of every group that fits whole on both sides.
pub proof fn lemma_rgb24_pixel_from_its_luma<F: Fn(u8, u8, u8) -> (u8, u8, u8)>(
    input: Seq<u8>,
    before: Seq<u8>,
    after: Seq<u8>,
    ycbcr_to_rgb: F,
    p: int,
)
    requires
        rgb24_converted(input, before, after, ycbcr_to_rgb),
        0 <= p,
        p / 2 < input.len() / 4,
        p / 2 < before.len() / 6,
    ensures
        after.len() == before.len(),
        call_ensures(
            ycbcr_to_rgb,
            (input[2 * p], input[4 * (p / 2) + 1], input[4 * (p / 2) + 3]),
            (after[3 * p], after[3 * p + 1], after[3 * p + 2]),
        ),
{
    let k = p / 2;
    assert(rgb24_pair_written(input, after, k, ycbcr_to_rgb));
    if p % 2 == 0 {
        assert(2 * p == 4 * k && 3 * p == 6 * k);
    } else {
        assert(2 * p == 4 * k + 2 && 3 * p == 6 * k + 3);
    }
}

/// In an RGB24 conversion, every output byte past the groups that fit whole on
/// both sides keeps its value.
pub proof fn lemma_rgb24_rest_kept<F: Fn(u8, u8, u8) -> (u8, u8, u8)>(
    input: Seq<u8>,
    before: Seq<u8>,
    after: Seq<u8>,
    ycbcr_to_rgb: F,
    i: int,
)
    requires
        rgb24_converted(input, before, after, ycbcr_to_rgb),
        i < before.len(),
        6 * (input.len() / 4) <= i || 6 * (before.len() / 6) <= i,
    ensures
        after[i] == before[i],
{
}

/// In a 32-bit conversion, pixel `p` of the output (bytes `4p..4p+4`) holds, in
/// blue, green, red order, the colour of luma byte `2p` of the input together
/// with the chroma of its group (byte `4⌊p/2⌋+1` as Cb, byte `4⌊p/2⌋+3` as Cr),
/// and its fourth byte keeps its value. This holds for every pixel of every
/// group that fits whole on both sides.
pub proof fn lemma_rgb32_pixel_from_its_luma<F: Fn(u8, u8, u8) -> (u8, u8, u8)>(
    input: Seq<u8>,
    before: Seq<u8>,
    after: Seq<u8>,
    ycbcr_to_rgb: F,
    p: int,
)
    requires
        rgb32_converted(input, before, after, ycbcr_to_rgb),
        0 <= p,
        p / 2 < input.len() / 4,
        p / 2 < before.len() / 8,
    ensures
        after.len() == before.len(),
        call_ensures(
            ycbcr_to_rgb,
            (input[2 * p], input[4 * (p / 2) + 1], input[4 * (p / 2) + 3]),
            (after[4 * p + 2], after[4 * p + 1], after[4 * p]),
        ),
        after[4 * p + 3] == before[4 * p + 3],
{
    let k = p / 2;
    assert(rgb32_pair_written(input, before, after, k, ycbcr_to_rgb));
    if p % 2 == 0 {
        assert(2 * p == 4 * k && 4 * p == 8 * k);
    } else {
        assert(2 * p == 4 * k + 2 && 4 * p == 8 * k + 4);
    }
}

/// In a 32-bit conversion, every output byte past the groups that fit whole on
/// both sides keeps its value.
pub proof fn lemma_rgb32_rest_kept<F: Fn(u8, u8, u8) -> (u8, u8, u8)>(
    input: Seq<u8>,
    before: Seq<u8>,
    after: Seq<u8>,
    ycbcr_to_rgb: F,
    i: int,
)
    requires
        rgb32_converted(input, before, after, ycbcr_to_rgb),
        i < before.len(),
        8 * (input.len() / 4) <= i || 8 * (before.len() / 8) <= i,
    ensures
        after[i] == before[i],
{
}

} // verus!
