//! A frame is traced at a reduced resolution: the full `width` by `height`
//! buffer is divided into `scale` by `scale` blocks, one ray is traced per
//! block, and its color is replicated over the block. The scaled grid is
//! `width / scale` pixels wide and `height / scale` rows high, stored row by
//! row. For parallel rendering the scaled rows are cut into bands of equal
//! height; each band yields a list of `(index, pixel)` writes that is
//! committed to the buffer once the band is done.
use vstd::prelude::*;
use vstd::arithmetic::div_mod::lemma_fundamental_div_mod;
use vstd::arithmetic::div_mod::lemma_fundamental_div_mod_converse;
use vstd::math::min;
use crate::pixel::Pixel;

verus! {

/// Number of bands a frame is cut into when it is rendered in parallel.
pub const BAND_COUNT: usize = 4;

/// Scaled rows given to each band: the scaled height divided by the number
/// of bands, rounded up.
pub open spec fn rows_per_band(scaled_height: int, bands: int) -> int {
    scaled_height / bands + if scaled_height % bands == 0 { 0int } else { 1int }
}

/// First scaled row of band `band`.
pub open spec fn band_start(band: int, bands: int, scaled_height: int) -> int {
    min(band * rows_per_band(scaled_height, bands), scaled_height)
}

/// One past the last scaled row of band `band`.
pub open spec fn band_end(band: int, bands: int, scaled_height: int) -> int {
    min((band + 1) * rows_per_band(scaled_height, bands), scaled_height)
}

/// Whether pixel `i` of the full buffer lies in a block that some scaled
/// pixel fills. The blocks tile the top-left corner of the buffer; a strip
/// narrower than `scale` at the right and bottom edges is left as it was.
pub open spec fn is_covered(w: int, h: int, s: int, i: int) -> bool {
    (i % w) / s < w / s && (i / w) / s < h / s
}

/// Position in the scaled grid of the scaled pixel whose block holds pixel
/// `i` of the full buffer.
pub open spec fn source_index(w: int, s: int, i: int) -> int {
    ((i / w) / s) * (w / s) + (i % w) / s
}

/// The buffer `old` once every block has been filled from the scaled grid
/// `colors`.
pub open spec fn upscaled(old: Seq<Pixel>, w: int, h: int, s: int, colors: Seq<Pixel>) -> Seq<
    Pixel,
> {
    Seq::new(
        old.len(),
        |i: int|
            if is_covered(w, h, s, i) {
                colors[source_index(w, s, i)]
            } else {
                old[i]
            },
    )
}

/// The writes that the band of scaled rows `start .. end` produces, given the
/// colors traced for those rows: the covered pixels of the band's full rows,
/// top to bottom and left to right, each with the color of its block.
pub open spec fn band_entries(w: int, s: int, start: int, end: int, band_colors: Seq<Pixel>) -> Seq<
    (usize, Pixel),
> {
    let row_len = (w / s) * s;
    Seq::new(
        ((end - start) * s * row_len) as nat,
        |k: int|
            {
                let y = start * s + k / row_len;
                let x = k % row_len;
                ((y * w + x) as usize, band_colors[(y / s - start) * (w / s) + x / s])
            },
    )
}

/// The buffer `buf` after the writes `entries`, applied first to last.
pub open spec fn committed(buf: Seq<Pixel>, entries: Seq<(usize, Pixel)>) -> Seq<Pixel>
    decreases entries.len(),
{
    if entries.len() == 0 {
        buf
    } else {
        let last = entries.last();
        committed(buf, entries.drop_last()).update(last.0 as int, last.1)
    }
}

/// The buffer `old` once the first `n` of `bands` bands have been traced from
/// the scaled grid `colors` and committed in order.
pub open spec fn banded(
    old: Seq<Pixel>,
    w: int,
    h: int,
    s: int,
    bands: int,
    colors: Seq<Pixel>,
    n: int,
) -> Seq<Pixel>
    decreases n,
{
    if n <= 0 {
        old
    } else {
        let start = band_start(n - 1, bands, h / s);
        let end = band_end(n - 1, bands, h / s);
        committed(
            banded(old, w, h, s, bands, colors, n - 1),
            band_entries(w, s, start, end, colors.subrange(start * (w / s), end * (w / s))),
        )
    }
}

proof fn lemma_div_within(y: int, s: int, a: int, b: int)
    requires
        s > 0,
        a * s <= y < b * s,
    ensures
        a <= y / s < b,
{
    lemma_fundamental_div_mod(y, s);
    let q = y / s;
    assert(a <= q) by (nonlinear_arith)
        requires
            s > 0,
            a * s <= y,
            y == s * q + y % s,
            y % s < s,
    ;
    assert(q < b) by (nonlinear_arith)
        requires
            s > 0,
            y < b * s,
            y == s * q + y % s,
            y % s >= 0,
    ;
}

proof fn lemma_grid_index(row: int, col: int, rows: int, cols: int)
    requires
        0 <= row < rows,
        0 <= col < cols,
    ensures
        0 <= row * cols + col < rows * cols,
{
    assert(0 <= row * cols + col < rows * cols) by (nonlinear_arith)
        requires
            0 <= row < rows,
            0 <= col < cols,
    ;
}

/// Whether some write of `entries` goes to pixel `j`.
pub open spec fn writes_to(entries: Seq<(usize, Pixel)>, j: int) -> bool {
    exists|k: int| 0 <= k < entries.len() && entries[k].0 as int == j
}

/// Writes that each agree with `target` leave every pixel they reach equal to
/// `target` and every other pixel as it was.
proof fn lemma_committed_agreeing(buf: Seq<Pixel>, entries: Seq<(usize, Pixel)>, target: Seq<Pixel>)
    requires
        target.len() == buf.len(),
        forall|k: int|
            0 <= k < entries.len() ==> (#[trigger] entries[k]).0 < buf.len() && entries[k].1
                == target[entries[k].0 as int],
    ensures
        committed(buf, entries).len() == buf.len(),
        forall|j: int|
            0 <= j < buf.len() ==> #[trigger] committed(buf, entries)[j] == if writes_to(entries, j) {
                target[j]
            } else {
                buf[j]
            },
    decreases entries.len(),
{
    if entries.len() > 0 {
        let rest = entries.drop_last();
        let last = entries.last();
        assert forall|k: int| 0 <= k < rest.len() implies (#[trigger] rest[k]).0 < buf.len()
            && rest[k].1 == target[rest[k].0 as int] by {
            assert(rest[k] == entries[k]);
        }
        lemma_committed_agreeing(buf, rest, target);
        assert forall|j: int| 0 <= j < buf.len() implies #[trigger] committed(buf, entries)[j]
            == if writes_to(entries, j) {
            target[j]
        } else {
            buf[j]
        } by {
            if j == last.0 as int {
                assert(entries[entries.len() - 1].0 as int == j);
            } else {
                if writes_to(entries, j) {
                    let k = choose|k: int| 0 <= k < entries.len() && entries[k].0 as int == j;
                    assert(rest[k] == entries[k]);
                }
                if writes_to(rest, j) {
                    let k = choose|k: int| 0 <= k < rest.len() && rest[k].0 as int == j;
                    assert(rest[k] == entries[k]);
                }
            }
        }
    }
}

/// What the writes of the band of scaled rows `start .. end` do: each goes to
/// a covered pixel of the band with the color that the upscaled buffer has
/// there, and every covered pixel of the band gets one.
proof fn lemma_band_entries(
    old: Seq<Pixel>,
    w: int,
    h: int,
    s: int,
    colors: Seq<Pixel>,
    start: int,
    end: int,
)
    requires
        s > 0,
        w >= 0,
        h >= 0,
        w * h <= usize::MAX,
        old.len() == w * h,
        colors.len() == (w / s) * (h / s),
        0 <= start <= end <= h / s,
    ensures
        ({
            let entries = band_entries(w, s, start, end, colors.subrange(start * (w / s), end * (w / s)));
            let target = upscaled(old, w, h, s, colors);
            &&& forall|k: int|
                0 <= k < entries.len() ==> (#[trigger] entries[k]).0 < old.len() && entries[k].1
                    == target[entries[k].0 as int]
            &&& forall|j: int|
                0 <= j < old.len() ==> (writes_to(entries, j) <==> (is_covered(w, h, s, j) && start
                    <= (j / w) / s < end))
        }),
{
    let sw = w / s;
    let sh = h / s;
    let row_len = sw * s;
    let band_colors = colors.subrange(start * sw, end * sw);
    let entries = band_entries(w, s, start, end, band_colors);
    let target = upscaled(old, w, h, s, colors);
    lemma_fundamental_div_mod(w, s);
    lemma_fundamental_div_mod(h, s);
    assert(0 <= row_len <= w) by (nonlinear_arith)
        requires
            row_len == sw * s,
            sw == w / s,
            s > 0,
            w >= 0,
            w == s * (w / s) + w % s,
            w % s >= 0,
    ;
    assert(0 <= start * sw <= end * sw <= sw * sh) by (nonlinear_arith)
        requires
            0 <= start <= end <= sh,
            sw >= 0,
    ;
    assert(end * s <= h) by (nonlinear_arith)
        requires
            end <= sh,
            sh == h / s,
            s > 0,
            h == s * (h / s) + h % s,
            h % s >= 0,
    ;
    assert forall|k: int| 0 <= k < entries.len() implies (#[trigger] entries[k]).0 < old.len()
        && entries[k].1 == target[entries[k].0 as int] by {
        assert(row_len > 0) by (nonlinear_arith)
            requires
                0 <= k < (end - start) * s * row_len,
                row_len >= 0,
                end - start >= 0,
                s > 0,
        ;
        lemma_fundamental_div_mod(k, row_len);
        let q = k / row_len;
        let x = k % row_len;
        assert(q < (end - start) * s) by (nonlinear_arith)
            requires
                k == row_len * q + x,
                x >= 0,
                k < (end - start) * s * row_len,
                row_len > 0,
        ;
        assert(q >= 0) by (nonlinear_arith)
            requires
                k == row_len * q + x,
                x < row_len,
                k >= 0,
                row_len > 0,
        ;
        let y = start * s + q;
        assert(start * s + (end - start) * s == end * s) by (nonlinear_arith);
        assert(y < h);
        lemma_div_within(y, s, start, end);
        lemma_div_within(x, s, 0, sw);
        let i = y * w + x;
        assert(0 <= i < w * h) by (nonlinear_arith)
            requires
                i == y * w + x,
                0 <= y < h,
                0 <= x < w,
        ;
        lemma_fundamental_div_mod_converse(i, w, y, x);
        lemma_grid_index(y / s - start, x / s, end - start, sw);
        assert((y / s - start) * sw + x / s + start * sw == (y / s) * sw + x / s) by (nonlinear_arith);
        assert(entries[k].0 as int == i);
        assert(is_covered(w, h, s, i));
        assert(source_index(w, s, i) == (y / s) * sw + x / s);
        lemma_grid_index(y / s, x / s, sh, sw);
        assert(sh * sw == sw * sh) by (nonlinear_arith);
        assert((end - start) * sw == end * sw - start * sw) by (nonlinear_arith);
        assert(band_colors[(y / s - start) * sw + x / s] == colors[(y / s) * sw + x / s]);
        assert(entries[k].1 == colors[(y / s) * sw + x / s]);
    }
    assert forall|j: int| 0 <= j < old.len() implies (writes_to(entries, j) <==> (is_covered(
        w,
        h,
        s,
        j,
    ) && start <= (j / w) / s < end)) by {
        assert(w > 0) by (nonlinear_arith)
            requires
                0 <= j < w * h,
                w >= 0,
                h >= 0,
        ;
        if writes_to(entries, j) {
            let k = choose|k: int| 0 <= k < entries.len() && entries[k].0 as int == j;
            assert(entries[k].0 < old.len());
            let q = k / row_len;
            let x = k % row_len;
            let y = start * s + q;
            lemma_fundamental_div_mod(k, row_len);
            assert(0 <= q < (end - start) * s) by (nonlinear_arith)
                requires
                    k == row_len * q + x,
                    0 <= x < row_len,
                    0 <= k < (end - start) * s * row_len,
            ;
            assert(start * s + (end - start) * s == end * s) by (nonlinear_arith);
            lemma_div_within(y, s, start, end);
            lemma_div_within(x, s, 0, sw);
            assert(0 <= y * w + x < w * h) by (nonlinear_arith)
                requires
                    0 <= y < h,
                    0 <= x < w,
            ;
            lemma_fundamental_div_mod_converse(j, w, y, x);
        }
        if is_covered(w, h, s, j) && start <= (j / w) / s < end {
            let y = j / w;
            let x = j % w;
            lemma_fundamental_div_mod(j, w);
            lemma_fundamental_div_mod(y, s);
            lemma_fundamental_div_mod(x, s);
            assert(x < row_len) by (nonlinear_arith)
                requires
                    x == s * (x / s) + x % s,
                    x % s < s,
                    x / s < sw,
                    row_len == sw * s,
            ;
            assert(start * s <= y < end * s) by (nonlinear_arith)
                requires
                    y == s * (y / s) + y % s,
                    0 <= y % s < s,
                    start <= y / s < end,
            ;
            let k = (y - start * s) * row_len + x;
            assert(0 <= k < (end - start) * s * row_len) by (nonlinear_arith)
                requires
                    k == (y - start * s) * row_len + x,
                    0 <= x < row_len,
                    start * s <= y < end * s,
            ;
            lemma_fundamental_div_mod_converse(k, row_len, y - start * s, x);
            assert(entries[k].0 as int == y * w + x);
            assert(j == y * w + x) by (nonlinear_arith)
                requires
                    j == w * y + x,
            ;
        }
    }
}

/// Pixels reached once the first `n` bands are committed lie in scaled rows
/// below `min(n * rows_per_band, scaled_height)`.
proof fn lemma_banded_prefix(
    old: Seq<Pixel>,
    w: int,
    h: int,
    s: int,
    bands: int,
    colors: Seq<Pixel>,
    n: int,
)
    requires
        s > 0,
        w >= 0,
        h >= 0,
        bands > 0,
        0 <= n <= bands,
        w * h <= usize::MAX,
        old.len() == w * h,
        colors.len() == (w / s) * (h / s),
    ensures
        banded(old, w, h, s, bands, colors, n).len() == old.len(),
        forall|j: int|
            0 <= j < old.len() ==> #[trigger] banded(old, w, h, s, bands, colors, n)[j] == if is_covered(
                w,
                h,
                s,
                j,
            ) && (j / w) / s < min(n * rows_per_band(h / s, bands), h / s) {
                upscaled(old, w, h, s, colors)[j]
            } else {
                old[j]
            },
    decreases n,
{
    let sh = h / s;
    let rows = rows_per_band(sh, bands);
    let target = upscaled(old, w, h, s, colors);
    if n > 0 {
        lemma_banded_prefix(old, w, h, s, bands, colors, n - 1);
        let start = band_start(n - 1, bands, sh);
        let end = band_end(n - 1, bands, sh);
        assert(rows >= 0) by {
            assert(sh >= 0);
        }
        assert((n - 1) * rows <= n * rows) by (nonlinear_arith)
            requires
                rows >= 0,
        ;
        assert((n - 1) * rows >= 0) by (nonlinear_arith)
            requires
                rows >= 0,
                n >= 1,
        ;
        assert(0 <= start <= end <= sh);
        let prev = banded(old, w, h, s, bands, colors, n - 1);
        let entries = band_entries(w, s, start, end, colors.subrange(start * (w / s), end * (w / s)));
        lemma_band_entries(old, w, h, s, colors, start, end);
        lemma_committed_agreeing(prev, entries, target);
    }
}

/// Rendering in bands gives the same frame as rendering in one pass: for any
/// buffer, block scale, number of bands and grid of traced colors, committing
/// the writes of every band in turn leaves exactly the buffer that filling
/// all blocks at once does.
pub proof fn lemma_banded_matches_single_pass(
    old: Seq<Pixel>,
    width: usize,
    height: usize,
    scale: usize,
    bands: usize,
    colors: Seq<Pixel>,
)
    requires
        scale > 0,
        bands > 0,
        width * height <= usize::MAX,
        old.len() == width * height,
        colors.len() == (width / scale) * (height / scale),
    ensures
        banded(old, width as int, height as int, scale as int, bands as int, colors, bands as int)
            == upscaled(old, width as int, height as int, scale as int, colors),
{
    let w = width as int;
    let h = height as int;
    let s = scale as int;
    let b = bands as int;
    let sh = h / s;
    lemma_banded_prefix(old, w, h, s, b, colors, b);
    lemma_fundamental_div_mod(sh, b);
    assert(b * rows_per_band(sh, b) >= sh) by (nonlinear_arith)
        requires
            b > 0,
            sh == b * (sh / b) + sh % b,
            0 <= sh % b < b,
            rows_per_band(sh, b) == sh / b + if sh % b == 0 { 0int } else { 1int },
    ;
    let result = banded(old, w, h, s, b, colors, b);
    let target = upscaled(old, w, h, s, colors);
    assert(result =~= target);
}

/// The bands partition the scaled rows: the first starts at row 0, each
/// starts where the previous one ends, none runs backwards, and the last
/// ends at the last row.
pub proof fn lemma_bands_cover_rows(bands: int, scaled_height: int)
    requires
        bands > 0,
        scaled_height >= 0,
    ensures
        band_start(0, bands, scaled_height) == 0,
        band_end(bands - 1, bands, scaled_height) == scaled_height,
        forall|b: int|
            0 <= b < bands ==> band_start(b, bands, scaled_height) <= #[trigger] band_end(
                b,
                bands,
                scaled_height,
            ),
        forall|b: int|
            0 < b < bands ==> #[trigger] band_start(b, bands, scaled_height) == band_end(
                b - 1,
                bands,
                scaled_height,
            ),
{
    let rows = rows_per_band(scaled_height, bands);
    lemma_fundamental_div_mod(scaled_height, bands);
    assert(rows >= 0);
    assert(bands * rows >= scaled_height) by (nonlinear_arith)
        requires
            bands > 0,
            scaled_height == bands * (scaled_height / bands) + scaled_height % bands,
            0 <= scaled_height % bands < bands,
            rows == scaled_height / bands + if scaled_height % bands == 0 { 0int } else { 1int },
    ;
    assert forall|b: int| 0 <= b < bands implies band_start(b, bands, scaled_height)
        <= #[trigger] band_end(b, bands, scaled_height) by {
        assert(b * rows <= (b + 1) * rows) by (nonlinear_arith)
            requires
                rows >= 0,
        ;
    }
}

/// Splits the scaled rows among `bands` bands. Band `band` gets the rows
/// `r.0 .. r.1`; the bands are contiguous and together cover every row.
pub fn band_rows(band: usize, bands: usize, scaled_height: usize) -> (r: (usize, usize))
    requires
        band < bands,
    ensures
        r.0 == band_start(band as int, bands as int, scaled_height as int),
        r.1 == band_end(band as int, bands as int, scaled_height as int),
{
    proof {
        lemma_fundamental_div_mod(scaled_height as int, bands as int);
        if scaled_height % bands != 0 {
            assert(scaled_height / bands < scaled_height) by (nonlinear_arith)
                requires
                    bands >= 2,
                    scaled_height > 0,
            ;
        }
    }
    let rows: usize = scaled_height / bands + if scaled_height % bands == 0 {
        0
    } else {
        1
    };
    let start: usize = match band.checked_mul(rows) {
        Some(v) => if v < scaled_height {
            v
        } else {
            scaled_height
        },
        None => scaled_height,
    };
    let end: usize = match (band + 1).checked_mul(rows) {
        Some(v) => if v < scaled_height {
            v
        } else {
            scaled_height
        },
        None => scaled_height,
    };
    (start, end)
}

/// Fills every block of the buffer from the scaled grid `colors` (the
/// single-threaded path). Pixels outside every block keep their value.
pub fn upscale_into(buffer: &mut Vec<Pixel>, width: usize, height: usize, scale: usize, colors: &Vec<Pixel>)
    requires
        scale > 0,
        old(buffer)@.len() == width * height,
        colors@.len() == (width / scale) * (height / scale),
    ensures
        final(buffer)@ == upscaled(old(buffer)@, width as int, height as int, scale as int, colors@),
{
    let n = buffer.len();
    let sw = width / scale;
    let sh = height / scale;
    proof {
        lemma_fundamental_div_mod(width as int, scale as int);
        lemma_fundamental_div_mod(height as int, scale as int);
        assert(sw * sh <= width * height) by (nonlinear_arith)
            requires
                width == scale * sw + width % scale,
                height == scale * sh + height % scale,
                width % scale >= 0,
                height % scale >= 0,
                sw >= 0,
                sh >= 0,
                scale > 0,
        ;
    }
    let ghost target = upscaled(old(buffer)@, width as int, height as int, scale as int, colors@);
    let mut i: usize = 0;
    while i < n
        invariant
            scale > 0,
            n == width * height,
            sw == width / scale,
            sh == height / scale,
            colors@.len() == sw * sh,
            sw * sh <= n,
            buffer@.len() == n,
            target.len() == n,
            target == upscaled(old(buffer)@, width as int, height as int, scale as int, colors@),
            forall|j: int| 0 <= j < i ==> buffer@[j] == target[j],
            forall|j: int| i <= j < n ==> buffer@[j] == old(buffer)@[j],
        decreases n - i,
    {
        assert(width > 0) by (nonlinear_arith)
            requires
                i < n,
                n == width * height,
        ;
        let y = i / width;
        let x = i % width;
        let sy = y / scale;
        let sx = x / scale;
        if sx < sw && sy < sh {
            proof {
                lemma_grid_index(sy as int, sx as int, sh as int, sw as int);
                assert(sh * sw == sw * sh) by (nonlinear_arith);
            }
            let c = colors[sy * sw + sx];
            buffer.set(i, c);
        }
        i += 1;
    }
}

/// The writes of one band: for each covered pixel of the band's full rows,
/// top to bottom and left to right, its index in the buffer and the color
/// traced for its block. `band_colors` holds the colors of the band's scaled
/// rows `start .. end`, row by row.
pub fn band_pixels(
    width: usize,
    height: usize,
    scale: usize,
    start: usize,
    end: usize,
    band_colors: &Vec<Pixel>,
) -> (r: Vec<(usize, Pixel)>)
    requires
        scale > 0,
        width * height <= usize::MAX,
        start <= end <= height / scale,
        band_colors@.len() == (end - start) * (width / scale),
    ensures
        r@ == band_entries(width as int, scale as int, start as int, end as int, band_colors@),
{
    let sw = width / scale;
    let ghost w = width as int;
    let ghost s = scale as int;
    let ghost spec_entries = band_entries(w, s, start as int, end as int, band_colors@);
    proof {
        lemma_fundamental_div_mod(w, s);
        lemma_fundamental_div_mod(height as int, s);
        assert(sw * scale <= width) by (nonlinear_arith)
            requires
                sw == width / scale,
                scale > 0,
                width == scale * (width / scale) + width % scale,
                width % scale >= 0,
        ;
        assert(start * scale <= end * scale <= height) by (nonlinear_arith)
            requires
                start <= end <= height / scale,
                scale > 0,
                height == scale * (height / scale) + height % scale,
                height % scale >= 0,
        ;
    }
    let row_len = sw * scale;
    proof {
        assert((end - start) * sw <= width * height) by (nonlinear_arith)
            requires
                start <= end,
                end * scale <= height,
                sw * scale <= width,
                scale > 0,
        ;
        assert((end - start) * s * row_len == (end * s - start * s) * row_len) by (nonlinear_arith);
    }
    let y0 = start * scale;
    let y1 = end * scale;
    let mut out: Vec<(usize, Pixel)> = Vec::new();
    let mut y = y0;
    while y < y1
        invariant
            scale > 0,
            sw == width / scale,
            row_len == sw * scale,
            row_len <= width,
            y0 == start * scale,
            y1 == end * scale,
            y1 <= height,
            y0 <= y <= y1,
            width * height <= usize::MAX,
            band_colors@.len() == (end - start) * sw,
            (end - start) * sw <= width * height,
            spec_entries == band_entries(w, s, start as int, end as int, band_colors@),
            w == width,
            s == scale,
            spec_entries.len() == (y1 - y0) * row_len,
            out@.len() == (y - y0) * row_len,
            forall|k: int| 0 <= k < out@.len() ==> out@[k] == spec_entries[k],
        decreases y1 - y,
    {
        let mut x: usize = 0;
        proof {
            lemma_div_within(y as int, s, start as int, end as int);
            assert(y * width + row_len <= width * height) by (nonlinear_arith)
                requires
                    y < y1 <= height,
                    row_len <= width,
            ;
        }
        let sy = y / scale - start;
        while x < row_len
            invariant
                scale > 0,
                sw == width / scale,
                row_len == sw * scale,
                row_len <= width,
                y0 == start * scale,
                y1 == end * scale,
                y0 <= y < y1,
                start <= y / scale < end,
                sy == y / scale - start,
                y * width + row_len <= width * height,
                width * height <= usize::MAX,
                band_colors@.len() == (end - start) * sw,
                (end - start) * sw <= width * height,
                spec_entries == band_entries(w, s, start as int, end as int, band_colors@),
                w == width,
                s == scale,
                spec_entries.len() == (y1 - y0) * row_len,
                0 <= x <= row_len,
                out@.len() == (y - y0) * row_len + x,
                forall|k: int| 0 <= k < out@.len() ==> out@[k] == spec_entries[k],
            decreases row_len - x,
        {
            proof {
                lemma_div_within(x as int, s, 0, sw as int);
                lemma_grid_index(sy as int, (x / scale) as int, (end - start) as int, sw as int);
                let k = (y - y0) * row_len + x;
                lemma_fundamental_div_mod_converse(k, row_len as int, (y - y0) as int, x as int);
                assert(k < (y1 - y0) * row_len) by (nonlinear_arith)
                    requires
                        k == (y - y0) * row_len + x,
                        x < row_len,
                        y < y1,
                ;
            }
            let c = band_colors[sy * sw + x / scale];
            out.push((y * width + x, c));
            x += 1;
        }
        proof {
            assert((y - y0) * row_len + row_len == (y + 1 - y0) * row_len) by (nonlinear_arith);
        }
        y += 1;
    }
    proof {
        assert(out@ =~= spec_entries);
    }
    out
}

/// Applies the writes `pixels` to the buffer, first to last.
pub fn commit_pixels(buffer: &mut Vec<Pixel>, pixels: &Vec<(usize, Pixel)>)
    requires
        forall|k: int| 0 <= k < pixels@.len() ==> (#[trigger] pixels@[k]).0 < old(buffer)@.len(),
    ensures
        final(buffer)@ == committed(old(buffer)@, pixels@),
{
    let mut k: usize = 0;
    while k < pixels.len()
        invariant
            0 <= k <= pixels@.len(),
            buffer@.len() == old(buffer)@.len(),
            forall|j: int| 0 <= j < pixels@.len() ==> (#[trigger] pixels@[j]).0 < buffer@.len(),
            buffer@ == committed(old(buffer)@, pixels@.take(k as int)),
        decreases pixels@.len() - k,
    {
        let (idx, c) = pixels[k];
        buffer.set(idx, c);
        proof {
            assert(pixels@.take(k + 1).drop_last() =~= pixels@.take(k as int));
        }
        k += 1;
    }
    proof {
        assert(pixels@.take(k as int) =~= pixels@);
    }
}

} // verus!
