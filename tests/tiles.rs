use raytracer::pixel::Pixel;
use raytracer::tiles::{band_pixels, band_rows, commit_pixels, upscale_into, BAND_COUNT};

fn grey(v: u8) -> Pixel {
    Pixel::new(v, v, v, 255)
}

fn grid(n: usize) -> Vec<Pixel> {
    (0..n).map(|i| grey(i as u8 + 1)).collect()
}

fn render_in_bands(buffer: &mut Vec<Pixel>, width: usize, height: usize, scale: usize, colors: &[Pixel]) {
    let sw = width / scale;
    let sh = height / scale;
    for band in 0..BAND_COUNT {
        let (start, end) = band_rows(band, BAND_COUNT, sh);
        let band_colors = colors[start * sw..end * sw].to_vec();
        let writes = band_pixels(width, height, scale, start, end, &band_colors);
        commit_pixels(buffer, &writes);
    }
}

#[test]
fn band_rows_split_evenly_rounding_up() {
    assert_eq!(band_rows(0, 4, 150), (0, 38));
    assert_eq!(band_rows(1, 4, 150), (38, 76));
    assert_eq!(band_rows(2, 4, 150), (76, 114));
    assert_eq!(band_rows(3, 4, 150), (114, 150));
}

#[test]
fn band_rows_fewer_rows_than_bands() {
    assert_eq!(band_rows(0, 4, 3), (0, 1));
    assert_eq!(band_rows(2, 4, 3), (2, 3));
    assert_eq!(band_rows(3, 4, 3), (3, 3));
    assert_eq!(band_rows(1, 4, 0), (0, 0));
}

#[test]
fn band_rows_huge_height_does_not_overflow() {
    assert_eq!(band_rows(1, 2, usize::MAX), (usize::MAX / 2 + 1, usize::MAX));
}

#[test]
fn upscale_replicates_each_color_over_its_block() {
    // 5 x 3 buffer at scale 2: a 2 x 1 grid of blocks; column 4 and row 2 stay.
    let mut buffer = vec![Pixel::black(); 15];
    let colors = vec![grey(10), grey(20)];
    upscale_into(&mut buffer, 5, 3, 2, &colors);
    let a = grey(10);
    let b = grey(20);
    let k = Pixel::black();
    let expected = vec![
        a, a, b, b, k, //
        a, a, b, b, k, //
        k, k, k, k, k,
    ];
    assert_eq!(buffer, expected);
}

#[test]
fn upscale_at_scale_one_copies_the_grid() {
    let mut buffer = vec![Pixel::black(); 6];
    let colors = grid(6);
    upscale_into(&mut buffer, 3, 2, 1, &colors);
    assert_eq!(buffer, colors);
}

#[test]
fn upscale_scale_larger_than_frame_leaves_buffer() {
    let mut buffer = vec![grey(7); 6];
    upscale_into(&mut buffer, 3, 2, 4, &Vec::new());
    assert_eq!(buffer, vec![grey(7); 6]);
}

#[test]
fn band_pixels_lists_the_band_rows_in_order() {
    // 5 x 4 buffer at scale 2, second scaled row only.
    let band_colors = vec![grey(1), grey(2)];
    let writes = band_pixels(5, 4, 2, 1, 2, &band_colors);
    let expected = vec![
        (10, grey(1)),
        (11, grey(1)),
        (12, grey(2)),
        (13, grey(2)),
        (15, grey(1)),
        (16, grey(1)),
        (17, grey(2)),
        (18, grey(2)),
    ];
    assert_eq!(writes, expected);
}

#[test]
fn band_pixels_empty_band_writes_nothing() {
    let writes = band_pixels(8, 8, 2, 3, 3, &Vec::new());
    assert!(writes.is_empty());
}

#[test]
fn commit_applies_writes_in_order() {
    let mut buffer = vec![Pixel::black(); 4];
    commit_pixels(&mut buffer, &vec![(1, grey(5)), (3, grey(6)), (1, grey(9))]);
    assert_eq!(buffer, vec![Pixel::black(), grey(9), Pixel::black(), grey(6)]);
}

#[test]
fn banded_render_matches_single_pass() {
    for &(width, height, scale) in &[(7usize, 9usize, 2usize), (8, 8, 1), (13, 10, 4), (5, 2, 2)] {
        let colors = grid((width / scale) * (height / scale));
        let mut single = vec![grey(200); width * height];
        upscale_into(&mut single, width, height, scale, &colors);
        let mut banded = vec![grey(200); width * height];
        render_in_bands(&mut banded, width, height, scale, &colors);
        assert_eq!(single, banded);
    }
}

#[test]
fn banded_render_twice_is_identical() {
    let colors = grid(16);
    let mut first = vec![Pixel::black(); 64];
    render_in_bands(&mut first, 8, 8, 2, &colors);
    let mut second = vec![Pixel::black(); 64];
    render_in_bands(&mut second, 8, 8, 2, &colors);
    assert_eq!(first, second);
    assert_eq!(first[0], grey(1));
    assert_eq!(first[63], grey(16));
}

#[test]
fn any_band_count_matches_single_pass() {
    let (width, height, scale) = (11usize, 14usize, 2usize);
    let sw = width / scale;
    let sh = height / scale;
    let colors = grid(sw * sh);
    let mut single = vec![Pixel::black(); width * height];
    upscale_into(&mut single, width, height, scale, &colors);
    for bands in 1..=9 {
        let mut banded = vec![Pixel::black(); width * height];
        let mut next_row = 0;
        for band in 0..bands {
            let (start, end) = band_rows(band, bands, sh);
            assert_eq!(start, next_row);
            next_row = end;
            let writes = band_pixels(width, height, scale, start, end, &colors[start * sw..end * sw].to_vec());
            commit_pixels(&mut banded, &writes);
        }
        assert_eq!(next_row, sh);
        assert_eq!(single, banded);
    }
}
