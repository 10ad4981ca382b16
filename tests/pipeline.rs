use synology_photo_frame::dither::{dither, floyd_steinberg_dither};
use synology_photo_frame::palette::Palette;
use synology_photo_frame::resize::mitchell_upscale;
use synology_photo_frame::ImageError;

fn black_white() -> Palette {
    Palette::from_colors(vec![(0, 0, 0), (255, 255, 255)]).unwrap()
}

fn solid(width: usize, height: usize, c: (u8, u8, u8)) -> Vec<u8> {
    let mut v = Vec::new();
    for _ in 0..width * height {
        v.push(c.0);
        v.push(c.1);
        v.push(c.2);
    }
    v
}

#[test]
fn resize_wide_source_fits_by_width() {
    let (out, w, h) = mitchell_upscale(solid(1200, 600, (10, 20, 30)), 1200, 600, 600, 600).unwrap();
    assert_eq!((w, h), (600, 300));
    assert_eq!(out.len(), 600 * 300 * 3);
    assert!(out.chunks(3).all(|p| p == [10, 20, 30]));
}

#[test]
fn resize_tall_source_fits_by_height() {
    let (out, w, h) = mitchell_upscale(solid(300, 900, (1, 2, 3)), 300, 900, 800, 480).unwrap();
    assert_eq!((w, h), (160, 480));
    assert_eq!(out.len(), 160 * 480 * 3);
}

#[test]
fn resize_touches_the_box_on_one_side() {
    for &(sw, sh, tw, th) in &[(7usize, 3usize, 5usize, 5usize), (3, 7, 5, 5), (4, 4, 9, 2), (5, 5, 5, 5), (1, 9, 3, 3)] {
        let (out, w, h) = mitchell_upscale(solid(sw, sh, (9, 9, 9)), sw, sh, tw, th).unwrap();
        assert!(w <= tw && h <= th);
        assert!(w == tw || h == th);
        assert_eq!(out.len(), w * h * 3);
    }
}

#[test]
fn resize_blends_bilinearly() {
    // 2x2 source: a dark column and a light column, upscaled to 4x4.
    let src = vec![0, 0, 0, 200, 200, 200, 0, 0, 0, 200, 200, 200];
    let (out, w, h) = mitchell_upscale(src, 2, 2, 4, 4).unwrap();
    assert_eq!((w, h), (4, 4));
    let row0: Vec<u8> = out[0..12].iter().step_by(3).cloned().collect();
    assert_eq!(row0, vec![0, 100, 200, 200]);
}

#[test]
fn resize_same_size_copies() {
    let src: Vec<u8> = (0..2 * 3 * 3).map(|v| (v * 13) as u8).collect();
    let (out, w, h) = mitchell_upscale(src.clone(), 3, 2, 3, 2).unwrap();
    assert_eq!((w, h), (3, 2));
    assert_eq!(out, src);
}

#[test]
fn resize_rejects_zero_sizes() {
    assert_eq!(mitchell_upscale(vec![], 0, 4, 10, 10), Err(ImageError::DegenerateInput));
    assert_eq!(mitchell_upscale(vec![], 4, 0, 10, 10), Err(ImageError::DegenerateInput));
    assert_eq!(mitchell_upscale(solid(2, 2, (0, 0, 0)), 2, 2, 0, 10), Err(ImageError::DegenerateInput));
    assert_eq!(mitchell_upscale(solid(2, 2, (0, 0, 0)), 2, 2, 10, 0), Err(ImageError::DegenerateInput));
}

#[test]
fn resize_rejects_short_buffer() {
    assert_eq!(mitchell_upscale(vec![0; 11], 2, 2, 10, 10), Err(ImageError::DimensionMismatch));
}

#[test]
fn dither_white_square_is_all_white() {
    let codes = dither(solid(2, 2, (255, 255, 255)), 2, 2, &black_white()).unwrap();
    assert_eq!(codes, vec![1, 1, 1, 1]);
}

#[test]
fn dither_vertical_strip() {
    let src = vec![0, 0, 0, 128, 128, 128, 255, 255, 255];
    let codes = dither(src, 1, 3, &black_white()).unwrap();
    assert_eq!(codes, vec![0, 1, 1]);
}

#[test]
fn dither_carries_error_downward() {
    // Alone, 100 is nearer black; the 100 diffused from above tips the
    // second pixel to white.
    let src = vec![100, 100, 100, 100, 100, 100];
    let codes = dither(src, 1, 2, &black_white()).unwrap();
    assert_eq!(codes, vec![0, 1]);
}

#[test]
fn dither_carries_error_right() {
    let src = vec![100, 100, 100, 100, 100, 100];
    let codes = dither(src, 2, 1, &black_white()).unwrap();
    assert_eq!(codes, vec![0, 1]);
}

#[test]
fn dither_length_is_pixel_count() {
    for &(w, h) in &[(1usize, 5usize), (5, 1), (3, 4), (0, 3), (4, 0)] {
        let codes = dither(solid(w, h, (90, 40, 200)), w, h, &Palette::display()).unwrap();
        assert_eq!(codes.len(), w * h);
        assert!(codes.iter().all(|&c| c < 8));
    }
}

#[test]
fn dither_exact_colours_keep_their_codes() {
    let palette = Palette::from_colors(vec![(0, 0, 0), (255, 0, 0), (0, 0, 255), (255, 255, 255)]).unwrap();
    let mut src = Vec::new();
    let pattern = [(255u8, 0u8, 0u8), (0, 0, 255), (255, 255, 255), (0, 0, 0), (0, 0, 255), (255, 0, 0)];
    for c in pattern.iter() {
        src.push(c.0);
        src.push(c.1);
        src.push(c.2);
    }
    let codes = dither(src, 3, 2, &palette).unwrap();
    assert_eq!(codes, vec![1, 2, 3, 0, 2, 1]);
}

#[test]
fn dither_rejects_mismatched_buffer() {
    assert_eq!(dither(vec![0; 10], 2, 2, &black_white()), Err(ImageError::DimensionMismatch));
}

#[test]
fn display_dither_uses_display_codes() {
    let mut src = Vec::new();
    for c in [(255u8, 0u8, 0u8), (255, 128, 0), (10, 240, 5), (0, 0, 250)].iter() {
        src.push(c.0);
        src.push(c.1);
        src.push(c.2);
    }
    let codes = floyd_steinberg_dither(4, src).unwrap();
    assert_eq!(codes, vec![4, 6, 2, 3]);
}

#[test]
fn display_dither_spreads_error() {
    let src = vec![200, 200, 200, 0, 0, 0];
    assert_eq!(floyd_steinberg_dither(2, src).unwrap(), vec![1, 0]);
}

#[test]
fn display_dither_infers_height() {
    let codes = floyd_steinberg_dither(3, solid(3, 4, (255, 255, 0))).unwrap();
    assert_eq!(codes, vec![5; 12]);
}

#[test]
fn display_dither_rejects_bad_width() {
    assert_eq!(floyd_steinberg_dither(0, vec![0; 6]), Err(ImageError::DimensionMismatch));
    assert_eq!(floyd_steinberg_dither(2, vec![0; 9]), Err(ImageError::DimensionMismatch));
}

#[test]
fn nearest_round_trip() {
    for palette in [black_white(), Palette::display()].iter() {
        for r in (0..=255u16).step_by(17) {
            for g in (0..=255u16).step_by(51) {
                let c = (r as u8, g as u8, (255 - r) as u8);
                let (code, back) = palette.nearest(c);
                assert_eq!(palette.nearest(back), (code, back));
            }
        }
    }
}

#[test]
fn nearest_of_display_colours() {
    let p = Palette::display();
    assert_eq!(p.len(), 8);
    assert_eq!(p.nearest((255, 255, 255)), (1, (255, 255, 255)));
    assert_eq!(p.nearest((130, 125, 128)), (7, (128, 128, 128)));
    assert_eq!(p.nearest((250, 120, 10)), (6, (255, 128, 0)));
}

#[test]
fn nearest_prefers_first_on_tie() {
    let p = Palette::from_colors(vec![(0, 0, 0), (2, 0, 0)]).unwrap();
    assert_eq!(p.nearest((1, 0, 0)), (0, (0, 0, 0)));
}

#[test]
fn palette_rejects_bad_tables() {
    assert!(Palette::from_colors(vec![]).is_none());
    assert!(Palette::from_colors(vec![(1, 2, 3), (4, 5, 6), (1, 2, 3)]).is_none());
    let many: Vec<(u8, u8, u8)> = (0..257u32).map(|i| ((i % 256) as u8, (i / 256) as u8, 0)).collect();
    assert!(Palette::from_colors(many).is_none());
    let full: Vec<(u8, u8, u8)> = (0..256u32).map(|i| (i as u8, 0, 0)).collect();
    assert_eq!(Palette::from_colors(full).unwrap().len(), 256);
}
