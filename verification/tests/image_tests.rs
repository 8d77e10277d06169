use screen_translator_core::diff::{changed_cells, CellBounds, FrameSignature, SAMPLE_GRID};
use screen_translator_core::image::{box_sums, downscale};

#[test]
fn downscale_preserves_dimensions() {
    let src = vec![0u8; (400 * 300 * 4) as usize];
    let out = downscale(&src, 400, 300, 100, 75);
    assert_eq!(out.len(), 100 * 75 * 4);
    // Alpha is set to 255; BGR must stay 0.
    for (i, &v) in out.iter().enumerate() {
        if i % 4 != 3 {
            assert_eq!(v, 0, "byte {i}");
        } else {
            assert_eq!(v, 255, "alpha at {i}");
        }
    }
}

#[test]
fn downscale_is_identity_when_smaller() {
    let src = vec![7u8; (40 * 30 * 4) as usize];
    let out = downscale(&src, 40, 30, 40, 30);
    assert_eq!(out, src);
}

fn filled(w: u32, h: u32, bgr: (u8, u8, u8)) -> Vec<u8> {
    let mut px = Vec::new();
    for _ in 0..w * h {
        px.push(bgr.0);
        px.push(bgr.1);
        px.push(bgr.2);
        px.push(9);
    }
    px
}

#[test]
fn downscale_keeps_a_flat_colour() {
    let src = filled(10, 6, (10, 20, 30));
    let out = downscale(&src, 10, 6, 5, 3);
    assert_eq!(out.len(), 5 * 3 * 4);
    for p in out.chunks(4) {
        assert_eq!(p, &[10, 20, 30, 255]);
    }
}

#[test]
fn downscale_averages_each_box() {
    // 2x1 image, shrunk to 1x1: the average of the two pixels.
    let src = vec![0, 100, 200, 0, 10, 0, 101, 0];
    let out = downscale(&src, 2, 1, 1, 1);
    assert_eq!(out, vec![5, 50, 150, 255]);
}

#[test]
fn box_sums_add_each_channel() {
    let src = filled(3, 2, (1, 2, 3));
    assert_eq!(box_sums(&src, 3, 2, 0, 3, 0, 2), (6, 12, 18, 6));
    assert_eq!(box_sums(&src, 3, 2, 1, 3, 1, 2), (2, 4, 6, 2));
    assert_eq!(box_sums(&src, 3, 2, 2, 1, 0, 2), (0, 0, 0, 0));
}

fn grid(w: u32, h: u32, n: u32) -> Vec<CellBounds> {
    let mut v = Vec::new();
    for gy in 0..n {
        for gx in 0..n {
            v.push(CellBounds {
                x0: gx * w / n,
                x1: (gx + 1) * w / n,
                y0: gy * h / n,
                y1: (gy + 1) * h / n,
            });
        }
    }
    v
}

#[test]
fn identical_signatures_have_no_changed_cells() {
    let px = filled(48, 48, (100, 150, 200));
    let b = grid(48, 48, SAMPLE_GRID);
    let a = FrameSignature::from_cells(&px, 48, 48, &b);
    let c = FrameSignature::from_cells(&px, 48, 48, &b);
    assert_eq!(a.cells().len(), 576);
    assert_eq!(changed_cells(&a, &c), Some(0));
}

#[test]
fn cell_luma_is_weighted_average() {
    // (30 R + 59 G + 11 B) / 100 with B=100, G=150, R=200 -> 60 + 88.5 + 11 = 159
    let px = filled(4, 4, (100, 150, 200));
    let b = vec![CellBounds { x0: 0, x1: 4, y0: 0, y1: 4 }, CellBounds { x0: 2, x1: 2, y0: 0, y1: 4 }];
    let s = FrameSignature::from_cells(&px, 4, 4, &b);
    assert_eq!(s.cells(), &[159, 0]);
}

#[test]
fn different_signatures_count_changed_cells() {
    let b = grid(48, 48, SAMPLE_GRID);
    let a = FrameSignature::from_cells(&filled(48, 48, (200, 150, 100)), 48, 48, &b);
    let c = FrameSignature::from_cells(&filled(48, 48, (10, 10, 10)), 48, 48, &b);
    assert_eq!(changed_cells(&a, &c), Some(576));
    assert_eq!(changed_cells(&c, &a), Some(576));
    let short = FrameSignature::from_cells(&filled(48, 48, (10, 10, 10)), 48, 48, &b[..10].to_vec());
    assert_eq!(changed_cells(&a, &short), None);
}
