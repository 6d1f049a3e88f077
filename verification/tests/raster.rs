use wbmaker::raster::{box_blur_alpha, flipped_top_half, Raster};

fn gray(w: u32, h: u32, f: impl Fn(u32, u32) -> u8) -> Raster {
    let mut pixels = Vec::new();
    for y in 0..h {
        for x in 0..w {
            let v = f(x, y);
            pixels.push([v, v, v, v]);
        }
    }
    Raster { width: w, height: h, pixels }
}

#[test]
fn flip_mirrors_the_top_half() {
    let img = gray(2, 5, |_, y| (y * 10) as u8);
    let out = flipped_top_half(&img);
    let rows: Vec<u8> = (0..5).map(|y| out.pixels[(y * 2) as usize][0]).collect();
    assert_eq!(rows, vec![0, 10, 20, 10, 0]);
    let img = gray(1, 4, |_, y| (y * 10) as u8);
    let out = flipped_top_half(&img);
    let rows: Vec<u8> = out.pixels.iter().map(|p| p[0]).collect();
    assert_eq!(rows, vec![0, 10, 10, 0]);
}

#[test]
fn law_mirror_is_idempotent_example() {
    let img = gray(3, 7, |x, y| (x * 7 + y * 13) as u8);
    let once = flipped_top_half(&img);
    let twice = flipped_top_half(&once);
    assert_eq!(once.pixels, twice.pixels);
}

#[test]
fn blur_values() {
    // a single opaque pixel in the middle of a 3x3 transparent image
    let img = gray(3, 3, |x, y| if x == 1 && y == 1 { 255 } else { 0 });
    let out = box_blur_alpha(&img, 1);
    let a: Vec<u8> = out.pixels.iter().map(|p| p[3]).collect();
    // corners see 4 pixels, edges 6, the centre 9
    assert_eq!(a, vec![63, 42, 63, 42, 28, 42, 63, 42, 63]);
    assert!(out.pixels.iter().all(|p| p[0] == 255 && p[1] == 255 && p[2] == 255));
    let out0 = box_blur_alpha(&img, 0);
    let a0: Vec<u8> = out0.pixels.iter().map(|p| p[3]).collect();
    assert_eq!(a0, vec![0, 0, 0, 0, 255, 0, 0, 0, 0]);
}

#[test]
fn law_blur_keeps_uniform_alpha_example() {
    let img = gray(4, 3, |_, _| 200);
    for r in [0, 1, 2, 50] {
        let out = box_blur_alpha(&img, r);
        assert!(out.pixels.iter().all(|p| p[3] == 200));
    }
}

#[test]
fn blur_empty_image() {
    let img = Raster { width: 0, height: 0, pixels: Vec::new() };
    assert!(box_blur_alpha(&img, 3).pixels.is_empty());
}

#[test]
fn flipped_top_half_removes_signature_line() {
    // A panel texture of the real height (737 rows): dark background that
    // varies by row, with the bright divider above the signature row at rows
    // 634-638 and nothing at their mirror rows.
    let (w, h) = (1059u32, 737u32);
    let mut pixels = Vec::new();
    for y in 0..h {
        for _x in 0..w {
            if (634..=638).contains(&y) {
                pixels.push([230, 230, 230, 255]);
            } else {
                let v = (10 + y % 40) as u8;
                pixels.push([v, v, v, 255]);
            }
        }
    }
    let im = Raster { width: w, height: h, pixels };
    let flipped = flipped_top_half(&im);
    let at = |r: &Raster, x: u32, y: u32| r.pixels[(y * r.width + x) as usize];
    for y in 634..=638 {
        for x in (0..flipped.width).step_by(16) {
            let p = at(&flipped, x, y);
            assert!(p[0] < 60 && p[1] < 60 && p[2] < 60, "row {y} px {x} still bright: {p:?}");
        }
    }
    // The top half is kept; the bottom half mirrors it.
    for (a, b) in [(0u32, 0u32), (100, 100), (636, 100), (368, 368)] {
        assert_eq!(at(&flipped, 50, a), at(&im, 50, b), "row {a} should mirror {b}");
    }
}

#[test]
fn law_blur_radius_zero_keeps_alpha_example() {
    let img = gray(4, 3, |x, y| (x * 50 + y * 17) as u8);
    let out = box_blur_alpha(&img, 0);
    for (p, q) in out.pixels.iter().zip(img.pixels.iter()) {
        assert_eq!(*p, [255, 255, 255, q[3]]);
    }
}
