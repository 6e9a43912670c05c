use xtch_core::gray::{
    band, centre_on_page, content_box, content_box_of_labels, crop, cut_band, dims_from_bytes, dims_from_file_bytes, load_luma_file_bytes, fit, piece_source, spread_pictures, upright_trimmed, load_luma_bytes, page_to_png, png_data_url, preview_urls,
    rotate_cw, split_spread, trim, GrayImg,
};
use xtch_core::layout::{Band, Class, Source};
use xtch_core::xtch::Page;

fn img(w: u32, h: u32, px: Vec<u8>) -> GrayImg {
    GrayImg { width: w, height: h, pixels: px }
}

#[test]
fn crop_clips_to_the_image() {
    let a = img(3, 2, vec![1, 2, 3, 4, 5, 6]);
    let c = crop(&a, 1, 0, 5, 5);
    assert_eq!((c.width, c.height), (2, 2));
    assert_eq!(c.pixels, vec![2, 3, 5, 6]);
    let c = crop(&a, 5, 5, 1, 1);
    assert_eq!((c.width, c.height), (0, 0));
    assert!(c.pixels.is_empty());
    let c = crop(&a, 0, 1, 1, 1);
    assert_eq!(c.pixels, vec![4]);
}

#[test]
fn band_is_full_width() {
    let a = img(3, 2, vec![1, 2, 3, 4, 5, 6]);
    let b = band(&a, 1, 2);
    assert_eq!((b.width, b.height), (3, 1));
    assert_eq!(b.pixels, vec![4, 5, 6]);
    let b = band(&a, 1, 9);
    assert_eq!(b.pixels, vec![4, 5, 6]);
}

#[test]
fn rotate_clockwise() {
    // 1 2 3
    // 4 5 6
    let a = img(3, 2, vec![1, 2, 3, 4, 5, 6]);
    let r = rotate_cw(&a);
    assert_eq!((r.width, r.height), (2, 3));
    // 4 1
    // 5 2
    // 6 3
    assert_eq!(r.pixels, vec![4, 1, 5, 2, 6, 3]);
    let mut x = r;
    for _ in 0..3 {
        x = rotate_cw(&x);
    }
    assert_eq!((x.width, x.height), (3, 2));
    assert_eq!(x.pixels, a.pixels);
}

#[test]
fn spread_splits_at_midpoint() {
    let a = img(5, 2, vec![1, 2, 3, 4, 5, 6, 7, 8, 9, 10]);
    let (l, r) = split_spread(&a);
    assert_eq!((l.width, l.height), (2, 2));
    assert_eq!(l.pixels, vec![1, 2, 6, 7]);
    assert_eq!((r.width, r.height), (3, 2));
    assert_eq!(r.pixels, vec![3, 4, 5, 8, 9, 10]);
}

fn page_with_speck() -> GrayImg {
    // 5 x 5 white page, a 2 x 2 dark block at (1,1)..(2,2) and a dark speck at (4,4)
    let mut px = vec![255u8; 25];
    for (x, y) in [(1, 1), (2, 1), (1, 2), (2, 2), (4, 4)] {
        px[y * 5 + x] = 10;
    }
    img(5, 5, px)
}

#[test]
fn content_box_drops_small_marks() {
    let a = page_with_speck();
    assert_eq!(content_box(&a, 245, 2), Some((1, 1, 2, 2)));
    assert_eq!(content_box(&a, 245, 1), Some((1, 1, 4, 4)));
    assert_eq!(content_box(&a, 245, 5), None);
    assert_eq!(content_box(&a, 5, 1), None);
}

#[test]
fn trim_crops_to_content() {
    let a = page_with_speck();
    let t = trim(&a, 245, 2);
    assert_eq!((t.width, t.height), (2, 2));
    assert_eq!(t.pixels, vec![10, 10, 10, 10]);
}

#[test]
fn trim_without_content_keeps_the_image() {
    let a = page_with_speck();
    let t = trim(&a, 245, 100);
    assert_eq!((t.width, t.height), (5, 5));
    assert_eq!(t.pixels, a.pixels);
    let w = img(2, 2, vec![255; 4]);
    assert_eq!(trim(&w, 245, 1).pixels, vec![255; 4]);
}

#[test]
fn trim_diagonal_component_is_connected() {
    // two pixels touching at a corner form one component of area 2
    let mut px = vec![255u8; 16];
    px[0] = 0;
    px[5] = 0;
    let a = img(4, 4, px);
    assert_eq!(content_box(&a, 245, 2), Some((0, 0, 1, 1)));
}

#[test]
fn fit_centres_on_white() {
    let a = img(2, 2, vec![0; 4]);
    let f = fit(&a, 4, 2, true, 2, 2);
    assert_eq!((f.width, f.height), (4, 2));
    assert_eq!(f.pixels, vec![255, 0, 0, 255, 255, 0, 0, 255]);
    let f = fit(&a, 3, 3, true, 1, 1);
    assert_eq!(f.pixels.len(), 9);
    assert_eq!(f.pixels[4], 0);
    assert_eq!(f.pixels.iter().filter(|&&v| v == 255).count(), 8);
}

#[test]
fn fit_stretches() {
    let a = img(1, 1, vec![100]);
    let f = fit(&a, 3, 2, false, 0, 0);
    assert_eq!((f.width, f.height), (3, 2));
    assert_eq!(f.pixels, vec![100; 6]);
}

#[test]
fn png_round_trip() {
    let p = Page { width: 2, height: 3, gray: vec![0, 255, 85, 170, 255, 0] };
    let png = page_to_png(&p).unwrap();
    assert_eq!(&png[..8], &[0x89, b'P', b'N', b'G', 0x0D, 0x0A, 0x1A, 0x0A]);
    assert_eq!(dims_from_bytes(&png), Ok((2, 3)));
    let g = load_luma_bytes(&png).unwrap();
    assert_eq!((g.width, g.height), (2, 3));
    assert_eq!(g.pixels, p.gray);
}

#[test]
fn short_page_buffer_is_refused() {
    let p = Page { width: 2, height: 3, gray: vec![0; 5] };
    assert_eq!(page_to_png(&p), Err("invalid page buffer".to_string()));
}

#[test]
fn undecodable_bytes() {
    assert!(load_luma_bytes(b"not an image").is_err());
    assert!(dims_from_bytes(b"not an image").is_err());
}

#[test]
fn data_url_is_standard_base64() {
    assert_eq!(png_data_url(b"Man"), "data:image/png;base64,TWFu");
    assert_eq!(png_data_url(b"Ma"), "data:image/png;base64,TWE=");
    assert_eq!(png_data_url(b""), "data:image/png;base64,");
}

#[test]
fn preview_urls_per_page() {
    let pages = vec![
        Page { width: 1, height: 1, gray: vec![0] },
        Page { width: 2, height: 1, gray: vec![255, 0] },
    ];
    let urls = preview_urls(&pages).unwrap();
    assert_eq!(urls.len(), 2);
    for (u, p) in urls.iter().zip(&pages) {
        assert_eq!(u, &png_data_url(&page_to_png(p).unwrap()));
    }
    let bad = vec![Page { width: 1, height: 1, gray: vec![0] }, Page { width: 2, height: 2, gray: vec![0] }];
    assert_eq!(preview_urls(&bad), Err("invalid page buffer".to_string()));
    assert_eq!(preview_urls(&Vec::new()), Ok(Vec::new()));
}

#[test]
fn trim_single_white_pixel() {
    let a = img(1, 1, vec![250]);
    let t = trim(&a, 245, 1);
    assert_eq!((t.width, t.height), (1, 1));
    assert_eq!(t.pixels, vec![250]);
    let e = img(0, 3, vec![]);
    assert_eq!(content_box(&e, 245, 1), None);
}

#[test]
fn page_without_width_or_height_is_not_rendered() {
    assert!(page_to_png(&Page { width: 0, height: 3, gray: vec![] }).is_err());
    assert!(page_to_png(&Page { width: 4, height: 0, gray: vec![] }).is_err());
    let pages = vec![Page { width: 1, height: 1, gray: vec![9] }, Page { width: 0, height: 0, gray: vec![] }];
    assert!(preview_urls(&pages).is_err());
}

#[test]
fn centre_on_white_page() {
    let pic = img(2, 1, vec![1, 2]);
    let out = centre_on_page(&pic, 5, 3);
    assert_eq!((out.width, out.height), (5, 3));
    // offsets (1, 1)
    assert_eq!(out.pixels, vec![255, 255, 255, 255, 255, 255, 1, 2, 255, 255, 255, 255, 255, 255, 255]);
    let out = centre_on_page(&pic, 2, 1);
    assert_eq!(out.pixels, vec![1, 2]);
}

#[test]
fn sideways_page_is_turned_upright_then_trimmed() {
    // 3 wide, 2 tall; dark pixels at (0,0) and (1,0)
    let a = img(3, 2, vec![0, 0, 255, 255, 255, 255]);
    let t = upright_trimmed(&a, Class::Rotated, 245, 1);
    // rotated: 2 wide, 3 tall, [255, 0; 255, 0; 255, 255] -> content is column 1, rows 0..1
    assert_eq!((t.width, t.height), (1, 2));
    assert_eq!(t.pixels, vec![0, 0]);
    let t = upright_trimmed(&a, Class::Portrait, 245, 1);
    assert_eq!((t.width, t.height), (2, 1));
    assert_eq!(t.pixels, vec![0, 0]);
}

#[test]
fn spread_pictures_rotate_and_retrim_halves() {
    // 4 x 2 spread: left half has a dark pixel at (0,1), right half at (3,0)
    let a = img(4, 2, vec![255, 255, 255, 0, 0, 255, 255, 255]);
    let (rot, left, right) = spread_pictures(&a, 245, 1, 1);
    assert_eq!((rot.width, rot.height), (2, 4));
    assert_eq!(rot.pixels, vec![0, 255, 255, 255, 255, 255, 255, 0]);
    assert_eq!((left.width, left.height, left.pixels.clone()), (1, 1, vec![0]));
    assert_eq!((right.width, right.height, right.pixels.clone()), (1, 1, vec![0]));
}

#[test]
fn pieces_come_from_their_pictures() {
    let page = img(1, 4, vec![1, 2, 3, 4]);
    let pics = Some((img(1, 1, vec![7]), img(1, 1, vec![8]), img(1, 1, vec![9])));
    assert_eq!(piece_source(Source::Page, &page, &pics).pixels, vec![1, 2, 3, 4]);
    assert_eq!(piece_source(Source::SpreadRotated, &page, &pics).pixels, vec![7]);
    assert_eq!(piece_source(Source::LeftHalf, &page, &pics).pixels, vec![8]);
    assert_eq!(piece_source(Source::RightHalf, &page, &pics).pixels, vec![9]);
    assert_eq!(piece_source(Source::Page, &page, &None).pixels, vec![1, 2, 3, 4]);
    assert_eq!(cut_band(&page, Band::Full, (0, 0)).pixels, vec![1, 2, 3, 4]);
    assert_eq!(cut_band(&page, Band::Half(1), (2, 4)).pixels, vec![3, 4]);
    assert_eq!(cut_band(&page, Band::Third(1), (1, 3)).pixels, vec![2, 3]);
}

#[test]
fn png_decodes_to_the_page_and_zero_size_error_is_the_encoders() {
    let p = Page { width: 3, height: 1, gray: vec![0, 128, 255] };
    let png = page_to_png(&p).unwrap();
    assert_eq!(load_luma_bytes(&png).unwrap().pixels, vec![0, 128, 255]);
    let z = Page { width: 0, height: 2, gray: vec![] };
    let e = page_to_png(&z).unwrap_err();
    assert_eq!(preview_urls(&vec![z]), Err(e));
}

#[test]
fn content_box_from_labels() {
    // 3 x 2 labels: component 1 has 3 pixels, component 2 has 1
    let labels = vec![1, 1, 0, 0, 1, 2];
    assert_eq!(content_box_of_labels(&labels, 3, 2, 2), Some((0, 0, 1, 1)));
    assert_eq!(content_box_of_labels(&labels, 3, 2, 1), Some((0, 0, 2, 1)));
    assert_eq!(content_box_of_labels(&labels, 3, 2, 4), None);
    assert_eq!(content_box_of_labels(&vec![0, 0], 2, 1, 1), None);
}

#[test]
fn fit_same_size_keeps_the_picture() {
    let a = img(3, 2, vec![1, 2, 3, 4, 5, 6]);
    let f = fit(&a, 3, 2, false, 0, 0);
    assert_eq!(f.pixels, a.pixels);
    let f = fit(&a, 5, 2, true, 3, 2);
    assert_eq!(f.pixels, vec![255, 1, 2, 3, 255, 255, 4, 5, 6, 255]);
}

#[test]
fn fit_of_an_empty_picture_is_zeroed() {
    let e = img(0, 4, vec![]);
    assert_eq!(fit(&e, 2, 2, false, 0, 0).pixels, vec![0; 4]);
    assert_eq!(fit(&e, 3, 1, true, 1, 1).pixels, vec![255, 0, 255]);
}

#[test]
fn file_bytes_decode_in_the_format_of_their_extension() {
    let p = Page { width: 2, height: 2, gray: vec![0, 50, 100, 255] };
    let png = page_to_png(&p).unwrap();
    let g = load_luma_file_bytes("png", &png).unwrap();
    assert_eq!((g.width, g.height, g.pixels.clone()), (2, 2, vec![0, 50, 100, 255]));
    assert!(load_luma_file_bytes("PNG", &png).is_ok());
    assert_eq!(dims_from_file_bytes("png", &png), Ok((2, 2)));
    // the extension decides the format, not the content
    assert!(load_luma_file_bytes("jpg", &png).is_err());
    assert!(dims_from_file_bytes("bmp", &png).is_err());
    assert!(load_luma_file_bytes("txt", &png).is_err());
    assert!(dims_from_file_bytes("", &png).is_err());
}
