//! 8-bit grayscale images and the exact steps of page preparation: cropping,
//! rotation, content trimming and fitting to a page.

use vstd::prelude::*;
use vstd::string::StringExecFns;
use crate::xtch::Page;
use crate::layout::{Band, Class, Source};
use base64::Engine;

verus! {

/// An 8-bit grayscale image, row-major.
pub struct GrayImg {
    pub width: u32,
    pub height: u32,
    pub pixels: Vec<u8>,
}

impl GrayImg {
    /// There is exactly one byte per pixel.
    pub open spec fn wf(&self) -> bool {
        self.pixels@.len() == self.width * self.height
    }

    /// The gray value at column `x`, row `y`.
    pub open spec fn at(&self, x: int, y: int) -> u8 {
        self.pixels@[y * self.width + x]
    }
}

/// What a `GrayImg` holds, as mathematical values.
pub struct GrayView {
    pub width: u32,
    pub height: u32,
    pub pixels: Seq<u8>,
}

impl View for GrayImg {
    type V = GrayView;

    open spec fn view(&self) -> GrayView {
        GrayView { width: self.width, height: self.height, pixels: self.pixels@ }
    }
}

impl GrayView {
    /// There is exactly one byte per pixel.
    pub open spec fn wf(self) -> bool {
        self.pixels.len() == self.width * self.height
    }
}

/// The image that a crop gives: the `w` x `h` rectangle at (`x`, `y`), clipped to
/// the image, row-major.
pub open spec fn spec_crop(v: GrayView, x: u32, y: u32, w: u32, h: u32) -> GrayView {
    let (x0, y0, cw, ch) = crop_rect(v.width, v.height, x, y, w, h);
    GrayView {
        width: cw,
        height: ch,
        pixels: Seq::new((cw * ch) as nat, |j: int| v.pixels[(y0 + j / (cw as int)) * v.width + x0 + j % (cw as int)]),
    }
}

/// The full-width band of rows [y0, y1).
pub open spec fn spec_band(v: GrayView, y0: u32, y1: u32) -> GrayView {
    spec_crop(v, 0, y0, v.width, (y1 - y0) as u32)
}

/// The image turned 90 degrees clockwise: `height` wide, `width` tall; its pixel
/// (x, y) is the source pixel (y, height - 1 - x).
pub open spec fn spec_rotate_cw(v: GrayView) -> GrayView {
    GrayView {
        width: v.height,
        height: v.width,
        pixels: Seq::new(
            (v.width * v.height) as nat,
            |j: int| v.pixels[(v.height - 1 - j % (v.height as int)) * v.width + j / (v.height as int)],
        ),
    }
}

/// The left half of a spread: columns [0, width / 2).
pub open spec fn spec_left_half(v: GrayView) -> GrayView {
    spec_crop(v, 0, 0, v.width / 2, v.height)
}

/// The right half of a spread: columns [width / 2, width).
pub open spec fn spec_right_half(v: GrayView) -> GrayView {
    spec_crop(v, v.width / 2, 0, (v.width - v.width / 2) as u32, v.height)
}

proof fn lemma_index_in_bounds(x: int, y: int, w: int, h: int)
    requires
        0 <= x < w,
        0 <= y < h,
    ensures
        0 <= y * w + x < w * h,
{
    assert(0 <= y * w + x < w * h) by (nonlinear_arith)
        requires
            0 <= x < w,
            0 <= y < h,
    ;
}

/// Position `k` of a row-major `w`-wide grid is column `k % w` of row `k / w`,
/// and row `k / w` is below `h` when `k < w * h`.
proof fn lemma_grid_pos(k: int, w: int, h: int)
    requires
        0 <= k < w * h,
        0 <= w,
        0 <= h,
    ensures
        0 < w,
        0 <= k / w < h,
        0 <= k % w < w,
        k == (k / w) * w + k % w,
{
    assert(0 < w) by (nonlinear_arith)
        requires
            0 <= k < w * h,
            0 <= w,
            0 <= h,
    ;
    vstd::arithmetic::div_mod::lemma_fundamental_div_mod(k, w);
    vstd::arithmetic::div_mod::lemma_mod_pos_bound(k, w);
    vstd::arithmetic::div_mod::lemma_div_pos_is_pos(k, w);
    let q = k / w;
    let r = k % w;
    assert(q < h) by (nonlinear_arith)
        requires
            k == w * q + r,
            0 <= r,
            k < w * h,
            0 < w,
    ;
    assert(k == q * w + r) by (nonlinear_arith)
        requires
            k == w * q + r,
    ;
}

/// The rectangle that a crop keeps: the requested one, clipped to the image.
pub open spec fn crop_rect(img_w: u32, img_h: u32, x: u32, y: u32, w: u32, h: u32) -> (u32, u32, u32, u32) {
    let x0 = if x < img_w { x } else { img_w };
    let y0 = if y < img_h { y } else { img_h };
    let cw = if w < img_w - x0 { w } else { (img_w - x0) as u32 };
    let ch = if h < img_h - y0 { h } else { (img_h - y0) as u32 };
    (x0, y0, cw, ch)
}

/// A copy of the `w` x `h` rectangle at (`x`, `y`), clipped to the image.
pub fn crop(img: &GrayImg, x: u32, y: u32, w: u32, h: u32) -> (out: GrayImg)
    requires
        img.wf(),
    ensures
        out.wf(),
        ({
            let (x0, y0, cw, ch) = crop_rect(img.width, img.height, x, y, w, h);
            &&& out.width == cw
            &&& out.height == ch
            &&& forall|xx: int, yy: int| 0 <= xx < cw && 0 <= yy < ch ==> #[trigger] out.at(xx, yy) == img.at(x0 + xx, y0 + yy)
        }),
        out@ == spec_crop(img@, x, y, w, h),
{
    let iw = img.width;
    let ih = img.height;
    let x0 = if x < iw { x } else { iw };
    let y0 = if y < ih { y } else { ih };
    let cw = if w < iw - x0 { w } else { iw - x0 };
    let ch = if h < ih - y0 { h } else { ih - y0 };
    assert(cw * ch <= iw * ih) by (nonlinear_arith)
        requires
            cw <= iw,
            ch <= ih,
    ;
    let ghost len = img.pixels@.len();
    let glen = img.pixels.len();
    let n: usize = cw as usize * ch as usize;
    let mut px: Vec<u8> = Vec::with_capacity(n);
    let mut k: usize = 0;
    while k < n
        invariant
            k <= n,
            n == cw * ch,
            img.wf(),
            iw == img.width,
            ih == img.height,
            x0 + cw <= iw,
            y0 + ch <= ih,
            glen == img.pixels@.len(),
            px@.len() == k,
            cw > 0 ==> forall|j: int| 0 <= j < k ==> #[trigger] px@[j] == img.pixels@[(y0 + j / cw as int) * iw + x0 + j % cw as int],
        decreases n - k,
    {
        proof {
            lemma_grid_pos(k as int, cw as int, ch as int);
            lemma_index_in_bounds(x0 + k as int % cw as int, y0 + k as int / cw as int, iw as int, ih as int);
        }
        let r: usize = k / (cw as usize);
        let c: usize = k % (cw as usize);
        let idx: usize = (y0 as usize + r) * (iw as usize) + (x0 as usize + c);
        px.push(img.pixels[idx]);
        k = k + 1;
    }
    let out = GrayImg { width: cw, height: ch, pixels: px };
    proof {
        let sv = spec_crop(img@, x, y, w, h);
        assert(sv.width == cw && sv.height == ch);
        assert(sv.pixels.len() == px@.len());
        if cw > 0 {
            assert forall|j: int| 0 <= j < px@.len() implies px@[j] == sv.pixels[j] by {}
        }
        assert(out.pixels@ =~= sv.pixels);
    }
    assert forall|xx: int, yy: int| 0 <= xx < cw && 0 <= yy < ch implies #[trigger] out.at(xx, yy) == img.at(x0 + xx, y0 + yy) by {
        let j = yy * cw + xx;
        lemma_index_in_bounds(xx, yy, cw as int, ch as int);
        vstd::arithmetic::div_mod::lemma_fundamental_div_mod_converse(j, cw as int, yy, xx);
    }
    out
}

/// Crop a horizontal band [y0,y1) (full width) from an image.
pub fn band(img: &GrayImg, y0: u32, y1: u32) -> (out: GrayImg)
    requires
        img.wf(),
        y0 <= y1,
    ensures
        out.wf(),
        ({
            let (x0, ys, cw, ch) = crop_rect(img.width, img.height, 0, y0, img.width, (y1 - y0) as u32);
            &&& out.width == cw
            &&& out.height == ch
            &&& forall|xx: int, yy: int| 0 <= xx < cw && 0 <= yy < ch ==> #[trigger] out.at(xx, yy) == img.at(x0 + xx, ys + yy)
        }),
        out@ == spec_band(img@, y0, y1),
{
    crop(img, 0, y0, img.width, y1 - y0)
}

/// Rotate 90 degrees clockwise: the result is `height` wide and `width` tall, and
/// its pixel (x, y) is the source pixel (y, height - 1 - x).
pub fn rotate_cw(img: &GrayImg) -> (out: GrayImg)
    requires
        img.wf(),
    ensures
        out.wf(),
        out.width == img.height,
        out.height == img.width,
        forall|x: int, y: int| 0 <= x < img.height && 0 <= y < img.width ==> #[trigger] out.at(x, y) == img.at(y, img.height - 1 - x),
        out@ == spec_rotate_cw(img@),
{
    let iw = img.width;
    let ih = img.height;
    let glen = img.pixels.len();
    assert(ih * iw == iw * ih) by (nonlinear_arith);
    let n: usize = glen;
    let mut px: Vec<u8> = Vec::with_capacity(n);
    let mut k: usize = 0;
    while k < n
        invariant
            k <= n,
            n == ih * iw,
            img.wf(),
            iw == img.width,
            ih == img.height,
            glen == img.pixels@.len(),
            px@.len() == k,
            ih > 0 ==> forall|j: int| 0 <= j < k ==> #[trigger] px@[j] == img.pixels@[(ih - 1 - j % ih as int) * iw + j / ih as int],
        decreases n - k,
    {
        proof {
            lemma_grid_pos(k as int, ih as int, iw as int);
            lemma_index_in_bounds(k as int / ih as int, ih - 1 - k as int % ih as int, iw as int, ih as int);
        }
        let xo: usize = k % (ih as usize);
        let yo: usize = k / (ih as usize);
        let idx: usize = (ih as usize - 1 - xo) * (iw as usize) + yo;
        px.push(img.pixels[idx]);
        k = k + 1;
    }
    let out = GrayImg { width: ih, height: iw, pixels: px };
    proof {
        let sv = spec_rotate_cw(img@);
        assert(sv.pixels.len() == px@.len());
        assert forall|j: int| 0 <= j < px@.len() implies px@[j] == sv.pixels[j] by {
            assert(ih > 0) by (nonlinear_arith)
                requires
                    px@.len() == ih * iw,
                    0 <= j < px@.len(),
            ;
            assert(sv.pixels[j] == img.pixels@[(ih - 1 - j % ih as int) * iw + j / ih as int]);
        }
        assert(out.pixels@ =~= sv.pixels);
    }
    assert forall|x: int, y: int| 0 <= x < ih && 0 <= y < iw implies #[trigger] out.at(x, y) == img.at(y, ih - 1 - x) by {
        let j = y * ih + x;
        lemma_index_in_bounds(x, y, ih as int, iw as int);
        vstd::arithmetic::div_mod::lemma_fundamental_div_mod_converse(j, ih as int, y, x);
    }
    out
}

/// Split a double-page spread at its horizontal midpoint (`width / 2`): the left
/// half and the right half, full height.
pub fn split_spread(img: &GrayImg) -> (halves: (GrayImg, GrayImg))
    requires
        img.wf(),
    ensures
        halves.0.wf(),
        halves.1.wf(),
        halves.0.width == img.width / 2,
        halves.0.height == img.height,
        halves.1.width == img.width - img.width / 2,
        halves.1.height == img.height,
        forall|x: int, y: int| 0 <= x < halves.0.width && 0 <= y < img.height ==> #[trigger] halves.0.at(x, y) == img.at(x, y),
        forall|x: int, y: int| 0 <= x < halves.1.width && 0 <= y < img.height ==> #[trigger] halves.1.at(x, y) == img.at(img.width / 2 + x, y),
        halves.0@ == spec_left_half(img@),
        halves.1@ == spec_right_half(img@),
{
    let w = img.width;
    let h = img.height;
    let mid = w / 2;
    let left = crop(img, 0, 0, mid, h);
    let right = crop(img, mid, 0, w - mid, h);
    (left, right)
}

/// A copy of an image.
pub fn copy_image(img: &GrayImg) -> (out: GrayImg)
    ensures
        out.width == img.width,
        out.height == img.height,
        out.pixels@ == img.pixels@,
        out@ == img@,
{
    let px = img.pixels.clone();
    assert(px@ =~= img.pixels@);
    GrayImg { width: img.width, height: img.height, pixels: px }
}

/// Foreground mask for trimming: 255 where the pixel is darker than the
/// near-white threshold, 0 elsewhere.
pub open spec fn fg_mask(px: Seq<u8>, white_thresh: u8) -> Seq<u8> {
    Seq::new(px.len(), |i: int| if px[i] < white_thresh { 255u8 } else { 0u8 })
}

/// Positions `i` and `j` of a row-major `w`-wide grid are different pixels that
/// touch, at a side or a corner.
pub open spec fn adjacent8(i: int, j: int, w: u32) -> bool {
    &&& w > 0
    &&& i != j
    &&& -1 <= i % (w as int) - j % (w as int) <= 1
    &&& -1 <= i / (w as int) - j / (w as int) <= 1
}

/// The labelling of 8-connected foreground components of a `w` x `h` mask that
/// `imageproc::region_labelling::connected_components` computes (background 0).
pub uninterp spec fn component_labels(mask: Seq<u8>, w: u32, h: u32) -> Seq<u32>;

/// Calls `imageproc::region_labelling::connected_components` on a mask of 0
/// (background) and 255 (foreground) bytes with 8-connectivity and background 0,
/// and returns the labels row-major. Claimed: the result is the labelling named
/// `component_labels`; it has one label per pixel; a label is 0 exactly on
/// background pixels; labels count up from 1, one per component, so every label
/// is below the number of pixels (a mask of two or more pixels that is all
/// foreground is one component); two touching foreground pixels (side or
/// corner) have the same label. The function panics for 2^32 pixels or more;
/// on a single-pixel image whose pixel is foreground (its provisional label 1 is
/// out of the range of its union-find forest of one entry); and on masks with
/// other byte values, whose differing neighbours can take provisional labels up
/// to the pixel count. `requires` leaves these out.
#[verifier::external_body]
fn label_components(mask: &Vec<u8>, w: u32, h: u32) -> (labels: Vec<u32>)
    requires
        mask@.len() == w * h,
        w * h < 0x1_0000_0000,
        forall|i: int| 0 <= i < mask@.len() ==> #[trigger] mask@[i] == 0 || mask@[i] == 255,
        w * h == 1 ==> mask@[0] == 0,
    ensures
        labels@ == component_labels(mask@, w, h),
        labels@.len() == w * h,
        forall|i: int| 0 <= i < labels@.len() ==> (#[trigger] labels@[i] == 0) == (mask@[i] == 0),
        forall|i: int| 0 <= i < labels@.len() ==> #[trigger] labels@[i] < w * h,
        forall|i: int, j: int|
            0 <= i < labels@.len() && 0 <= j < labels@.len() && #[trigger] adjacent8(i, j, w) && mask@[i] != 0
                && mask@[j] != 0 ==> labels@[i] == labels@[j],
{
    let img = ::image::GrayImage::from_raw(w, h, mask.clone()).unwrap();
    let out = ::imageproc::region_labelling::connected_components(
        &img,
        ::imageproc::region_labelling::Connectivity::Eight,
        ::image::Luma([0u8]),
    );
    out.into_raw()
}

/// Number of positions before `k` that carry label `l`.
pub open spec fn label_area(labels: Seq<u32>, l: u32, k: int) -> nat
    decreases k,
{
    if k <= 0 {
        0
    } else {
        label_area(labels, l, k - 1) + if labels[k - 1] == l {
            1nat
        } else {
            0nat
        }
    }
}

proof fn lemma_label_area_bound(labels: Seq<u32>, l: u32, k: int)
    requires
        0 <= k,
    ensures
        label_area(labels, l, k) <= k,
    decreases k,
{
    if k > 0 {
        lemma_label_area_bound(labels, l, k - 1);
    }
}

/// Pixel `i` belongs to a component of at least `min_area` pixels.
pub open spec fn kept(labels: Seq<u32>, min_area: u32, i: int) -> bool {
    labels[i] != 0 && label_area(labels, labels[i], labels.len() as int) >= min_area
}

/// `b = (x0, y0, x1, y1)` is the bounding box of the kept pixels of a `w`-wide
/// labelling: every kept pixel lies inside, and each side touches a kept pixel.
pub open spec fn is_content_box(labels: Seq<u32>, w: u32, min_area: u32, b: (u32, u32, u32, u32)) -> bool {
    &&& forall|i: int| 0 <= i < labels.len() && #[trigger] kept(labels, min_area, i) ==> {
        &&& b.0 <= i % (w as int) <= b.2
        &&& b.1 <= i / (w as int) <= b.3
    }
    &&& exists|i: int| 0 <= i < labels.len() && #[trigger] kept(labels, min_area, i) && i % (w as int) == b.0
    &&& exists|i: int| 0 <= i < labels.len() && #[trigger] kept(labels, min_area, i) && i % (w as int) == b.2
    &&& exists|i: int| 0 <= i < labels.len() && #[trigger] kept(labels, min_area, i) && i / (w as int) == b.1
    &&& exists|i: int| 0 <= i < labels.len() && #[trigger] kept(labels, min_area, i) && i / (w as int) == b.3
}

/// The bounding box of the large components, if any pixel belongs to one.
pub open spec fn spec_content_box(labels: Seq<u32>, w: u32, min_area: u32) -> Option<(u32, u32, u32, u32)> {
    if exists|i: int| 0 <= i < labels.len() && #[trigger] kept(labels, min_area, i) {
        Some(choose|b: (u32, u32, u32, u32)| is_content_box(labels, w, min_area, b))
    } else {
        None
    }
}

proof fn lemma_content_box_unique(labels: Seq<u32>, w: u32, min_area: u32, b: (u32, u32, u32, u32), c: (u32, u32, u32, u32))
    requires
        is_content_box(labels, w, min_area, b),
        is_content_box(labels, w, min_area, c),
    ensures
        b == c,
{
    let i0 = choose|i: int| 0 <= i < labels.len() && #[trigger] kept(labels, min_area, i) && i % (w as int) == b.0;
    let j0 = choose|i: int| 0 <= i < labels.len() && #[trigger] kept(labels, min_area, i) && i % (w as int) == c.0;
    let i1 = choose|i: int| 0 <= i < labels.len() && #[trigger] kept(labels, min_area, i) && i / (w as int) == b.1;
    let j1 = choose|i: int| 0 <= i < labels.len() && #[trigger] kept(labels, min_area, i) && i / (w as int) == c.1;
    let i2 = choose|i: int| 0 <= i < labels.len() && #[trigger] kept(labels, min_area, i) && i % (w as int) == b.2;
    let j2 = choose|i: int| 0 <= i < labels.len() && #[trigger] kept(labels, min_area, i) && i % (w as int) == c.2;
    let i3 = choose|i: int| 0 <= i < labels.len() && #[trigger] kept(labels, min_area, i) && i / (w as int) == b.3;
    let j3 = choose|i: int| 0 <= i < labels.len() && #[trigger] kept(labels, min_area, i) && i / (w as int) == c.3;
    assert(kept(labels, min_area, i0) && kept(labels, min_area, j0));
    assert(kept(labels, min_area, i1) && kept(labels, min_area, j1));
    assert(kept(labels, min_area, i2) && kept(labels, min_area, j2));
    assert(kept(labels, min_area, i3) && kept(labels, min_area, j3));
}

/// The content box holds the whole of every kept component: a pixel with the
/// label of a kept pixel (such as a dark pixel touching it, by the labelling
/// that `content_box` states) lies inside the box too.
pub proof fn lemma_box_holds_component(labels: Seq<u32>, w: u32, min_area: u32, b: (u32, u32, u32, u32), i: int, j: int)
    requires
        is_content_box(labels, w, min_area, b),
        0 <= i < labels.len(),
        0 <= j < labels.len(),
        kept(labels, min_area, i),
        labels[j] == labels[i],
    ensures
        b.0 <= j % (w as int) <= b.2,
        b.1 <= j / (w as int) <= b.3,
{
    assert(kept(labels, min_area, j));
}

/// An image that the component labelling takes: fewer than 2^32 pixels, and not
/// a single dark pixel.
pub open spec fn trimmable(v: GrayView, white_thresh: u8) -> bool {
    &&& v.width * v.height < 0x1_0000_0000
    &&& v.width * v.height == 1 ==> v.pixels[0] >= white_thresh
}

/// The image that trimming gives: the crop to the bounding box of the dark
/// components of at least `min_area` pixels, or the image itself when there is
/// none.
pub open spec fn spec_trim(v: GrayView, white_thresh: u8, min_area: u32) -> GrayView {
    match spec_content_box(component_labels(fg_mask(v.pixels, white_thresh), v.width, v.height), v.width, min_area) {
        None => v,
        Some(b) => spec_crop(v, b.0, b.1, (b.2 - b.0 + 1) as u32, (b.3 - b.1 + 1) as u32),
    }
}

/// Bounding box (x0, y0, x1, y1), inclusive, of the pixels that belong to
/// 8-connected dark components of at least `min_area` pixels; `None` when there
/// is none. Small isolated marks (page numbers, watermarks, specks) do not count.
/// The labelling cannot take a single-pixel image whose pixel is dark.
pub fn content_box(img: &GrayImg, white_thresh: u8, min_area: u32) -> (r: Option<(u32, u32, u32, u32)>)
    requires
        img.wf(),
        trimmable(img@, white_thresh),
    ensures
        r == spec_content_box(
            component_labels(fg_mask(img.pixels@, white_thresh), img.width, img.height),
            img.width,
            min_area,
        ),
        r matches Some(b) ==> b.0 <= b.2 < img.width && b.1 <= b.3 < img.height,
        (forall|i: int| 0 <= i < img.pixels@.len() ==> #[trigger] img.pixels@[i] >= white_thresh) ==> r is None,
        ({
            let lab = component_labels(fg_mask(img.pixels@, white_thresh), img.width, img.height);
            forall|i: int, j: int|
                0 <= i < img.pixels@.len() && 0 <= j < img.pixels@.len() && #[trigger] adjacent8(i, j, img.width)
                    && img.pixels@[i] < white_thresh && img.pixels@[j] < white_thresh ==> lab[i] == lab[j]
        }),
{
    let w = img.width;
    let h = img.height;
    let n = img.pixels.len();
    let mut mask: Vec<u8> = Vec::with_capacity(n);
    let mut k: usize = 0;
    while k < n
        invariant
            n == img.pixels@.len(),
            k <= n,
            mask@ =~= fg_mask(img.pixels@, white_thresh).take(k as int),
        decreases n - k,
    {
        let v: u8 = if img.pixels[k] < white_thresh { 255 } else { 0 };
        mask.push(v);
        k = k + 1;
    }
    assert(mask@ =~= fg_mask(img.pixels@, white_thresh));
    let labels = label_components(&mask, w, h);
    let r = content_box_of_labels(&labels, w, h, min_area);
    proof {
        if forall|i: int| 0 <= i < img.pixels@.len() ==> #[trigger] img.pixels@[i] >= white_thresh {
            assert forall|i: int| 0 <= i < labels@.len() implies #[trigger] labels@[i] == 0 by {
                assert(img.pixels@[i] >= white_thresh);
                assert(mask@[i] == 0);
            }
        }
    }
    r
}

/// Bounding box (x0, y0, x1, y1), inclusive, of the pixels of a `w` x `h`
/// labelling (row-major, 0 for background) whose label covers at least
/// `min_area` pixels; `None` when there is none. The labels must be below the
/// pixel count, so that the table of label areas has one entry per label.
pub fn content_box_of_labels(labels: &Vec<u32>, w: u32, h: u32, min_area: u32) -> (r: Option<(u32, u32, u32, u32)>)
    requires
        labels@.len() == w * h,
        w * h < 0x1_0000_0000,
        forall|i: int| 0 <= i < labels@.len() ==> #[trigger] labels@[i] < w * h,
    ensures
        r == spec_content_box(labels@, w, min_area),
        r matches Some(b) ==> b.0 <= b.2 < w && b.1 <= b.3 < h,
        (forall|i: int| 0 <= i < labels@.len() ==> #[trigger] labels@[i] == 0) ==> r is None,
{
    let n = labels.len();
    let ghost lab = labels@;
    // largest label
    let mut ncomp: u32 = 0;
    let mut k: usize = 0;
    while k < n
        invariant
            n == lab.len(),
            lab == labels@,
            n == w * h,
            k <= n,
            ncomp < w * h || (ncomp == 0 && w * h == 0),
            forall|j: int| 0 <= j < k ==> #[trigger] lab[j] <= ncomp,
            forall|j: int| 0 <= j < n ==> #[trigger] lab[j] < w * h,
            ncomp > 0 ==> exists|j: int| 0 <= j < k && #[trigger] lab[j] == ncomp,
        decreases n - k,
    {
        if labels[k] > ncomp {
            ncomp = labels[k];
            assert(lab[k as int] == ncomp);
        }
        k = k + 1;
    }
    proof {
        if ncomp > 0 {
            let j = choose|j: int| 0 <= j < n && #[trigger] lab[j] == ncomp;
            assert(lab[j] != 0);
        }
    }
    if ncomp == 0 {
        assert forall|i: int| 0 <= i < lab.len() implies !#[trigger] kept(lab, min_area, i) by {
            assert(lab[i] <= ncomp);
        }
        return None;
    }
    // area of each component
    let size: usize = ncomp as usize + 1;
    let mut areas: Vec<u32> = vec![0u32; size];
    let mut k: usize = 0;
    while k < n
        invariant
            n == lab.len(),
            lab == labels@,
            n == w * h,
            n < 0x1_0000_0000,
            k <= n,
            areas@.len() == size,
            size == ncomp + 1,
            forall|j: int| 0 <= j < n ==> #[trigger] lab[j] <= ncomp,
            forall|l: int| 0 <= l < size ==> #[trigger] areas@[l] == label_area(lab, l as u32, k as int),
        decreases n - k,
    {
        let l = labels[k] as usize;
        proof {
            lemma_label_area_bound(lab, l as u32, k as int);
        }
        let a = areas[l];
        areas.set(l, a + 1);
        k = k + 1;
    }
    // bounding box of the kept pixels
    let mut any = false;
    let mut x0: u32 = w;
    let mut y0: u32 = h;
    let mut x1: u32 = 0;
    let mut y1: u32 = 0;
    let ghost mut wx0: int = 0;
    let ghost mut wy0: int = 0;
    let ghost mut wx1: int = 0;
    let ghost mut wy1: int = 0;
    let mut k: usize = 0;
    while k < n
        invariant
            n == lab.len(),
            lab == labels@,
            n == w * h,
            k <= n,
            areas@.len() == size,
            size == ncomp + 1,
            forall|j: int| 0 <= j < n ==> #[trigger] lab[j] <= ncomp,
            forall|l: int| 0 <= l < size ==> #[trigger] areas@[l] == label_area(lab, l as u32, n as int),
            any == exists|j: int| 0 <= j < k && #[trigger] kept(lab, min_area, j),
            any ==> forall|j: int| 0 <= j < k && #[trigger] kept(lab, min_area, j) ==> {
                &&& x0 <= j % (w as int) <= x1
                &&& y0 <= j / (w as int) <= y1
            },
            any ==> {
                &&& 0 <= wx0 < k && kept(lab, min_area, wx0) && wx0 % (w as int) == x0
                &&& 0 <= wx1 < k && kept(lab, min_area, wx1) && wx1 % (w as int) == x1
                &&& 0 <= wy0 < k && kept(lab, min_area, wy0) && wy0 / (w as int) == y0
                &&& 0 <= wy1 < k && kept(lab, min_area, wy1) && wy1 / (w as int) == y1
            },
        decreases n - k,
    {
        let l = labels[k];
        proof {
            assert(areas@[l as int] == label_area(lab, l, n as int));
            assert(kept(lab, min_area, k as int) == (l != 0 && areas@[l as int] >= min_area));
        }
        if l != 0 && areas[l as usize] >= min_area {
            proof {
                lemma_grid_pos(k as int, w as int, h as int);
            }
            let x: u32 = (k % (w as usize)) as u32;
            let y: u32 = (k / (w as usize)) as u32;
            if !any {
                x0 = x;
                x1 = x;
                y0 = y;
                y1 = y;
                proof {
                    wx0 = k as int;
                    wx1 = k as int;
                    wy0 = k as int;
                    wy1 = k as int;
                }
            } else {
                if x < x0 {
                    x0 = x;
                    proof {
                        wx0 = k as int;
                    }
                }
                if x > x1 {
                    x1 = x;
                    proof {
                        wx1 = k as int;
                    }
                }
                if y < y0 {
                    y0 = y;
                    proof {
                        wy0 = k as int;
                    }
                }
                if y > y1 {
                    y1 = y;
                    proof {
                        wy1 = k as int;
                    }
                }
            }
            any = true;
            assert(kept(lab, min_area, k as int));
        }
        k = k + 1;
    }
    if !any {
        return None;
    }
    let b = (x0, y0, x1, y1);
    assert(is_content_box(lab, w, min_area, b)) by {
        assert(kept(lab, min_area, wx0));
        assert(kept(lab, min_area, wx1));
        assert(kept(lab, min_area, wy0));
        assert(kept(lab, min_area, wy1));
    }
    let ghost c = choose|c: (u32, u32, u32, u32)| is_content_box(lab, w, min_area, c);
    proof {
        lemma_content_box_unique(lab, w, min_area, b, c);
        lemma_content_box_in_image(lab, w, h, min_area, b);
    }
    Some(b)
}

proof fn lemma_content_box_in_image(labels: Seq<u32>, w: u32, h: u32, min_area: u32, b: (u32, u32, u32, u32))
    requires
        labels.len() == w * h,
        is_content_box(labels, w, min_area, b),
    ensures
        b.0 <= b.2 < w,
        b.1 <= b.3 < h,
{
    let i0 = choose|i: int| 0 <= i < labels.len() && #[trigger] kept(labels, min_area, i) && i % (w as int) == b.0;
    let i2 = choose|i: int| 0 <= i < labels.len() && #[trigger] kept(labels, min_area, i) && i % (w as int) == b.2;
    let i1 = choose|i: int| 0 <= i < labels.len() && #[trigger] kept(labels, min_area, i) && i / (w as int) == b.1;
    let i3 = choose|i: int| 0 <= i < labels.len() && #[trigger] kept(labels, min_area, i) && i / (w as int) == b.3;
    lemma_grid_pos(i2, w as int, h as int);
    lemma_grid_pos(i3, w as int, h as int);
    assert(kept(labels, min_area, i0));
    assert(kept(labels, min_area, i1));
}

/// Connected-component trim: crop to the bounding box of the dark components of
/// at least `min_area` pixels, dropping small isolated marks (page numbers,
/// watermarks, specks). An image without such a component is returned unchanged.
/// The labelling cannot take a single-pixel image whose pixel is dark.
pub fn trim(img: &GrayImg, white_thresh: u8, min_area: u32) -> (out: GrayImg)
    requires
        img.wf(),
        trimmable(img@, white_thresh),
    ensures
        out.wf(),
        match spec_content_box(
            component_labels(fg_mask(img.pixels@, white_thresh), img.width, img.height),
            img.width,
            min_area,
        ) {
            None => out.width == img.width && out.height == img.height && out.pixels@ == img.pixels@,
            Some(b) => {
                &&& b.0 <= b.2 < img.width
                &&& b.1 <= b.3 < img.height
                &&& out.width == b.2 - b.0 + 1
                &&& out.height == b.3 - b.1 + 1
                &&& forall|xx: int, yy: int| 0 <= xx < out.width && 0 <= yy < out.height ==> #[trigger] out.at(xx, yy) == img.at(b.0 + xx, b.1 + yy)
            },
        },
        out@ == spec_trim(img@, white_thresh, min_area),
        (forall|i: int| 0 <= i < img.pixels@.len() ==> #[trigger] img.pixels@[i] >= white_thresh) ==> {
            &&& out.width == img.width
            &&& out.height == img.height
            &&& out.pixels@ == img.pixels@
        },
{
    match content_box(img, white_thresh, min_area) {
        None => copy_image(img),
        Some((x0, y0, x1, y1)) => {
            crop(img, x0, y0, x1 - x0 + 1, y1 - y0 + 1)
        },
    }
}

proof fn lemma_unit_area(w: u32, h: u32)
    requires
        w * h == 1,
    ensures
        w == 1,
        h == 1,
{
    assert(w == 1 && h == 1) by (nonlinear_arith)
        requires
            w * h == 1,
    ;
}

/// The page a source image gives before it is cut into pieces: turned upright
/// first when it is a page stored sideways, then trimmed to its content (before
/// any split, so halves and thirds divide content, not margins).
pub fn upright_trimmed(img: &GrayImg, class: Class, white_thresh: u8, min_area: u32) -> (out: GrayImg)
    requires
        img.wf(),
        trimmable(img@, white_thresh),
    ensures
        out.wf(),
        out@ == spec_trim(
            if class == Class::Rotated {
                spec_rotate_cw(img@)
            } else {
                img@
            },
            white_thresh,
            min_area,
        ),
{
    match class {
        Class::Rotated => {
            let r = rotate_cw(img);
            proof {
                assert(r.width * r.height == img.width * img.height) by (nonlinear_arith)
                    requires
                        r.width == img.height,
                        r.height == img.width,
                ;
                if r.width * r.height == 1 {
                    lemma_unit_area(r.width, r.height);
                    assert(r.at(0, 0) == img.at(0, 0));
                }
            }
            trim(&r, white_thresh, min_area)
        },
        _ => trim(img, white_thresh, min_area),
    }
}

/// The pictures of a (trimmed) double-page spread: the whole spread rotated
/// clockwise, and its left and right halves, each trimmed again to clean the
/// inner gutter.
pub fn spread_pictures(timg: &GrayImg, white_thresh: u8, min_left: u32, min_right: u32) -> (r: (
    GrayImg,
    GrayImg,
    GrayImg,
))
    requires
        timg.wf(),
        trimmable(spec_left_half(timg@), white_thresh),
        trimmable(spec_right_half(timg@), white_thresh),
    ensures
        r.0.wf(),
        r.1.wf(),
        r.2.wf(),
        r.0@ == spec_rotate_cw(timg@),
        r.1@ == spec_trim(spec_left_half(timg@), white_thresh, min_left),
        r.2@ == spec_trim(spec_right_half(timg@), white_thresh, min_right),
{
    let rotated = rotate_cw(timg);
    let (left, right) = split_spread(timg);
    let left_t = trim(&left, white_thresh, min_left);
    let right_t = trim(&right, white_thresh, min_right);
    (rotated, left_t, right_t)
}

/// The views of the spread pictures, if any.
pub open spec fn pictures_view(pics: Option<(GrayImg, GrayImg, GrayImg)>) -> Option<(GrayView, GrayView, GrayView)> {
    match pics {
        Some(p) => Some((p.0@, p.1@, p.2@)),
        None => None,
    }
}

/// The picture a piece is cut from: the page itself, or one of the spread's
/// pictures.
pub open spec fn picture_of(source: Source, page: GrayView, pics: Option<(GrayView, GrayView, GrayView)>) -> GrayView {
    match source {
        Source::Page => page,
        Source::SpreadRotated => pics.unwrap().0,
        Source::LeftHalf => pics.unwrap().1,
        Source::RightHalf => pics.unwrap().2,
    }
}

/// The pictures of a spread, as `spread_pictures` makes them, are shown by the
/// pieces of their own source: the rotated whole for `SpreadRotated`, the
/// trimmed left half (columns before `width / 2`) for `LeftHalf` and the trimmed
/// right half (the columns from `width / 2` on) for `RightHalf`.
pub proof fn lemma_spread_piece_pictures(
    page: GrayView,
    timg: GrayView,
    white_thresh: u8,
    min_left: u32,
    min_right: u32,
    pics: Option<(GrayImg, GrayImg, GrayImg)>,
)
    requires
        pics matches Some(p) && p.0@ == spec_rotate_cw(timg) && p.1@ == spec_trim(spec_left_half(timg), white_thresh, min_left)
            && p.2@ == spec_trim(spec_right_half(timg), white_thresh, min_right),
    ensures
        picture_of(Source::Page, page, pictures_view(pics)) == page,
        picture_of(Source::SpreadRotated, page, pictures_view(pics)) == spec_rotate_cw(timg),
        picture_of(Source::LeftHalf, page, pictures_view(pics)) == spec_trim(spec_left_half(timg), white_thresh, min_left),
        picture_of(Source::RightHalf, page, pictures_view(pics)) == spec_trim(spec_right_half(timg), white_thresh, min_right),
{
}

/// The halves of a spread: the left half is `width / 2` wide and shows the
/// spread's columns from 0; the right half is the rest and shows the columns
/// from `width / 2`. Both are full height.
pub proof fn lemma_spread_halves(v: GrayView, x: int, y: int)
    requires
        v.wf(),
        0 <= y < v.height,
    ensures
        spec_left_half(v).width == v.width / 2,
        spec_right_half(v).width == v.width - v.width / 2,
        spec_left_half(v).height == v.height,
        spec_right_half(v).height == v.height,
        0 <= x < v.width / 2 ==> spec_left_half(v).pixels[y * (v.width / 2) + x] == v.pixels[y * v.width + x],
        0 <= x < v.width - v.width / 2 ==> spec_right_half(v).pixels[y * (v.width - v.width / 2) + x]
            == v.pixels[y * v.width + v.width / 2 + x],
{
    let lw = (v.width / 2) as int;
    let rw = (v.width - v.width / 2) as int;
    if 0 <= x < lw {
        lemma_index_in_bounds(x, y, lw, v.height as int);
        vstd::arithmetic::div_mod::lemma_fundamental_div_mod_converse(y * lw + x, lw, y, x);
    }
    if 0 <= x < rw {
        lemma_index_in_bounds(x, y, rw, v.height as int);
        vstd::arithmetic::div_mod::lemma_fundamental_div_mod_converse(y * rw + x, rw, y, x);
    }
}

/// The picture that a piece of the given source shows.
pub fn piece_source<'a>(source: Source, page: &'a GrayImg, pics: &'a Option<(GrayImg, GrayImg, GrayImg)>) -> (out: &'a GrayImg)
    requires
        page.wf(),
        pics matches Some(p) ==> p.0.wf() && p.1.wf() && p.2.wf(),
        source != Source::Page ==> pics is Some,
    ensures
        out.wf(),
        out@ == picture_of(source, page@, pictures_view(*pics)),
        source == Source::Page ==> out@ == page@,
        pics matches Some(p) ==> {
            &&& source == Source::SpreadRotated ==> out@ == p.0@
            &&& source == Source::LeftHalf ==> out@ == p.1@
            &&& source == Source::RightHalf ==> out@ == p.2@
        },
{
    match source {
        Source::Page => page,
        Source::SpreadRotated => match pics {
            Some(p) => &p.0,
            None => page,
        },
        Source::LeftHalf => match pics {
            Some(p) => &p.1,
            None => page,
        },
        Source::RightHalf => match pics {
            Some(p) => &p.2,
            None => page,
        },
    }
}

/// The piece a band of a picture shows: the whole picture, or the full-width
/// rows [rows.0, rows.1) (the caller computes the rows of a half or a third).
pub fn cut_band(src: &GrayImg, band_of: Band, rows: (u32, u32)) -> (out: GrayImg)
    requires
        src.wf(),
        rows.0 <= rows.1,
    ensures
        out.wf(),
        out@ == (match band_of {
            Band::Full => src@,
            _ => spec_band(src@, rows.0, rows.1),
        }),
{
    match band_of {
        Band::Full => copy_image(src),
        _ => band(src, rows.0, rows.1),
    }
}

/// Calls `image::imageops::resize(.., nw, nh, FilterType::Lanczos3)` on the image.
/// Claimed: the result is `nw` x `nh`, one byte per pixel; an empty source (no
/// width or no height) gives a zeroed image, and a source of the requested size
/// is copied unchanged (both are tested before any filtering). Other pixels are
/// not stated: the filter weights come from `f32::sin`, whose precision std
/// leaves open, so equal inputs need not give equal pixels. The buffer of the
/// result must be allocatable, which `requires` states.
#[verifier::external_body]
fn resize_lanczos(img: &GrayImg, nw: u32, nh: u32) -> (out: GrayImg)
    requires
        img.wf(),
        nw * nh <= isize::MAX,
    ensures
        out.width == nw,
        out.height == nh,
        out.wf(),
        img.width == 0 || img.height == 0 ==> out.pixels@ == Seq::new((nw * nh) as nat, |i: int| 0u8),
        img.width > 0 && img.height > 0 && nw == img.width && nh == img.height ==> out@ == img@,
{
    let src = ::image::GrayImage::from_raw(img.width, img.height, img.pixels.clone()).unwrap();
    let out = ::image::imageops::resize(&src, nw, nh, ::image::imageops::FilterType::Lanczos3);
    GrayImg { width: nw, height: nh, pixels: out.into_raw() }
}

/// Pixel (x, y) of a `tw` x `th` white page with a `nw` x `nh` picture centred on it
/// (offset rounded down).
pub open spec fn centred_pixel(pic: Seq<u8>, nw: u32, nh: u32, tw: u32, th: u32, x: int, y: int) -> u8 {
    let ox = (tw - nw) / 2;
    let oy = (th - nh) / 2;
    if ox <= x < ox + nw && oy <= y < oy + nh {
        pic[(y - oy) * nw + (x - ox)]
    } else {
        255u8
    }
}

/// A `tw` x `th` white page with the picture centred on it.
pub open spec fn spec_centre(pic: GrayView, tw: u32, th: u32) -> GrayView {
    GrayView {
        width: tw,
        height: th,
        pixels: Seq::new(
            (tw * th) as nat,
            |k: int| centred_pixel(pic.pixels, pic.width, pic.height, tw, th, k % (tw as int), k / (tw as int)),
        ),
    }
}

/// Put a picture in the middle of a white `tw` x `th` page (offsets rounded
/// down); the picture must fit.
pub fn centre_on_page(pic: &GrayImg, tw: u32, th: u32) -> (out: GrayImg)
    requires
        pic.wf(),
        1 <= pic.width <= tw,
        1 <= pic.height <= th,
        tw * th <= isize::MAX,
    ensures
        out.wf(),
        out.width == tw,
        out.height == th,
        forall|x: int, y: int| 0 <= x < tw && 0 <= y < th ==> #[trigger] out.at(x, y)
            == centred_pixel(pic.pixels@, pic.width, pic.height, tw, th, x, y),
        out@ == spec_centre(pic@, tw, th),
{
    let nw = pic.width;
    let nh = pic.height;
    let ghost pp = pic.pixels@;
    let plen = pic.pixels.len();
    let ox: u32 = (tw - nw) / 2;
    let oy: u32 = (th - nh) / 2;
    let n: usize = tw as usize * th as usize;
    let mut px: Vec<u8> = Vec::with_capacity(n);
    let mut k: usize = 0;
    while k < n
        invariant
            k <= n,
            n == tw * th,
            pic.wf(),
            pic.width == nw,
            pic.height == nh,
            pp == pic.pixels@,
            plen == pp.len(),
            1 <= nw <= tw,
            1 <= nh <= th,
            ox == (tw - nw) / 2,
            oy == (th - nh) / 2,
            px@.len() == k,
            forall|j: int| 0 <= j < k ==> #[trigger] px@[j] == centred_pixel(pp, nw, nh, tw, th, j % (tw as int), j / (tw as int)),
        decreases n - k,
    {
        proof {
            lemma_grid_pos(k as int, tw as int, th as int);
        }
        let x: u32 = (k % (tw as usize)) as u32;
        let y: u32 = (k / (tw as usize)) as u32;
        let v: u8 = if ox <= x && x < ox + nw && oy <= y && y < oy + nh {
            proof {
                lemma_index_in_bounds((x - ox) as int, (y - oy) as int, nw as int, nh as int);
            }
            pic.pixels[((y - oy) as usize) * (nw as usize) + (x - ox) as usize]
        } else {
            255
        };
        px.push(v);
        k = k + 1;
    }
    let out = GrayImg { width: tw, height: th, pixels: px };
    assert(out.pixels@ =~= spec_centre(pic@, tw, th).pixels);
    assert forall|x: int, y: int| 0 <= x < tw && 0 <= y < th implies #[trigger] out.at(x, y)
        == centred_pixel(pp, nw, nh, tw, th, x, y) by {
        let j = y * tw + x;
        lemma_index_in_bounds(x, y, tw as int, th as int);
        vstd::arithmetic::div_mod::lemma_fundamental_div_mod_converse(j, tw as int, y, x);
    }
    out
}

/// Resize `img` to exactly `tw` x `th` with the Lanczos3 filter. With
/// `preserve_ratio` the picture is resized to `nw` x `nh` (the largest size of the
/// image's aspect ratio that fits, computed by the caller) and centred on a white
/// page; otherwise it is stretched to the page.
pub fn fit(img: &GrayImg, tw: u32, th: u32, preserve_ratio: bool, nw: u32, nh: u32) -> (out: GrayImg)
    requires
        img.wf(),
        tw * th <= isize::MAX,
        preserve_ratio ==> 1 <= nw <= tw && 1 <= nh <= th,
    ensures
        out.wf(),
        out.width == tw,
        out.height == th,
        preserve_ratio ==> exists|pic: GrayView| {
            &&& pic.width == nw
            &&& pic.height == nh
            &&& pic.wf()
            &&& out@ == #[trigger] spec_centre(pic, tw, th)
        },
        img.width > 0 && img.height > 0 ==> {
            &&& !preserve_ratio && tw == img.width && th == img.height ==> out@ == img@
            &&& preserve_ratio && nw == img.width && nh == img.height ==> out@ == spec_centre(img@, tw, th)
        },
        img.width == 0 || img.height == 0 ==> {
            &&& !preserve_ratio ==> out.pixels@ == Seq::new((tw * th) as nat, |i: int| 0u8)
            &&& preserve_ratio ==> out@ == spec_centre(
                GrayView { width: nw, height: nh, pixels: Seq::new((nw * nh) as nat, |i: int| 0u8) },
                tw,
                th,
            )
        },
{
    if !preserve_ratio {
        return resize_lanczos(img, tw, th);
    }
    assert(nw * nh <= tw * th) by (nonlinear_arith)
        requires
            nw <= tw,
            nh <= th,
    ;
    let pic = resize_lanczos(img, nw, nh);
    let out = centre_on_page(&pic, tw, th);
    assert(out@ == spec_centre(pic@, tw, th));
    proof {
        if img.width == 0 || img.height == 0 {
            assert(pic@ == GrayView { width: nw, height: nh, pixels: Seq::new((nw * nh) as nat, |i: int| 0u8) });
        }
    }
    out
}

/// What `image::load_from_memory` followed by `to_luma8` gives for encoded image
/// bytes: width, height and 8-bit gray pixels, or `None` when decoding fails.
pub uninterp spec fn decoded_luma(bytes: Seq<u8>) -> Option<(u32, u32, Seq<u8>)>;

/// Calls `image::load_from_memory` and converts the decoded image with
/// `DynamicImage::to_luma8`. Claimed: on success the result is the image named by
/// `decoded_luma`, with one byte per pixel; on failure `decoded_luma` is `None`.
/// The text of the error is not stated.
#[verifier::external_body]
fn decode_luma(bytes: &[u8]) -> (r: Result<GrayImg, String>)
    ensures
        match r {
            Ok(g) => g.wf() && decoded_luma(bytes@) == Some((g.width, g.height, g.pixels@)),
            Err(_) => decoded_luma(bytes@) is None,
        },
{
    match ::image::load_from_memory(bytes) {
        Ok(img) => {
            let g = img.to_luma8();
            let (w, h) = g.dimensions();
            Ok(GrayImg { width: w, height: h, pixels: g.into_raw() })
        },
        Err(e) => Err(e.to_string()),
    }
}

/// Decode in-memory (compressed) image bytes to 8-bit grayscale.
pub fn load_luma_bytes(bytes: &[u8]) -> (r: Result<GrayImg, String>)
    ensures
        match r {
            Ok(g) => g.wf() && decoded_luma(bytes@) == Some((g.width, g.height, g.pixels@)),
            Err(_) => decoded_luma(bytes@) is None,
        },
{
    decode_luma(bytes)
}

/// The dimensions that `image::ImageReader` reads from the header of encoded image
/// bytes (format guessed from the content), or `None` when it cannot.
pub uninterp spec fn header_dims(bytes: Seq<u8>) -> Option<(u32, u32)>;

/// Calls `ImageReader::new(Cursor::new(bytes)).with_guessed_format()` and then
/// `into_dimensions`. Claimed: on success the result is named `header_dims`; on
/// failure `header_dims` is `None`. The text of the error is not stated.
#[verifier::external_body]
fn read_dims(bytes: &[u8]) -> (r: Result<(u32, u32), String>)
    ensures
        match r {
            Ok(d) => header_dims(bytes@) == Some(d),
            Err(_) => header_dims(bytes@) is None,
        },
{
    match ::image::ImageReader::new(std::io::Cursor::new(bytes)).with_guessed_format() {
        Ok(reader) => match reader.into_dimensions() {
            Ok(d) => Ok(d),
            Err(e) => Err(e.to_string()),
        },
        Err(e) => Err(e.to_string()),
    }
}

/// Cheaply read image dimensions from (a prefix of) compressed bytes.
pub fn dims_from_bytes(bytes: &[u8]) -> (r: Result<(u32, u32), String>)
    ensures
        match r {
            Ok(d) => header_dims(bytes@) == Some(d),
            Err(_) => header_dims(bytes@) is None,
        },
{
    read_dims(bytes)
}

/// What `image` decodes (converted with `to_luma8`) from the bytes of a file
/// whose extension is `ext`, the format being the one the extension names (as
/// `image::open` takes it): width, height and 8-bit gray pixels, or `None` when
/// the extension names no format or decoding fails.
pub uninterp spec fn decoded_luma_as(ext: Seq<char>, bytes: Seq<u8>) -> Option<(u32, u32, Seq<u8>)>;

/// Decodes the bytes with an `ImageReader` whose format is
/// `ImageFormat::from_extension(ext)` (what `image::open` uses for a file with
/// that extension) and converts the image with `to_luma8`. Claimed: on success
/// the result is the image named `decoded_luma_as`, one byte per pixel; on
/// failure (no format for the extension, or a decoding error) the name is
/// `None`. The text of the error is not stated.
#[verifier::external_body]
fn decode_luma_as(ext: &str, bytes: &[u8]) -> (r: Result<GrayImg, String>)
    ensures
        match r {
            Ok(g) => g.wf() && decoded_luma_as(ext@, bytes@) == Some((g.width, g.height, g.pixels@)),
            Err(_) => decoded_luma_as(ext@, bytes@) is None,
        },
{
    let unknown = || ::image::ImageError::Unsupported(::image::error::ImageFormatHint::PathExtension(ext.into()).into());
    let format = ::image::ImageFormat::from_extension(ext).ok_or_else(unknown).map_err(|e| e.to_string())?;
    let mut reader = ::image::ImageReader::new(std::io::Cursor::new(bytes));
    reader.set_format(format);
    let g = reader.decode().map_err(|e| e.to_string())?.to_luma8();
    let (w, h) = g.dimensions();
    Ok(GrayImg { width: w, height: h, pixels: g.into_raw() })
}

/// Decode the contents of an image file to 8-bit grayscale, in the format its
/// extension `ext` names.
pub fn load_luma_file_bytes(ext: &str, bytes: &[u8]) -> (r: Result<GrayImg, String>)
    ensures
        match r {
            Ok(g) => g.wf() && decoded_luma_as(ext@, bytes@) == Some((g.width, g.height, g.pixels@)),
            Err(_) => decoded_luma_as(ext@, bytes@) is None,
        },
{
    decode_luma_as(ext, bytes)
}

/// The dimensions that `image` reads from the header of the bytes of a file
/// whose extension is `ext`, in the format the extension names (as
/// `image::image_dimensions` takes it), or `None` when the extension names no
/// format or the header cannot be read.
pub uninterp spec fn header_dims_as(ext: Seq<char>, bytes: Seq<u8>) -> Option<(u32, u32)>;

/// Reads the dimensions with an `ImageReader` whose format is
/// `ImageFormat::from_extension(ext)` and `into_dimensions`. Claimed: on success
/// the result is named `header_dims_as`; on failure the name is `None`. The text
/// of the error is not stated.
#[verifier::external_body]
fn read_dims_as(ext: &str, bytes: &[u8]) -> (r: Result<(u32, u32), String>)
    ensures
        match r {
            Ok(d) => header_dims_as(ext@, bytes@) == Some(d),
            Err(_) => header_dims_as(ext@, bytes@) is None,
        },
{
    let unknown = || ::image::ImageError::Unsupported(::image::error::ImageFormatHint::PathExtension(ext.into()).into());
    let format = ::image::ImageFormat::from_extension(ext).ok_or_else(unknown).map_err(|e| e.to_string())?;
    let mut reader = ::image::ImageReader::new(std::io::Cursor::new(bytes));
    reader.set_format(format);
    reader.into_dimensions().map_err(|e| e.to_string())
}

/// Read the dimensions of an image file from its contents, in the format its
/// extension `ext` names.
pub fn dims_from_file_bytes(ext: &str, bytes: &[u8]) -> (r: Result<(u32, u32), String>)
    ensures
        match r {
            Ok(d) => header_dims_as(ext@, bytes@) == Some(d),
            Err(_) => header_dims_as(ext@, bytes@) is None,
        },
{
    read_dims_as(ext, bytes)
}

/// The PNG file that the `image` crate writes for a `w` x `h` 8-bit gray image.
pub uninterp spec fn png_encoding(w: u32, h: u32, px: Seq<u8>) -> Seq<u8>;

/// The text of the error with which the `image` crate's PNG encoder refuses a
/// `w` x `h` image (a zero width or height).
pub uninterp spec fn png_refusal(w: u32, h: u32) -> Seq<char>;

/// Builds an `image::GrayImage` from the pixels and writes it with
/// `DynamicImage::write_to(.., ImageFormat::Png)` into memory. Claimed: the write
/// succeeds exactly when the image has a width and a height (the PNG encoder
/// refuses a zero width or height, and its other failures are write failures of
/// the in-memory buffer, which does not fail); the bytes are named
/// `png_encoding`, and the error text, which depends on the size alone, is
/// named `png_refusal`. PNG is lossless: for an image of at most 512 MiB of
/// pixels (the decoder's default allocation limit, against which it reserves the
/// one byte per pixel of the decoded gray image) decoding the bytes with
/// `image::load_from_memory` and `to_luma8` gives the image back, and the header
/// reader gives its size. The encoder panics unless there is exactly
/// one byte per pixel, which `requires` states.
#[verifier::external_body]
fn encode_png(w: u32, h: u32, px: &Vec<u8>) -> (r: Result<Vec<u8>, String>)
    requires
        px@.len() == w * h,
    ensures
        r is Ok <==> (w > 0 && h > 0),
        r matches Ok(v) ==> v@ == png_encoding(w, h, px@),
        r matches Ok(v) ==> w * h <= 0x2000_0000 ==> decoded_luma(v@) == Some((w, h, px@)) && header_dims(v@) == Some((w, h)),
        r matches Err(e) ==> e@ == png_refusal(w, h),
{
    let img = ::image::GrayImage::from_raw(w, h, px.clone()).unwrap();
    let mut buf = std::io::Cursor::new(Vec::new());
    match ::image::DynamicImage::ImageLuma8(img).write_to(&mut buf, ::image::ImageFormat::Png) {
        Ok(()) => Ok(buf.into_inner()),
        Err(e) => Err(e.to_string()),
    }
}

/// A page can be rendered: it has one gray byte per pixel and a width and a
/// height.
pub open spec fn page_renders(p: crate::xtch::PageView) -> bool {
    &&& p.gray.len() == p.width * p.height
    &&& p.width > 0
    &&& p.height > 0
}

/// The error with which rendering a page that does not render fails.
pub open spec fn page_error(p: crate::xtch::PageView) -> Seq<char> {
    if p.gray.len() < p.width * p.height {
        "invalid page buffer"@
    } else {
        png_refusal(p.width as u32, p.height as u32)
    }
}

/// Render a page to PNG bytes (for UI preview). A buffer with fewer bytes than
/// pixels is refused, and so is a page without width or height.
pub fn page_to_png(p: &Page) -> (r: Result<Vec<u8>, String>)
    requires
        p.gray@.len() <= p.width * p.height,
    ensures
        p.gray@.len() < p.width * p.height ==> (r matches Err(e) && e@ == "invalid page buffer"@),
        r is Ok <==> page_renders(p@),
        r matches Err(e) ==> p.gray@.len() == p.width * p.height ==> e@ == png_refusal(p.width as u32, p.height as u32),
        r matches Ok(v) ==> p.width * p.height <= 0x2000_0000 ==> decoded_luma(v@) == Some(
            (p.width as u32, p.height as u32, p.gray@),
        ) && header_dims(v@) == Some((p.width as u32, p.height as u32)),
        r matches Ok(v) ==> p.gray@.len() == p.width * p.height && v@ == png_encoding(
            p.width as u32,
            p.height as u32,
            p.gray@,
        ),
{
    let w: u32 = p.width as u32;
    let h: u32 = p.height as u32;
    assert(w * h <= 65535 * 65535) by (nonlinear_arith)
        requires
            w <= 65535,
            h <= 65535,
    ;
    if (p.gray.len() as u64) < (w as u64) * (h as u64) {
        return Err("invalid page buffer".to_owned());
    }
    encode_png(w, h, &p.gray)
}

/// The character of a 6-bit value in the standard base64 alphabet
/// (A-Z, a-z, 0-9, +, /).
pub open spec fn base64_char(v: int) -> char {
    if v < 26 {
        (65 + v) as char
    } else if v < 52 {
        (97 + v - 26) as char
    } else if v < 62 {
        (48 + v - 52) as char
    } else if v == 62 {
        '+'
    } else {
        '/'
    }
}

/// The standard (padded) base64 text of the bytes: each group of three bytes
/// becomes four characters of six bits each; a last group of one or two bytes
/// is filled with zero bits and padded with `=` to four characters.
pub open spec fn base64_standard(b: Seq<u8>) -> Seq<char>
    decreases b.len(),
{
    let x = if b.len() > 0 { b[0] as int } else { 0 };
    let y = if b.len() > 1 { b[1] as int } else { 0 };
    let z = if b.len() > 2 { b[2] as int } else { 0 };
    if b.len() == 0 {
        Seq::empty()
    } else if b.len() == 1 {
        seq![base64_char(x / 4), base64_char((x % 4) * 16), '=', '=']
    } else if b.len() == 2 {
        seq![base64_char(x / 4), base64_char((x % 4) * 16 + y / 16), base64_char((y % 16) * 4), '=']
    } else {
        seq![
            base64_char(x / 4),
            base64_char((x % 4) * 16 + y / 16),
            base64_char((y % 16) * 4 + z / 64),
            base64_char(z % 64),
        ] + base64_standard(b.subrange(3, b.len() as int))
    }
}

/// Calls `base64::engine::general_purpose::STANDARD.encode`. Claimed: the text
/// is the standard padded base64 of the bytes, `base64_standard`.
#[verifier::external_body]
fn encode_base64(bytes: &[u8]) -> (s: String)
    ensures
        s@ == base64_standard(bytes@),
{
    ::base64::engine::general_purpose::STANDARD.encode(bytes)
}

/// A `data:` URL that shows PNG bytes in the preview.
pub fn png_data_url(png: &[u8]) -> (url: String)
    ensures
        url@ == "data:image/png;base64,"@ + base64_standard(png@),
{
    let mut url = "data:image/png;base64,".to_owned();
    let b64 = encode_base64(png);
    url.append(b64.as_str());
    url
}

/// The preview of one page: a `data:` URL of its PNG rendering.
pub open spec fn page_url(p: crate::xtch::PageView) -> Seq<char> {
    "data:image/png;base64,"@ + base64_standard(png_encoding(p.width as u32, p.height as u32, p.gray))
}

/// Render every page to a PNG `data:` URL, in order, for the preview. Stops at
/// the first page that cannot be rendered and returns its error.
pub fn preview_urls(pages: &Vec<Page>) -> (r: Result<Vec<String>, String>)
    requires
        forall|i: int| 0 <= i < pages@.len() ==> (#[trigger] pages@[i]).gray@.len() <= pages@[i].width * pages@[i].height,
    ensures
        (exists|i: int| 0 <= i < pages@.len() && (#[trigger] pages@[i]).gray@.len() < pages@[i].width * pages@[i].height)
            ==> r is Err,
        r is Ok <==> forall|i: int| 0 <= i < pages@.len() ==> page_renders((#[trigger] pages@[i])@),
        r matches Err(e) ==> exists|i: int| {
            &&& 0 <= i < pages@.len()
            &&& !page_renders((#[trigger] pages@[i])@)
            &&& forall|j: int| 0 <= j < i ==> page_renders((#[trigger] pages@[j])@)
            &&& e@ == page_error(pages@[i]@)
        },
        r matches Ok(urls) ==> {
            &&& urls@.len() == pages@.len()
            &&& forall|i: int| 0 <= i < pages@.len() ==> (#[trigger] pages@[i]).gray@.len() == pages@[i].width * pages@[i].height
            &&& forall|i: int| 0 <= i < pages@.len() ==> (#[trigger] urls@[i])@ == page_url(pages@[i]@)
        },
{
    let n = pages.len();
    let mut urls: Vec<String> = Vec::with_capacity(n);
    let mut i: usize = 0;
    while i < n
        invariant
            n == pages@.len(),
            i <= n,
            urls@.len() == i,
            forall|j: int| 0 <= j < pages@.len() ==> (#[trigger] pages@[j]).gray@.len() <= pages@[j].width * pages@[j].height,
            forall|j: int| 0 <= j < i ==> (#[trigger] pages@[j]).gray@.len() == pages@[j].width * pages@[j].height,
            forall|j: int| 0 <= j < i ==> (#[trigger] urls@[j])@ == page_url(pages@[j]@),
            forall|j: int| 0 <= j < i ==> page_renders((#[trigger] pages@[j])@),
        decreases n - i,
    {
        let png = match page_to_png(&pages[i]) {
            Ok(v) => v,
            Err(e) => {
                proof {
                    assert(!page_renders(pages@[i as int]@));
                }
                return Err(e);
            },
        };
        let url = png_data_url(png.as_slice());
        urls.push(url);
        i = i + 1;
    }
    Ok(urls)
}

} // verus!
