//! Byte-exact `.xtch` encoder for the XTEink X4/X3 (2-bit "XTH" pages).
//!
//! A page block is a 22-byte header followed by two bit planes (low bit, then high
//! bit of each pixel's 2-bit level). Each plane is column-major, columns stored
//! right-to-left, 8 rows per byte with the most significant bit at the top.
//! The container is a 48-byte header, a 16-byte directory entry per page, then
//! the page blocks in order.

use vstd::prelude::*;
use crate::le::{lemma_pow256_values, le_bytes, le_value, pow256, push_le, lemma_le_bytes_len, lemma_le_roundtrip};

verus! {

/// Gray value that the reader shows for a 2-bit level: {0:255, 1:170, 2:85, 3:0}.
pub open spec fn level_gray(l: int) -> int {
    if l == 0 {
        255
    } else if l == 1 {
        170
    } else if l == 2 {
        85
    } else {
        0
    }
}

/// The level whose gray is nearest to `g` (the thresholds are the midpoints
/// 212.5, 127.5 and 42.5 between neighbouring reader grays).
pub open spec fn spec_quantize(g: u8) -> u8 {
    if g >= 213 {
        0
    } else if g >= 128 {
        1
    } else if g >= 43 {
        2
    } else {
        3
    }
}

pub open spec fn abs_diff(a: int, b: int) -> int {
    if a >= b {
        a - b
    } else {
        b - a
    }
}

/// Gray value -> 2-bit level: the level whose reader gray is nearest to `g`.
pub fn quantize(g: u8) -> (l: u8)
    ensures
        l == spec_quantize(g),
        l < 4,
{
    let lut: [i32; 4] = [255, 170, 85, 0];
    let gi: i32 = g as i32;
    let mut best: u8 = 0;
    let mut bd: i32 = i32::MAX;
    let mut l: usize = 0;
    while l < 4
        invariant
            l <= 4,
            lut@ == seq![255i32, 170, 85, 0],
            gi == g as int,
            l == 0 ==> bd == i32::MAX && best == 0,
            l > 0 ==> best < l && bd == abs_diff(level_gray(best as int), g as int),
            forall|j: int| 0 <= j < l ==> bd <= abs_diff(level_gray(j), g as int),
        decreases 4 - l,
    {
        let v: i32 = lut[l];
        let d: i32 = if v >= gi { v - gi } else { gi - v };
        if d < bd {
            bd = d;
            best = l as u8;
        }
        l = l + 1;
    }
    assert(bd <= abs_diff(level_gray(spec_quantize(g) as int), g as int));
    best
}

/// Quantizing picks a nearest level: no reader gray is closer to `g`.
pub proof fn lemma_quantize_nearest(g: u8, l: int)
    requires
        0 <= l < 4,
    ensures
        abs_diff(level_gray(spec_quantize(g) as int), g as int) <= abs_diff(level_gray(l), g as int),
{
}

/// A gray that is already one of the reader's four grays keeps its level.
pub proof fn lemma_quantize_reader_gray(l: int)
    requires
        0 <= l < 4,
    ensures
        spec_quantize(level_gray(l) as u8) == l,
{
}


/// One page ready to pack: `gray` is row-major, `width*height` bytes, 0..=255.
pub struct Page {
    pub width: u16,
    pub height: u16,
    pub gray: Vec<u8>,
}

/// A page already encoded to its `.xtch` block bytes (+ its dimensions).
pub struct EncodedPage {
    pub width: u16,
    pub height: u16,
    pub data: Vec<u8>,
}

/// What a `Page` holds, as mathematical values.
pub struct PageView {
    pub width: u16,
    pub height: u16,
    pub gray: Seq<u8>,
}

/// What an `EncodedPage` holds, as mathematical values.
pub struct EncodedPageView {
    pub width: u16,
    pub height: u16,
    pub data: Seq<u8>,
}

impl View for Page {
    type V = PageView;

    open spec fn view(&self) -> PageView {
        PageView { width: self.width, height: self.height, gray: self.gray@ }
    }
}

impl View for EncodedPage {
    type V = EncodedPageView;

    open spec fn view(&self) -> EncodedPageView {
        EncodedPageView { width: self.width, height: self.height, data: self.data@ }
    }
}

impl PageView {
    /// Every pixel of the page has a gray value.
    pub open spec fn wf(self) -> bool {
        self.gray.len() >= self.width * self.height
    }
}

/// Bytes per plane column: 8 rows per byte, rounded up.
pub open spec fn col_bytes(h: nat) -> nat {
    (h + 7) / 8
}

/// Bytes per bit plane.
pub open spec fn plane_len(w: nat, h: nat) -> nat {
    col_bytes(h) * w
}

/// Bit `sel` (0: low, 1: high) of the level of pixel (column `u`, row `b`);
/// rows below the page contribute 0.
pub open spec fn plane_bit(gray: Seq<u8>, w: nat, h: nat, sel: nat, u: int, b: int) -> nat {
    if b < h {
        let l = spec_quantize(gray[b * w + u]) as nat;
        if sel == 0 {
            l % 2
        } else {
            l / 2
        }
    } else {
        0
    }
}

/// The first `k` bits (most significant first) of the plane byte that holds
/// rows `8r .. 8r+7` of column `u`.
pub open spec fn packed_bits(gray: Seq<u8>, w: nat, h: nat, sel: nat, u: int, r: int, k: nat) -> nat
    decreases k,
{
    if k == 0 {
        0
    } else {
        2 * packed_bits(gray, w, h, sel, u, r, (k - 1) as nat) + plane_bit(gray, w, h, sel, u, 8 * r + k - 1)
    }
}

/// Byte `y` of plane `sel`: stored column `y / col_bytes(h)` is image column
/// `w - 1 - y / col_bytes(h)` (right to left), and byte `y % col_bytes(h)` of it
/// holds rows `8 * (y % col_bytes(h))` onwards.
pub open spec fn plane_byte(gray: Seq<u8>, w: nat, h: nat, sel: nat, y: int) -> u8 {
    let a = col_bytes(h) as int;
    packed_bits(gray, w, h, sel, w - 1 - y / a, y % a, 8) as u8
}

/// Bit plane `sel` of a page.
pub open spec fn spec_plane(gray: Seq<u8>, w: nat, h: nat, sel: nat) -> Seq<u8> {
    Seq::new(plane_len(w, h), |y: int| plane_byte(gray, w, h, sel, y))
}

/// `n` zero bytes.
pub open spec fn zeros(n: nat) -> Seq<u8> {
    Seq::new(n, |i: int| 0u8)
}

/// The 22-byte page header: magic "XTH\0", width, height, flags = 0,
/// pixel-data length, 8 reserved bytes.
pub open spec fn spec_page_header(w: u16, h: u16, data_len: nat) -> Seq<u8> {
    seq![0x58u8, 0x54u8, 0x48u8, 0u8] + le_bytes(w as nat, 2) + le_bytes(h as nat, 2) + le_bytes(0, 2)
        + le_bytes(data_len, 4) + zeros(8)
}

/// The block that `encode_page` produces for a page.
pub open spec fn spec_encode_page(p: PageView) -> Seq<u8> {
    let (w, h) = (p.width as nat, p.height as nat);
    spec_page_header(p.width, p.height, 2 * plane_len(w, h)) + spec_plane(p.gray, w, h, 0)
        + spec_plane(p.gray, w, h, 1)
}

/// `2^k` for `k <= 8`.
pub open spec fn two_pow(k: nat) -> nat {
    if k == 0 { 1 } else if k == 1 { 2 } else if k == 2 { 4 } else if k == 3 { 8 }
    else if k == 4 { 16 } else if k == 5 { 32 } else if k == 6 { 64 } else if k == 7 { 128 } else { 256 }
}

pub proof fn lemma_plane_bit_bound(gray: Seq<u8>, w: nat, h: nat, sel: nat, u: int, b: int)
    ensures
        plane_bit(gray, w, h, sel, u, b) <= 1,
{
}

/// A plane byte built from `k <= 8` bits is below `2^k`.
pub proof fn lemma_packed_bits_bound(gray: Seq<u8>, w: nat, h: nat, sel: nat, u: int, r: int, k: nat)
    requires
        k <= 8,
    ensures
        packed_bits(gray, w, h, sel, u, r, k) < two_pow(k),
    decreases k,
{
    if k > 0 {
        lemma_packed_bits_bound(gray, w, h, sel, u, r, (k - 1) as nat);
        lemma_plane_bit_bound(gray, w, h, sel, u, 8 * r + k - 1);
    }
}

/// Both plane bytes (low, high) for rows `8r .. 8r+7` of column `u`.
fn pack_plane_bytes(gray: &Vec<u8>, w: usize, h: usize, u: usize, r: usize) -> (res: (u8, u8))
    requires
        u < w,
        w <= 65535,
        h <= 65535,
        r < 8192,
        gray@.len() >= w * h,
    ensures
        res.0 == packed_bits(gray@, w as nat, h as nat, 0, u as int, r as int, 8),
        res.1 == packed_bits(gray@, w as nat, h as nat, 1, u as int, r as int, 8),
{
    let mut lo: u8 = 0;
    let mut hi: u8 = 0;
    let mut k: usize = 0;
    while k < 8
        invariant
            k <= 8,
            u < w,
            w <= 65535,
            h <= 65535,
            r < 8192,
            gray@.len() >= w * h,
            lo as nat == packed_bits(gray@, w as nat, h as nat, 0, u as int, r as int, k as nat),
            hi as nat == packed_bits(gray@, w as nat, h as nat, 1, u as int, r as int, k as nat),
        decreases 8 - k,
    {
        let b: usize = r * 8 + k;
        let glen = gray.len();
        let mut bl: u8 = 0;
        let mut bh: u8 = 0;
        if b < h {
            assert(b * w + u < w * h) by (nonlinear_arith)
                requires
                    b < h,
                    u < w,
            ;
            let l = quantize(gray[b * w + u]);
            bl = l % 2;
            bh = l / 2;
        }
        proof {
            lemma_packed_bits_bound(gray@, w as nat, h as nat, 0, u as int, r as int, k as nat);
            lemma_packed_bits_bound(gray@, w as nat, h as nat, 1, u as int, r as int, k as nat);
        }
        lo = lo * 2 + bl;
        hi = hi * 2 + bh;
        k = k + 1;
    }
    (lo, hi)
}

/// Encode a single 2-bit page block (22-byte header + two bit-planes).
/// Planes are column-major, columns stored right-to-left, 8 rows/byte (MSB = top).
pub fn encode_page(p: &Page) -> (out: Vec<u8>)
    requires
        p@.wf(),
    ensures
        out@ == spec_encode_page(p@),
{
    let w: usize = p.width as usize;
    let h: usize = p.height as usize;
    let a: usize = (h + 7) / 8;
    assert(a * w <= 8192 * 65535) by (nonlinear_arith)
        requires
            a <= 8192,
            w <= 65535,
    ;
    let plane: usize = a * w;
    let ghost gray = p.gray@;
    let mut low: Vec<u8> = Vec::with_capacity(plane);
    let mut high: Vec<u8> = Vec::with_capacity(plane);
    let mut c: usize = 0;
    while c < w
        invariant
            c <= w,
            w == p.width,
            h == p.height,
            a == col_bytes(h as nat),
            plane == a * w,
            gray == p.gray@,
            gray.len() >= w * h,
            low@.len() == c * a,
            high@.len() == c * a,
            forall|y: int| 0 <= y < c * a ==> low@[y] == plane_byte(gray, w as nat, h as nat, 0, y),
            forall|y: int| 0 <= y < c * a ==> high@[y] == plane_byte(gray, w as nat, h as nat, 1, y),
        decreases w - c,
    {
        let u: usize = w - 1 - c;
        let mut r: usize = 0;
        while r < a
            invariant
                c < w,
                u == w - 1 - c,
                r <= a,
                w == p.width,
                h == p.height,
                a == col_bytes(h as nat),
                plane == a * w,
                gray == p.gray@,
                gray.len() >= w * h,
                low@.len() == c * a + r,
                high@.len() == c * a + r,
                forall|y: int| 0 <= y < c * a + r ==> low@[y] == plane_byte(gray, w as nat, h as nat, 0, y),
                forall|y: int| 0 <= y < c * a + r ==> high@[y] == plane_byte(gray, w as nat, h as nat, 1, y),
            decreases a - r,
        {
            let (lo, hi) = pack_plane_bytes(&p.gray, w, h, u, r);
            proof {
                let y = c * a + r;
                vstd::arithmetic::div_mod::lemma_fundamental_div_mod_converse(y as int, a as int, c as int, r as int);
                assert(c * a + r == c * a + r);
            }
            low.push(lo);
            high.push(hi);
            r = r + 1;
        }
        assert((c + 1) * a == c * a + a) by (nonlinear_arith);
        c = c + 1;
    }
    assert(c * a == plane_len(w as nat, h as nat)) by (nonlinear_arith)
        requires
            c == w,
            a == col_bytes(h as nat),
    ;
    assert(low@ =~= spec_plane(gray, w as nat, h as nat, 0));
    assert(high@ =~= spec_plane(gray, w as nat, h as nat, 1));
    let data_len: usize = 2 * plane;
    let mut out: Vec<u8> = Vec::with_capacity(22 + data_len);
    out.push(0x58u8);
    out.push(0x54u8);
    out.push(0x48u8);
    out.push(0u8);
    push_le(&mut out, p.width as u64, 2);
    push_le(&mut out, p.height as u64, 2);
    push_le(&mut out, 0u64, 2);
    push_le(&mut out, data_len as u64, 4);
    let mut i: usize = 0;
    while i < 8
        invariant
            i <= 8,
            out@ == seq![0x58u8, 0x54u8, 0x48u8, 0u8] + le_bytes(w as nat, 2) + le_bytes(h as nat, 2)
                + le_bytes(0, 2) + le_bytes(data_len as nat, 4) + zeros(i as nat),
        decreases 8 - i,
    {
        out.push(0u8);
        assert(zeros(i as nat).push(0u8) =~= zeros((i + 1) as nat));
        i = i + 1;
    }
    out.extend_from_slice(low.as_slice());
    out.extend_from_slice(high.as_slice());
    assert(out@ =~= spec_encode_page(p@));
    out
}

/// Encode a page to its block form.
pub fn encoded_page(p: &Page) -> (e: EncodedPage)
    requires
        p@.wf(),
    ensures
        e@ == (EncodedPageView { width: p.width, height: p.height, data: spec_encode_page(p@) }),
{
    EncodedPage { width: p.width, height: p.height, data: encode_page(p) }
}

/// Total bytes of the page blocks.
pub open spec fn total_block_len(pages: Seq<EncodedPageView>) -> nat
    decreases pages.len(),
{
    if pages.len() == 0 {
        0
    } else {
        total_block_len(pages.drop_last()) + pages.last().data.len()
    }
}

/// The page blocks, concatenated in order.
pub open spec fn blocks(pages: Seq<EncodedPageView>) -> Seq<u8>
    decreases pages.len(),
{
    if pages.len() == 0 {
        Seq::empty()
    } else {
        blocks(pages.drop_last()) + pages.last().data
    }
}

/// Offset of the first page block: after the header and the directory.
pub open spec fn data_offset(n: nat) -> nat {
    48 + 16 * n
}

/// Offset of block `i` in the container.
pub open spec fn block_offset(pages: Seq<EncodedPageView>, i: int) -> nat {
    data_offset(pages.len()) + total_block_len(pages.take(i))
}

/// Directory entry `i`: block offset (u64), block size (u32), width, height (u16).
pub open spec fn dir_entry(pages: Seq<EncodedPageView>, i: int) -> Seq<u8> {
    le_bytes(block_offset(pages, i), 8) + le_bytes(pages[i].data.len(), 4) + le_bytes(pages[i].width as nat, 2)
        + le_bytes(pages[i].height as nat, 2)
}

/// The first `k` directory entries.
pub open spec fn directory(pages: Seq<EncodedPageView>, k: nat) -> Seq<u8>
    decreases k,
{
    if k == 0 {
        Seq::empty()
    } else {
        directory(pages, (k - 1) as nat) + dir_entry(pages, k - 1)
    }
}

/// The 48-byte container header: magic "XTCH", version 1, page count, 16 zero
/// bytes, directory offset 48 (u64), data offset (u64), 8 zero bytes.
pub open spec fn container_header(n: nat) -> Seq<u8> {
    seq![0x58u8, 0x54u8, 0x43u8, 0x48u8] + le_bytes(1, 2) + le_bytes(n, 2) + zeros(16) + le_bytes(48, 8)
        + le_bytes(data_offset(n), 8) + zeros(8)
}

/// The container that `assemble` produces.
pub open spec fn spec_assemble(pages: Seq<EncodedPageView>) -> Seq<u8> {
    container_header(pages.len()) + directory(pages, pages.len()) + blocks(pages)
}

/// The views of a slice of encoded pages.
pub open spec fn encoded_views(pages: Seq<EncodedPage>) -> Seq<EncodedPageView> {
    pages.map_values(|e: EncodedPage| e@)
}

pub proof fn lemma_take_total(pages: Seq<EncodedPageView>, i: int)
    requires
        0 <= i < pages.len(),
    ensures
        total_block_len(pages.take(i + 1)) == total_block_len(pages.take(i)) + pages[i].data.len(),
        blocks(pages.take(i + 1)) == blocks(pages.take(i)) + pages[i].data,
{
    assert(pages.take(i + 1).drop_last() =~= pages.take(i));
}

pub proof fn lemma_total_prefix_bound(pages: Seq<EncodedPageView>, i: int)
    requires
        0 <= i <= pages.len(),
    ensures
        total_block_len(pages.take(i)) <= total_block_len(pages),
    decreases pages.len() - i,
{
    if i < pages.len() {
        lemma_take_total(pages, i);
        lemma_total_prefix_bound(pages, i + 1);
    } else {
        assert(pages.take(i) =~= pages);
    }
}

/// Assemble a full `.xtch` container from already-encoded page blocks.
pub fn assemble(pages: &[EncodedPage]) -> (out: Vec<u8>)
    requires
        data_offset(pages@.len()) + total_block_len(encoded_views(pages@)) <= usize::MAX,
    ensures
        out@ == spec_assemble(encoded_views(pages@)),
{
    let ghost v = encoded_views(pages@);
    let n: usize = pages.len();
    let mut out: Vec<u8> = Vec::new();
    out.push(0x58u8);
    out.push(0x54u8);
    out.push(0x43u8);
    out.push(0x48u8);
    push_le(&mut out, 1u64, 2);
    push_le(&mut out, n as u64, 2);
    let mut i: usize = 0;
    while i < 16
        invariant
            i <= 16,
            out@ == seq![0x58u8, 0x54u8, 0x43u8, 0x48u8] + le_bytes(1, 2) + le_bytes(n as nat, 2) + zeros(i as nat),
        decreases 16 - i,
    {
        out.push(0u8);
        assert(zeros(i as nat).push(0u8) =~= zeros((i + 1) as nat));
        i = i + 1;
    }
    let data_off: usize = 48 + 16 * n;
    push_le(&mut out, 48u64, 8);
    push_le(&mut out, data_off as u64, 8);
    let mut i: usize = 0;
    while i < 8
        invariant
            i <= 8,
            data_off == data_offset(n as nat),
            out@ == seq![0x58u8, 0x54u8, 0x43u8, 0x48u8] + le_bytes(1, 2) + le_bytes(n as nat, 2) + zeros(16)
                + le_bytes(48, 8) + le_bytes(data_off as nat, 8) + zeros(i as nat),
        decreases 8 - i,
    {
        out.push(0u8);
        assert(zeros(i as nat).push(0u8) =~= zeros((i + 1) as nat));
        i = i + 1;
    }
    assert(out@ =~= container_header(n as nat));
    assert(v.len() == n);
    let mut cur: usize = data_off;
    let mut i: usize = 0;
    while i < n
        invariant
            i <= n,
            n == pages@.len(),
            v == encoded_views(pages@),
            v.len() == n,
            data_off == data_offset(n as nat),
            data_off + total_block_len(v) <= usize::MAX,
            cur == data_off + total_block_len(v.take(i as int)),
            out@ == container_header(n as nat) + directory(v, i as nat),
        decreases n - i,
    {
        let ghost before = out@;
        let len: usize = pages[i].data.len();
        proof {
            lemma_take_total(v, i as int);
            lemma_total_prefix_bound(v, i as int + 1);
            assert(v[i as int].data.len() == len);
        }
        push_le(&mut out, cur as u64, 8);
        push_le(&mut out, len as u64, 4);
        push_le(&mut out, pages[i].width as u64, 2);
        push_le(&mut out, pages[i].height as u64, 2);
        assert(out@ =~= before + dir_entry(v, i as int));
        cur = cur + len;
        i = i + 1;
    }
    let ghost hd = out@;
    let mut i: usize = 0;
    while i < n
        invariant
            i <= n,
            n == pages@.len(),
            v == encoded_views(pages@),
            v.len() == n,
            hd == container_header(n as nat) + directory(v, n as nat),
            out@ == hd + blocks(v.take(i as int)),
        decreases n - i,
    {
        let ghost before = out@;
        out.extend_from_slice(pages[i].data.as_slice());
        proof {
            lemma_take_total(v, i as int);
            assert(v[i as int].data == pages@[i as int].data@);
        }
        assert(out@ =~= before + v[i as int].data);
        i = i + 1;
    }
    assert(v.take(n as int) =~= v);
    out
}

/// The encoded form of a page.
pub open spec fn encoded_view(p: PageView) -> EncodedPageView {
    EncodedPageView { width: p.width, height: p.height, data: spec_encode_page(p) }
}

/// The encoded forms of a sequence of pages.
pub open spec fn encoded_pages(pages: Seq<Page>) -> Seq<EncodedPageView> {
    Seq::new(pages.len(), |i: int| encoded_view(pages[i]@))
}

/// Assemble the full `.xtch` container from ordered pages.
pub fn encode_xtch(pages: &[Page]) -> (out: Vec<u8>)
    requires
        forall|i: int| 0 <= i < pages@.len() ==> (#[trigger] pages@[i])@.wf(),
        data_offset(pages@.len()) + total_block_len(encoded_pages(pages@)) <= usize::MAX,
    ensures
        out@ == spec_assemble(encoded_pages(pages@)),
{
    let n: usize = pages.len();
    let mut enc: Vec<EncodedPage> = Vec::with_capacity(n);
    let mut i: usize = 0;
    while i < n
        invariant
            i <= n,
            n == pages@.len(),
            forall|j: int| 0 <= j < pages@.len() ==> (#[trigger] pages@[j])@.wf(),
            enc@.len() == i,
            forall|j: int| 0 <= j < i ==> (#[trigger] enc@[j])@ == encoded_view(pages@[j]@),
        decreases n - i,
    {
        let e = encoded_page(&pages[i]);
        enc.push(e);
        i = i + 1;
    }
    assert(encoded_views(enc@) =~= encoded_pages(pages@));
    assemble(enc.as_slice())
}

/// Byte size of a container holding `n` page blocks of the given total block bytes.
pub fn container_size(n: usize, total_block_bytes: usize) -> (size: usize)
    requires
        data_offset(n as nat) + total_block_bytes <= usize::MAX,
    ensures
        size == data_offset(n as nat) + total_block_bytes,
{
    48 + 16 * n + total_block_bytes
}

pub proof fn lemma_blocks_len(pages: Seq<EncodedPageView>)
    ensures
        blocks(pages).len() == total_block_len(pages),
    decreases pages.len(),
{
    if pages.len() > 0 {
        lemma_blocks_len(pages.drop_last());
    }
}

/// The blocks of the first `m` pages are a prefix of the blocks of all pages.
pub proof fn lemma_blocks_prefix(pages: Seq<EncodedPageView>, m: int)
    requires
        0 <= m <= pages.len(),
    ensures
        blocks(pages).subrange(0, total_block_len(pages.take(m)) as int) == blocks(pages.take(m)),
    decreases pages.len() - m,
{
    lemma_blocks_len(pages.take(m));
    if m == pages.len() {
        assert(pages.take(m) =~= pages);
        lemma_blocks_len(pages);
        assert(blocks(pages).subrange(0, total_block_len(pages) as int) =~= blocks(pages));
    } else {
        lemma_blocks_prefix(pages, m + 1);
        lemma_take_total(pages, m);
        lemma_total_prefix_bound(pages, m + 1);
        lemma_blocks_len(pages);
        let big = blocks(pages).subrange(0, total_block_len(pages.take(m + 1)) as int);
        assert(big == blocks(pages.take(m)) + pages[m].data);
        assert(blocks(pages).subrange(0, total_block_len(pages.take(m)) as int) =~= big.subrange(
            0,
            total_block_len(pages.take(m)) as int,
        ));
        assert(big.subrange(0, total_block_len(pages.take(m)) as int) =~= blocks(pages.take(m)));
    }
}

pub proof fn lemma_directory_len(pages: Seq<EncodedPageView>, k: nat)
    ensures
        directory(pages, k).len() == 16 * k,
    decreases k,
{
    if k > 0 {
        lemma_directory_len(pages, (k - 1) as nat);
        let i = k - 1;
        lemma_le_bytes_len(block_offset(pages, i), 8);
        lemma_le_bytes_len(pages[i].data.len(), 4);
        lemma_le_bytes_len(pages[i].width as nat, 2);
        lemma_le_bytes_len(pages[i].height as nat, 2);
    }
}

/// Entry `i` of the directory occupies bytes `16i .. 16i+16` of it.
pub proof fn lemma_directory_entry(pages: Seq<EncodedPageView>, k: nat, i: int)
    requires
        0 <= i < k,
    ensures
        directory(pages, k).subrange(16 * i, 16 * i + 16) == dir_entry(pages, i),
    decreases k,
{
    lemma_directory_len(pages, (k - 1) as nat);
    lemma_directory_len(pages, k);
    let prev = directory(pages, (k - 1) as nat);
    if i == k - 1 {
        assert(directory(pages, k).subrange(16 * i, 16 * i + 16) =~= dir_entry(pages, i));
    } else {
        lemma_directory_entry(pages, (k - 1) as nat, i);
        assert(directory(pages, k).subrange(16 * i, 16 * i + 16) =~= prev.subrange(16 * i, 16 * i + 16));
    }
}

pub proof fn lemma_container_header_len(n: nat)
    ensures
        container_header(n).len() == 48,
{
    lemma_le_bytes_len(1, 2);
    lemma_le_bytes_len(n, 2);
    lemma_le_bytes_len(48, 8);
    lemma_le_bytes_len(data_offset(n), 8);
}

/// The size of an assembled container is what `container_size` computes from the
/// page count and the total block bytes.
pub proof fn lemma_assemble_size(pages: Seq<EncodedPageView>)
    ensures
        spec_assemble(pages).len() == data_offset(pages.len()) + total_block_len(pages),
{
    lemma_container_header_len(pages.len());
    lemma_directory_len(pages, pages.len());
    lemma_blocks_len(pages);
}

/// The container header gives the page count (modulo 2^16, the width of its
/// field) and the offset at which the blocks begin.
pub proof fn lemma_header_fields(pages: Seq<EncodedPageView>)
    ensures
        ({
            let out = spec_assemble(pages);
            &&& out.subrange(0, 4) == seq![0x58u8, 0x54u8, 0x43u8, 0x48u8]
            &&& le_value(out.subrange(4, 6)) == 1
            &&& le_value(out.subrange(6, 8)) == pages.len() % 65536
            &&& le_value(out.subrange(24, 32)) == 48
            &&& le_value(out.subrange(32, 40)) == data_offset(pages.len()) % pow256(8)
        }),
{
    let n = pages.len();
    let out = spec_assemble(pages);
    lemma_assemble_size(pages);
    lemma_le_bytes_len(1, 2);
    lemma_le_bytes_len(n, 2);
    lemma_le_bytes_len(48, 8);
    lemma_le_bytes_len(data_offset(n), 8);
    lemma_le_roundtrip(1, 2);
    lemma_le_roundtrip(n, 2);
    lemma_le_roundtrip(48, 8);
    lemma_le_roundtrip(data_offset(n), 8);
    lemma_pow256_values();
    assert(out.subrange(0, 4) =~= seq![0x58u8, 0x54u8, 0x43u8, 0x48u8]);
    assert(out.subrange(4, 6) =~= le_bytes(1, 2));
    assert(out.subrange(6, 8) =~= le_bytes(n, 2));
    assert(out.subrange(24, 32) =~= le_bytes(48, 8));
    assert(out.subrange(32, 40) =~= le_bytes(data_offset(n), 8));
}

/// Directory entry `i` of an assembled container locates page `i`: its offset
/// field reads back as the offset of the block, its size field as the block's
/// length (modulo 2^32, the width of the field), and the bytes at that offset are
/// exactly the page's block; width and height read back too.
pub proof fn lemma_directory_locates_page(pages: Seq<EncodedPageView>, i: int)
    requires
        0 <= i < pages.len(),
    ensures
        ({
            let out = spec_assemble(pages);
            let e = 48 + 16 * i;
            let off = block_offset(pages, i);
            &&& le_value(out.subrange(e, e + 8)) == off % pow256(8)
            &&& le_value(out.subrange(e + 8, e + 12)) == pages[i].data.len() % pow256(4)
            &&& le_value(out.subrange(e + 12, e + 14)) == pages[i].width
            &&& le_value(out.subrange(e + 14, e + 16)) == pages[i].height
            &&& off + pages[i].data.len() <= out.len()
            &&& out.subrange(off as int, (off + pages[i].data.len()) as int) == pages[i].data
        }),
{
    let n = pages.len();
    let out = spec_assemble(pages);
    let e = 48 + 16 * i;
    let off = block_offset(pages, i);
    lemma_assemble_size(pages);
    lemma_container_header_len(n);
    lemma_directory_len(pages, n);
    lemma_directory_entry(pages, n, i);
    let ent = dir_entry(pages, i);
    assert(out.subrange(e, e + 16) =~= directory(pages, n).subrange(16 * i, 16 * i + 16));
    lemma_entry_fields(pages, i);
    assert(out.subrange(e, e + 8) =~= ent.subrange(0, 8));
    assert(out.subrange(e + 8, e + 12) =~= ent.subrange(8, 12));
    assert(out.subrange(e + 12, e + 14) =~= ent.subrange(12, 14));
    assert(out.subrange(e + 14, e + 16) =~= ent.subrange(14, 16));
    lemma_block_in_container(pages, i);
}

/// Encoding each page and assembling the blocks gives the container that
/// `encode_xtch` writes for the pages.
pub proof fn lemma_encode_xtch_is_assemble_of_encoded(pages: Seq<Page>, encs: Seq<EncodedPage>)
    requires
        encs.len() == pages.len(),
        forall|i: int| 0 <= i < pages.len() ==> (#[trigger] encs[i])@ == encoded_view(pages[i]@),
    ensures
        spec_assemble(encoded_views(encs)) == spec_assemble(encoded_pages(pages)),
{
    assert(encoded_views(encs) =~= encoded_pages(pages));
}

/// The container of a sequence of pages keeps them in order: directory entry `i`
/// carries page `i`'s width and height, and the block it locates is the
/// encoding of page `i`.
pub proof fn lemma_container_holds_pages(pages: Seq<Page>, i: int)
    requires
        0 <= i < pages.len(),
    ensures
        ({
            let v = encoded_pages(pages);
            let out = spec_assemble(v);
            let e = 48 + 16 * i;
            let off = block_offset(v, i);
            let blk = spec_encode_page(pages[i]@);
            &&& le_value(out.subrange(e, e + 8)) == off % pow256(8)
            &&& le_value(out.subrange(e + 12, e + 14)) == pages[i].width
            &&& le_value(out.subrange(e + 14, e + 16)) == pages[i].height
            &&& off + blk.len() <= out.len()
            &&& out.subrange(off as int, (off + blk.len()) as int) == blk
        }),
{
    lemma_directory_locates_page(encoded_pages(pages), i);
}

proof fn lemma_entry_fields(pages: Seq<EncodedPageView>, i: int)
    requires
        0 <= i < pages.len(),
    ensures
        ({
            let ent = dir_entry(pages, i);
            &&& ent.len() == 16
            &&& le_value(ent.subrange(0, 8)) == block_offset(pages, i) % pow256(8)
            &&& le_value(ent.subrange(8, 12)) == pages[i].data.len() % pow256(4)
            &&& le_value(ent.subrange(12, 14)) == pages[i].width
            &&& le_value(ent.subrange(14, 16)) == pages[i].height
        }),
{
    let ent = dir_entry(pages, i);
    let off = block_offset(pages, i);
    lemma_le_bytes_len(off, 8);
    lemma_le_bytes_len(pages[i].data.len(), 4);
    lemma_le_bytes_len(pages[i].width as nat, 2);
    lemma_le_bytes_len(pages[i].height as nat, 2);
    assert(ent.subrange(0, 8) =~= le_bytes(off, 8));
    assert(ent.subrange(8, 12) =~= le_bytes(pages[i].data.len(), 4));
    assert(ent.subrange(12, 14) =~= le_bytes(pages[i].width as nat, 2));
    assert(ent.subrange(14, 16) =~= le_bytes(pages[i].height as nat, 2));
    lemma_le_roundtrip(off, 8);
    lemma_le_roundtrip(pages[i].data.len(), 4);
    lemma_le_roundtrip(pages[i].width as nat, 2);
    lemma_le_roundtrip(pages[i].height as nat, 2);
    lemma_pow256_values();
}

proof fn lemma_block_in_container(pages: Seq<EncodedPageView>, i: int)
    requires
        0 <= i < pages.len(),
    ensures
        ({
            let out = spec_assemble(pages);
            let off = block_offset(pages, i);
            &&& off + pages[i].data.len() <= out.len()
            &&& out.subrange(off as int, (off + pages[i].data.len()) as int) == pages[i].data
        }),
{
    let n = pages.len();
    let out = spec_assemble(pages);
    let off = block_offset(pages, i);
    lemma_assemble_size(pages);
    lemma_container_header_len(n);
    lemma_directory_len(pages, n);
    // the block
    lemma_take_total(pages, i);
    lemma_total_prefix_bound(pages, i + 1);
    lemma_blocks_prefix(pages, i + 1);
    lemma_blocks_len(pages.take(i));
    lemma_blocks_len(pages);
    let t0 = total_block_len(pages.take(i));
    let t1 = total_block_len(pages.take(i + 1));
    let bl = blocks(pages);
    assert(bl.subrange(0, t1 as int) == blocks(pages.take(i)) + pages[i].data);
    assert(bl.subrange(t0 as int, t1 as int) =~= (blocks(pages.take(i)) + pages[i].data).subrange(t0 as int, t1 as int));
    assert((blocks(pages.take(i)) + pages[i].data).subrange(t0 as int, t1 as int) =~= pages[i].data);
    assert(out.subrange(off as int, (off + pages[i].data.len()) as int) =~= bl.subrange(t0 as int, t1 as int));
}

/// The header of a page block gives the page's width and height and the length of
/// the pixel data that follows it, and the block is exactly that long.
pub proof fn lemma_page_block_fields(p: PageView)
    ensures
        ({
            let blk = spec_encode_page(p);
            let plane = plane_len(p.width as nat, p.height as nat);
            &&& blk.len() == 22 + 2 * plane
            &&& blk.subrange(0, 4) == seq![0x58u8, 0x54u8, 0x48u8, 0u8]
            &&& le_value(blk.subrange(4, 6)) == p.width
            &&& le_value(blk.subrange(6, 8)) == p.height
            &&& le_value(blk.subrange(8, 10)) == 0
            &&& le_value(blk.subrange(10, 14)) == blk.len() - 22
        }),
{
    let (w, h) = (p.width as nat, p.height as nat);
    let plane = plane_len(w, h);
    assert(plane <= 8192 * 65535) by (nonlinear_arith)
        requires
            plane == col_bytes(h) * w,
            col_bytes(h) <= 8192,
            w <= 65535,
    ;
    lemma_le_bytes_len(w, 2);
    lemma_le_bytes_len(h, 2);
    lemma_le_bytes_len(0, 2);
    lemma_le_bytes_len(2 * plane, 4);
    lemma_le_roundtrip(w, 2);
    lemma_le_roundtrip(h, 2);
    lemma_le_roundtrip(0, 2);
    lemma_le_roundtrip(2 * plane, 4);
    lemma_pow256_values();
    let blk = spec_encode_page(p);
    assert(blk.subrange(0, 4) =~= seq![0x58u8, 0x54u8, 0x48u8, 0u8]);
    assert(blk.subrange(4, 6) =~= le_bytes(w, 2));
    assert(blk.subrange(6, 8) =~= le_bytes(h, 2));
    assert(blk.subrange(8, 10) =~= le_bytes(0, 2));
    assert(blk.subrange(10, 14) =~= le_bytes(2 * plane, 4));
}

/// Bit `j` (counted from the most significant of the `m` packed bits) of a packed
/// plane byte is the plane bit of row `8r + j`.
pub proof fn lemma_packed_bit(gray: Seq<u8>, w: nat, h: nat, sel: nat, u: int, r: int, m: nat, j: nat)
    requires
        j < m <= 8,
    ensures
        (packed_bits(gray, w, h, sel, u, r, m) as int / (two_pow((m - 1 - j) as nat) as int)) % 2
            == plane_bit(gray, w, h, sel, u, 8 * r + j),
    decreases m,
{
    let x = packed_bits(gray, w, h, sel, u, r, (m - 1) as nat);
    let bit = plane_bit(gray, w, h, sel, u, 8 * r + m - 1);
    lemma_plane_bit_bound(gray, w, h, sel, u, 8 * r + m - 1);
    vstd::arithmetic::div_mod::lemma_fundamental_div_mod_converse((2 * x + bit) as int, 2, x as int, bit as int);
    let pm = packed_bits(gray, w, h, sel, u, r, m) as int;
    assert(pm == 2 * x + bit);
    if j == m - 1 {
        assert(two_pow(0) == 1);
        assert(pm / 1 == pm);
        assert(pm % 2 == bit);
    } else {
        lemma_packed_bit(gray, w, h, sel, u, r, (m - 1) as nat, j);
        let d = two_pow((m - 2 - j) as nat) as int;
        assert(two_pow((m - 1 - j) as nat) == 2 * d);
        vstd::arithmetic::div_mod::lemma_div_denominator(pm, 2, d);
        assert(pm / 2 == x);
        assert(pm / (2 * d) == x as int / d);
    }
}

/// Every pixel's level can be read back from the block: the bit for row `b` of
/// image column `u` sits in byte `(w-1-u) * col_bytes(h) + b/8` of each plane, at
/// position `7 - b%8`, and low bit + 2 * high bit is the pixel's quantized level.
pub proof fn lemma_pixel_readback(p: PageView, u: int, b: int)
    requires
        p.wf(),
        0 <= u < p.width,
        0 <= b < p.height,
    ensures
        ({
            let (w, h) = (p.width as nat, p.height as nat);
            let blk = spec_encode_page(p);
            let y = (w - 1 - u) * col_bytes(h) + b / 8;
            let d = two_pow((7 - b % 8) as nat) as int;
            &&& 0 <= y < plane_len(w, h)
            &&& (blk[22 + y] as int / d) % 2 + 2 * ((blk[22 + plane_len(w, h) + y] as int / d) % 2)
                == spec_quantize(p.gray[b * w + u])
        }),
{
    let (w, h) = (p.width as nat, p.height as nat);
    let a = col_bytes(h) as int;
    let plane = plane_len(w, h) as int;
    let c = w - 1 - u;
    let r = b / 8;
    let k = b % 8;
    let y = c * a + r;
    assert(0 <= y < plane) by (nonlinear_arith)
        requires
            0 <= c < w,
            0 <= r < a,
            y == c * a + r,
            plane == a * w,
    ;
    lemma_page_block_fields(p);
    let blk = spec_encode_page(p);
    lemma_le_bytes_len(w, 2);
    lemma_le_bytes_len(h, 2);
    lemma_le_bytes_len(0, 2);
    lemma_le_bytes_len(2 * plane_len(w, h), 4);
    assert(blk[22 + y] == spec_plane(p.gray, w, h, 0)[y]);
    assert(blk[22 + plane + y] == spec_plane(p.gray, w, h, 1)[y]);
    vstd::arithmetic::div_mod::lemma_fundamental_div_mod_converse(y, a, c, r);
    lemma_packed_bits_bound(p.gray, w, h, 0, u, r, 8);
    lemma_packed_bits_bound(p.gray, w, h, 1, u, r, 8);
    lemma_packed_bit(p.gray, w, h, 0, w - 1 - c, r, 8, k as nat);
    lemma_packed_bit(p.gray, w, h, 1, w - 1 - c, r, 8, k as nat);
    assert(8 * r + k == b);
    assert(y / a == c && y % a == r);
    let lo = packed_bits(p.gray, w, h, 0, u, r, 8);
    let hi = packed_bits(p.gray, w, h, 1, u, r, 8);
    assert(blk[22 + y] == lo as u8);
    assert(blk[22 + y] as int == lo);
    assert(blk[22 + plane + y] as int == hi);
    let d = two_pow((7 - k) as nat) as int;
    assert((lo as int / d) % 2 == plane_bit(p.gray, w, h, 0, u, b));
    assert((hi as int / d) % 2 == plane_bit(p.gray, w, h, 1, u, b));
    assert(b * w + u < p.gray.len()) by (nonlinear_arith)
        requires
            0 <= b < h,
            0 <= u < w,
            p.gray.len() >= w * h,
    ;
    let l = spec_quantize(p.gray[b * w + u]) as nat;
    assert(l % 2 + 2 * (l / 2) == l);
}

} // verus!
