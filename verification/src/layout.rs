//! The structure of the output: which pieces each source image becomes, in what
//! order, and the exact page size each piece is fitted to.

use vstd::prelude::*;
use vstd::string::StringSliceAdditionalSpecFns;
use crate::input::{is_preview_target, lemma_prefix_sum_mono, prefix_sum, PreviewTarget};

verus! {

/// Output orientation: Portrait (480x800) or Landscape (800x480).
#[derive(Clone, Copy, PartialEq, Eq, Debug, Structural)]
pub enum Orientation {
    Portrait,
    Landscape,
}

/// How a landscape page is split: not at all, in halves, or in overlapping thirds.
#[derive(Clone, Copy, PartialEq, Eq, Debug, Structural)]
pub enum Split {
    Whole,
    Half,
    Thirds,
}

/// What a source image is: a normal page, a double-page spread, or a single page
/// stored sideways.
#[derive(Clone, Copy, PartialEq, Eq, Debug, Structural)]
pub enum Class {
    Portrait,
    Spread,
    Rotated,
}

/// The image a piece is cut from.
#[derive(Clone, Copy, PartialEq, Eq, Debug, Structural)]
pub enum Source {
    /// The trimmed page (turned upright first when it was stored sideways).
    Page,
    /// The whole trimmed spread, rotated clockwise.
    SpreadRotated,
    /// The left half of the trimmed spread, trimmed again.
    LeftHalf,
    /// The right half of the trimmed spread, trimmed again.
    RightHalf,
}

/// The horizontal band of the source image that a piece shows.
#[derive(Clone, Copy, PartialEq, Eq, Debug, Structural)]
pub enum Band {
    /// The whole height.
    Full,
    /// Top (0) or bottom (1) half.
    Half(u8),
    /// Top (0), middle (1) or bottom (2) of three overlapping strips.
    Third(u8),
}

/// One output page to be made: where it comes from and the exact size it becomes.
#[derive(Clone, Copy, PartialEq, Eq, Debug, Structural)]
pub struct PieceSpec {
    pub source: Source,
    pub band: Band,
    pub width: u32,
    pub height: u32,
}

/// The screen size for an orientation.
pub open spec fn spec_screen(o: Orientation) -> (u32, u32) {
    match o {
        Orientation::Portrait => (480, 800),
        Orientation::Landscape => (800, 480),
    }
}

/// Base screen size for the chosen orientation.
pub fn screen_size(o: Orientation) -> (r: (u32, u32))
    ensures
        r == spec_screen(o),
{
    match o {
        Orientation::Portrait => (480, 800),
        Orientation::Landscape => (800, 480),
    }
}

/// The class of a source image of `w` x `h` pixels: a portrait-aspect image
/// (taller than wide, or square) is a normal page whatever its size; a
/// landscape-aspect image is a spread when `spread_sized` (decisively wide and
/// large against the common page size, as the caller measured it), else a single
/// page stored sideways.
pub fn classify(w: u32, h: u32, spread_sized: bool) -> (c: Class)
    ensures
        c == (if h >= w {
            Class::Portrait
        } else if spread_sized {
            Class::Spread
        } else {
            Class::Rotated
        }),
{
    if h >= w {
        Class::Portrait
    } else if spread_sized {
        Class::Spread
    } else {
        Class::Rotated
    }
}

/// Number of values of `s` below `m`.
pub open spec fn count_below(s: Seq<u64>, m: u64) -> nat
    decreases s.len(),
{
    if s.len() == 0 {
        0
    } else {
        count_below(s.drop_last(), m) + if s.last() < m {
            1nat
        } else {
            0nat
        }
    }
}

/// Number of values of `s` at most `m`.
pub open spec fn count_at_most(s: Seq<u64>, m: u64) -> nat
    decreases s.len(),
{
    if s.len() == 0 {
        0
    } else {
        count_at_most(s.drop_last(), m) + if s.last() <= m {
            1nat
        } else {
            0nat
        }
    }
}

/// `m` is the value at position `k` (from 0) of `s` sorted ascending: fewer than
/// `k + 1` values lie below it and more than `k` lie at or below it.
pub open spec fn is_kth(s: Seq<u64>, k: int, m: u64) -> bool {
    count_below(s, m) <= k < count_at_most(s, m)
}

/// The median of `s`: its value at position `len / 2` in ascending order.
pub open spec fn median(s: Seq<u64>) -> u64 {
    choose|m: u64| #[trigger] is_kth(s, (s.len() / 2) as int, m)
}

proof fn lemma_counts_push(s: Seq<u64>, x: u64, m: u64)
    ensures
        count_below(s.push(x), m) == count_below(s, m) + if x < m { 1nat } else { 0nat },
        count_at_most(s.push(x), m) == count_at_most(s, m) + if x <= m { 1nat } else { 0nat },
{
    assert(s.push(x).drop_last() =~= s);
}

proof fn lemma_counts_mono(s: Seq<u64>, a: u64, b: u64)
    requires
        a <= b,
    ensures
        count_below(s, a) <= count_below(s, b),
        count_at_most(s, a) <= count_at_most(s, b),
        a < b ==> count_at_most(s, a) <= count_below(s, b),
        count_below(s, a) <= count_at_most(s, a),
        count_at_most(s, a) <= s.len(),
    decreases s.len(),
{
    if s.len() > 0 {
        lemma_counts_mono(s.drop_last(), a, b);
    }
}

/// Some value of a non-empty sequence is at each position of its sorted order.
proof fn lemma_kth_exists(s: Seq<u64>, k: int)
    requires
        0 <= k < s.len(),
    ensures
        exists|i: int| 0 <= i < s.len() && is_kth(s, k, #[trigger] s[i]),
    decreases s.len(),
{
    let n = s.len() - 1;
    let t = s.drop_last();
    let x = s.last();
    assert(t.push(x) =~= s);
    lemma_counts_push(t, x, x);
    if n == 0 {
        assert(count_below(t, x) == 0 && count_at_most(t, x) == 0);
        assert(is_kth(s, k, s[n]));
    } else if count_below(t, x) <= k < count_at_most(t, x) + 1 {
        assert(is_kth(s, k, s[n]));
    } else if k < count_below(t, x) {
        lemma_counts_mono(t, x, x);
        lemma_kth_exists(t, k);
        let j = choose|j: int| 0 <= j < t.len() && is_kth(t, k, #[trigger] t[j]);
        let v = t[j];
        if v >= x {
            lemma_counts_mono(t, x, v);
        }
        lemma_counts_push(t, x, v);
        assert(s[j] == v);
        assert(is_kth(s, k, s[j]));
    } else {
        lemma_counts_mono(t, x, x);
        lemma_kth_exists(t, k - 1);
        let j = choose|j: int| 0 <= j < t.len() && is_kth(t, k - 1, #[trigger] t[j]);
        let v = t[j];
        if v <= x {
            lemma_counts_mono(t, v, x);
        }
        lemma_counts_push(t, x, v);
        assert(s[j] == v);
        assert(is_kth(s, k, s[j]));
    }
}

/// Position `k` of the sorted order holds one value only.
pub proof fn lemma_kth_unique(s: Seq<u64>, k: int, a: u64, b: u64)
    requires
        is_kth(s, k, a),
        is_kth(s, k, b),
    ensures
        a == b,
{
    if a < b {
        lemma_counts_mono(s, a, b);
    } else if b < a {
        lemma_counts_mono(s, b, a);
    }
}

/// Number of values of `s` below and at most `m`.
fn counts_around(s: &Vec<u64>, m: u64) -> (r: (usize, usize))
    ensures
        r.0 == count_below(s@, m),
        r.1 == count_at_most(s@, m),
{
    let n = s.len();
    let mut below: usize = 0;
    let mut at_most: usize = 0;
    let mut j: usize = 0;
    while j < n
        invariant
            n == s@.len(),
            j <= n,
            below == count_below(s@.take(j as int), m),
            at_most == count_at_most(s@.take(j as int), m),
        decreases n - j,
    {
        proof {
            assert(s@.take(j as int).push(s@[j as int]) =~= s@.take(j + 1));
            lemma_counts_push(s@.take(j as int), s@[j as int], m);
            lemma_counts_mono(s@.take(j as int), m, m);
        }
        if s[j] < m {
            below = below + 1;
        }
        if s[j] <= m {
            at_most = at_most + 1;
        }
        j = j + 1;
    }
    assert(s@.take(n as int) =~= s@);
    (below, at_most)
}

/// The median of a non-empty list of values: the value at position `len / 2`
/// when they are sorted ascending.
pub fn median_of(s: &Vec<u64>) -> (m: u64)
    requires
        s@.len() > 0,
    ensures
        is_kth(s@, (s@.len() / 2) as int, m),
        m == median(s@),
{
    let n = s.len();
    let k = n / 2;
    proof {
        lemma_kth_exists(s@, k as int);
    }
    let mut i: usize = 0;
    while i < n
        invariant
            n == s@.len(),
            k == n / 2,
            i <= n,
            forall|j: int| 0 <= j < i ==> !is_kth(s@, k as int, #[trigger] s@[j]),
            exists|j: int| 0 <= j < n && is_kth(s@, k as int, #[trigger] s@[j]),
        decreases n - i,
    {
        let (below, at_most) = counts_around(s, s[i]);
        if below <= k && k < at_most {
            proof {
                lemma_kth_unique(s@, k as int, s@[i as int], median(s@));
            }
            return s[i];
        }
        i = i + 1;
    }
    proof {
        let j = choose|j: int| 0 <= j < n && is_kth(s@, k as int, #[trigger] s@[j]);
        assert(!is_kth(s@, k as int, s@[j]));
    }
    s[0]
}

/// The common page area that spreads are measured against: the median area of
/// the decisively tall (portrait) images, or of all images when none is, or 0
/// when there are none.
pub fn common_area(tall_areas: &Vec<u64>, all_areas: &Vec<u64>) -> (a: u64)
    ensures
        a == (if tall_areas@.len() > 0 {
            median(tall_areas@)
        } else if all_areas@.len() > 0 {
            median(all_areas@)
        } else {
            0
        }),
{
    if tall_areas.len() > 0 {
        median_of(tall_areas)
    } else if all_areas.len() > 0 {
        median_of(all_areas)
    } else {
        0
    }
}

pub open spec fn piece(source: Source, band: Band, size: (u32, u32)) -> PieceSpec {
    PieceSpec { source, band, width: size.0, height: size.1 }
}

/// The pieces of a page shown in landscape: whole, two halves or three strips,
/// all landscape-sized.
pub open spec fn landscape_layout(source: Source, split: Split) -> Seq<PieceSpec> {
    let l = spec_screen(Orientation::Landscape);
    match split {
        Split::Whole => seq![piece(source, Band::Full, l)],
        Split::Half => seq![piece(source, Band::Half(0), l), piece(source, Band::Half(1), l)],
        Split::Thirds => seq![
            piece(source, Band::Third(0), l),
            piece(source, Band::Third(1), l),
            piece(source, Band::Third(2), l),
        ],
    }
}

/// The pieces of one normal page: a portrait page, or its landscape pieces.
pub open spec fn normal_layout(source: Source, o: Orientation, split: Split) -> Seq<PieceSpec> {
    match o {
        Orientation::Portrait => seq![piece(source, Band::Full, spec_screen(Orientation::Portrait))],
        Orientation::Landscape => landscape_layout(source, split),
    }
}

/// The pieces a source image becomes. A spread first becomes the whole spread
/// rotated onto a portrait page, then its two halves in reading order (right
/// half first in manga mode), each laid out as a normal page.
pub open spec fn spec_layout(class: Class, o: Orientation, split: Split, manga_mode: bool) -> Seq<PieceSpec> {
    match class {
        Class::Portrait | Class::Rotated => normal_layout(Source::Page, o, split),
        Class::Spread => {
            let (first, second) = if manga_mode {
                (Source::RightHalf, Source::LeftHalf)
            } else {
                (Source::LeftHalf, Source::RightHalf)
            };
            seq![piece(Source::SpreadRotated, Band::Full, spec_screen(Orientation::Portrait))]
                + normal_layout(first, o, split) + normal_layout(second, o, split)
        },
    }
}

/// Number of pieces of a normal page.
pub open spec fn normal_count(o: Orientation, split: Split) -> nat {
    match (o, split) {
        (Orientation::Portrait, _) => 1,
        (Orientation::Landscape, Split::Whole) => 1,
        (Orientation::Landscape, Split::Half) => 2,
        (Orientation::Landscape, Split::Thirds) => 3,
    }
}

fn push_landscape(out: &mut Vec<PieceSpec>, source: Source, split: Split)
    ensures
        final(out)@ == old(out)@ + landscape_layout(source, split),
{
    let (w, h) = screen_size(Orientation::Landscape);
    match split {
        Split::Whole => {
            out.push(PieceSpec { source, band: Band::Full, width: w, height: h });
        },
        Split::Half => {
            out.push(PieceSpec { source, band: Band::Half(0), width: w, height: h });
            out.push(PieceSpec { source, band: Band::Half(1), width: w, height: h });
        },
        Split::Thirds => {
            out.push(PieceSpec { source, band: Band::Third(0), width: w, height: h });
            out.push(PieceSpec { source, band: Band::Third(1), width: w, height: h });
            out.push(PieceSpec { source, band: Band::Third(2), width: w, height: h });
        },
    }
    assert(final(out)@ =~= old(out)@ + landscape_layout(source, split));
}

/// Emit pieces for one normal (portrait-content) page under the current settings.
fn push_normal(out: &mut Vec<PieceSpec>, source: Source, o: Orientation, split: Split)
    ensures
        final(out)@ == old(out)@ + normal_layout(source, o, split),
{
    match o {
        Orientation::Portrait => {
            let (w, h) = screen_size(Orientation::Portrait);
            out.push(PieceSpec { source, band: Band::Full, width: w, height: h });
            assert(final(out)@ =~= old(out)@ + normal_layout(source, o, split));
        },
        Orientation::Landscape => push_landscape(out, source, split),
    }
}

/// The ordered pieces that a source image of the given class becomes.
pub fn layout_pieces(class: Class, o: Orientation, split: Split, manga_mode: bool) -> (r: Vec<PieceSpec>)
    ensures
        r@ == spec_layout(class, o, split, manga_mode),
{
    let mut out: Vec<PieceSpec> = Vec::new();
    match class {
        Class::Portrait | Class::Rotated => {
            push_normal(&mut out, Source::Page, o, split);
            assert(out@ =~= spec_layout(class, o, split, manga_mode));
        },
        Class::Spread => {
            let (w, h) = screen_size(Orientation::Portrait);
            out.push(PieceSpec { source: Source::SpreadRotated, band: Band::Full, width: w, height: h });
            let (first, second) = if manga_mode {
                (Source::RightHalf, Source::LeftHalf)
            } else {
                (Source::LeftHalf, Source::RightHalf)
            };
            push_normal(&mut out, first, o, split);
            push_normal(&mut out, second, o, split);
            assert(out@ =~= spec_layout(class, o, split, manga_mode));
        },
    }
    out
}

/// Number of output pages a source image of the given class produces.
pub fn piece_count(class: Class, o: Orientation, split: Split) -> (n: usize)
    ensures
        n == (match class {
            Class::Spread => 1 + 2 * normal_count(o, split),
            _ => normal_count(o, split),
        }),
        forall|m: bool| n == #[trigger] spec_layout(class, o, split, m).len(),
{
    let per: usize = match o {
        Orientation::Portrait => 1,
        Orientation::Landscape => match split {
            Split::Whole => 1,
            Split::Half => 2,
            Split::Thirds => 3,
        },
    };
    match class {
        Class::Spread => 1 + 2 * per,
        _ => per,
    }
}

/// Number of pieces a source image of the given class becomes.
pub open spec fn class_count(class: Class, o: Orientation, split: Split) -> nat {
    match class {
        Class::Spread => 1 + 2 * normal_count(o, split),
        _ => normal_count(o, split),
    }
}

proof fn lemma_layout_len(class: Class, o: Orientation, split: Split, manga_mode: bool)
    ensures
        spec_layout(class, o, split, manga_mode).len() == class_count(class, o, split),
{
}

/// The pieces of a batch of source images of the given classes, image after
/// image.
pub open spec fn batch_layout(classes: Seq<Class>, o: Orientation, split: Split, manga_mode: bool) -> Seq<PieceSpec>
    decreases classes.len(),
{
    if classes.len() == 0 {
        Seq::empty()
    } else {
        batch_layout(classes.drop_last(), o, split, manga_mode) + spec_layout(classes.last(), o, split, manga_mode)
    }
}

/// The number of pieces of each image of a batch.
pub open spec fn layout_counts(classes: Seq<Class>, o: Orientation, split: Split) -> Seq<usize> {
    Seq::new(classes.len(), |i: int| class_count(classes[i], o, split) as usize)
}

proof fn lemma_prefix_sum_agree(a: Seq<usize>, b: Seq<usize>, k: int)
    requires
        0 <= k,
        k <= a.len(),
        k <= b.len(),
        forall|i: int| 0 <= i < k ==> a[i] == b[i],
    ensures
        prefix_sum(a, k) == prefix_sum(b, k),
    decreases k,
{
    if k > 0 {
        lemma_prefix_sum_agree(a, b, k - 1);
    }
}

proof fn lemma_counts_drop_last(classes: Seq<Class>, o: Orientation, split: Split, k: int)
    requires
        classes.len() > 0,
        0 <= k < classes.len(),
    ensures
        prefix_sum(layout_counts(classes, o, split), k) == prefix_sum(layout_counts(classes.drop_last(), o, split), k),
{
    lemma_prefix_sum_agree(layout_counts(classes, o, split), layout_counts(classes.drop_last(), o, split), k);
}

/// A batch has as many pieces as its images' piece counts add up to.
pub proof fn lemma_batch_len(classes: Seq<Class>, o: Orientation, split: Split, manga_mode: bool)
    ensures
        batch_layout(classes, o, split, manga_mode).len() == prefix_sum(
            layout_counts(classes, o, split),
            classes.len() as int,
        ),
    decreases classes.len(),
{
    if classes.len() > 0 {
        let n = classes.len() - 1;
        lemma_batch_len(classes.drop_last(), o, split, manga_mode);
        lemma_counts_drop_last(classes, o, split, n);
        lemma_layout_len(classes.last(), o, split, manga_mode);
    }
}

/// The pieces of a batch come grouped by image, in input order: piece `j` of
/// image `i` stands at position `j` after the pieces of the images before it.
pub proof fn lemma_batch_piece(classes: Seq<Class>, o: Orientation, split: Split, manga_mode: bool, i: int, j: int)
    requires
        0 <= i < classes.len(),
        0 <= j < class_count(classes[i], o, split),
    ensures
        ({
            let at = prefix_sum(layout_counts(classes, o, split), i) + j;
            &&& at < batch_layout(classes, o, split, manga_mode).len()
            &&& batch_layout(classes, o, split, manga_mode)[at] == spec_layout(classes[i], o, split, manga_mode)[j]
        }),
    decreases classes.len(),
{
    let n = classes.len() - 1;
    let t = classes.drop_last();
    lemma_batch_len(t, o, split, manga_mode);
    lemma_layout_len(classes.last(), o, split, manga_mode);
    lemma_layout_len(classes[i], o, split, manga_mode);
    let whole = batch_layout(classes, o, split, manga_mode);
    let front = batch_layout(t, o, split, manga_mode);
    let last = spec_layout(classes.last(), o, split, manga_mode);
    assert(whole == front + last);
    if i == n {
        lemma_counts_drop_last(classes, o, split, n);
        let at = prefix_sum(layout_counts(classes, o, split), i) + j;
        assert(at == front.len() + j);
        assert(whole[at] == last[j]);
    } else {
        lemma_batch_piece(t, o, split, manga_mode, i, j);
        lemma_counts_drop_last(classes, o, split, i);
        lemma_prefix_sum_mono(layout_counts(t, o, split), i + 1, n);
        assert(prefix_sum(layout_counts(t, o, split), i + 1) == prefix_sum(layout_counts(t, o, split), i)
            + layout_counts(t, o, split)[i]);
        let at = prefix_sum(layout_counts(classes, o, split), i) + j;
        lemma_prefix_sum_mono(layout_counts(t, o, split), 0, i);
        assert(0 <= at < front.len());
        assert(t[i] == classes[i]);
        assert(whole[at] == front[at]);
    }
}

/// The page a preview shows is the page that converting the whole batch puts at
/// the clamped index: the target's local page of its source image.
pub proof fn lemma_preview_is_batch_page(
    classes: Seq<Class>,
    o: Orientation,
    split: Split,
    manga_mode: bool,
    index: int,
    t: PreviewTarget,
)
    requires
        is_preview_target(layout_counts(classes, o, split), index, t),
    ensures
        t.index < batch_layout(classes, o, split, manga_mode).len(),
        batch_layout(classes, o, split, manga_mode)[t.index as int] == spec_layout(
            classes[t.source as int],
            o,
            split,
            manga_mode,
        )[t.local as int],
{
    let c = layout_counts(classes, o, split);
    let s = t.source as int;
    assert(prefix_sum(c, s + 1) == prefix_sum(c, s) + c[s]);
    lemma_batch_piece(classes, o, split, manga_mode, s, t.local as int);
}

/// Every piece is fitted to a screen: in portrait orientation all pieces are
/// 480x800; in landscape orientation the rotated spread is 480x800 and every
/// other piece 800x480.
pub proof fn lemma_piece_sizes(class: Class, o: Orientation, split: Split, manga_mode: bool, i: int)
    requires
        0 <= i < spec_layout(class, o, split, manga_mode).len(),
    ensures
        ({
            let p = spec_layout(class, o, split, manga_mode)[i];
            &&& o == Orientation::Portrait ==> (p.width, p.height) == (480u32, 800u32)
            &&& o == Orientation::Landscape ==> (p.width, p.height) == (if p.source == Source::SpreadRotated {
                (480u32, 800u32)
            } else {
                (800u32, 480u32)
            })
        }),
{
}

/// A spread shows the whole spread first, then its halves in reading order: in
/// manga mode every piece of the right half comes before every piece of the left
/// half, otherwise the left half comes first.
pub proof fn lemma_spread_order(o: Orientation, split: Split, manga_mode: bool, i: int, j: int)
    requires
        0 <= i < j < spec_layout(Class::Spread, o, split, manga_mode).len(),
    ensures
        ({
            let s = spec_layout(Class::Spread, o, split, manga_mode);
            &&& s[0].source == Source::SpreadRotated && s[0].band == Band::Full
            &&& i > 0 ==> s[i].source != Source::SpreadRotated
            &&& (s[i].source == Source::LeftHalf && s[j].source == Source::RightHalf) ==> !manga_mode
            &&& (s[i].source == Source::RightHalf && s[j].source == Source::LeftHalf) ==> manga_mode
        }),
{
}

/// A normal page (upright or turned upright) shown in landscape becomes its
/// bands from top to bottom: piece `k` is band `k` of the page (half `k`, third
/// `k`), or the whole page when it is not split.
pub proof fn lemma_normal_page_bands(class: Class, split: Split, manga_mode: bool, k: int)
    requires
        class != Class::Spread,
        0 <= k < spec_layout(class, Orientation::Landscape, split, manga_mode).len(),
    ensures
        ({
            let p = spec_layout(class, Orientation::Landscape, split, manga_mode)[k];
            &&& p.source == Source::Page
            &&& split == Split::Whole ==> k == 0 && p.band == Band::Full
            &&& split == Split::Half ==> p.band == Band::Half(k as u8)
            &&& split == Split::Thirds ==> p.band == Band::Third(k as u8)
        }),
{
}

/// A spread shown in landscape: after its rotated whole, half `g` (0 the first
/// in reading order: the right half in manga mode, else the left) gives its
/// bands from top to bottom: its piece `j` is band `j` of that half.
pub proof fn lemma_spread_half_bands(split: Split, manga_mode: bool, g: int, j: int)
    requires
        0 <= g < 2,
        0 <= j < normal_count(Orientation::Landscape, split),
    ensures
        ({
            let n = normal_count(Orientation::Landscape, split) as int;
            let p = spec_layout(Class::Spread, Orientation::Landscape, split, manga_mode)[1 + g * n + j];
            &&& 1 + g * n + j < spec_layout(Class::Spread, Orientation::Landscape, split, manga_mode).len()
            &&& p.source == (if (g == 0) == manga_mode {
                Source::RightHalf
            } else {
                Source::LeftHalf
            })
            &&& split == Split::Whole ==> p.band == Band::Full
            &&& split == Split::Half ==> p.band == Band::Half(j as u8)
            &&& split == Split::Thirds ==> p.band == Band::Third(j as u8)
        }),
{
    let n = normal_count(Orientation::Landscape, split) as int;
    if g == 0 {
        assert(1 + g * n + j == 1 + j);
    } else {
        assert(1 + g * n + j == 1 + n + j);
    }
}

/// Whether two byte strings are equal.
fn bytes_equal(a: &[u8], b: &[u8]) -> (r: bool)
    ensures
        r == (a@ == b@),
{
    if a.len() != b.len() {
        return false;
    }
    let mut i: usize = 0;
    while i < a.len()
        invariant
            a@.len() == b@.len(),
            i <= a@.len(),
            forall|j: int| 0 <= j < i ==> a@[j] == b@[j],
        decreases a@.len() - i,
    {
        if a[i] != b[i] {
            return false;
        }
        i = i + 1;
    }
    assert(a@ =~= b@);
    true
}

/// The bytes of "landscape".
pub open spec fn landscape_name() -> Seq<u8> {
    seq![108u8, 97u8, 110u8, 100u8, 115u8, 99u8, 97u8, 112u8, 101u8]
}

/// The bytes of "half".
pub open spec fn half_name() -> Seq<u8> {
    seq![104u8, 97u8, 108u8, 102u8]
}

/// The bytes of "thirds".
pub open spec fn thirds_name() -> Seq<u8> {
    seq![116u8, 104u8, 105u8, 114u8, 100u8, 115u8]
}

/// The orientation a setting names: "landscape" is landscape, anything else portrait.
pub fn orientation_from_name(name: &str) -> (o: Orientation)
    ensures
        o == (if name.spec_bytes() == landscape_name() {
            Orientation::Landscape
        } else {
            Orientation::Portrait
        }),
{
    let landscape: [u8; 9] = [108, 97, 110, 100, 115, 99, 97, 112, 101];
    assert(landscape@ == landscape_name());
    if bytes_equal(name.as_bytes(), landscape.as_slice()) {
        Orientation::Landscape
    } else {
        Orientation::Portrait
    }
}

/// The split a setting names: "half", "thirds", anything else no split.
pub fn split_from_name(name: &str) -> (s: Split)
    ensures
        s == (if name.spec_bytes() == half_name() {
            Split::Half
        } else if name.spec_bytes() == thirds_name() {
            Split::Thirds
        } else {
            Split::Whole
        }),
{
    let half: [u8; 4] = [104, 97, 108, 102];
    let thirds: [u8; 6] = [116, 104, 105, 114, 100, 115];
    assert(half@ == half_name());
    assert(thirds@ == thirds_name());
    let b = name.as_bytes();
    if bytes_equal(b, half.as_slice()) {
        Split::Half
    } else if bytes_equal(b, thirds.as_slice()) {
        Split::Thirds
    } else {
        Split::Whole
    }
}

} // verus!
