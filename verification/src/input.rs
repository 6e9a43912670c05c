//! Choosing the source images of an input and finding which source image
//! produces a given output page.

use vstd::prelude::*;
use vstd::string::StringSliceAdditionalSpecFns;
use vstd::utf8::encode_utf8;

verus! {

/// ASCII lower-casing of one byte; other bytes are unchanged.
pub open spec fn ascii_lower(c: u8) -> u8 {
    if 65 <= c <= 90 {
        (c + 32) as u8
    } else {
        c
    }
}

/// ASCII lower-casing of a byte string (UTF-8 bytes outside ASCII are unchanged,
/// as `str::to_ascii_lowercase` leaves them).
pub open spec fn lower_bytes(s: Seq<u8>) -> Seq<u8> {
    Seq::new(s.len(), |i: int| ascii_lower(s[i]))
}

pub open spec fn ends_with(s: Seq<u8>, suffix: Seq<u8>) -> bool {
    suffix.len() <= s.len() && s.subrange(s.len() - suffix.len(), s.len() as int) == suffix
}

/// The image file extensions that are read, lower case, with their dot.
pub open spec fn image_extensions() -> Seq<Seq<u8>> {
    seq![
        seq![46u8, 106u8, 112u8, 103u8],  // .jpg
        seq![46u8, 106u8, 112u8, 101u8, 103u8],  // .jpeg
        seq![46u8, 112u8, 110u8, 103u8],  // .png
        seq![46u8, 119u8, 101u8, 98u8, 112u8],  // .webp
        seq![46u8, 98u8, 109u8, 112u8],  // .bmp
        seq![46u8, 103u8, 105u8, 102u8],  // .gif
    ]
}

/// A file name (as UTF-8 bytes) names an image when, ignoring ASCII case, it ends
/// with one of the image extensions.
pub open spec fn spec_is_image_name(name: Seq<u8>) -> bool {
    exists|e: int| 0 <= e < 6 && ends_with(lower_bytes(name), #[trigger] image_extensions()[e])
}

/// Whether the lower-cased `s` ends with `suffix`.
fn ends_with_lower(s: &[u8], suffix: &[u8]) -> (r: bool)
    ensures
        r == ends_with(lower_bytes(s@), suffix@),
{
    let n = s.len();
    let m = suffix.len();
    if m > n {
        return false;
    }
    let start = n - m;
    let mut i: usize = 0;
    while i < m
        invariant
            n == s@.len(),
            m == suffix@.len(),
            m <= n,
            start == n - m,
            i <= m,
            forall|j: int| 0 <= j < i ==> ascii_lower(s@[start + j]) == suffix@[j],
        decreases m - i,
    {
        let c = s[start + i];
        let lc: u8 = if 65 <= c && c <= 90 { c + 32 } else { c };
        if lc != suffix[i] {
            assert(lower_bytes(s@).subrange(start as int, n as int)[i as int] != suffix@[i as int]);
            return false;
        }
        i = i + 1;
    }
    assert(lower_bytes(s@).subrange(start as int, n as int) =~= suffix@);
    true
}

/// Whether a file name names an image (.jpg .jpeg .png .webp .bmp .gif, any case).
pub fn is_image_name(name: &str) -> (r: bool)
    ensures
        r == spec_is_image_name(name.spec_bytes()),
{
    let b = name.as_bytes();
    let jpg: [u8; 4] = [46, 106, 112, 103];
    let jpeg: [u8; 5] = [46, 106, 112, 101, 103];
    let png: [u8; 4] = [46, 112, 110, 103];
    let webp: [u8; 5] = [46, 119, 101, 98, 112];
    let bmp: [u8; 4] = [46, 98, 109, 112];
    let gif: [u8; 4] = [46, 103, 105, 102];
    let ghost exts = image_extensions();
    assert(jpg@ == exts[0]);
    assert(jpeg@ == exts[1]);
    assert(png@ == exts[2]);
    assert(webp@ == exts[3]);
    assert(bmp@ == exts[4]);
    assert(gif@ == exts[5]);
    let r = ends_with_lower(b, jpg.as_slice()) || ends_with_lower(b, jpeg.as_slice()) || ends_with_lower(
        b,
        png.as_slice(),
    ) || ends_with_lower(b, webp.as_slice()) || ends_with_lower(b, bmp.as_slice()) || ends_with_lower(
        b,
        gif.as_slice(),
    );
    r
}

/// Strict lexicographic order on byte strings (the order of `str` and of file names).
pub open spec fn bytes_lt(a: Seq<u8>, b: Seq<u8>) -> bool
    decreases a.len(),
{
    if a.len() == 0 {
        b.len() > 0
    } else if b.len() == 0 {
        false
    } else if a[0] != b[0] {
        a[0] < b[0]
    } else {
        bytes_lt(a.drop_first(), b.drop_first())
    }
}

pub proof fn lemma_bytes_lt_irreflexive(a: Seq<u8>)
    ensures
        !bytes_lt(a, a),
    decreases a.len(),
{
    if a.len() > 0 {
        lemma_bytes_lt_irreflexive(a.drop_first());
    }
}

pub proof fn lemma_bytes_lt_total(a: Seq<u8>, b: Seq<u8>)
    ensures
        bytes_lt(a, b) || bytes_lt(b, a) || a == b,
    decreases a.len(),
{
    if a.len() > 0 && b.len() > 0 && a[0] == b[0] {
        lemma_bytes_lt_total(a.drop_first(), b.drop_first());
        if a.drop_first() == b.drop_first() {
            assert(a =~= seq![a[0]] + a.drop_first());
            assert(b =~= seq![b[0]] + b.drop_first());
        }
    } else if a.len() == 0 && b.len() == 0 {
        assert(a =~= b);
    }
}

pub proof fn lemma_bytes_lt_asym(a: Seq<u8>, b: Seq<u8>)
    ensures
        !(bytes_lt(a, b) && bytes_lt(b, a)),
    decreases a.len(),
{
    if a.len() > 0 && b.len() > 0 && a[0] == b[0] {
        lemma_bytes_lt_asym(a.drop_first(), b.drop_first());
    }
}

pub proof fn lemma_bytes_lt_trans(a: Seq<u8>, b: Seq<u8>, c: Seq<u8>)
    requires
        bytes_lt(a, b),
        bytes_lt(b, c),
    ensures
        bytes_lt(a, c),
    decreases a.len(),
{
    if a.len() > 0 && b.len() > 0 && c.len() > 0 && a[0] == b[0] && b[0] == c[0] {
        lemma_bytes_lt_trans(a.drop_first(), b.drop_first(), c.drop_first());
    }
}

/// Names are ordered by their first differing byte: after a common prefix `s`,
/// the name whose next byte is smaller comes first, whatever follows.
pub proof fn lemma_bytes_lt_first_difference(s: Seq<u8>, c: u8, d: u8, t1: Seq<u8>, t2: Seq<u8>)
    requires
        c != d,
    ensures
        bytes_lt(s + seq![c] + t1, s + seq![d] + t2) <==> c < d,
    decreases s.len(),
{
    let a = s + seq![c] + t1;
    let b = s + seq![d] + t2;
    if s.len() == 0 {
        assert(a[0] == c && b[0] == d);
    } else {
        assert(a[0] == s[0] && b[0] == s[0]);
        assert(a.drop_first() =~= s.drop_first() + seq![c] + t1);
        assert(b.drop_first() =~= s.drop_first() + seq![d] + t2);
        lemma_bytes_lt_first_difference(s.drop_first(), c, d, t1, t2);
    }
}

/// A name comes before every longer name that it begins, and never after it.
pub proof fn lemma_bytes_lt_prefix(s: Seq<u8>, t: Seq<u8>)
    requires
        t.len() > 0,
    ensures
        bytes_lt(s, s + t),
        !bytes_lt(s + t, s),
    decreases s.len(),
{
    if s.len() > 0 {
        assert((s + t).drop_first() =~= s.drop_first() + t);
        assert((s + t)[0] == s[0]);
        lemma_bytes_lt_prefix(s.drop_first(), t);
    }
}

/// Strict lexicographic comparison of two byte strings.
fn bytes_less(a: &[u8], b: &[u8]) -> (r: bool)
    ensures
        r == bytes_lt(a@, b@),
{
    let n = a.len();
    let m = b.len();
    let mut i: usize = 0;
    assert(a@.skip(0) =~= a@);
    assert(b@.skip(0) =~= b@);
    while i < n && i < m
        invariant
            n == a@.len(),
            m == b@.len(),
            i <= n,
            i <= m,
            bytes_lt(a@, b@) == bytes_lt(a@.skip(i as int), b@.skip(i as int)),
        decreases n - i,
    {
        if a[i] != b[i] {
            return a[i] < b[i];
        }
        assert(a@.skip(i as int).drop_first() =~= a@.skip(i + 1));
        assert(b@.skip(i as int).drop_first() =~= b@.skip(i + 1));
        i = i + 1;
    }
    i == n && i < m
}

/// Name `i` comes before name `j`: by bytes, and by position among equal names
/// (the order of a stable sort).
pub open spec fn name_before(names: Seq<Seq<u8>>, i: int, j: int) -> bool {
    bytes_lt(names[i], names[j]) || (names[i] == names[j] && i < j)
}

/// The file names, as UTF-8 bytes.
pub open spec fn name_bytes(names: Seq<String>) -> Seq<Seq<u8>> {
    Seq::new(names.len(), |i: int| encode_utf8(names[i]@))
}

/// How many of the first `k` names name images.
pub open spec fn image_count(names: Seq<Seq<u8>>, k: int) -> nat
    decreases k,
{
    if k <= 0 {
        0
    } else {
        image_count(names, k - 1) + if spec_is_image_name(names[k - 1]) {
            1nat
        } else {
            0nat
        }
    }
}

/// The positions of the image names, sorted by name (a stable sort: equal names
/// keep their order).
pub fn select_images(names: &Vec<String>) -> (sel: Vec<usize>)
    ensures
        ({
            let nb = name_bytes(names@);
            &&& sel@.len() == image_count(nb, names@.len() as int)
            &&& forall|p: int| 0 <= p < sel@.len() ==> #[trigger] sel@[p] < names@.len()
            &&& forall|p: int| 0 <= p < sel@.len() ==> spec_is_image_name(nb[#[trigger] sel@[p] as int])
            &&& forall|p: int, q: int| 0 <= p < q < sel@.len() ==> name_before(nb, #[trigger] sel@[p] as int, #[trigger] sel@[q] as int)
            &&& forall|i: int| 0 <= i < names@.len() && spec_is_image_name(#[trigger] nb[i]) ==> sel@.contains(i as usize)
        }),
{
    let ghost nb = name_bytes(names@);
    let n = names.len();
    let mut sel: Vec<usize> = Vec::new();
    let mut i: usize = 0;
    while i < n
        invariant
            n == names@.len(),
            nb == name_bytes(names@),
            i <= n,
            sel@.len() == image_count(nb, i as int),
            forall|p: int| 0 <= p < sel@.len() ==> #[trigger] sel@[p] < i,
            forall|p: int| 0 <= p < sel@.len() ==> spec_is_image_name(nb[#[trigger] sel@[p] as int]),
            forall|p: int, q: int| 0 <= p < q < sel@.len() ==> name_before(nb, #[trigger] sel@[p] as int, #[trigger] sel@[q] as int),
            forall|j: int| 0 <= j < i && spec_is_image_name(#[trigger] nb[j]) ==> sel@.contains(j as usize),
        decreases n - i,
    {
        let name: &str = names[i].as_str();
        assert(name.spec_bytes() == nb[i as int]);
        if is_image_name(name) {
            let nm: &[u8] = name.as_bytes();
            let mut p: usize = 0;
            while p < sel.len() && !bytes_less(nm, names[sel[p]].as_str().as_bytes())
                invariant
                    p <= sel@.len(),
                    nm@ == nb[i as int],
                    n == names@.len(),
                    nb == name_bytes(names@),
                    forall|q: int| 0 <= q < sel@.len() ==> #[trigger] sel@[q] < i,
                    i < n,
                    forall|q: int| 0 <= q < p ==> !bytes_lt(nb[i as int], nb[#[trigger] sel@[q] as int]),
                decreases sel@.len() - p,
            {
                p = p + 1;
            }
            let ghost old_sel = sel@;
            sel.insert(p, i);
            proof {
                assert forall|a: int, b: int| 0 <= a < b < sel@.len() implies name_before(nb, #[trigger] sel@[a] as int, #[trigger] sel@[b] as int) by {
                    let x = sel@[a] as int;
                    let y = sel@[b] as int;
                    if b < p {
                        assert(x == old_sel[a] && y == old_sel[b]);
                    } else if a > p {
                        assert(x == old_sel[a - 1] && y == old_sel[b - 1]);
                    } else if b == p {
                        assert(x == old_sel[a]);
                        assert(!bytes_lt(nb[i as int], nb[x]));
                        lemma_bytes_lt_total(nb[i as int], nb[x]);
                    } else if a == p {
                        // y is an older entry at or after the insertion point
                        assert(y == old_sel[b - 1]);
                        assert(p < old_sel.len());
                        let z = old_sel[p as int] as int;
                        assert(bytes_lt(nb[i as int], nb[z]));
                        if b - 1 > p {
                            assert(name_before(nb, z, y));
                            if bytes_lt(nb[z], nb[y]) {
                                lemma_bytes_lt_trans(nb[i as int], nb[z], nb[y]);
                            }
                        }
                    } else {
                        // a < p < b
                        assert(x == old_sel[a] && y == old_sel[b - 1]);
                    }
                }
                assert forall|j: int| 0 <= j <= i && spec_is_image_name(#[trigger] nb[j]) implies sel@.contains(j as usize) by {
                    if j < i {
                        assert(old_sel.contains(j as usize));
                        let k = choose|k: int| 0 <= k < old_sel.len() && old_sel[k] == j as usize;
                        if k < p {
                            assert(sel@[k] == j as usize);
                        } else {
                            assert(sel@[k + 1] == j as usize);
                        }
                    } else {
                        assert(sel@[p as int] == i);
                    }
                }
            }
        } else {
            proof {
                assert forall|j: int| 0 <= j <= i && spec_is_image_name(#[trigger] nb[j]) implies sel@.contains(j as usize) by {
                    if j < i {
                    }
                }
            }
        }
        i = i + 1;
    }
    sel
}

/// The number of image names among `names`.
pub fn count_image_names(names: &Vec<String>) -> (c: usize)
    ensures
        c == image_count(name_bytes(names@), names@.len() as int),
{
    let ghost nb = name_bytes(names@);
    let n = names.len();
    let mut c: usize = 0;
    let mut i: usize = 0;
    while i < n
        invariant
            n == names@.len(),
            nb == name_bytes(names@),
            i <= n,
            c == image_count(nb, i as int),
            c <= i,
        decreases n - i,
    {
        let name: &str = names[i].as_str();
        assert(name.spec_bytes() == nb[i as int]);
        if is_image_name(name) {
            c = c + 1;
        }
        i = i + 1;
    }
    c
}

/// Sum of the first `i` counts.
pub open spec fn prefix_sum(counts: Seq<usize>, i: int) -> int
    decreases i,
{
    if i <= 0 {
        0
    } else {
        prefix_sum(counts, i - 1) + counts[i - 1]
    }
}

pub proof fn lemma_prefix_sum_mono(counts: Seq<usize>, i: int, j: int)
    requires
        0 <= i <= j <= counts.len(),
    ensures
        prefix_sum(counts, i) <= prefix_sum(counts, j),
    decreases j - i,
{
    if i < j {
        lemma_prefix_sum_mono(counts, i, j - 1);
    }
}

/// Find (source_index, local_page) for a global page index given per-image counts:
/// the source whose pages cover `idx`, and the position of `idx` among them.
/// An index past the last page gives (last source, 0).
pub fn locate(counts: &[usize], idx: usize) -> (r: (usize, usize))
    ensures
        idx < prefix_sum(counts@, counts@.len() as int) ==> {
            &&& r.0 < counts@.len()
            &&& prefix_sum(counts@, r.0 as int) <= idx < prefix_sum(counts@, r.0 + 1)
            &&& r.1 == idx - prefix_sum(counts@, r.0 as int)
        },
        idx >= prefix_sum(counts@, counts@.len() as int) ==> r == (
        if counts@.len() == 0 {
            0usize
        } else {
            (counts@.len() - 1) as usize
        },
        0usize,
        ),
{
    let n = counts.len();
    let mut acc: usize = 0;
    let mut i: usize = 0;
    while i < n
        invariant
            n == counts@.len(),
            i <= n,
            acc == prefix_sum(counts@, i as int),
            acc <= idx,
        decreases n - i,
    {
        let c = counts[i];
        if idx - acc < c {
            proof {
                lemma_prefix_sum_mono(counts@, i + 1, n as int);
            }
            return (i, idx - acc);
        }
        acc = acc + c;
        i = i + 1;
    }
    (if n == 0 { 0 } else { n - 1 }, 0)
}

/// Which output page a preview shows and where it comes from.
pub struct PreviewTarget {
    /// Total number of output pages.
    pub total: usize,
    /// The requested index, clamped to the last page.
    pub index: usize,
    /// The source image that produces that page.
    pub source: usize,
    /// The page's position among the pages of its source image.
    pub local: usize,
}

/// `t` is the preview of page `index`: the total page count, the index clamped
/// to the last page, the source image whose pages cover it and its position
/// among them.
pub open spec fn is_preview_target(counts: Seq<usize>, index: int, t: PreviewTarget) -> bool {
    let total = prefix_sum(counts, counts.len() as int);
    &&& t.total == total
    &&& t.index == (if index < total { index } else { total - 1 })
    &&& t.source < counts.len()
    &&& prefix_sum(counts, t.source as int) <= t.index < prefix_sum(counts, t.source + 1)
    &&& t.local == t.index - prefix_sum(counts, t.source as int)
}

/// The preview of a page is determined by the counts and the index, and asking
/// again for the page it settled on gives the same preview.
pub proof fn lemma_preview_target_repeat(counts: Seq<usize>, index: int, t: PreviewTarget, u: PreviewTarget)
    requires
        is_preview_target(counts, index, t),
        is_preview_target(counts, t.index as int, u),
    ensures
        u == t,
{
    let (a, b) = (t.source as int, u.source as int);
    if a < b {
        lemma_prefix_sum_mono(counts, a + 1, b);
    } else if b < a {
        lemma_prefix_sum_mono(counts, b + 1, a);
    }
}

/// Plan a single-page preview from the number of pages each source image
/// produces: the total, the clamped index and where that page comes from.
/// Fails when the input produces no pages.
pub fn preview_target(counts: &[usize], index: usize) -> (r: Result<PreviewTarget, String>)
    requires
        prefix_sum(counts@, counts@.len() as int) <= usize::MAX,
    ensures
        (r is Err <==> prefix_sum(counts@, counts@.len() as int) == 0),
        r matches Err(e) ==> e@ == "input produced no pages"@,
        r matches Ok(t) ==> is_preview_target(counts@, index as int, t),
{
    let n = counts.len();
    let mut total: usize = 0;
    let mut i: usize = 0;
    while i < n
        invariant
            n == counts@.len(),
            i <= n,
            total == prefix_sum(counts@, i as int),
            prefix_sum(counts@, n as int) <= usize::MAX,
        decreases n - i,
    {
        proof {
            lemma_prefix_sum_mono(counts@, i + 1, n as int);
        }
        total = total + counts[i];
        i = i + 1;
    }
    if total == 0 {
        return Err("input produced no pages".to_owned());
    }
    let idx = if index < total { index } else { total - 1 };
    let (source, local) = locate(counts, idx);
    Ok(PreviewTarget { total, index: idx, source, local })
}

} // verus!
