//! Size-based splitting of a conversion's output into several `.xtch` files.
//!
//! Pages arrive one by one as encoded blocks. They gather into a part; before a
//! page is added, the part is written out (flushed) when the page would make the
//! part's container larger than the limit. A part always holds at least one page,
//! so a single page larger than the limit makes a part of its own.

use vstd::prelude::*;
use vstd::string::StringExecFns;
use crate::xtch::{data_offset, encoded_views, spec_assemble, total_block_len, EncodedPage, EncodedPageView, lemma_assemble_size};

verus! {

/// Output splitting applies only to image folders, and only for a limit of
/// 10 to 500 MB; it is then that many MiB.
pub fn split_limit(is_dir: bool, split_mb: Option<u32>) -> (r: Option<usize>)
    ensures
        r == (match split_mb {
            Some(mb) if is_dir && 10 <= mb <= 500 => Some((mb * 1024 * 1024) as usize),
            _ => None,
        }),
{
    if is_dir {
        match split_mb {
            Some(mb) => {
                if 10 <= mb && mb <= 500 {
                    Some((mb as usize) * 1024 * 1024)
                } else {
                    None
                }
            },
            None => None,
        }
    } else {
        None
    }
}

/// Sum of the block lengths of a part.
pub open spec fn sum_lens(lens: Seq<nat>) -> nat
    decreases lens.len(),
{
    if lens.len() == 0 {
        0
    } else {
        sum_lens(lens.drop_last()) + lens.last()
    }
}

/// Container size of a part whose blocks have the given lengths.
pub open spec fn part_size(lens: Seq<nat>) -> nat {
    data_offset(lens.len()) + sum_lens(lens)
}

/// The state of the splitting: the limit, the block lengths of the current part,
/// the number of parts already written out and the number of pages seen.
pub struct PartPlanner {
    limit: Option<usize>,
    part_bytes: usize,
    part_pages: usize,
    flushed: usize,
    total_pages: usize,
    lens: Ghost<Seq<nat>>,
}

impl PartPlanner {
    /// Block lengths of the pages in the current part.
    pub closed spec fn current(&self) -> Seq<nat> {
        self.lens@
    }

    pub closed spec fn limit(&self) -> Option<usize> {
        self.limit
    }

    /// Number of parts written out so far.
    pub closed spec fn flushed(&self) -> nat {
        self.flushed as nat
    }

    /// Number of pages seen so far.
    pub closed spec fn total_pages(&self) -> nat {
        self.total_pages as nat
    }

    /// The recorded sizes agree with the part, and a part of two or more pages
    /// fits the limit.
    pub closed spec fn wf(&self) -> bool {
        &&& self.part_pages == self.lens@.len()
        &&& self.part_bytes == part_size(self.lens@)
        &&& (self.limit is Some && self.lens@.len() >= 2 ==> part_size(self.lens@) <= self.limit->0)
    }

    /// Container size of the current part.
    pub closed spec fn part_bytes(&self) -> nat {
        self.part_bytes as nat
    }

    /// A planner with an empty part.
    pub fn new(limit: Option<usize>) -> (p: PartPlanner)
        ensures
            p.wf(),
            p.limit() == limit,
            p.current() == Seq::<nat>::empty(),
            p.flushed() == 0,
            p.total_pages() == 0,
    {
        let p = PartPlanner {
            limit,
            part_bytes: 48,
            part_pages: 0,
            flushed: 0,
            total_pages: 0,
            lens: Ghost(Seq::empty()),
        };
        p
    }

    /// Container size of the current part.
    pub fn part_bytes_now(&self) -> (b: usize)
        requires
            self.wf(),
        ensures
            b == part_size(self.current()),
    {
        self.part_bytes
    }

    /// Number of pages in the current part.
    pub fn part_pages(&self) -> (n: usize)
        requires
            self.wf(),
        ensures
            n == self.current().len(),
    {
        self.part_pages
    }

    /// Number of parts written out so far.
    pub fn flushed_parts(&self) -> (n: usize)
        ensures
            n == self.flushed(),
    {
        self.flushed
    }

    /// Number of pages seen so far.
    pub fn pages_seen(&self) -> (n: usize)
        ensures
            n == self.total_pages(),
    {
        self.total_pages
    }

    /// Takes the next page block of `block_len` bytes. Returns `true` when the
    /// current part must be written out before the page joins a new part; the
    /// page then starts that new part.
    pub fn add_page(&mut self, block_len: usize) -> (flush: bool)
        requires
            old(self).wf(),
            part_size(old(self).current()) + 16 + block_len <= usize::MAX,
            old(self).flushed() < usize::MAX,
            old(self).total_pages() < usize::MAX,
        ensures
            final(self).wf(),
            final(self).limit() == old(self).limit(),
            flush == (old(self).limit() matches Some(l) && old(self).current().len() > 0
                && part_size(old(self).current()) + 16 + block_len > l),
            final(self).current() == (if flush {
                seq![block_len as nat]
            } else {
                old(self).current().push(block_len as nat)
            }),
            final(self).flushed() == old(self).flushed() + if flush {
                1nat
            } else {
                0nat
            },
            final(self).total_pages() == old(self).total_pages() + 1,
    {
        let add: usize = 16 + block_len;
        let mut flush = false;
        if let Some(limit) = self.limit {
            if self.part_pages > 0 && self.part_bytes + add > limit {
                flush = true;
            }
        }
        if flush {
            self.flushed = self.flushed + 1;
            self.part_bytes = 48;
            self.part_pages = 0;
            self.lens = Ghost(Seq::empty());
        }
        let ghost before = self.lens@;
        proof {
            assert(part_size(before) == self.part_bytes);
        }
        self.part_bytes = self.part_bytes + add;
        self.part_pages = self.part_pages + 1;
        self.lens = Ghost(before.push(block_len as nat));
        self.total_pages = self.total_pages + 1;
        proof {
            assert(self.lens@.drop_last() =~= before);
        }
        flush
    }
}

/// A part that is written out is never empty, and it fits the limit unless it
/// holds a single page; adding the page that caused the flush would have made it
/// exceed the limit.
pub proof fn lemma_flushed_part(p: PartPlanner, block_len: nat)
    requires
        p.wf(),
        p.limit() is Some,
        p.current().len() > 0,
        part_size(p.current()) + 16 + block_len > p.limit()->0,
    ensures
        p.current().len() == 1 || part_size(p.current()) <= p.limit()->0,
        part_size(p.current().push(block_len)) > p.limit()->0,
{
    assert(p.current().push(block_len).drop_last() =~= p.current());
}

/// A part of two or more pages always fits the limit: only a page that alone is
/// larger than the limit makes a part that exceeds it.
pub proof fn lemma_part_fits(p: PartPlanner)
    requires
        p.wf(),
        p.limit() is Some,
        p.current().len() >= 2,
    ensures
        part_size(p.current()) <= p.limit()->0,
{
}

/// The block lengths of a sequence of encoded pages.
pub open spec fn block_lens(pages: Seq<EncodedPageView>) -> Seq<nat> {
    Seq::new(pages.len(), |i: int| pages[i].data.len())
}

proof fn lemma_sum_lens(pages: Seq<EncodedPageView>)
    ensures
        sum_lens(block_lens(pages)) == total_block_len(pages),
    decreases pages.len(),
{
    if pages.len() > 0 {
        lemma_sum_lens(pages.drop_last());
        assert(block_lens(pages).drop_last() =~= block_lens(pages.drop_last()));
    }
}

/// The size the planner tracks for a part is the size of the container that
/// `assemble` writes for that part's pages.
pub proof fn lemma_part_size_is_container_size(pages: Seq<EncodedPageView>)
    ensures
        part_size(block_lens(pages)) == spec_assemble(pages).len(),
{
    lemma_sum_lens(pages);
    lemma_assemble_size(pages);
}

/// The pages of several parts, one part after the other.
pub open spec fn concat_parts(parts: Seq<Seq<EncodedPageView>>) -> Seq<EncodedPageView>
    decreases parts.len(),
{
    if parts.len() == 0 {
        Seq::empty()
    } else {
        concat_parts(parts.drop_last()) + parts.last()
    }
}

proof fn lemma_block_lens_push(pages: Seq<EncodedPageView>, p: EncodedPageView)
    ensures
        block_lens(pages.push(p)) == block_lens(pages).push(p.data.len()),
{
    assert(block_lens(pages.push(p)) =~= block_lens(pages).push(p.data.len()));
}

/// The pages of a conversion as they are split into output files: the parts
/// already handed out to be written, and the part still being gathered.
pub struct PartBuffer {
    planner: PartPlanner,
    pending: Vec<EncodedPage>,
    done: Ghost<Seq<Seq<EncodedPageView>>>,
    seen: Ghost<Seq<EncodedPageView>>,
}

impl PartBuffer {
    /// The pages of the part being gathered.
    pub closed spec fn pending(&self) -> Seq<EncodedPageView> {
        encoded_views(self.pending@)
    }

    /// The parts handed out so far, in order.
    pub closed spec fn written(&self) -> Seq<Seq<EncodedPageView>> {
        self.done@
    }

    /// Every page taken so far, in order.
    pub closed spec fn seen(&self) -> Seq<EncodedPageView> {
        self.seen@
    }

    pub closed spec fn limit(&self) -> Option<usize> {
        self.planner.limit()
    }

    pub closed spec fn wf(&self) -> bool {
        &&& self.planner.wf()
        &&& self.planner.current() == block_lens(encoded_views(self.pending@))
        &&& self.planner.flushed() == self.done@.len()
        &&& self.planner.total_pages() == self.seen@.len()
        &&& self.seen@ == concat_parts(self.done@) + encoded_views(self.pending@)
        &&& forall|k: int| 0 <= k < self.done@.len() ==> (#[trigger] self.done@[k]).len() > 0
        &&& self.planner.limit() is None ==> self.done@.len() == 0
        &&& self.planner.limit() matches Some(l) ==> forall|k: int|
            0 <= k < self.done@.len() && (#[trigger] self.done@[k]).len() >= 2 ==> part_size(block_lens(self.done@[k])) <= l
    }

    /// An empty buffer that splits at `limit` bytes (or never, for `None`).
    pub fn new(limit: Option<usize>) -> (b: PartBuffer)
        ensures
            b.wf(),
            b.limit() == limit,
            b.pending() == Seq::<EncodedPageView>::empty(),
            b.written() == Seq::<Seq<EncodedPageView>>::empty(),
            b.seen() == Seq::<EncodedPageView>::empty(),
    {
        let b = PartBuffer {
            planner: PartPlanner::new(limit),
            pending: Vec::new(),
            done: Ghost(Seq::empty()),
            seen: Ghost(Seq::empty()),
        };
        assert(encoded_views(b.pending@) =~= Seq::<EncodedPageView>::empty());
        assert(block_lens(encoded_views(b.pending@)) =~= Seq::<nat>::empty());
        assert(b.seen@ =~= concat_parts(b.done@) + encoded_views(b.pending@));
        b
    }

    /// Number of parts handed out so far.
    pub fn parts_written(&self) -> (n: usize)
        requires
            self.wf(),
        ensures
            n == self.written().len(),
    {
        self.planner.flushed_parts()
    }

    /// Number of pages taken so far.
    pub fn pages_seen(&self) -> (n: usize)
        requires
            self.wf(),
        ensures
            n == self.seen().len(),
    {
        self.planner.pages_seen()
    }

    /// Container size of the part being gathered.
    pub fn pending_bytes(&self) -> (n: usize)
        requires
            self.wf(),
        ensures
            n == part_size(block_lens(self.pending())),
    {
        self.planner.part_bytes_now()
    }

    /// Takes the next encoded page. When it would make the gathered part's
    /// container exceed the limit, the gathered part is handed out first (to be
    /// written) and the page starts a new part.
    pub fn push(&mut self, ep: EncodedPage) -> (out: Option<Vec<EncodedPage>>)
        requires
            old(self).wf(),
            part_size(block_lens(old(self).pending())) + 16 + ep.data@.len() <= usize::MAX,
            old(self).written().len() < usize::MAX,
            old(self).seen().len() < usize::MAX,
        ensures
            final(self).wf(),
            final(self).limit() == old(self).limit(),
            final(self).seen() == old(self).seen().push(ep@),
            out is Some == (old(self).limit() matches Some(l) && old(self).pending().len() > 0
                && part_size(block_lens(old(self).pending())) + 16 + ep.data@.len() > l),
            out matches Some(v) ==> {
                &&& encoded_views(v@) == old(self).pending()
                &&& final(self).written() == old(self).written().push(old(self).pending())
                &&& final(self).pending() == seq![ep@]
            },
            out is None ==> {
                &&& final(self).written() == old(self).written()
                &&& final(self).pending() == old(self).pending().push(ep@)
            },
    {
        let ghost old_pending = encoded_views(self.pending@);
        let ghost old_done = self.done@;
        let ghost old_seen = self.seen@;
        let ghost e = ep@;
        let len = ep.data.len();
        let flush = self.planner.add_page(len);
        if flush {
            let mut out: Vec<EncodedPage> = Vec::new();
            std::mem::swap(&mut out, &mut self.pending);
            self.pending.push(ep);
            self.done = Ghost(old_done.push(old_pending));
            self.seen = Ghost(old_seen.push(e));
            proof {
                assert(encoded_views(self.pending@) =~= seq![e]);
                assert(block_lens(seq![e]) =~= seq![len as nat]);
                assert(self.done@.drop_last() =~= old_done);
                assert(self.seen@ =~= concat_parts(self.done@) + encoded_views(self.pending@));
                assert(encoded_views(out@) == old_pending);
            }
            Some(out)
        } else {
            self.pending.push(ep);
            self.seen = Ghost(old_seen.push(e));
            proof {
                assert(encoded_views(self.pending@) =~= old_pending.push(e));
                lemma_block_lens_push(old_pending, e);
                assert(self.seen@ =~= concat_parts(self.done@) + encoded_views(self.pending@));
            }
            None
        }
    }

    /// The part still being gathered, handed out at the end.
    pub fn into_last_part(self) -> (rest: Vec<EncodedPage>)
        requires
            self.wf(),
        ensures
            encoded_views(rest@) == self.pending(),
    {
        self.pending
    }
}

/// Every page lands in exactly one part, in order: the pages taken are the
/// parts handed out, one after the other, followed by the part being gathered.
/// No handed-out part is empty, and one of two or more pages fits the limit.
pub proof fn lemma_pages_in_parts(b: PartBuffer)
    requires
        b.wf(),
    ensures
        b.seen() == concat_parts(b.written()) + b.pending(),
        forall|k: int| 0 <= k < b.written().len() ==> (#[trigger] b.written()[k]).len() > 0,
        b.limit() matches Some(l) ==> forall|k: int|
            0 <= k < b.written().len() && (#[trigger] b.written()[k]).len() >= 2 ==> part_size(block_lens(b.written()[k])) <= l,
        b.limit() matches Some(l) ==> (b.pending().len() >= 2 ==> part_size(block_lens(b.pending())) <= l),
{
}

/// Without a limit nothing is handed out before the end: the last part holds
/// every page taken, in order, so the output is the one container of all pages.
pub proof fn lemma_unlimited_single_part(b: PartBuffer)
    requires
        b.wf(),
        b.limit() is None,
    ensures
        b.written().len() == 0,
        b.pending() == b.seen(),
{
    assert(b.written() =~= Seq::<Seq<EncodedPageView>>::empty());
    assert(concat_parts(b.written()) =~= Seq::<EncodedPageView>::empty());
    assert(b.seen() =~= b.pending());
}

/// The directory part of a path, as `std::path::Path::parent` gives it (empty text
/// when the path has no parent).
pub uninterp spec fn path_parent(path: Seq<char>) -> Seq<char>;

/// Calls `std::path::Path::parent` on the path. Claimed: the text of the parent
/// (or empty text when there is none) is named `path_parent`.
#[verifier::external_body]
fn parent_of(path: &str) -> (p: String)
    ensures
        p@ == path_parent(path@),
{
    match std::path::Path::new(path).parent() {
        Some(parent) => parent.to_string_lossy().into_owned(),
        None => String::new(),
    }
}

/// Where the output of an input goes: the chosen output directory when one is
/// given and not empty, else the input's own directory.
pub fn out_dir_for(path: &str, out_dir: &Option<String>) -> (dir: String)
    ensures
        dir@ == (match out_dir {
            Some(d) if d@.len() > 0 => d@,
            _ => path_parent(path@),
        }),
{
    match out_dir {
        Some(d) => {
            if !d.as_str().is_empty() {
                d.clone()
            } else {
                parent_of(path)
            }
        },
        None => parent_of(path),
    }
}

/// The file stem of a path (its last component without the extension), as
/// `std::path::Path::file_stem` gives it, or `None` when there is none.
pub uninterp spec fn path_file_stem(path: Seq<char>) -> Option<Seq<char>>;

/// Calls `std::path::Path::file_stem` on the path. Claimed: the stem, or its
/// absence, is named `path_file_stem`. (A stem of a `str` path is always valid
/// UTF-8, so the conversion back to text does not fail.)
#[verifier::external_body]
fn file_stem_of(path: &str) -> (r: Option<String>)
    ensures
        match r {
            Some(s) => path_file_stem(path@) == Some(s@),
            None => path_file_stem(path@) is None,
        },
{
    std::path::Path::new(path).file_stem().and_then(|s| s.to_str()).map(|s| s.to_owned())
}

/// The base name of the output files of an input: the input's file stem, or
/// "output" when the path has none.
pub fn output_stem(path: &str) -> (stem: String)
    ensures
        stem@ == (match path_file_stem(path@) {
            Some(t) => t,
            None => "output"@,
        }),
{
    match file_stem_of(path) {
        Some(s) => s,
        None => "output".to_owned(),
    }
}

/// The character of a decimal digit.
pub open spec fn digit_char(d: nat) -> char {
    if d == 0 {
        '0'
    } else if d == 1 {
        '1'
    } else if d == 2 {
        '2'
    } else if d == 3 {
        '3'
    } else if d == 4 {
        '4'
    } else if d == 5 {
        '5'
    } else if d == 6 {
        '6'
    } else if d == 7 {
        '7'
    } else if d == 8 {
        '8'
    } else {
        '9'
    }
}

/// The decimal text of a number, without leading zeros.
pub open spec fn decimal(n: nat) -> Seq<char>
    decreases n,
{
    if n < 10 {
        seq![digit_char(n)]
    } else {
        decimal(n / 10).push(digit_char(n % 10))
    }
}

/// The value of a decimal digit character ('0' is 0, ..., '9' is 9).
pub open spec fn digit_value(c: char) -> int {
    c as int - 48
}

/// The number that a text of decimal digits denotes, most significant first.
pub open spec fn decimal_value(s: Seq<char>) -> int
    decreases s.len(),
{
    if s.len() == 0 {
        0
    } else {
        decimal_value(s.drop_last()) * 10 + digit_value(s.last())
    }
}

proof fn lemma_digit_char(d: nat)
    requires
        d < 10,
    ensures
        digit_value(digit_char(d)) == d,
        '0' <= digit_char(d) <= '9',
{
}

/// `decimal(n)` is the decimal text of `n`: all its characters are digits, it
/// has no leading zero (but for 0 itself), and reading its digits back gives
/// `n`.
pub proof fn lemma_decimal_reads_back(n: nat)
    ensures
        decimal_value(decimal(n)) == n,
        decimal(n).len() > 0,
        forall|i: int| 0 <= i < decimal(n).len() ==> '0' <= #[trigger] decimal(n)[i] <= '9',
        n > 0 ==> decimal(n)[0] != '0',
    decreases n,
{
    if n < 10 {
        lemma_digit_char(n);
        assert(decimal(n).drop_last() =~= Seq::<char>::empty());
        assert(decimal_value(decimal(n)) == decimal_value(Seq::<char>::empty()) * 10 + digit_value(digit_char(n)));
    } else {
        lemma_decimal_reads_back(n / 10);
        lemma_digit_char(n % 10);
        let t = decimal(n / 10);
        assert(decimal(n).drop_last() =~= t);
        assert(decimal(n).last() == digit_char(n % 10));
        assert(decimal_value(decimal(n)) == decimal_value(t) * 10 + digit_value(digit_char(n % 10)));
        assert(n == (n / 10) * 10 + n % 10);
        assert(decimal(n)[0] == t[0]);
        assert forall|i: int| 0 <= i < decimal(n).len() implies '0' <= #[trigger] decimal(n)[i] <= '9' by {
            if i < t.len() {
                assert(decimal(n)[i] == t[i]);
            }
        }
    }
}

/// Different numbers have different decimal texts, so the parts of a split
/// output get different file names.
pub proof fn lemma_part_names_differ(stem: Seq<char>, j: nat, k: nat)
    requires
        j != k,
    ensures
        stem + ("_"@ + decimal(j)) + ".xtch"@ != stem + ("_"@ + decimal(k)) + ".xtch"@,
{
    lemma_decimal_reads_back(j);
    lemma_decimal_reads_back(k);
    reveal_strlit("_");
    reveal_strlit(".xtch");
    let a = stem + ("_"@ + decimal(j)) + ".xtch"@;
    let b = stem + ("_"@ + decimal(k)) + ".xtch"@;
    if a == b {
        let dj = decimal(j);
        let dk = decimal(k);
        assert(a.len() == b.len());
        assert(dj.len() == dk.len());
        assert forall|i: int| 0 <= i < dj.len() implies dj[i] == dk[i] by {
            assert(a[stem.len() + 1 + i] == dj[i]);
            assert(b[stem.len() + 1 + i] == dk[i]);
        }
        assert(dj =~= dk);
    }
}

fn digit_str(d: usize) -> (s: &'static str)
    requires
        d < 10,
    ensures
        s@ == seq![digit_char(d as nat)],
{
    if d == 0 {
        proof {
            reveal_strlit("0");
        }
        "0"
    } else if d == 1 {
        proof {
            reveal_strlit("1");
        }
        "1"
    } else if d == 2 {
        proof {
            reveal_strlit("2");
        }
        "2"
    } else if d == 3 {
        proof {
            reveal_strlit("3");
        }
        "3"
    } else if d == 4 {
        proof {
            reveal_strlit("4");
        }
        "4"
    } else if d == 5 {
        proof {
            reveal_strlit("5");
        }
        "5"
    } else if d == 6 {
        proof {
            reveal_strlit("6");
        }
        "6"
    } else if d == 7 {
        proof {
            reveal_strlit("7");
        }
        "7"
    } else if d == 8 {
        proof {
            reveal_strlit("8");
        }
        "8"
    } else {
        proof {
            reveal_strlit("9");
        }
        "9"
    }
}

/// Appends the decimal text of `n`.
fn push_decimal(out: &mut String, n: usize)
    ensures
        final(out)@ == old(out)@ + decimal(n as nat),
    decreases n,
{
    if n >= 10 {
        push_decimal(out, n / 10);
    }
    out.append(digit_str(n % 10));
}

/// The name of an output file: `{stem}.xtch` for a single file, `{stem}_{k}.xtch`
/// for part `k` (counted from 1) of a split output.
pub fn part_file_name(stem: &str, part: Option<usize>) -> (name: String)
    ensures
        name@ == stem@ + (match part {
            Some(k) => "_"@ + decimal(k as nat),
            None => Seq::<char>::empty(),
        }) + ".xtch"@,
{
    let mut name = stem.to_owned();
    match part {
        Some(k) => {
            name.append("_");
            push_decimal(&mut name, k);
        },
        None => {},
    }
    name.append(".xtch");
    proof {
        assert(name@ =~= stem@ + (match part {
            Some(k) => "_"@ + decimal(k as nat),
            None => Seq::<char>::empty(),
        }) + ".xtch"@);
    }
    name
}

} // verus!
